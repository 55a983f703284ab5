use cpu_path_tracing::bsdf::{DiffuseBsdf, GroundBsdf, SpecularBsdf};

#[test]
fn bsdf_constructors_keep_albedo() {
    let albedo = 0.5f32;
    let diffuse = DiffuseBsdf::new(&albedo);
    let ground = GroundBsdf::new(&albedo);
    let specular = SpecularBsdf::new(&albedo);
    assert_eq!(*diffuse.albedo(), 0.5);
    assert_eq!(*ground.albedo(), 0.5);
    assert_eq!(*specular.albedo(), 0.5);
}

#[test]
fn bsdf_delta_distributions() {
    let albedo = 1u8;
    assert!(!DiffuseBsdf::new(&albedo).is_delta_distribution());
    assert!(!GroundBsdf::new(&albedo).is_delta_distribution());
    assert!(SpecularBsdf::new(&albedo).is_delta_distribution());
}

#[test]
fn ground_grid_lines_every_eighth_cell() {
    assert!(GroundBsdf::<u8>::darkened(0, 3));
    assert!(GroundBsdf::<u8>::darkened(3, 16));
    assert!(GroundBsdf::<u8>::darkened(-8, 5));
    assert!(GroundBsdf::<u8>::darkened(5, -24));
    assert!(!GroundBsdf::<u8>::darkened(1, 7));
    assert!(!GroundBsdf::<u8>::darkened(-3, -9));
    assert!(!GroundBsdf::<u8>::darkened(9, 15));
}
