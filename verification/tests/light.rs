use cpu_path_tracing::light::{
    choose_alias_table, gird_cell, gird_count, gird_extent, gird_flat_index, gird_idx_from_pixel,
    AreaLight, EmissionSide, ShapeInstanceId, UniformInfiniteLight, GIRD_SIZE,
};
use cpu_path_tracing::light_sampler::MisCompensation;

#[test]
fn area_light_sides() {
    let radiance = 2.0f32;
    let one = AreaLight::new(ShapeInstanceId(3), &radiance, false);
    let two = AreaLight::new(ShapeInstanceId(4), &radiance, true);
    assert_eq!(one.shape_instance_id(), ShapeInstanceId(3));
    assert_eq!(*two.radiance(), 2.0);
    assert!(one.emits_towards(EmissionSide::Front));
    assert!(!one.emits_towards(EmissionSide::Back));
    assert!(!one.emits_towards(EmissionSide::Edge));
    assert!(two.emits_towards(EmissionSide::Back));
    assert!(!two.emits_towards(EmissionSide::Edge));
    assert_eq!(one.side_count(), 1);
    assert_eq!(two.side_count(), 2);
    assert!(two.double_side());
}

#[test]
fn uniform_infinite_light_compensation() {
    let radiance = 1u8;
    let light = UniformInfiniteLight::new(&radiance);
    assert!(light.skip_mis_compensation());
    assert!(light.is_sampled(MisCompensation::Disabled));
    assert!(!light.is_sampled(MisCompensation::Enabled));
    assert_eq!(*light.radiance(), 1);
}

#[test]
fn gird_layout_of_image() {
    assert_eq!(GIRD_SIZE, 50);
    assert_eq!(gird_count(4096, 2048), (82, 41));
    assert_eq!(gird_count(100, 49), (3, 1));
    // last column of a 4096 wide image: 4096 - 81 * 50 = 46 pixels
    assert_eq!(gird_extent(4096, 81), 46);
    assert_eq!(gird_extent(4096, 0), 50);
    // an extra, empty cell when the side is a multiple of the cell size
    assert_eq!(gird_extent(100, 2), 0);
    assert_eq!(gird_idx_from_pixel(4095, 0), (81, 0));
    assert_eq!(gird_idx_from_pixel(4096, 2048), (81, 40));
    assert_eq!(gird_flat_index(82, 41, 81, 40), 40 * 82 + 81);
    assert_eq!(gird_cell(82, 40 * 82 + 81), (81, 40));
}

#[test]
fn gird_round_trip_every_pixel() {
    let (width, height) = (173usize, 120usize);
    let (cx, cy) = gird_count(width, height);
    for y in 0..=height {
        for x in 0..=width {
            let (gx, gy) = gird_idx_from_pixel(x, y);
            let i = gird_flat_index(cx, cy, gx, gy);
            assert_eq!(gird_cell(cx, i), (gx, gy));
            if x < width {
                assert!(gx * GIRD_SIZE <= x && x < gx * GIRD_SIZE + gird_extent(width, gx));
            }
            if y < height {
                assert!(gy * GIRD_SIZE <= y && y < gy * GIRD_SIZE + gird_extent(height, gy));
            }
        }
    }
}

#[test]
fn alias_table_choice() {
    let plain = "plain";
    let compensated = "compensated";
    assert_eq!(*choose_alias_table(true, MisCompensation::Enabled, &plain, &compensated), "plain");
    assert_eq!(*choose_alias_table(true, MisCompensation::Disabled, &plain, &compensated), "plain");
    assert_eq!(*choose_alias_table(false, MisCompensation::Disabled, &plain, &compensated), "plain");
    assert_eq!(
        *choose_alias_table(false, MisCompensation::Enabled, &plain, &compensated),
        "compensated"
    );
}
