use cpu_path_tracing::light_sampler::{
    LightId, LightKind, LightSampler, LightSelector, MisCompensation, UniformLightSelector,
};

fn kinds() -> Vec<LightKind> {
    vec![
        LightKind::Area,
        LightKind::Infinite { skip_mis_compensation: true },
        LightKind::Area,
        LightKind::Infinite { skip_mis_compensation: false },
    ]
}

#[test]
fn uniform_selector_without_compensation_takes_all() {
    let s = UniformLightSelector::new(&kinds(), MisCompensation::Disabled);
    assert_eq!(s.light_count(), 4);
    for i in 0..4 {
        assert!(s.is_active(LightId(i)));
        assert_eq!(s.sample_light_source(i), Some(LightId(i)));
    }
    assert!(!s.is_active(LightId(4)));
}

#[test]
fn uniform_selector_with_compensation_skips_lights() {
    let s = UniformLightSelector::new(&kinds(), MisCompensation::Enabled);
    assert_eq!(s.light_count(), 3);
    assert!(s.is_active(LightId(0)));
    assert!(!s.is_active(LightId(1)));
    assert!(s.is_active(LightId(2)));
    assert!(s.is_active(LightId(3)));
    assert!(!s.is_active(LightId(100)));
    assert_eq!(s.sample_light_source(0), Some(LightId(0)));
    assert_eq!(s.sample_light_source(1), Some(LightId(2)));
    assert_eq!(s.sample_light_source(2), Some(LightId(3)));
}

#[test]
fn uniform_selector_without_lights() {
    let s = UniformLightSelector::new(&Vec::new(), MisCompensation::Disabled);
    assert_eq!(s.light_count(), 0);
    assert_eq!(s.sample_light_source(0), None);
    assert!(!s.is_active(LightId(0)));
    let only_skipped = vec![LightKind::Infinite { skip_mis_compensation: true }];
    let s = UniformLightSelector::new(&only_skipped, MisCompensation::Enabled);
    assert_eq!(s.light_count(), 0);
    assert_eq!(s.sample_light_source(5), None);
}

#[test]
fn uniform_selector_binary_search_many() {
    let lights: Vec<LightKind> = (0..100)
        .map(|i| if i % 3 == 0 { LightKind::Area } else { LightKind::Infinite { skip_mis_compensation: i % 2 == 0 } })
        .collect();
    let s = UniformLightSelector::new(&lights, MisCompensation::Enabled);
    for i in 0..120usize {
        let expected = i < 100 && (i % 3 == 0 || i % 2 == 1);
        assert_eq!(s.is_active(LightId(i)), expected, "light {i}");
    }
}

struct CountingSelector(usize);

impl LightSelector<Vec<LightKind>> for CountingSelector {
    fn new(scene: &Vec<LightKind>, _mis: MisCompensation) -> Self {
        CountingSelector(scene.len())
    }
}

#[test]
fn light_sampler_builds_selector_from_scene() {
    let scene = kinds();
    let sampler = LightSampler::<_, CountingSelector>::new(&scene, MisCompensation::Enabled);
    assert!(sampler.mis_compensation() == MisCompensation::Enabled);
    assert_eq!(sampler.light_selector().0, 4);
    assert_eq!(sampler.scene().len(), 4);
}

#[test]
fn uniform_selector_sampled_lights_are_active() {
    let s = UniformLightSelector::new(&kinds(), MisCompensation::Enabled);
    for index in 0..s.light_count() {
        let id = s.sample_light_source(index).unwrap();
        assert!(s.is_active(id));
    }
}

#[test]
fn light_sampler_with_uniform_selector() {
    let scene = kinds();
    let sampler =
        LightSampler::<_, UniformLightSelector>::new(&scene, MisCompensation::Enabled);
    let selector = sampler.light_selector();
    assert_eq!(selector.light_count(), 3);
    assert!(!selector.is_active(LightId(1)));
    assert_eq!(selector.sample_light_source(1), Some(LightId(2)));
}
