use cpu_path_tracing::camera::{MovementKeys, PreviewKey};
use cpu_path_tracing::integrator::{
    pixel_sample_seed, preview_step, PathTracingIntegrator, PreviewCommand, PreviewEvent,
    PreviewState, RenderMode, SimplePathTracingIntegrator, SppSchedule, MAX_BATCH_SPP,
};
use cpu_path_tracing::light_sampler::{LightSampler, LightSelector, MisCompensation};

fn batches(spp: usize) -> Vec<usize> {
    let mut schedule = SppSchedule::new(spp);
    let mut out = Vec::new();
    while let Some(b) = schedule.next_batch() {
        out.push(b);
        assert_eq!(schedule.current_spp, out.iter().sum::<usize>());
    }
    assert_eq!(schedule.next_batch(), None);
    out
}

#[test]
fn spp_schedule_doubles_then_caps() {
    assert_eq!(batches(64), vec![1, 1, 2, 4, 8, 16, 32]);
    assert_eq!(batches(100), vec![1, 1, 2, 4, 8, 16, 32, 32, 4]);
    assert_eq!(batches(1), vec![1]);
    assert_eq!(batches(0), Vec::<usize>::new());
    assert_eq!(batches(5), vec![1, 1, 2, 1]);
}

#[test]
fn spp_schedule_sums_to_spp() {
    for spp in 0..500usize {
        let b = batches(spp);
        assert_eq!(b.iter().sum::<usize>(), spp);
        assert!(b.iter().all(|&x| 1 <= x && x <= MAX_BATCH_SPP));
    }
}

#[test]
fn render_mode_cycle() {
    let mut mode = RenderMode::Integrator;
    let mut seen = Vec::new();
    for _ in 0..4 {
        seen.push(mode);
        mode = mode.next_render_mode(true);
    }
    assert!(mode == RenderMode::Integrator);
    assert!(seen[1] == RenderMode::Normal);
    assert!(seen[2] == RenderMode::BoundsTest);
    assert!(seen[3] == RenderMode::PrimitiveTest);
    // a release build has no test views: Tab toggles between the two remaining modes
    assert!(RenderMode::Integrator.next_render_mode(false) == RenderMode::Normal);
    assert!(RenderMode::Normal.next_render_mode(false) == RenderMode::Integrator);
    assert_eq!(RenderMode::Integrator.spp_per_frame(), 4);
    assert_eq!(RenderMode::Normal.spp_per_frame(), 1);
    assert_eq!(RenderMode::BoundsTest.spp_per_frame(), 1);
    assert_eq!(RenderMode::PrimitiveTest.spp_per_frame(), 1);
}

#[test]
fn pixel_sample_seed_formula() {
    assert_eq!(pixel_sample_seed(0, 0, 0), 0);
    assert_eq!(pixel_sample_seed(0, 0, 1), 1);
    assert_eq!(pixel_sample_seed(3, 4, 5), 100);
    assert_eq!(pixel_sample_seed(1919, 1079, 64), 1920 * 1080 * 64);
}

struct NoSelection;

impl LightSelector<u8> for NoSelection {
    fn new(_scene: &u8, _mis_compensation: MisCompensation) -> Self {
        NoSelection
    }
}

#[test]
fn integrators_keep_their_light_sampler() {
    let scene = 7u8;
    let sampler = LightSampler::<u8, NoSelection>::new(&scene, MisCompensation::Disabled);
    let simple = SimplePathTracingIntegrator::new(&sampler);
    let full = PathTracingIntegrator::new(&sampler);
    assert!(std::ptr::eq(simple.light_sampler(), &sampler));
    assert!(std::ptr::eq(full.light_sampler(), &sampler));
    let compensated = LightSampler::<u8, NoSelection>::new(&scene, MisCompensation::Enabled);
    let full2 = PathTracingIntegrator::new(&compensated);
    assert!(full2.light_sampler().mis_compensation() == MisCompensation::Enabled);
}

fn preview_start() -> PreviewState {
    PreviewState {
        render_mode: RenderMode::Integrator,
        current_spp: 0,
        grabbed: false,
        enter_pressed: false,
        test_views: true,
    }
}

#[test]
fn preview_step_keys() {
    let s = preview_start();
    let (s, c) = preview_step(s, PreviewEvent::FrameRendered);
    assert_eq!((s.current_spp, c), (4, PreviewCommand::Nothing));
    let (s, c) = preview_step(s, PreviewEvent::KeyReleased(PreviewKey::Tab));
    assert!(s.render_mode == RenderMode::Normal);
    assert_eq!((s.current_spp, c), (0, PreviewCommand::Nothing));
    let (s, _) = preview_step(s, PreviewEvent::FrameRendered);
    assert_eq!(s.current_spp, 1);
    let (s, c) = preview_step(s, PreviewEvent::KeyReleased(PreviewKey::Equal));
    assert_eq!((s.current_spp, c), (1, PreviewCommand::IncreaseFps));
    let (s, c) = preview_step(s, PreviewEvent::KeyReleased(PreviewKey::Enter));
    assert!(s.enter_pressed);
    assert_eq!(c, PreviewCommand::Exit);
    let release = PreviewState { test_views: false, render_mode: RenderMode::Normal, ..preview_start() };
    let (r, _) = preview_step(release, PreviewEvent::KeyReleased(PreviewKey::Tab));
    assert!(r.render_mode == RenderMode::Integrator);
    let (_, c) = preview_step(preview_start(), PreviewEvent::FocusLost);
    assert_eq!(c, PreviewCommand::ReleaseAllKeys);
    let (s, c) = preview_step(preview_start(), PreviewEvent::KeyReleased(PreviewKey::Escape));
    assert!(!s.enter_pressed);
    assert_eq!(c, PreviewCommand::Exit);
}

#[test]
fn preview_step_camera_moves_only_when_grabbed() {
    let keys = MovementKeys {
        forward: true,
        backward: false,
        left: false,
        right: false,
        up: false,
        down: false,
    };
    let s = PreviewState { current_spp: 8, ..preview_start() };
    assert_eq!(preview_step(s, PreviewEvent::MouseWheel).1, PreviewCommand::Nothing);
    assert_eq!(preview_step(s, PreviewEvent::FrameStart(keys)).0.current_spp, 8);
    let (s, c) = preview_step(s, PreviewEvent::KeyReleased(PreviewKey::CapsLock));
    assert!(s.grabbed);
    assert_eq!(c, PreviewCommand::SetGrab(true));
    let (m, c) = preview_step(s, PreviewEvent::FrameStart(keys));
    assert_eq!((m.current_spp, c), (0, PreviewCommand::Move));
    let (m, c) = preview_step(s, PreviewEvent::MouseMotion { still: true });
    assert_eq!((m.current_spp, c), (8, PreviewCommand::Nothing));
    let (m, c) = preview_step(s, PreviewEvent::MouseMotion { still: false });
    assert_eq!((m.current_spp, c), (0, PreviewCommand::Turn));
    let (m, c) = preview_step(s, PreviewEvent::MouseWheel);
    assert_eq!((m.current_spp, c), (0, PreviewCommand::Zoom));
}
