use cpu_path_tracing::camera::{
    film_source_index, movement_directions, on_key_released, pack_rgb8, Direction, Film,
    MovementKeys, PreviewAction, PreviewKey,
};

#[test]
fn film_resolution_and_clear() {
    let mut film: Film<u32> = Film::new(4, 3);
    assert_eq!((film.width(), film.height()), (4, 3));
    assert_eq!(film.pixels().len(), 12);
    film.as_slice_mut()[5] = 9;
    assert_eq!(film.pixels()[5], 9);
    film.clear();
    assert!(film.pixels().iter().all(|&p| p == 0));
    assert_eq!(film.pixels().len(), 12);
    film.as_slice_mut()[0] = 4;
    film.set_resolution(2, 5);
    assert_eq!((film.width(), film.height()), (2, 5));
    assert_eq!(film.pixels(), &[0u32; 10]);
}

#[test]
fn film_source_index_scales_down_and_up() {
    // a 1920 x 1080 film shown in a 384 x 216 window
    assert_eq!(film_source_index(1920, 1080, 384, 216, 0, 0), 0);
    assert_eq!(film_source_index(1920, 1080, 384, 216, 1, 0), 5);
    assert_eq!(film_source_index(1920, 1080, 384, 216, 383, 215), 1075 * 1920 + 1915);
    // a 2 x 2 film shown in a 5 x 3 window
    assert_eq!(film_source_index(2, 2, 5, 3, 4, 2), 1 * 2 + 1);
    assert_eq!(film_source_index(2, 2, 5, 3, 2, 1), 0 * 2 + 0);
    for y in 0..7 {
        for x in 0..9 {
            assert!(film_source_index(4, 3, 9, 7, x, y) < 12);
        }
    }
}

#[test]
fn pack_rgb8_layout() {
    assert_eq!(pack_rgb8(0, 0, 0), 0);
    assert_eq!(pack_rgb8(255, 0, 0), 0x00ff_0000);
    assert_eq!(pack_rgb8(0x12, 0x34, 0x56), 0x0012_3456);
    assert_eq!(pack_rgb8(255, 255, 255), 0x00ff_ffff);
}

#[test]
fn movement_keys_to_directions() {
    let none = MovementKeys { forward: false, backward: false, left: false, right: false, up: false, down: false };
    assert!(movement_directions(none).is_empty());
    let some = MovementKeys { forward: true, backward: false, left: true, right: false, up: false, down: true };
    assert_eq!(movement_directions(some), vec![Direction::Forward, Direction::Left, Direction::Down]);
    let all = MovementKeys { forward: true, backward: true, left: true, right: true, up: true, down: true };
    assert_eq!(
        movement_directions(all),
        vec![
            Direction::Forward,
            Direction::Backward,
            Direction::Left,
            Direction::Right,
            Direction::Up,
            Direction::Down
        ]
    );
}

#[test]
fn preview_key_actions() {
    assert_eq!(on_key_released(PreviewKey::Escape), PreviewAction::Exit);
    assert_eq!(on_key_released(PreviewKey::Enter), PreviewAction::ExitAndRender);
    assert_eq!(on_key_released(PreviewKey::Tab), PreviewAction::NextRenderMode);
    assert_eq!(on_key_released(PreviewKey::Equal), PreviewAction::IncreaseFps);
    assert_eq!(on_key_released(PreviewKey::Minus), PreviewAction::DecreaseFps);
    assert_eq!(on_key_released(PreviewKey::CapsLock), PreviewAction::ToggleGrab);
    assert_eq!(on_key_released(PreviewKey::Other), PreviewAction::Nothing);
}
