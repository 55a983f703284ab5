use cpu_path_tracing::image::Image;

fn sample_image() -> Image<u32> {
    // 3 wide, 2 high, pixel value = 10 * y + x
    Image::new(3, 2, vec![0, 1, 2, 10, 11, 12])
}

#[test]
fn image_dimensions() {
    let image = sample_image();
    assert_eq!(image.width(), 3);
    assert_eq!(image.height(), 2);
    assert_eq!(image.resolution(), (3, 2));
}

#[test]
fn image_get_pixel_inside_and_outside() {
    let image = sample_image();
    assert_eq!(image.get_pixel(0, 0), Some(&0));
    assert_eq!(image.get_pixel(2, 1), Some(&12));
    assert_eq!(image.get_pixel(1, 1), Some(&11));
    // row-major position 2 * 3 + 0 = 6 lies past the buffer
    assert_eq!(image.get_pixel(0, 2), None);
    // x past the width wraps into the next row, as the row-major position says
    assert_eq!(image.get_pixel(3, 0), Some(&10));
}

#[test]
fn image_get_pixel_wrapped_clamps() {
    let image = sample_image();
    assert_eq!(*image.get_pixel_wrapped(-5, -1), 0);
    assert_eq!(*image.get_pixel_wrapped(7, 0), 2);
    assert_eq!(*image.get_pixel_wrapped(1, 9), 11);
    assert_eq!(*image.get_pixel_wrapped(i32::MAX, i32::MIN), 2);
    assert_eq!(*image.get_pixel_wrapped(1, 1), 11);
}

#[test]
fn image_get_pixel_clamped_moves_onto_edge() {
    let image = sample_image();
    assert_eq!(*image.get_pixel_clamped(0, 0), 0);
    assert_eq!(*image.get_pixel_clamped(100, 0), 2);
    assert_eq!(*image.get_pixel_clamped(1, 100), 11);
    assert_eq!(*image.get_pixel_clamped(usize::MAX, usize::MAX), 12);
}

#[test]
fn image_slice_access() {
    let mut image = sample_image();
    assert_eq!(image.pixels(), &[0, 1, 2, 10, 11, 12]);
    image.as_slice_mut()[4] = 99;
    assert_eq!(image.get_pixel(1, 1), Some(&99));
    assert_eq!(image.width(), 3);
}
