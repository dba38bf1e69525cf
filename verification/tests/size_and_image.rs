use mandelbrot::image::{scaled_intensity, Image, ESCAPE_ITERATIONS};
use mandelbrot::size::Size;

#[test]
fn size_new_keeps_dimensions() {
    let size = Size::new(640, 480);
    assert_eq!(size.width, 640);
    assert_eq!(size.height, 480);
    assert_eq!(size, Size { width: 640, height: 480 });
}

#[test]
fn area_is_width_times_height() {
    assert_eq!(Size::new(640, 480).area(), 307_200);
    assert_eq!(Size::new(20_000, 20_000).area(), 400_000_000);
    assert_eq!(Size::new(0, 480).area(), 0);
    assert_eq!(Size::new(640, 0).area(), 0);
}

#[test]
fn pixel_position_is_column_and_row() {
    let size = Size::new(3, 4);
    assert_eq!(size.pixel_position(0), (0, 0));
    assert_eq!(size.pixel_position(2), (2, 0));
    assert_eq!(size.pixel_position(7), (1, 2));
    assert_eq!(size.pixel_position(11), (2, 3));
}

#[test]
fn pixel_position_round_trips_through_row_major_index() {
    let size = Size::new(7, 5);
    for index in 0..size.area() {
        let (x, y) = size.pixel_position(index);
        assert!(x < size.width && y < size.height);
        assert_eq!(y * size.width + x, index);
    }
}

#[test]
fn from_pixels_keeps_size_and_pixels() {
    let image = Image::from_pixels(Size::new(2, 2), vec![1, 2, 3, 4]);
    assert_eq!(image.size(), Size::new(2, 2));
    assert_eq!(image.pixels(), &[1, 2, 3, 4]);
}

#[test]
fn scaled_intensity_scales_escape_times() {
    assert_eq!(ESCAPE_ITERATIONS, 127);
    assert_eq!(scaled_intensity(None), 0);
    assert_eq!(scaled_intensity(Some(0)), 0);
    assert_eq!(scaled_intensity(Some(1)), 2);
    assert_eq!(scaled_intensity(Some(64)), 128);
    assert_eq!(scaled_intensity(Some(126)), 252);
    assert_eq!(scaled_intensity(Some(127)), 255);
}

#[test]
fn scaled_intensity_truncates_to_a_byte() {
    // 200 * 255 / 127 = 401, which wraps to 145
    assert_eq!(scaled_intensity(Some(200)), 145);
}

#[test]
fn scaled_intensity_never_darkens_with_later_escape() {
    let mut previous = 0;
    for i in 0..ESCAPE_ITERATIONS {
        let intensity = scaled_intensity(Some(i));
        assert!(intensity >= previous);
        assert!(intensity < 255);
        previous = intensity;
    }
}
