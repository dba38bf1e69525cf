use mandelbrot::cpu::{
    lane_intensity, pixel_intensity, render_simd_row, simd_width, SequentialRenderer,
    MAX_ITERATIONS, SIMD_LANES,
};
use mandelbrot::size::Size;

#[test]
fn pixel_intensity_is_iteration_count_or_black() {
    assert_eq!(pixel_intensity(None), 0);
    assert_eq!(pixel_intensity(Some(0)), 0);
    assert_eq!(pixel_intensity(Some(5)), 5);
    assert_eq!(pixel_intensity(Some(254)), 254);
}

#[test]
fn pixel_intensity_truncates_to_a_byte() {
    assert_eq!(pixel_intensity(Some(300)), 44);
    assert_eq!(pixel_intensity(Some(256)), 0);
}

#[test]
fn lane_intensity_treats_budget_as_inside() {
    assert_eq!(MAX_ITERATIONS, 255);
    assert_eq!(lane_intensity(0), 0);
    assert_eq!(lane_intensity(17), 17);
    assert_eq!(lane_intensity(254), 254);
    assert_eq!(lane_intensity(255), 0);
    assert_eq!(lane_intensity(1000), 0);
}

#[test]
fn lane_and_scalar_intensities_agree() {
    for escape in 0..MAX_ITERATIONS {
        assert_eq!(lane_intensity(escape), pixel_intensity(Some(escape)));
    }
    assert_eq!(lane_intensity(MAX_ITERATIONS), pixel_intensity(None));
}

#[test]
fn sequential_render_fills_row_major_pixels() {
    let size = Size::new(3, 2);
    let image = SequentialRenderer.render_pixels(size, |x, y| {
        if x == y {
            None
        } else {
            Some((x + 10 * y) as u32)
        }
    });
    assert_eq!(image.size(), size);
    assert_eq!(image.pixels(), &[0, 1, 2, 10, 0, 12]);
}

#[test]
fn sequential_render_of_empty_image_has_no_pixels() {
    let image = SequentialRenderer.render_pixels(Size::new(0, 5), |_, _| Some(1));
    assert!(image.pixels().is_empty());
    let image = SequentialRenderer.render_pixels(Size::new(4, 0), |_, _| Some(1));
    assert!(image.pixels().is_empty());
}

#[test]
fn sequential_render_truncates_large_counts() {
    let image = SequentialRenderer.render_pixels(Size::new(2, 1), |x, _| Some(256 + x as u32));
    assert_eq!(image.pixels(), &[0, 1]);
}

#[test]
fn simd_width_is_whole_batches() {
    assert_eq!(SIMD_LANES, 8);
    assert_eq!(simd_width(0), 0);
    assert_eq!(simd_width(7), 0);
    assert_eq!(simd_width(8), 8);
    assert_eq!(simd_width(19), 16);
    assert_eq!(simd_width(24), 24);
}

#[test]
fn simd_row_uses_batches_then_single_pixels() {
    let mut row = vec![99u8; 19];
    render_simd_row(
        &mut row,
        |first_x| {
            let mut lanes = [0u8; 8];
            for (lane, value) in lanes.iter_mut().enumerate() {
                *value = (first_x + lane) as u8 + 100;
            }
            lanes
        },
        |x| Some(x as u32),
    );
    let mut expected: Vec<u8> = (0..16).map(|x| x as u8 + 100).collect();
    expected.extend([16, 17, 18]);
    assert_eq!(row, expected);
}

#[test]
fn simd_row_shorter_than_a_batch() {
    let mut row = vec![0u8; 5];
    render_simd_row(&mut row, |_| [200; 8], |x| if x == 2 { None } else { Some(x as u32 + 1) });
    assert_eq!(row, vec![1, 2, 0, 4, 5]);
}

#[test]
fn simd_row_of_whole_batches() {
    let mut row = vec![0u8; 16];
    render_simd_row(&mut row, |first_x| [first_x as u8; 8], |_| Some(77));
    assert_eq!(&row[..8], &[0; 8]);
    assert_eq!(&row[8..], &[8; 8]);
}
