use mandelbrot::gpu::{
    buffer_size_limit, copy_tile_pixels, dispatch_size, image_dimensions, plan_gpu_render,
    plan_tiles, tile_height, tile_output_size, workgroup_count, Tile, BYTES_PER_PIXEL,
    TARGET_TILE_BYTES,
};
use mandelbrot::size::Size;

#[test]
fn image_dimensions_fit_u32() {
    assert_eq!(image_dimensions(Size::new(640, 480)), Some((640, 480)));
    assert_eq!(image_dimensions(Size::new(0, 0)), Some((0, 0)));
    assert_eq!(
        image_dimensions(Size::new(u32::MAX as usize, 1)),
        Some((u32::MAX, 1))
    );
}

#[test]
fn image_dimensions_refuse_too_large_sides() {
    if usize::BITS > 32 {
        let too_large = u32::MAX as usize + 1;
        assert_eq!(image_dimensions(Size::new(too_large, 1)), None);
        assert_eq!(image_dimensions(Size::new(1, too_large)), None);
    }
}

#[test]
fn buffer_size_limit_is_the_smaller_limit() {
    assert_eq!(buffer_size_limit(1 << 30, 1 << 27), 1 << 27);
    assert_eq!(buffer_size_limit(1000, u32::MAX), 1000);
}

#[test]
fn tile_height_fills_the_budget() {
    assert_eq!(TARGET_TILE_BYTES, 64 * 1024 * 1024);
    assert_eq!(BYTES_PER_PIXEL, 4);
    // the whole image fits in one tile
    assert_eq!(tile_height(1000, 1000, u64::MAX), 1000);
    // 64 MiB / 400_000 bytes per row
    assert_eq!(tile_height(100_000, 100_000, u64::MAX), 167);
    // a smaller device limit wins over the target
    assert_eq!(tile_height(1000, 1000, 40_000), 10);
}

#[test]
fn tile_height_is_at_least_one_row() {
    assert_eq!(tile_height(20_000_000, 10, 1000), 1);
    assert_eq!(tile_height(5, 10, 0), 1);
}

#[test]
fn plan_tiles_cuts_bands_top_to_bottom() {
    let tiles = plan_tiles(10, 7, 3);
    assert_eq!(
        tiles,
        vec![
            Tile { y: 0, height: 3, start: 0, end: 30 },
            Tile { y: 3, height: 3, start: 30, end: 60 },
            Tile { y: 6, height: 1, start: 60, end: 70 },
        ]
    );
}

#[test]
fn plan_tiles_partitions_every_pixel() {
    for (width, height, rows) in [(4u32, 9u32, 2u32), (3, 9, 3), (1, 1, 5), (6, 13, 1)] {
        let tiles = plan_tiles(width, height, rows);
        assert_eq!(tiles[0].start, 0);
        for pair in tiles.windows(2) {
            assert_eq!(pair[0].end, pair[1].start);
            assert_eq!(pair[0].y + pair[0].height, pair[1].y);
        }
        let last = tiles[tiles.len() - 1];
        assert_eq!(last.end, (width * height) as usize);
        assert_eq!(last.y + last.height, height);
        for tile in &tiles {
            assert!(tile.height >= 1 && tile.height <= rows);
        }
        for row in 0..height {
            let tile = tiles[(row / rows) as usize];
            assert!(tile.y <= row && row < tile.y + tile.height);
        }
    }
}

#[test]
fn plan_tiles_of_no_rows_is_empty() {
    assert!(plan_tiles(10, 0, 3).is_empty());
}

#[test]
fn plan_gpu_render_of_empty_image_has_no_tiles() {
    let plan = plan_gpu_render(Size::new(0, 100), 1 << 20).unwrap();
    assert_eq!((plan.width, plan.height), (0, 100));
    assert!(plan.tiles.is_empty());
}

#[test]
fn plan_gpu_render_refuses_too_large_images() {
    if usize::BITS > 32 {
        assert!(plan_gpu_render(Size::new(u32::MAX as usize + 1, 0), 1 << 20).is_none());
    }
}

#[test]
fn plan_gpu_render_uses_tile_height() {
    let plan = plan_gpu_render(Size::new(100, 50), 4000).unwrap();
    assert_eq!(plan.tile_height, 10);
    assert_eq!(plan.tiles.len(), 5);
    assert_eq!(plan.tiles[4], Tile { y: 40, height: 10, start: 4000, end: 5000 });
    for tile in &plan.tiles {
        assert!(tile_output_size(tile.end - tile.start) <= 4000);
    }
}

#[test]
fn workgroup_count_rounds_up() {
    assert_eq!(workgroup_count(100, 16), 7);
    assert_eq!(workgroup_count(32, 16), 2);
    assert_eq!(workgroup_count(0, 16), 0);
    assert_eq!(workgroup_count(u32::MAX, 2), 1 << 31);
    assert_eq!(workgroup_count(5, 1), 5);
}

#[test]
fn dispatch_size_covers_the_tile() {
    assert_eq!(dispatch_size(1000, 37, 16, 16), (63, 3, 1));
}

#[test]
fn tile_output_size_is_four_bytes_per_pixel() {
    assert_eq!(tile_output_size(10), 40);
    assert_eq!(tile_output_size(0), 0);
}

#[test]
fn copy_tile_pixels_takes_the_low_byte_of_each_word() {
    let words: [u32; 3] = [5, 300, 0x0102_0304];
    let mapped: Vec<u8> = words.iter().flat_map(|w| w.to_ne_bytes()).collect();
    let mut pixels = vec![9u8; 3];
    copy_tile_pixels(&mut pixels, &mapped);
    assert_eq!(pixels, vec![5, 44, 4]);
}

#[test]
fn copy_tile_pixels_stops_at_the_shorter_side() {
    let mapped: Vec<u8> = [7u32].iter().flat_map(|w| w.to_ne_bytes()).collect();
    let mut pixels = vec![9u8; 3];
    copy_tile_pixels(&mut pixels, &mapped);
    assert_eq!(pixels, vec![7, 9, 9]);
}
