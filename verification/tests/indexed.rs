use qualetize_gui::formats::{SortOrder, BGRA8};
use qualetize_gui::indexed::{tile_fit_notice, extend_pixels, flip_tile, is_large_image, ramps_order_of, tile_fit_target, top_left_pixel, ImageDataIndexed};

#[test]
fn a_size_already_on_the_tile_grid_is_left_alone() {
    assert_eq!(tile_fit_target((96, 96), 8, 8), (96, 96));
    assert_eq!(tile_fit_target((64, 32), 16, 16), (64, 32));
}

#[test]
fn a_size_off_the_grid_grows_to_the_next_multiple() {
    assert_eq!(tile_fit_target((100, 100), 8, 8), (104, 104));
    assert_eq!(tile_fit_target((100, 100), 7, 7), (105, 105));
    assert_eq!(tile_fit_target((17, 3), 8, 8), (24, 8));
}

#[test]
fn each_axis_uses_its_own_tile_size() {
    assert_eq!(tile_fit_target((100, 100), 8, 16), (104, 112));
}

#[test]
fn an_image_smaller_than_a_tile_grows_to_one_tile() {
    assert_eq!(tile_fit_target((3, 5), 8, 8), (8, 8));
}

#[test]
fn extending_keeps_the_original_at_the_top_left() {
    let src = vec![255, 0, 0, 255, 0, 255, 0, 255];
    let fill = [1, 2, 3, 4];
    let out = extend_pixels(&src, 2, 1, 4, 3, fill);
    assert_eq!(out.len(), 4 * 3 * 4);
    assert_eq!(&out[0..4], &[255, 0, 0, 255]);
    assert_eq!(&out[4..8], &[0, 255, 0, 255]);
    assert_eq!(&out[8..12], &fill);
    assert_eq!(&out[12..16], &fill);
    assert!(out[16..].chunks(4).all(|px| px == fill));
}

#[test]
fn extending_to_the_same_size_is_a_copy() {
    let src = vec![9, 8, 7, 6, 5, 4, 3, 2];
    assert_eq!(extend_pixels(&src, 2, 1, 2, 1, [0; 4]), src);
}

#[test]
fn flipping_mirrors_rows_and_columns() {
    let tile = [1, 2, 3, 4, 5, 6];
    assert_eq!(flip_tile(&tile, 3, false, false), vec![1, 2, 3, 4, 5, 6]);
    assert_eq!(flip_tile(&tile, 3, true, false), vec![3, 2, 1, 6, 5, 4]);
    assert_eq!(flip_tile(&tile, 3, false, true), vec![4, 5, 6, 1, 2, 3]);
    assert_eq!(flip_tile(&tile, 3, true, true), vec![6, 5, 4, 3, 2, 1]);
}

fn bgra(r: u8, g: u8, b: u8, a: u8) -> BGRA8 {
    BGRA8 { b, g, r, a }
}

#[test]
fn indices_past_the_palette_resolve_to_opaque_black() {
    let image = ImageDataIndexed::new(vec![bgra(1, 2, 3, 4)], 1, vec![0, 5]);
    assert_eq!(image.to_rgba(), vec![1, 2, 3, 4, 0, 0, 0, 255]);
    assert_eq!(image.colors_per_palette(), 1);
}

#[test]
fn sorted_preserves_resolved_pixel_colors() {
    let palettes = vec![bgra(9, 0, 0, 255), bgra(1, 0, 0, 255), bgra(5, 0, 0, 255), bgra(0, 7, 0, 255), bgra(0, 3, 0, 255), bgra(0, 5, 0, 255)];
    let image = ImageDataIndexed::new(palettes, 3, vec![0, 1, 2, 3, 4, 5, 2, 1]);
    let sorted = image.reordered(&vec![vec![1, 2, 0], vec![1, 2, 0]]);
    assert_eq!(sorted.to_rgba(), image.to_rgba());
    assert_eq!(sorted.palettes[0], bgra(1, 0, 0, 255));
    assert_eq!(sorted.palettes[3], bgra(0, 3, 0, 255));
    assert_eq!(sorted.indexed_pixels, vec![2, 0, 1, 5, 3, 4, 1, 0]);
}

#[test]
fn a_pinned_first_color_stays_first_in_a_ramp_order() {
    assert_eq!(ramps_order_of(4, &vec![2, 0, 1], SortOrder::Ascending, true), vec![0, 3, 1, 2]);
    assert_eq!(ramps_order_of(4, &vec![2, 0, 1], SortOrder::Descending, true), vec![0, 2, 1, 3]);
    assert_eq!(ramps_order_of(3, &vec![2, 0, 1], SortOrder::Descending, false), vec![1, 0, 2]);
}

#[test]
fn large_images_and_the_top_left_pixel() {
    assert!(is_large_image(1024, 768));
    assert!(!is_large_image(1024, 767));
    assert_eq!(top_left_pixel(&[1, 2, 3, 4, 5]), [1, 2, 3, 4]);
    assert_eq!(top_left_pixel(&[1, 2]), [0, 0, 0, 0]);
}

#[test]
fn the_tile_fit_notice_names_both_sizes_and_the_tile() {
    assert_eq!(tile_fit_notice((100, 60), (104, 64), 8, 8), "⚠ Extended 100×60 → 104×64 to fit 8×8 tiles");
}
