use qualetize_gui::formats::BGRA8;
use qualetize_gui::tile_reduce::{
    blur_tile_colors_into, expand_indices_to_colors_into, orient_tile_to_rep, squared_diff, tile_error_fast,
    tile_error_with_map, write_rep_row, Orientation,
};

#[test]
fn indices_resolve_to_colors_and_past_the_palette_to_zero() {
    let palette = [BGRA8 { b: 3, g: 2, r: 1, a: 4 }];
    let mut out = [[9u8; 4]; 3];
    expand_indices_to_colors_into(&[0, 5], &palette, &mut out);
    assert_eq!(out, [[1, 2, 3, 4], [0, 0, 0, 0], [9, 9, 9, 9]]);
}

#[test]
fn squared_diff_sums_all_four_channels() {
    assert_eq!(squared_diff(&[10, 0, 0, 255], &[20, 0, 3, 250]), 100 + 9 + 25);
    assert_eq!(squared_diff(&[0, 0, 0, 0], &[255, 255, 255, 255]), 4 * 65025);
}

#[test]
fn the_blur_averages_the_window_clamped_at_the_edges() {
    // 3x1 tile: the middle pixel averages all three, the ends two each.
    let src = [[0, 0, 0, 0], [30, 3, 6, 9], [60, 0, 0, 0]];
    let mut dst = [[0u8; 4]; 3];
    blur_tile_colors_into(&src, &mut dst, 3, 1);
    assert_eq!(dst, [[15, 1, 3, 4], [30, 1, 2, 3], [45, 1, 3, 4]]);
}

#[test]
fn the_blur_of_a_uniform_tile_is_the_tile() {
    let src = [[7, 8, 9, 10]; 6];
    let mut dst = [[0u8; 4]; 6];
    blur_tile_colors_into(&src, &mut dst, 3, 2);
    assert_eq!(dst, src);
}

#[test]
fn mse_helpers_agree_and_flipped_maps_line_up() {
    let maps = Orientation::maps(2, 2, true, true);
    assert_eq!(maps.len(), 4);
    let rep = vec![[10, 0, 0, 255], [20, 0, 0, 255], [30, 0, 0, 255], [40, 0, 0, 255]];
    // rep flipped horizontally
    let tile = vec![[20, 0, 0, 255], [10, 0, 0, 255], [40, 0, 0, 255], [30, 0, 0, 255]];

    let errors: Vec<Option<u64>> = maps.iter().map(|m| tile_error_with_map(&rep, &tile, &m.map)).collect();
    assert_eq!(maps[1].orientation, Orientation::FlipX);
    assert_eq!(errors[1], Some(0));
    // Identity orientation: every pixel differs by 10 in one channel.
    assert_eq!(errors[0], Some(400));

    let oriented: Vec<Vec<[u8; 4]>> = maps.iter().map(|m| orient_tile_to_rep(&tile, &m.map)).collect();
    assert_eq!(tile_error_fast(&rep, &oriented[1], u64::MAX), Some(0));
    assert_eq!(tile_error_fast(&rep, &tile, u64::MAX), Some(400));
    // Giving up once the error passes the bound.
    assert_eq!(tile_error_fast(&rep, &tile, 399), None);
    assert_eq!(tile_error_fast(&rep, &tile, 400), Some(400));
}

#[test]
fn mismatched_tiles_have_no_error() {
    let rep = vec![[0u8; 4]; 2];
    assert_eq!(tile_error_with_map(&rep, &[[0u8; 4]; 3], &[0, 1]), None);
    assert_eq!(tile_error_with_map(&[], &[], &[]), None);
    assert_eq!(tile_error_fast(&rep, &[[0u8; 4]; 1], u64::MAX), None);
}

#[test]
fn the_allowed_orientations_follow_the_flip_settings() {
    assert_eq!(Orientation::available(false, false), vec![Orientation::Identity]);
    assert_eq!(Orientation::available(true, false), vec![Orientation::Identity, Orientation::FlipX]);
    assert_eq!(
        Orientation::available(true, true),
        vec![Orientation::Identity, Orientation::FlipX, Orientation::FlipY, Orientation::FlipXY]
    );
}

#[test]
fn a_flip_map_read_twice_is_the_identity() {
    let maps = Orientation::maps(3, 2, true, true);
    for m in &maps {
        for i in 0..6 {
            assert_eq!(m.map[m.map[i]], i);
        }
    }
}

#[test]
fn a_representative_row_is_written_through_its_map() {
    let mut row = [0u8; 3];
    write_rep_row(&mut row, &[5, 6, 7], &[2, 1, 0]);
    assert_eq!(row, [7, 6, 5]);
}
