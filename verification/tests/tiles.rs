use qualetize_gui::formats::{TileCountOptions, BGRA8};
use qualetize_gui::indexed::ImageDataIndexed;
use qualetize_gui::tiles::{count_unique_tiles, read_tile, write_rep_tile};

fn bgra(r: u8, g: u8, b: u8, a: u8) -> BGRA8 {
    BGRA8 { b, g, r, a }
}

fn opts(visible_only: bool, flip_x: bool, flip_y: bool) -> TileCountOptions {
    TileCountOptions { visible_only, allow_flip_x: flip_x, allow_flip_y: flip_y }
}

/// 4x2 image, 2x2 tiles: the right tile is the horizontal mirror of the left one.
fn mirrored_pair() -> ImageDataIndexed {
    let palettes = (0..5).map(|i| bgra(i * 10, i * 10, i * 10, 255)).collect();
    let pixels = vec![
        1, 2, 2, 1, //
        3, 4, 4, 3,
    ];
    ImageDataIndexed::new(palettes, 5, pixels)
}

#[test]
fn count_unique_tiles_collapses_mirrored_tiles() {
    let image = mirrored_pair();
    assert_eq!(count_unique_tiles(&image, 4, 2, 2, 2, opts(false, true, false)), Some(1));
    assert_eq!(count_unique_tiles(&image, 4, 2, 2, 2, opts(false, false, false)), Some(2));
}

#[test]
fn count_unique_tiles_can_skip_fully_transparent_tiles() {
    let mut palettes: Vec<BGRA8> = (0..5).map(|i| bgra(i * 10, i * 10, i * 10, 255)).collect();
    palettes[0] = bgra(0, 0, 0, 0);
    let pixels = vec![
        1, 2, 0, 0, //
        3, 4, 0, 0,
    ];
    let image = ImageDataIndexed::new(palettes, 5, pixels);
    assert_eq!(count_unique_tiles(&image, 4, 2, 2, 2, opts(true, false, false)), Some(1));
    assert_eq!(count_unique_tiles(&image, 4, 2, 2, 2, opts(false, false, false)), Some(2));
}

#[test]
fn count_unique_tiles_rejects_indivisible_dimensions() {
    let image = mirrored_pair();
    assert_eq!(count_unique_tiles(&image, 4, 2, 3, 2, opts(false, false, false)), None);
    assert_eq!(count_unique_tiles(&image, 4, 2, 0, 2, opts(false, false, false)), None);
}

#[test]
fn a_vertical_mirror_only_collapses_with_the_vertical_flip() {
    // 2x4 image, 2x2 tiles: the bottom tile is the top one upside down.
    let palettes = (0..5).map(|i| bgra(i * 10, i * 10, i * 10, 255)).collect();
    let image = ImageDataIndexed::new(palettes, 5, vec![1, 2, 3, 4, 3, 4, 1, 2]);
    assert_eq!(count_unique_tiles(&image, 2, 4, 2, 2, opts(false, true, false)), Some(2));
    assert_eq!(count_unique_tiles(&image, 2, 4, 2, 2, opts(false, false, true)), Some(1));
}

#[test]
fn identical_tiles_count_once() {
    let palettes = vec![bgra(1, 1, 1, 255); 3];
    let image = ImageDataIndexed::new(palettes, 3, vec![0, 1, 0, 1, 0, 1, 2, 2, 2, 2, 2, 2]);
    // 6x2 image of 2x1 tiles: [0,1] three times, [2,2] three times.
    assert_eq!(count_unique_tiles(&image, 6, 2, 2, 1, opts(false, false, false)), Some(2));
}

#[test]
fn reading_a_tile_takes_its_rows_in_order() {
    let pixels: Vec<u8> = (0..16).collect();
    // 4x4 image, 2x2 tiles: tile (1, 1) holds 10, 11 / 14, 15.
    assert_eq!(read_tile(&pixels, 4, 1, 1, 2, 2), vec![10, 11, 14, 15]);
    assert_eq!(read_tile(&pixels, 4, 0, 1, 2, 2), vec![8, 9, 12, 13]);
}

#[test]
fn writing_a_representative_touches_only_its_tile() {
    let mut pixels: Vec<u8> = vec![0; 16];
    // The representative written through a horizontal flip map.
    write_rep_tile(&mut pixels, 4, 1, 0, 2, 2, &[1, 2, 3, 4], &[1, 0, 3, 2]);
    assert_eq!(pixels, vec![0, 0, 2, 1, 0, 0, 4, 3, 0, 0, 0, 0, 0, 0, 0, 0]);
}

#[test]
fn reading_a_written_tile_gives_the_representative_through_the_map() {
    // A 4x2 buffer of 2x2 tiles; tile (1, 0) is overwritten from a
    // representative through a map that swaps its rows.
    let mut indexed = vec![1u8, 2, 3, 4, 5, 6, 7, 8];
    let rep = [10u8, 11, 12, 13];
    let map = [2usize, 3, 0, 1];
    write_rep_tile(&mut indexed, 4, 1, 0, 2, 2, &rep, &map);
    assert_eq!(read_tile(&indexed, 4, 1, 0, 2, 2), vec![12, 13, 10, 11]);
    assert_eq!(read_tile(&indexed, 4, 0, 0, 2, 2), vec![1, 2, 5, 6], "the other tile is left alone");
}
