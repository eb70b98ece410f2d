use qualetize_gui::engine::SourceImage;
use qualetize_gui::source_tiles::{extract_all_pixels, extract_tile, extract_tiles, Transparency};

/// A 4x2 image: two red pixels, one green, one blue, then four
/// half-transparent magenta ones.
fn image() -> SourceImage {
    let mut data = Vec::new();
    for rgba in [[255, 0, 0, 255], [255, 0, 0, 255], [0, 255, 0, 255], [0, 0, 255, 255]] {
        data.extend_from_slice(&rgba);
    }
    for _ in 0..4 {
        data.extend_from_slice(&[255, 0, 255, 128]);
    }
    SourceImage::new(data, 4, 2)
}

#[test]
fn a_tile_counts_repeated_colors_once() {
    let tile = extract_tile(&image(), 0, 0, 4, 1, Transparency::Opaque, 0);
    assert_eq!(tile.colors.len(), 3);
    assert_eq!(tile.counts, [2, 1, 1]);
    assert_eq!(tile.pixels.len(), 4);
    assert_eq!(tile.colors[0], (255, 0, 0));
}

#[test]
fn transparency_from_alpha_leaves_those_pixels_out() {
    let tiles = extract_tiles(&image(), 4, 1, Transparency::FromAlpha);
    assert_eq!(tiles.len(), 1, "the fully transparent row is dropped");
    assert_eq!(tiles[0].pixels.len(), 4);
    assert!(tiles[0].pixels.iter().all(|pixel| pixel.y == 0));
}

#[test]
fn transparency_from_color_matches_on_rgb_alone() {
    let magenta = Transparency::FromColor((255, 0, 255));
    let tiles = extract_tiles(&image(), 4, 1, magenta);
    assert_eq!(tiles.len(), 1);
    assert_eq!(tiles[0].pixels.len(), 4);
}

#[test]
fn an_opaque_image_keeps_every_pixel() {
    let tiles = extract_tiles(&image(), 4, 1, Transparency::Opaque);
    assert_eq!(tiles.len(), 2);
    assert_eq!(extract_all_pixels(&tiles).len(), 8);
}

#[test]
fn dropped_tiles_do_not_take_up_a_tile_id() {
    // The first row is transparent, so the second row's tile is tile 0.
    let mut data = vec![0u8; 4 * 4 * 2];
    for x in 0..4 {
        data[(4 + x) * 4 + 3] = 255;
    }
    let image = SourceImage::new(data, 4, 2);
    let tiles = extract_tiles(&image, 4, 1, Transparency::FromAlpha);
    assert_eq!(tiles.len(), 1);
    assert!(tiles[0].pixels.iter().all(|pixel| pixel.tile_id == 0));
    assert_eq!(extract_all_pixels(&tiles)[0].y, 1);
}

#[test]
fn a_tile_at_the_edge_is_clamped_to_the_image() {
    let tile = extract_tile(&image(), 2, 0, 8, 8, Transparency::Opaque, 0);
    assert_eq!(tile.pixels.len(), 4);
    assert!(tile.pixels.iter().all(|pixel| pixel.x >= 2));
}

#[test]
fn pixels_carry_their_position_for_the_dither_pattern() {
    let tiles = extract_tiles(&image(), 2, 2, Transparency::Opaque);
    let pixels = extract_all_pixels(&tiles);
    assert_eq!(pixels.len(), 8);
    assert_eq!((pixels[0].x, pixels[0].y), (0, 0));
    assert_eq!((pixels[1].x, pixels[1].y), (1, 0));
    assert_eq!((pixels[2].x, pixels[2].y), (0, 1));
}

#[test]
fn tiles_are_numbered_in_row_major_order_and_carry_the_tile_colors() {
    let tiles = extract_tiles(&image(), 2, 1, Transparency::Opaque);
    assert_eq!(tiles.len(), 4);
    for (id, tile) in tiles.iter().enumerate() {
        assert!(tile.pixels.iter().all(|pixel| pixel.tile_id == id));
    }
    assert_eq!(tiles[1].colors, [(0, 255, 0), (0, 0, 255)]);
    assert_eq!(tiles[1].counts, [1, 1]);
    assert_eq!((tiles[3].pixels[0].x, tiles[3].pixels[0].y), (2, 1));
}

#[test]
fn an_empty_list_of_tiles_has_no_pixels() {
    assert!(extract_all_pixels(&[]).is_empty());
}
