use qualetize_gui::engine::{to_bgra, validate, SourceImage, TargetFormat};
use qualetize_gui::formats::FirstColor;
use qualetize_gui::settings::QualetizeSettings;

#[test]
fn bgra_conversion_swaps_red_and_blue() {
    let bgra = to_bgra(&[1, 2, 3, 4]);
    assert_eq!((bgra[0].r, bgra[0].g, bgra[0].b, bgra[0].a), (1, 2, 3, 4));
}

#[test]
fn a_trailing_partial_pixel_is_dropped() {
    let bgra = to_bgra(&[1, 2, 3, 4, 5, 6, 7, 8, 9]);
    assert_eq!(bgra.len(), 2);
    assert_eq!((bgra[1].r, bgra[1].g, bgra[1].b, bgra[1].a), (5, 6, 7, 8));
}

fn target(tile: u16, n_palettes: u16, n_colors: u16) -> TargetFormat {
    TargetFormat {
        tile_width: tile,
        tile_height: tile,
        n_palettes,
        n_colors,
        levels: [vec![0, 255], vec![0, 255], vec![0, 255], vec![0, 255]],
        first_color: FirstColor::Unique,
        shared_color: [0, 0, 0],
        transparent_color: [255, 0, 255],
    }
}

#[test]
fn target_format_carries_the_channel_levels() {
    let settings = QualetizeSettings::genesis();
    let target = TargetFormat::from_settings(&settings);
    assert_eq!(target.levels[0], vec![0, 49, 87, 119, 146, 174, 206, 255]);
    assert_eq!((target.tile_width, target.n_palettes, target.n_colors), (8, 1, 16));
    assert_eq!(target.first_color, settings.first_color());
}

#[test]
fn a_well_formed_image_passes_validation() {
    assert_eq!(validate(&[0; 16 * 16 * 4], 16, 16, &target(8, 2, 16)), Ok(()));
}

#[test]
fn each_validation_failure_has_its_message() {
    assert_eq!(validate(&[], 0, 4, &target(8, 1, 16)), Err("the image is empty".to_string()));
    assert_eq!(
        validate(&[0; 10], 2, 2, &target(1, 1, 16)),
        Err("the image data holds 10 bytes, not the 16 bytes of a 2x2 RGBA image".to_string())
    );
    assert_eq!(
        validate(&[0; 16], 2, 2, &target(0, 1, 16)),
        Err("the tile size must be at least 1x1".to_string())
    );
    assert_eq!(
        validate(&[0; 12 * 8 * 4], 12, 8, &target(8, 1, 16)),
        Err("the image is 12x8, which is not a whole number of 8x8 tiles".to_string())
    );
    assert_eq!(
        validate(&[0; 64 * 4], 8, 8, &target(8, 1, 1)),
        Err("tilepalquant needs at least 2 colors per palette".to_string())
    );
    assert_eq!(
        validate(&[0; 64 * 4], 8, 8, &target(8, 0, 16)),
        Err("at least one palette is needed".to_string())
    );
    assert_eq!(
        validate(&[0; 64 * 4], 8, 8, &target(8, 17, 16)),
        Err("17 palettes of 16 colors is 272 colors, more than the 256 an index fits".to_string())
    );
}

#[test]
fn the_alpha_of_a_pixel_is_its_fourth_byte() {
    let image = SourceImage::new(vec![1, 2, 3, 4, 5, 6, 7, 8, 9, 10, 11, 12, 13, 14, 15, 16], 2, 2);
    assert_eq!(image.offset(1, 1), 12);
    assert_eq!(image.alpha(0, 0), 4);
    assert_eq!(image.alpha(1, 0), 8);
    assert_eq!(image.alpha(0, 1), 12);
}
