use qualetize_gui::formats::{ClearColor, ColorSpace, FirstColor, TopLeftPixel};
use qualetize_gui::levels::DEFAULT_RGBA_DEPTH;
use qualetize_gui::settings::{apply_qualetize_preset, default_transparent_color, QualetizeSettings};

fn shared_preset() -> QualetizeSettings {
    let mut preset = QualetizeSettings::gba_nds();
    preset.set_first_color(FirstColor::Shared);
    preset.shared_color = [1, 2, 3];
    preset
}

#[test]
fn a_shared_preset_takes_an_opaque_top_left_color() {
    let mut settings = QualetizeSettings::genesis();
    settings.tile_reduce_post_enabled = true;
    apply_qualetize_preset(&mut settings, shared_preset(), Some(TopLeftPixel::Color([9, 8, 7])));
    assert_eq!(settings.first_color(), FirstColor::Shared);
    assert_eq!(settings.shared_color, [9, 8, 7]);
    assert_eq!(settings.rgba_depth, "5551");
    assert!(settings.tile_reduce_post_enabled);
}

#[test]
fn a_shared_preset_over_a_transparent_corner_uses_alpha() {
    let mut settings = QualetizeSettings::genesis();
    apply_qualetize_preset(&mut settings, shared_preset(), Some(TopLeftPixel::Transparent));
    assert_eq!(settings.first_color(), FirstColor::TransparentFromAlpha);
    assert_eq!(settings.shared_color, [1, 2, 3]);
}

#[test]
fn without_an_image_the_preset_is_taken_as_it_is() {
    let mut settings = QualetizeSettings::genesis();
    apply_qualetize_preset(&mut settings, shared_preset(), None);
    assert_eq!(settings.first_color(), FirstColor::Shared);
    assert_eq!(settings.shared_color, [1, 2, 3]);

    let mut settings = QualetizeSettings::genesis();
    apply_qualetize_preset(&mut settings, QualetizeSettings::gba_nds(), Some(TopLeftPixel::Color([9, 9, 9])));
    assert_eq!(settings.first_color(), FirstColor::Unique);
    assert_eq!(settings.rgba_depth, "5551");
}

#[test]
fn setting_the_first_color_leaves_the_layout_alone() {
    let mut settings = QualetizeSettings::gba_nds();
    let before = settings.clone();
    settings.set_first_color(FirstColor::TransparentFromColor);
    assert_eq!(settings.first_color(), FirstColor::TransparentFromColor);
    assert_eq!(settings.rgba_depth, before.rgba_depth);
    assert_eq!(settings.n_palettes, before.n_palettes);
    settings.set_first_color(FirstColor::Unique);
    assert_eq!(settings.first_color(), FirstColor::Unique);
}

const ALL_FIRST_COLORS: [FirstColor; 4] = [
    FirstColor::Unique,
    FirstColor::Shared,
    FirstColor::TransparentFromAlpha,
    FirstColor::TransparentFromColor,
];

/// The fractional settings (dither level, tile reduction threshold) are
/// kept by the caller beside these settings, so only the others are
/// checked here.
#[test]
fn sanitize_clamps_out_of_range_values_loaded_from_disk() {
    let mut settings = QualetizeSettings::genesis();
    settings.tile_width = 0;
    settings.tile_height = 1000;
    settings.n_colors = 0;
    settings.n_palettes = u16::MAX;
    settings.tile_passes = u32::MAX;
    settings.color_passes = u32::MAX;
    settings.rgba_depth = "9a3!".to_string();

    settings.sanitize();

    assert!((1..=64).contains(&settings.tile_width));
    assert!((1..=64).contains(&settings.tile_height));
    assert!((1..=256).contains(&settings.n_colors));
    assert!(settings.n_colors as u32 * settings.n_palettes as u32 <= 256);
    assert!(settings.tile_passes <= 1000);
    assert!(settings.color_passes <= 100);
    assert_eq!(settings.rgba_depth, DEFAULT_RGBA_DEPTH);
}

#[test]
fn sanitize_leaves_in_range_values_alone() {
    let mut settings = QualetizeSettings::genesis();
    let before = settings.clone();

    settings.sanitize();

    assert_eq!(settings, before);
}

#[test]
fn channel_levels_follow_the_depth_unless_custom_levels_are_on() {
    let mut settings = QualetizeSettings::gba_nds();
    assert!(!settings.use_custom_levels);
    let levels = settings.channel_levels();
    assert_eq!(levels[0].len(), 32, "5 bits");
    assert_eq!(levels[3], vec![0, 255], "1 bit alpha");

    settings.use_custom_levels = true;
    settings.custom_levels[0] = "0,128,255".to_string();
    settings.custom_levels[1] = "not a list".to_string();
    let levels = settings.channel_levels();
    assert_eq!(levels[0], vec![0, 128, 255]);
    assert_eq!(levels[1].len(), 32, "malformed list falls back to the depth");
}

#[test]
fn applying_a_preset_leaves_tile_reduction_alone() {
    let mut settings = QualetizeSettings::genesis();
    settings.tile_reduce_post_enabled = true;
    settings.tile_reduce_allow_flip_x = false;
    settings.tile_reduce_allow_flip_y = false;

    settings.apply_preset(QualetizeSettings::gba_nds());

    assert_eq!(settings.color_space, ColorSpace::YcbcrPsy, "preset applied");
    assert_eq!(settings.rgba_depth, "5551", "preset applied");
    assert!(settings.tile_reduce_post_enabled, "tile reduction kept");
    assert!(!settings.tile_reduce_allow_flip_x);
    assert!(!settings.tile_reduce_allow_flip_y);
}

#[test]
fn resetting_tile_reduction_leaves_quantization_alone() {
    let mut settings = QualetizeSettings::gba_nds();
    settings.n_palettes = 7;
    settings.tile_reduce_post_enabled = true;
    settings.tile_reduce_allow_flip_x = false;

    settings.reset_tile_reduce();

    assert_eq!(settings.n_palettes, 7, "quantization untouched");
    assert_eq!(settings.color_space, ColorSpace::YcbcrPsy);
    assert!(settings.tile_reduce_allow_flip_x);
    assert!(
        settings.tile_reduce_post_enabled,
        "reset restores values, not the enable flag"
    );
}

#[test]
fn genesis_preset_uses_the_documented_levels() {
    let settings = QualetizeSettings::genesis();
    assert!(settings.use_custom_levels);
    assert_eq!(settings.custom_levels[0], "0,49,87,119,146,174,206,255");
    assert_eq!(settings.custom_levels[3], "0,255");
}

#[test]
fn every_first_color_mode_survives_a_write_and_a_read_back() {
    let mut settings = QualetizeSettings::genesis();
    settings.transparent_color = [1, 2, 3];
    for mode in ALL_FIRST_COLORS {
        settings.set_first_color(mode);
        assert_eq!(settings.first_color(), mode);
        assert_eq!(settings.col0_is_clear, mode.is_transparent(), "{mode:?}");
        assert_eq!(settings.first_color_shared, mode == FirstColor::Shared, "{mode:?}");
        assert_eq!(settings.transparent_color, [1, 2, 3], "{mode:?} leaves the key color alone");
    }
}

#[test]
fn the_key_color_survives_a_trip_through_another_mode() {
    let mut settings = QualetizeSettings::genesis();
    settings.set_first_color(FirstColor::TransparentFromColor);
    settings.set_transparent_color([10, 20, 30]);
    assert_eq!(settings.clear_color, ClearColor::Rgb(10, 20, 30));

    settings.set_first_color(FirstColor::Unique);
    assert_eq!(settings.clear_color, ClearColor::NoColor);
    assert_eq!(settings.transparent_color, [10, 20, 30]);

    settings.set_first_color(FirstColor::TransparentFromColor);
    assert_eq!(settings.clear_color, ClearColor::Rgb(10, 20, 30));
}

#[test]
fn setting_the_key_color_in_another_mode_leaves_the_mode_alone() {
    let mut settings = QualetizeSettings::genesis();
    settings.set_first_color(FirstColor::TransparentFromAlpha);
    settings.set_transparent_color([9, 9, 9]);
    assert_eq!(settings.first_color(), FirstColor::TransparentFromAlpha);
    assert_eq!(settings.clear_color, ClearColor::NoColor);
    assert_eq!(settings.transparent_color, [9, 9, 9]);
}

#[test]
fn sanitize_normalizes_the_first_color_fields() {
    let mut settings = QualetizeSettings::genesis();
    settings.col0_is_clear = false;
    settings.clear_color = ClearColor::Rgb(1, 2, 3);
    settings.sanitize();
    assert_eq!(settings.clear_color, ClearColor::NoColor);
    assert_eq!(settings.transparent_color, [1, 2, 3]);
    assert_eq!(settings.first_color(), FirstColor::Unique);

    let mut settings = QualetizeSettings::genesis();
    settings.col0_is_clear = true;
    settings.first_color_shared = true;
    settings.sanitize();
    assert!(!settings.first_color_shared);
    assert_eq!(settings.first_color(), FirstColor::TransparentFromAlpha);
}

#[test]
fn sanitize_leaves_every_first_color_mode_alone() {
    for mode in ALL_FIRST_COLORS {
        let mut settings = QualetizeSettings::genesis();
        settings.set_first_color(mode);
        let before = settings.clone();
        settings.sanitize();
        assert_eq!(settings, before, "{mode:?}");
    }
}

#[test]
fn applying_a_preset_resets_the_first_color() {
    let mut settings = QualetizeSettings::genesis();
    settings.set_first_color(FirstColor::Shared);
    settings.shared_color = [1, 2, 3];
    settings.set_transparent_color([4, 5, 6]);

    settings.apply_preset(QualetizeSettings::genesis_full_palettes());

    assert_eq!(settings.first_color(), FirstColor::TransparentFromAlpha);
    assert!(!settings.first_color_shared);
    assert_eq!(settings.shared_color, [0, 0, 0]);
    assert_eq!(settings.transparent_color, default_transparent_color());
}

#[test]
fn full_palette_presets_only_change_palette_layout() {
    let base = QualetizeSettings::genesis();
    let full = QualetizeSettings::genesis_full_palettes();
    assert_eq!(full.n_palettes, 4);
    assert!(full.col0_is_clear);
    assert_eq!(full.rgba_depth, base.rgba_depth);
    assert_eq!(full.custom_levels, base.custom_levels);
}
