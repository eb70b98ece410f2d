use qualetize_gui::formats::{
    on_off, tpq_dither_pattern_option_name, ClearColor, ColorSpace, DitherMode, DitherPattern,
    ExportFormat, ExportSource, FirstColor, FirstColorKind, QuantEngine, SortMode,
};

#[test]
fn ids_match_the_header_constants() {
    assert_eq!(ColorSpace::Srgb.to_id(), 0);
    assert_eq!(ColorSpace::RgbLinear.to_id(), 1);
    assert_eq!(ColorSpace::Ycbcr.to_id(), 2);
    assert_eq!(ColorSpace::Ycocg.to_id(), 3);
    assert_eq!(ColorSpace::Cielab.to_id(), 4);
    assert_eq!(ColorSpace::Ictcp.to_id(), 5);
    assert_eq!(ColorSpace::Oklab.to_id(), 6);
    assert_eq!(ColorSpace::RgbPsy.to_id(), 7);
    assert_eq!(ColorSpace::YcbcrPsy.to_id(), 8);
    assert_eq!(ColorSpace::YcocgPsy.to_id(), 9);
}

#[test]
fn ordered_dither_ids_are_log2_of_the_kernel_size() {
    assert_eq!(DitherMode::Ord2.to_id(), 1);
    assert_eq!(DitherMode::Ord4.to_id(), 2);
    assert_eq!(DitherMode::Ord8.to_id(), 3);
    assert_eq!(DitherMode::Ord16.to_id(), 4);
    assert_eq!(DitherMode::Ord32.to_id(), 5);
    assert_eq!(DitherMode::Ord64.to_id(), 6);
}

#[test]
fn non_ordered_dither_ids_match_the_header_constants() {
    assert_eq!(DitherMode::NoDither.to_id(), 0);
    assert_eq!(DitherMode::Floyd.to_id(), 0xFE);
    assert_eq!(DitherMode::Atkinson.to_id(), 0xFD);
    assert_eq!(DitherMode::Checker.to_id(), 0xFF);
}

#[test]
fn only_unique_leaves_index_zero_free() {
    assert!(!FirstColor::Unique.pins_index_zero());
    assert!(FirstColor::Shared.pins_index_zero());
    assert!(!FirstColor::Unique.is_transparent());
    assert!(!FirstColor::Shared.is_transparent());
    assert!(FirstColor::TransparentFromAlpha.is_transparent());
    assert!(FirstColor::TransparentFromColor.is_transparent());
}

#[test]
fn patterns_pick_from_as_many_candidates_as_their_matrix_names() {
    for pattern in DitherPattern::all() {
        let max = pattern.matrix().iter().flatten().copied().max().unwrap() as usize;
        assert_eq!(max + 1, pattern.candidates(), "{pattern:?}");
    }
}

#[test]
fn names_and_defaults() {
    assert_eq!(ColorSpace::default(), ColorSpace::RgbLinear);
    assert_eq!(ColorSpace::all().len(), 10);
    assert_eq!(ColorSpace::Srgb.display_name(), "sRGB");
    assert_eq!(DitherMode::default(), DitherMode::Floyd);
    assert_eq!(DitherMode::Ord8.display_name(), "8x8 Ordered");
    assert_eq!(ExportFormat::indexed_list(), &[ExportFormat::Bmp, ExportFormat::PngIndexed]);
    assert_eq!(ExportFormat::Png.display_name(), "PNG32");
    assert_eq!(ExportFormat::Bmp.mime(), "image/bmp");
    assert_eq!(QuantEngine::TilePalQuant.display_name(), "tilepalquant");
    assert_eq!(SortMode::all()[1], SortMode::Ramps);
    assert_eq!(ExportSource::TileReduced.file_suffix(), "tile_reduced");
    assert_eq!(on_off(true), "on");
    assert_eq!(on_off(false), "off");
    assert_eq!(tpq_dither_pattern_option_name(&None), "None");
    assert_eq!(tpq_dither_pattern_option_name(&Some(DitherPattern::Vertical4)), "Vertical 4");
}

#[test]
fn the_clear_color_is_opaque_only_when_set() {
    let none = ClearColor::NoColor.to_bgra8();
    assert_eq!((none.r, none.g, none.b, none.a), (0, 0, 0, 0));
    let key = ClearColor::Rgb(1, 2, 3).to_bgra8();
    assert_eq!((key.r, key.g, key.b, key.a), (1, 2, 3, 255));
}

#[test]
fn picking_transparent_keeps_the_transparent_variant() {
    let kind = FirstColorKind::from(FirstColor::TransparentFromColor);
    assert_eq!(kind, FirstColorKind::Transparent);
    assert_eq!(kind.resolve(FirstColor::TransparentFromColor), FirstColor::TransparentFromColor);
    assert_eq!(kind.resolve(FirstColor::Unique), FirstColor::TransparentFromAlpha);
    assert_eq!(FirstColorKind::Shared.resolve(FirstColor::Unique), FirstColor::Shared);
}
