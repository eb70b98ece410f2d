//! The target format settings shared by both engines, plus the Qualetize
//! specific values: everything in them but the two fractional settings (the
//! dither level and the tile reduction threshold), which the caller keeps
//! beside them.

use vstd::prelude::*;
use vstd::string::*;
use vstd::std_specs::cmp::PartialEqSpecImpl;
use crate::formats::{ClearColor, ColorSpace, DitherMode, FirstColor, QualetizePreset, TopLeftPixel};
use crate::levels::{
    default_custom_level_strings, default_level_strings_from_depth, depth_levels,
    genesis_custom_level_strings, is_level_list, is_rgba_depth, is_sorted,
    is_valid_rgba_depth, join_levels, law_generated_levels_fit_the_plan, lemma_depth_levels_fit, level_values,
    parse_levels_u8, rgba_depth_steps, DEFAULT_RGBA_DEPTH,
};

verus! {

/// The target format and the Qualetize specific settings.
#[derive(Clone, Debug)]
pub struct QualetizeSettings {
    pub tile_width: u16,
    pub tile_height: u16,
    pub n_palettes: u16,
    pub n_colors: u16,
    pub rgba_depth: String,
    pub premul_alpha: bool,
    pub color_space: ColorSpace,
    pub dither_mode: DitherMode,
    pub tile_passes: u32,
    pub color_passes: u32,
    /// Both transparent modes of [`FirstColor`].
    pub col0_is_clear: bool,
    /// `Rgb` for [`FirstColor::TransparentFromColor`], `NoColor` otherwise.
    pub clear_color: ClearColor,
    /// [`FirstColor::Shared`]. Only meaningful while `col0_is_clear` is false.
    pub first_color_shared: bool,
    /// The color index 0 takes in [`FirstColor::Shared`].
    pub shared_color: [u8; 3],
    /// The key color of [`FirstColor::TransparentFromColor`], kept while
    /// another mode is selected so switching back restores it.
    pub transparent_color: [u8; 3],
    pub tile_reduce_post_enabled: bool,
    pub tile_reduce_allow_flip_x: bool,
    pub tile_reduce_allow_flip_y: bool,
    pub use_custom_levels: bool,
    pub custom_levels: [String; 4],
}

impl QualetizeSettings {
    /// Every field is the same: the strings by their text, the colors
    /// channel by channel.
    pub open spec fn same_settings(&self, other: &QualetizeSettings) -> bool {
        &&& self.tile_width == other.tile_width
        &&& self.tile_height == other.tile_height
        &&& self.n_palettes == other.n_palettes
        &&& self.n_colors == other.n_colors
        &&& self.rgba_depth@ == other.rgba_depth@
        &&& self.premul_alpha == other.premul_alpha
        &&& self.color_space == other.color_space
        &&& self.dither_mode == other.dither_mode
        &&& self.tile_passes == other.tile_passes
        &&& self.color_passes == other.color_passes
        &&& self.col0_is_clear == other.col0_is_clear
        &&& self.clear_color == other.clear_color
        &&& self.first_color_shared == other.first_color_shared
        &&& forall|c: int| 0 <= c < 3 ==> self.shared_color[c] == other.shared_color[c]
        &&& forall|c: int| 0 <= c < 3 ==> self.transparent_color[c] == other.transparent_color[c]
        &&& self.tile_reduce_post_enabled == other.tile_reduce_post_enabled
        &&& self.tile_reduce_allow_flip_x == other.tile_reduce_allow_flip_x
        &&& self.tile_reduce_allow_flip_y == other.tile_reduce_allow_flip_y
        &&& self.use_custom_levels == other.use_custom_levels
        &&& forall|k: int| 0 <= k < 4 ==> self.custom_levels[k]@ == other.custom_levels[k]@
    }
}

fn same_rgb(a: &[u8; 3], b: &[u8; 3]) -> (same: bool)
    ensures
        same == forall|c: int| 0 <= c < 3 ==> a[c] == b[c],
{
    a[0] == b[0] && a[1] == b[1] && a[2] == b[2]
}

fn same_level_strings(a: &[String; 4], b: &[String; 4]) -> (same: bool)
    ensures
        same == forall|k: int| 0 <= k < 4 ==> a[k]@ == b[k]@,
{
    let r = a[0] == b[0] && a[1] == b[1] && a[2] == b[2] && a[3] == b[3];
    assert(r == (a[0]@ == b[0]@ && a[1]@ == b[1]@ && a[2]@ == b[2]@ && a[3]@ == b[3]@));
    r
}

impl PartialEq for QualetizeSettings {
    fn eq(&self, other: &Self) -> (r: bool) {
        self.tile_width == other.tile_width && self.tile_height == other.tile_height && self.n_palettes
            == other.n_palettes && self.n_colors == other.n_colors && self.rgba_depth == other.rgba_depth
            && self.premul_alpha == other.premul_alpha && self.color_space == other.color_space
            && self.dither_mode == other.dither_mode && self.tile_passes == other.tile_passes
            && self.color_passes == other.color_passes && self.col0_is_clear == other.col0_is_clear
            && self.clear_color == other.clear_color && self.first_color_shared == other.first_color_shared
            && same_rgb(&self.shared_color, &other.shared_color) && same_rgb(
            &self.transparent_color,
            &other.transparent_color,
        ) && self.tile_reduce_post_enabled == other.tile_reduce_post_enabled
            && self.tile_reduce_allow_flip_x == other.tile_reduce_allow_flip_x
            && self.tile_reduce_allow_flip_y == other.tile_reduce_allow_flip_y && self.use_custom_levels
            == other.use_custom_levels && same_level_strings(&self.custom_levels, &other.custom_levels)
    }
}

impl PartialEqSpecImpl for QualetizeSettings {
    open spec fn obeys_eq_spec() -> bool {
        true
    }

    open spec fn eq_spec(&self, other: &QualetizeSettings) -> bool {
        self.same_settings(other)
    }
}

/// The custom level lists count only while they are switched on: switched
/// off, every channel takes the uniform levels of the depth string,
/// whatever the custom list holds; switched on, a well-formed custom list
/// gives the channel its values, and a malformed one falls back to the
/// depth.
pub proof fn law_custom_levels_count_only_when_switched_on(custom: Seq<char>, rgba_depth: Seq<char>, k: int)
    ensures
        spec_channel_values(false, custom, rgba_depth, k) == depth_levels(rgba_depth_steps(rgba_depth)[k]),
        is_level_list(custom) ==> spec_channel_values(true, custom, rgba_depth, k) == level_values(custom),
        !is_level_list(custom) ==> spec_channel_values(true, custom, rgba_depth, k) == depth_levels(
            rgba_depth_steps(rgba_depth)[k],
        ),
{
}

/// Two ascending lists holding the same values are the same list.
proof fn lemma_sorted_with_same_values_are_equal(x: Seq<u8>, y: Seq<u8>)
    requires
        is_sorted(x),
        is_sorted(y),
        x.to_multiset() == y.to_multiset(),
    ensures
        x == y,
{
    let leq = |a: u8, b: u8| a <= b;
    assert(vstd::relations::total_ordering(leq));
    assert(vstd::relations::sorted_by(x, leq));
    assert(vstd::relations::sorted_by(y, leq));
    vstd::seq_lib::lemma_sorted_unique(x, y, leq);
}

/// The value a settings file missing a switch that defaults to on reads as.
pub fn default_true() -> (on: bool)
    ensures
        on,
{
    true
}

/// Color correction reads as enabled when a settings file predates the
/// switch.
pub fn enabled_when_missing() -> (on: bool)
    ensures
        on,
{
    true
}

/// The key color a fresh settings file starts with.
pub open spec fn spec_default_transparent_color() -> [u8; 3] {
    [255u8, 0u8, 255u8]
}

pub fn default_transparent_color() -> (color: [u8; 3])
    ensures
        color == spec_default_transparent_color(),
{
    [255, 0, 255]
}

pub fn default_tile_reduce_allow_flip() -> (allowed: bool)
    ensures
        allowed,
{
    true
}

/// What index 0 of every palette holds, read from the fields that store it.
pub open spec fn spec_first_color(col0_is_clear: bool, clear_color: ClearColor, shared: bool) -> FirstColor {
    if col0_is_clear {
        match clear_color {
            ClearColor::Rgb(..) => FirstColor::TransparentFromColor,
            ClearColor::NoColor => FirstColor::TransparentFromAlpha,
        }
    } else if shared {
        FirstColor::Shared
    } else {
        FirstColor::Unique
    }
}

/// The channel levels the settings stand for, before sorting.
pub open spec fn spec_channel_values(
    use_custom: bool,
    custom: Seq<char>,
    rgba_depth: Seq<char>,
    k: int,
) -> Seq<u8> {
    if use_custom && is_level_list(custom) {
        level_values(custom)
    } else {
        depth_levels(rgba_depth_steps(rgba_depth)[k])
    }
}

/// The limits the settings panel enforces, and that the Qualetize library
/// relies on.
pub open spec fn in_ui_ranges(
    tile_width: u16,
    tile_height: u16,
    n_palettes: u16,
    n_colors: u16,
    tile_passes: u32,
    color_passes: u32,
) -> bool {
    &&& 1 <= tile_width <= 64
    &&& 1 <= tile_height <= 64
    &&& 1 <= n_colors <= 256
    &&& 1 <= n_palettes
    &&& n_palettes * n_colors <= 256
    &&& tile_passes <= 1000
    &&& color_passes <= 100
}

fn clamp_u16(v: u16, lo: u16, hi: u16) -> (r: u16)
    requires
        lo <= hi,
    ensures
        r == (if v < lo { lo } else if v > hi { hi } else { v }),
{
    if v < lo {
        lo
    } else if v > hi {
        hi
    } else {
        v
    }
}

impl QualetizeSettings {
    /// The target format fields, first color mode and colors aside.
    pub open spec fn same_format(&self, other: &QualetizeSettings) -> bool {
        &&& self.tile_width == other.tile_width
        &&& self.tile_height == other.tile_height
        &&& self.n_palettes == other.n_palettes
        &&& self.n_colors == other.n_colors
        &&& self.rgba_depth@ == other.rgba_depth@
        &&& self.premul_alpha == other.premul_alpha
        &&& self.color_space == other.color_space
        &&& self.dither_mode == other.dither_mode
        &&& self.tile_passes == other.tile_passes
        &&& self.color_passes == other.color_passes
        &&& self.transparent_color == other.transparent_color
        &&& self.use_custom_levels == other.use_custom_levels
        &&& forall|k: int| 0 <= k < 4 ==> self.custom_levels[k]@ == other.custom_levels[k]@
    }

    /// The fields a quantization preset sets, as they stand.
    pub open spec fn same_target(&self, other: &QualetizeSettings) -> bool {
        &&& self.same_format(other)
        &&& self.col0_is_clear == other.col0_is_clear
        &&& self.clear_color == other.clear_color
        &&& self.first_color_shared == other.first_color_shared
        &&& self.shared_color == other.shared_color
    }

    /// Every field but the three that store the first color mode is the same.
    pub open spec fn same_apart_from_first_color(&self, other: &QualetizeSettings) -> bool {
        &&& self.tile_width == other.tile_width
        &&& self.tile_height == other.tile_height
        &&& self.n_palettes == other.n_palettes
        &&& self.n_colors == other.n_colors
        &&& self.rgba_depth@ == other.rgba_depth@
        &&& self.premul_alpha == other.premul_alpha
        &&& self.color_space == other.color_space
        &&& self.dither_mode == other.dither_mode
        &&& self.tile_passes == other.tile_passes
        &&& self.color_passes == other.color_passes
        &&& self.shared_color == other.shared_color
        &&& self.transparent_color == other.transparent_color
        &&& self.use_custom_levels == other.use_custom_levels
        &&& forall|k: int| 0 <= k < 4 ==> self.custom_levels[k]@ == other.custom_levels[k]@
        &&& self.tile_reduce_post_enabled == other.tile_reduce_post_enabled
        &&& self.tile_reduce_allow_flip_x == other.tile_reduce_allow_flip_x
        &&& self.tile_reduce_allow_flip_y == other.tile_reduce_allow_flip_y
    }

    /// The fields the Genesis presets share: 8x8 tiles of 16 colors, 3 bits
    /// per color channel on the hardware brightness steps, 1 bit alpha, no
    /// dithering, and index 0 neither shared nor keyed.
    pub open spec fn genesis_fields(&self) -> bool {
        &&& self.tile_width == 8 && self.tile_height == 8
        &&& self.n_colors == 16
        &&& self.rgba_depth@ == "3331"@
        &&& !self.premul_alpha
        &&& self.color_space == ColorSpace::RgbLinear
        &&& self.dither_mode == DitherMode::NoDither
        &&& self.tile_passes == 1000 && self.color_passes == 100
        &&& self.clear_color == ClearColor::NoColor
        &&& !self.first_color_shared
        &&& self.shared_color == [0u8, 0u8, 0u8]
        &&& self.transparent_color == spec_default_transparent_color()
        &&& !self.tile_reduce_post_enabled
        &&& self.tile_reduce_allow_flip_x && self.tile_reduce_allow_flip_y
        &&& self.use_custom_levels
        &&& self.custom_levels[0]@ == "0,49,87,119,146,174,206,255"@
        &&& self.custom_levels[1]@ == "0,49,87,119,146,174,206,255"@
        &&& self.custom_levels[2]@ == "0,49,87,119,146,174,206,255"@
        &&& self.custom_levels[3]@ == "0,255"@
    }

    /// The fields the GBA/NDS presets share: those of Genesis, but 5 bits per
    /// color channel on uniform levels and the YCbCr psychovisual color
    /// space.
    pub open spec fn gba_nds_fields(&self) -> bool {
        &&& self.tile_width == 8 && self.tile_height == 8
        &&& self.n_colors == 16
        &&& self.rgba_depth@ == "5551"@
        &&& !self.premul_alpha
        &&& self.color_space == ColorSpace::YcbcrPsy
        &&& self.dither_mode == DitherMode::NoDither
        &&& self.tile_passes == 1000 && self.color_passes == 100
        &&& self.clear_color == ClearColor::NoColor
        &&& !self.first_color_shared
        &&& self.shared_color == [0u8, 0u8, 0u8]
        &&& self.transparent_color == spec_default_transparent_color()
        &&& !self.tile_reduce_post_enabled
        &&& self.tile_reduce_allow_flip_x && self.tile_reduce_allow_flip_y
        &&& !self.use_custom_levels
        &&& forall|k: int|
            0 <= k < 4 ==> (#[trigger] self.custom_levels[k])@ == join_levels(
                depth_levels(rgba_depth_steps("5551"@)[k]),
            )
    }

    /// The Genesis preset: one palette, index 0 an ordinary color.
    pub fn genesis() -> (s: Self)
        ensures
            s.genesis_fields(),
            s.n_palettes == 1,
            !s.col0_is_clear,
    {
        QualetizeSettings {
            tile_width: 8,
            tile_height: 8,
            n_palettes: 1,
            n_colors: 16,
            rgba_depth: String::from_str("3331"),
            premul_alpha: false,
            color_space: ColorSpace::RgbLinear,
            dither_mode: DitherMode::NoDither,
            tile_passes: 1000,
            color_passes: 100,
            col0_is_clear: false,
            clear_color: ClearColor::NoColor,
            first_color_shared: false,
            shared_color: [0, 0, 0],
            transparent_color: default_transparent_color(),
            tile_reduce_post_enabled: false,
            tile_reduce_allow_flip_x: default_tile_reduce_allow_flip(),
            tile_reduce_allow_flip_y: default_tile_reduce_allow_flip(),
            use_custom_levels: true,
            custom_levels: genesis_custom_level_strings(),
        }
    }

    /// [`Self::genesis`] with four palettes and a transparent index 0.
    pub fn genesis_full_palettes() -> (s: Self)
        ensures
            s.genesis_fields(),
            s.n_palettes == 4,
            s.col0_is_clear,
    {
        let mut s = Self::genesis();
        s.n_palettes = 4;
        s.col0_is_clear = true;
        s
    }

    /// [`Self::genesis`] with 5 bits per color channel on uniform levels and the
    /// YCbCr psychovisual color space.
    pub fn gba_nds() -> (s: Self)
        ensures
            s.gba_nds_fields(),
            s.n_palettes == 1,
            !s.col0_is_clear,
    {
        let mut s = Self::genesis();
        s.rgba_depth = String::from_str("5551");
        s.custom_levels = default_level_strings_from_depth("5551");
        s.color_space = ColorSpace::YcbcrPsy;
        s.use_custom_levels = false;
        s
    }

    /// [`Self::gba_nds`] with 16 palettes and a transparent index 0.
    pub fn gba_nds_full_palettes() -> (s: Self)
        ensures
            s.gba_nds_fields(),
            s.n_palettes == 16,
            s.col0_is_clear,
    {
        let mut s = Self::gba_nds();
        s.n_palettes = 16;
        s.col0_is_clear = true;
        s
    }

    pub open spec fn spec_first_color(&self) -> FirstColor {
        spec_first_color(self.col0_is_clear, self.clear_color, self.first_color_shared)
    }

    /// What index 0 of every palette holds, read back from the three fields
    /// that store it.
    pub fn first_color(&self) -> (mode: FirstColor)
        ensures
            mode == self.spec_first_color(),
    {
        if self.col0_is_clear {
            match self.clear_color {
                ClearColor::Rgb(..) => FirstColor::TransparentFromColor,
                ClearColor::NoColor => FirstColor::TransparentFromAlpha,
            }
        } else if self.first_color_shared {
            FirstColor::Shared
        } else {
            FirstColor::Unique
        }
    }

    /// Only one combination of the three stored fields stands for each mode:
    /// `clear_color` holds a color only while index 0 is transparent, and the
    /// shared flag is set only while it is not.
    pub open spec fn first_color_normalized(&self) -> bool {
        &&& self.col0_is_clear ==> !self.first_color_shared
        &&& !self.col0_is_clear ==> self.clear_color == ClearColor::NoColor
    }

    /// Write `mode` into the three fields that store it. The key color is
    /// left alone, so switching away from
    /// [`FirstColor::TransparentFromColor`] and back restores it.
    pub fn set_first_color(&mut self, mode: FirstColor)
        ensures
            final(self).spec_first_color() == mode,
            final(self).first_color_normalized(),
            final(self).col0_is_clear == mode.spec_is_transparent(),
            final(self).first_color_shared == (mode == FirstColor::Shared),
            final(self).clear_color == (if mode == FirstColor::TransparentFromColor {
                ClearColor::Rgb(
                    old(self).transparent_color[0],
                    old(self).transparent_color[1],
                    old(self).transparent_color[2],
                )
            } else {
                ClearColor::NoColor
            }),
            final(self).same_apart_from_first_color(old(self)),
    {
        self.col0_is_clear = mode.is_transparent();
        self.first_color_shared = matches!(mode, FirstColor::Shared);
        self.clear_color = match mode {
            FirstColor::TransparentFromColor => {
                let rgb = self.transparent_color;
                ClearColor::Rgb(rgb[0], rgb[1], rgb[2])
            },
            _ => ClearColor::NoColor,
        };
    }

    /// Set the key color, which [`FirstColor::TransparentFromColor`] also
    /// carries in `clear_color`.
    pub fn set_transparent_color(&mut self, rgb: [u8; 3])
        ensures
            final(self).transparent_color == rgb,
            final(self).spec_first_color() == old(self).spec_first_color(),
            final(self).col0_is_clear == old(self).col0_is_clear,
            final(self).first_color_shared == old(self).first_color_shared,
            final(self).clear_color == (if old(self).spec_first_color()
                == FirstColor::TransparentFromColor {
                ClearColor::Rgb(rgb[0], rgb[1], rgb[2])
            } else {
                old(self).clear_color
            }),
    {
        self.transparent_color = rgb;
        if self.col0_is_clear {
            if let ClearColor::Rgb(..) = self.clear_color {
                self.clear_color = ClearColor::Rgb(rgb[0], rgb[1], rgb[2]);
            }
        }
    }

    /// The allowed values of each channel (R, G, B, A), ascending: the custom
    /// level list when enabled and well formed, otherwise the uniform levels
    /// of `rgba_depth`.
    pub fn channel_levels(&self) -> (levels: [Vec<u8>; 4])
        ensures
            forall|k: int|
                0 <= k < 4 ==> {
                    &&& is_sorted((#[trigger] levels[k])@)
                    &&& levels[k]@.to_multiset() == spec_channel_values(
                        self.use_custom_levels,
                        self.custom_levels[k]@,
                        self.rgba_depth@,
                        k,
                    ).to_multiset()
                },
            forall|k: int|
                0 <= k < 4 && !(self.use_custom_levels && is_level_list(self.custom_levels[k]@)) ==> (
                #[trigger] levels[k])@ == depth_levels(rgba_depth_steps(self.rgba_depth@)[k]),
            forall|k: int|
                0 <= k < 4 && self.use_custom_levels && is_level_list(self.custom_levels[k]@) ==> (
                #[trigger] levels[k])@.to_multiset() == level_values(self.custom_levels[k]@).to_multiset(),
    {
        let from_depth = default_level_strings_from_depth(self.rgba_depth.as_str());
        let l0 = self.one_channel(&from_depth, 0);
        let l1 = self.one_channel(&from_depth, 1);
        let l2 = self.one_channel(&from_depth, 2);
        let l3 = self.one_channel(&from_depth, 3);
        [l0, l1, l2, l3]
    }

    fn one_channel(&self, from_depth: &[String; 4], k: usize) -> (levels: Vec<u8>)
        requires
            k < 4,
            forall|j: int|
                0 <= j < 4 ==> (#[trigger] from_depth[j])@ == join_levels(
                    depth_levels(rgba_depth_steps(self.rgba_depth@)[j]),
                ),
        ensures
            is_sorted(levels@),
            levels@.to_multiset() == spec_channel_values(
                self.use_custom_levels,
                self.custom_levels[k as int]@,
                self.rgba_depth@,
                k as int,
            ).to_multiset(),
            !(self.use_custom_levels && is_level_list(self.custom_levels[k as int]@)) ==> levels@ == depth_levels(
                rgba_depth_steps(self.rgba_depth@)[k as int],
            ),
            self.use_custom_levels && is_level_list(self.custom_levels[k as int]@) ==> levels@.to_multiset()
                == level_values(self.custom_levels[k as int]@).to_multiset(),
    {
        if self.use_custom_levels {
            if let Some(custom) = parse_levels_u8(self.custom_levels[k].as_str()) {
                return custom;
            }
        }
        let ghost depth = depth_levels(rgba_depth_steps(self.rgba_depth@)[k as int]);
        proof {
            law_generated_levels_fit_the_plan(rgba_depth_steps(self.rgba_depth@)[k as int]);
            lemma_depth_levels_fit(rgba_depth_steps(self.rgba_depth@)[k as int]);
        }
        match parse_levels_u8(from_depth[k].as_str()) {
            Some(levels) => {
                proof {
                    lemma_sorted_with_same_values_are_equal(levels@, depth);
                }
                levels
            },
            None => {
                assert(false);
                Vec::new()
            },
        }
    }

    pub open spec fn sanitized_from(&self, before: &QualetizeSettings) -> bool {
        let w = before.tile_width;
        let h = before.tile_height;
        let n = before.n_colors;
        let expected_n_colors: u16 = if n < 1 { 1 } else if n > 256 { 256 } else { n };
        let max_palettes: u16 = 256u16 / expected_n_colors;
        let p = before.n_palettes;
        &&& self.tile_width == (if w < 1 { 1 } else if w > 64 { 64 } else { w })
        &&& self.tile_height == (if h < 1 { 1 } else if h > 64 { 64 } else { h })
        &&& self.n_colors == expected_n_colors
        &&& self.n_palettes == (if p < 1 { 1 } else if p > max_palettes { max_palettes } else { p })
        &&& self.tile_passes == (if before.tile_passes > 1000 { 1000 } else { before.tile_passes })
        &&& self.color_passes == (if before.color_passes > 100 { 100 } else { before.color_passes })
        &&& self.rgba_depth@ == (if is_rgba_depth(before.rgba_depth@) {
            before.rgba_depth@
        } else {
            "3331"@
        })
        &&& self.col0_is_clear == before.col0_is_clear
        &&& self.first_color_shared == (before.first_color_shared && !before.col0_is_clear)
        &&& self.clear_color == (if before.col0_is_clear {
            before.clear_color
        } else {
            ClearColor::NoColor
        })
        &&& self.transparent_color == (match before.clear_color {
            ClearColor::Rgb(r, g, b) if !before.col0_is_clear => [r, g, b],
            _ => before.transparent_color,
        })
        &&& self.shared_color == before.shared_color
        &&& self.premul_alpha == before.premul_alpha
        &&& self.color_space == before.color_space
        &&& self.dither_mode == before.dither_mode
        &&& self.use_custom_levels == before.use_custom_levels
        &&& forall|k: int| 0 <= k < 4 ==> self.custom_levels[k]@ == before.custom_levels[k]@
        &&& self.tile_reduce_post_enabled == before.tile_reduce_post_enabled
        &&& self.tile_reduce_allow_flip_x == before.tile_reduce_allow_flip_x
        &&& self.tile_reduce_allow_flip_y == before.tile_reduce_allow_flip_y
    }

    /// Clamp settings loaded from disk into the ranges the UI enforces, repair
    /// a malformed depth string, and fold the three first color fields onto
    /// the one combination that stands for their mode.
    pub fn sanitize(&mut self)
        ensures
            final(self).sanitized_from(old(self)),
            in_ui_ranges(
                final(self).tile_width,
                final(self).tile_height,
                final(self).n_palettes,
                final(self).n_colors,
                final(self).tile_passes,
                final(self).color_passes,
            ),
            is_rgba_depth(final(self).rgba_depth@),
            final(self).first_color_normalized(),
            final(self).spec_first_color() == old(self).spec_first_color(),
    {
        self.tile_width = clamp_u16(self.tile_width, 1, 64);
        self.tile_height = clamp_u16(self.tile_height, 1, 64);
        self.n_colors = clamp_u16(self.n_colors, 1, 256);
        let max_palettes = 256 / self.n_colors;
        assert(max_palettes >= 1) by (nonlinear_arith)
            requires
                1 <= self.n_colors <= 256,
                max_palettes == 256int / (self.n_colors as int),
        ;
        self.n_palettes = clamp_u16(self.n_palettes, 1, max_palettes);
        assert(self.n_palettes * self.n_colors <= 256) by (nonlinear_arith)
            requires
                self.n_palettes <= max_palettes,
                max_palettes == 256int / (self.n_colors as int),
                self.n_colors >= 1,
        ;
        if self.tile_passes > 1000 {
            self.tile_passes = 1000;
        }
        if self.color_passes > 100 {
            self.color_passes = 100;
        }
        if !is_valid_rgba_depth(self.rgba_depth.as_str()) {
            self.rgba_depth = String::from_str(DEFAULT_RGBA_DEPTH);
            proof {
                reveal_strlit("3331");
            }
        }
        if self.col0_is_clear {
            self.first_color_shared = false;
        } else if let ClearColor::Rgb(r, g, b) = self.clear_color {
            self.transparent_color = [r, g, b];
            self.clear_color = ClearColor::NoColor;
        }
    }

    /// Replace the quantization settings with `preset`, leaving the tile
    /// reduction post-pass alone.
    pub fn apply_preset(&mut self, preset: QualetizeSettings)
        ensures
            final(self).same_target(&preset),
            final(self).tile_reduce_post_enabled == old(self).tile_reduce_post_enabled,
            final(self).tile_reduce_allow_flip_x == old(self).tile_reduce_allow_flip_x,
            final(self).tile_reduce_allow_flip_y == old(self).tile_reduce_allow_flip_y,
    {
        let enabled = self.tile_reduce_post_enabled;
        let flip_x = self.tile_reduce_allow_flip_x;
        let flip_y = self.tile_reduce_allow_flip_y;
        *self = preset;
        self.tile_reduce_post_enabled = enabled;
        self.tile_reduce_allow_flip_x = flip_x;
        self.tile_reduce_allow_flip_y = flip_y;
    }

    /// Restore the tile reduction post-pass flips to their defaults, leaving
    /// the quantization settings and the enable flag alone.
    pub fn reset_tile_reduce(&mut self)
        ensures
            final(self).tile_reduce_allow_flip_x,
            final(self).tile_reduce_allow_flip_y,
            final(self).tile_reduce_post_enabled == old(self).tile_reduce_post_enabled,
            final(self).same_target(old(self)),
    {
        self.tile_reduce_allow_flip_x = default_tile_reduce_allow_flip();
        self.tile_reduce_allow_flip_y = default_tile_reduce_allow_flip();
    }
}

impl Default for QualetizeSettings {
    fn default() -> (s: Self)
        ensures
            s.genesis_fields(),
            s.n_palettes == 1,
            !s.col0_is_clear,
    {
        Self::genesis()
    }
}

impl QualetizePreset {
    /// The settings a preset stands for.
    pub fn qualetize_settings(&self) -> (s: QualetizeSettings)
        ensures
            match self {
                QualetizePreset::Genesis => s.genesis_fields() && s.n_palettes == 1 && !s.col0_is_clear,
                QualetizePreset::GenesisFullPals => s.genesis_fields() && s.n_palettes == 4 && s.col0_is_clear,
                QualetizePreset::GbaNds => s.gba_nds_fields() && s.n_palettes == 1 && !s.col0_is_clear,
                QualetizePreset::GbaNdsFullPals => s.gba_nds_fields() && s.n_palettes == 16 && s.col0_is_clear,
            },
    {
        match self {
            QualetizePreset::Genesis => QualetizeSettings::genesis(),
            QualetizePreset::GenesisFullPals => QualetizeSettings::genesis_full_palettes(),
            QualetizePreset::GbaNds => QualetizeSettings::gba_nds(),
            QualetizePreset::GbaNdsFullPals => QualetizeSettings::gba_nds_full_palettes(),
        }
    }
}

/// Settings already within the UI's ranges, with a valid depth string and
/// normalized first color fields, come out of `sanitize` unchanged.
pub proof fn law_sanitize_keeps_sane_settings(before: QualetizeSettings, after: QualetizeSettings)
    requires
        after.sanitized_from(&before),
        in_ui_ranges(
            before.tile_width,
            before.tile_height,
            before.n_palettes,
            before.n_colors,
            before.tile_passes,
            before.color_passes,
        ),
        is_rgba_depth(before.rgba_depth@),
        before.first_color_normalized(),
    ensures
        after.same_target(&before),
        after.tile_reduce_post_enabled == before.tile_reduce_post_enabled,
        after.tile_reduce_allow_flip_x == before.tile_reduce_allow_flip_x,
        after.tile_reduce_allow_flip_y == before.tile_reduce_allow_flip_y,
{
    let n = before.n_colors;
    let p = before.n_palettes;
    assert(p <= 256u16 / n) by (nonlinear_arith)
        requires
            1 <= n,
            p * n <= 256,
    ;
}

/// Apply a Qualetize preset and, when it asks for a shared first color,
/// take that color from the image's top-left pixel: an opaque one becomes
/// the shared color, a transparent one switches to transparency from alpha.
/// Without a top-left pixel (no image) the preset stays as it is. The tile
/// reduction post-pass keeps its settings.
pub fn apply_qualetize_preset(
    settings: &mut QualetizeSettings,
    preset: QualetizeSettings,
    top_left: Option<TopLeftPixel>,
)
    ensures
        final(settings).tile_reduce_post_enabled == old(settings).tile_reduce_post_enabled,
        final(settings).tile_reduce_allow_flip_x == old(settings).tile_reduce_allow_flip_x,
        final(settings).tile_reduce_allow_flip_y == old(settings).tile_reduce_allow_flip_y,
        preset.spec_first_color() != FirstColor::Shared || top_left is None ==> final(settings).same_target(&preset),
        preset.spec_first_color() == FirstColor::Shared ==> match top_left {
            Some(TopLeftPixel::Color(rgb)) => {
                &&& final(settings).same_format(&preset)
                &&& final(settings).col0_is_clear == preset.col0_is_clear
                &&& final(settings).clear_color == preset.clear_color
                &&& final(settings).first_color_shared == preset.first_color_shared
                &&& final(settings).shared_color == rgb
            },
            Some(TopLeftPixel::Transparent) => {
                &&& final(settings).same_format(&preset)
                &&& final(settings).col0_is_clear
                &&& final(settings).clear_color == ClearColor::NoColor
                &&& !final(settings).first_color_shared
                &&& final(settings).shared_color == preset.shared_color
            },
            None => true,
        },
{
    settings.apply_preset(preset);
    if settings.first_color() == FirstColor::Shared {
        match top_left {
            Some(TopLeftPixel::Color(rgb)) => settings.shared_color = rgb,
            Some(TopLeftPixel::Transparent) => settings.set_first_color(FirstColor::TransparentFromAlpha),
            None => {},
        }
    }
}

} // verus!
