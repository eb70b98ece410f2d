//! What the quantization engines share: their indexed result, the target
//! format, the checks an input must pass before a run, the RGBA image as the
//! engines read it, and the RGBA to BGRA conversion the Qualetize library
//! expects.

use vstd::prelude::*;
use crate::formats::{BGRA8, FirstColor};
use crate::levels::{depth_levels, is_level_list, is_sorted, rgba_depth_steps};
use crate::settings::{QualetizeSettings, spec_channel_values};
use crate::text::{decimal, push_decimal, push_str};

verus! {

/// Indexed output of either engine. `palette_data` holds
/// `n_palettes * colors_per_palette` entries and each pixel index is
/// `palette_idx * colors_per_palette + color_idx`.
#[derive(Debug, Clone)]
pub struct QuantizeResult {
    pub indexed_data: Vec<u8>,
    pub palette_data: Vec<BGRA8>,
    pub colors_per_palette: usize,
    pub width: u32,
    pub height: u32,
}

/// Intermediate state reported by an engine while it runs.
#[derive(Debug, Clone)]
pub struct Progress {
    pub percent: u8,
    /// A quantization of the current palettes, in the shape of the final
    /// result, for showing the palettes converge.
    pub preview: Option<QuantizeResult>,
}

/// The hardware format both engines target: tile grid, palette layout and
/// the per-channel levels colors are snapped to.
#[derive(Debug, Clone)]
pub struct TargetFormat {
    pub tile_width: u16,
    pub tile_height: u16,
    pub n_palettes: u16,
    pub n_colors: u16,
    /// Allowed values per channel (R, G, B, A), ascending, each within 0..=255.
    pub levels: [Vec<u8>; 4],
    /// What index 0 of every palette holds.
    pub first_color: FirstColor,
    /// The color index 0 takes when it is shared.
    pub shared_color: [u8; 3],
    /// The key color of the transparent modes.
    pub transparent_color: [u8; 3],
}

impl TargetFormat {
    pub fn from_settings(settings: &QualetizeSettings) -> (target: Self)
        ensures
            target.tile_width == settings.tile_width,
            target.tile_height == settings.tile_height,
            target.n_palettes == settings.n_palettes,
            target.n_colors == settings.n_colors,
            target.first_color == settings.spec_first_color(),
            target.shared_color == settings.shared_color,
            target.transparent_color == settings.transparent_color,
            forall|k: int|
                0 <= k < 4 ==> {
                    &&& is_sorted((#[trigger] target.levels[k])@)
                    &&& target.levels[k]@.to_multiset() == spec_channel_values(
                        settings.use_custom_levels,
                        settings.custom_levels[k]@,
                        settings.rgba_depth@,
                        k,
                    ).to_multiset()
                },
            forall|k: int|
                0 <= k < 4 && !(settings.use_custom_levels && is_level_list(settings.custom_levels[k]@)) ==> (
                #[trigger] target.levels[k])@ == depth_levels(rgba_depth_steps(settings.rgba_depth@)[k]),
    {
        TargetFormat {
            tile_width: settings.tile_width,
            tile_height: settings.tile_height,
            n_palettes: settings.n_palettes,
            n_colors: settings.n_colors,
            levels: settings.channel_levels(),
            first_color: settings.first_color(),
            shared_color: settings.shared_color,
            transparent_color: settings.transparent_color,
        }
    }
}

/// The palette entry of the RGBA pixel at byte `4 * i` of `rgba`.
pub open spec fn bgra_at(rgba: Seq<u8>, i: int) -> BGRA8 {
    BGRA8 { b: rgba[4 * i + 2], g: rgba[4 * i + 1], r: rgba[4 * i], a: rgba[4 * i + 3] }
}

/// The whole RGBA pixels of `rgba` as BGRA palette entries, in order; a
/// trailing partial pixel is left out.
pub fn to_bgra(rgba: &[u8]) -> (bgra: Vec<BGRA8>)
    ensures
        bgra@.len() == rgba@.len() / 4,
        forall|i: int| 0 <= i < bgra@.len() ==> #[trigger] bgra@[i] == bgra_at(rgba@, i),
{
    let n: usize = rgba.len() / 4;
    let mut bgra: Vec<BGRA8> = Vec::new();
    let mut i: usize = 0;
    let mut at: usize = 0;
    while i < n
        invariant
            n == rgba@.len() / 4,
            i <= n,
            at == 4 * i,
            bgra@.len() == i,
            forall|j: int| 0 <= j < i ==> #[trigger] bgra@[j] == bgra_at(rgba@, j),
        decreases n - i,
    {
        bgra.push(BGRA8 { b: rgba[at + 2], g: rgba[at + 1], r: rgba[at], a: rgba[at + 3] });
        i += 1;
        at += 4;
    }
    bgra
}

/// Why the tilepalquant engine refuses an image of `len` bytes said to be
/// `width` x `height`, for the target's tile size and palette layout; `None`
/// when it accepts it. The first failing check gives the message.
pub open spec fn rejection(
    len: nat,
    width: nat,
    height: nat,
    tile_width: nat,
    tile_height: nat,
    n_palettes: nat,
    n_colors: nat,
) -> Option<Seq<char>> {
    if width == 0 || height == 0 {
        Some("the image is empty"@)
    } else if len != width * height * 4 {
        Some(
            "the image data holds "@ + decimal(len) + " bytes, not the "@ + decimal(
                width * height * 4,
            ) + " bytes of a "@ + decimal(width) + "x"@ + decimal(height) + " RGBA image"@,
        )
    } else if tile_width == 0 || tile_height == 0 {
        Some("the tile size must be at least 1x1"@)
    } else if width % tile_width != 0 || height % tile_height != 0 {
        Some(
            "the image is "@ + decimal(width) + "x"@ + decimal(height)
                + ", which is not a whole number of "@ + decimal(tile_width) + "x"@ + decimal(
                tile_height,
            ) + " tiles"@,
        )
    } else if n_colors < 2 {
        Some("tilepalquant needs at least 2 colors per palette"@)
    } else if n_palettes < 1 {
        Some("at least one palette is needed"@)
    } else if n_palettes * n_colors > 256 {
        Some(
            decimal(n_palettes) + " palettes of "@ + decimal(n_colors) + " colors is "@ + decimal(
                n_palettes * n_colors,
            ) + " colors, more than the 256 an index fits"@,
        )
    } else {
        None
    }
}

/// Exactly the palette layouts that fit an 8-bit index are accepted: a
/// well-formed image split into whole tiles is refused on its layout only
/// when the palettes hold more than 256 colors in all (256 itself fits).
pub proof fn law_every_layout_up_to_256_colors_is_accepted(
    len: nat,
    width: nat,
    height: nat,
    tile_width: nat,
    tile_height: nat,
    n_palettes: nat,
    n_colors: nat,
)
    requires
        width > 0,
        height > 0,
        len == width * height * 4,
        tile_width > 0,
        tile_height > 0,
        width % tile_width == 0,
        height % tile_height == 0,
        n_colors >= 2,
        n_palettes >= 1,
    ensures
        (rejection(len, width, height, tile_width, tile_height, n_palettes, n_colors) is None) == (n_palettes
            * n_colors <= 256),
{
}

/// Check that `rgba_data` is a `width` x `height` RGBA image the target's
/// tile grid and palette layout can be applied to.
pub fn validate(rgba_data: &[u8], width: u32, height: u32, target: &TargetFormat) -> (r: Result<
    (),
    String,
>)
    requires
        width * height * 4 <= usize::MAX,
    ensures
        match r {
            Ok(()) => rejection(
                rgba_data@.len(),
                width as nat,
                height as nat,
                target.tile_width as nat,
                target.tile_height as nat,
                target.n_palettes as nat,
                target.n_colors as nat,
            ) is None,
            Err(message) => rejection(
                rgba_data@.len(),
                width as nat,
                height as nat,
                target.tile_width as nat,
                target.tile_height as nat,
                target.n_palettes as nat,
                target.n_colors as nat,
            ) == Some(message@),
        },
        width > 0 && height > 0 && rgba_data@.len() == width * height * 4 && target.tile_width > 0
            && target.tile_height > 0 && width % (target.tile_width as u32) == 0 && height % (
        target.tile_height as u32) == 0 && target.n_colors >= 2 && target.n_palettes >= 1
            && target.n_palettes * target.n_colors <= 256 ==> r is Ok,
        target.n_palettes * target.n_colors > 256 ==> r is Err,
        width == 0 || height == 0 || rgba_data@.len() != width * height * 4 || target.tile_width == 0
            || target.tile_height == 0 || target.n_colors < 2 || target.n_palettes < 1 ==> r is Err,
{
    if width == 0 || height == 0 {
        return Err(String::from_str("the image is empty"));
    }
    assert(width * height <= width * height * 4) by (nonlinear_arith);
    let expected: usize = (width as usize) * (height as usize) * 4;
    if rgba_data.len() != expected {
        let mut m = String::new();
        push_str(&mut m, "the image data holds ");
        push_decimal(&mut m, rgba_data.len() as u64);
        push_str(&mut m, " bytes, not the ");
        push_decimal(&mut m, expected as u64);
        push_str(&mut m, " bytes of a ");
        push_decimal(&mut m, width as u64);
        push_str(&mut m, "x");
        push_decimal(&mut m, height as u64);
        push_str(&mut m, " RGBA image");
        return Err(m);
    }
    let tile_width: u32 = target.tile_width as u32;
    let tile_height: u32 = target.tile_height as u32;
    if tile_width == 0 || tile_height == 0 {
        return Err(String::from_str("the tile size must be at least 1x1"));
    }
    if width % tile_width != 0 || height % tile_height != 0 {
        let mut m = String::new();
        push_str(&mut m, "the image is ");
        push_decimal(&mut m, width as u64);
        push_str(&mut m, "x");
        push_decimal(&mut m, height as u64);
        push_str(&mut m, ", which is not a whole number of ");
        push_decimal(&mut m, tile_width as u64);
        push_str(&mut m, "x");
        push_decimal(&mut m, tile_height as u64);
        push_str(&mut m, " tiles");
        return Err(m);
    }
    if target.n_colors < 2 {
        return Err(String::from_str("tilepalquant needs at least 2 colors per palette"));
    }
    if target.n_palettes < 1 {
        return Err(String::from_str("at least one palette is needed"));
    }
    assert((target.n_palettes as u64) * (target.n_colors as u64) <= 0xffff_ffff) by (nonlinear_arith)
        requires
            target.n_palettes <= 0xffff,
            target.n_colors <= 0xffff,
    ;
    let total: u64 = (target.n_palettes as u64) * (target.n_colors as u64);
    if total > 256 {
        let mut m = String::new();
        push_decimal(&mut m, target.n_palettes as u64);
        push_str(&mut m, " palettes of ");
        push_decimal(&mut m, target.n_colors as u64);
        push_str(&mut m, " colors is ");
        push_decimal(&mut m, total);
        push_str(&mut m, " colors, more than the 256 an index fits");
        return Err(m);
    }
    Ok(())
}

/// An RGBA8 image, as the engine reads it.
pub struct SourceImage {
    pub data: Vec<u8>,
    pub width: u32,
    pub height: u32,
}

/// Byte offset of the pixel at `x`, `y` in a row-major RGBA image `width`
/// pixels wide.
pub open spec fn pixel_offset(width: nat, x: nat, y: nat) -> nat {
    4 * (x + width * y)
}

impl SourceImage {
    pub fn new(data: Vec<u8>, width: u32, height: u32) -> (image: Self)
        ensures
            image.data@ == data@,
            image.width == width,
            image.height == height,
    {
        SourceImage { data, width, height }
    }

    /// Byte offset of the pixel at `x`, `y`.
    pub fn offset(&self, x: u32, y: u32) -> (offset: usize)
        requires
            pixel_offset(self.width as nat, x as nat, y as nat) <= usize::MAX,
        ensures
            offset == pixel_offset(self.width as nat, x as nat, y as nat),
    {
        assert(0 <= (self.width as int) * (y as int) <= x + self.width * y) by (nonlinear_arith);
        4 * (x as usize + self.width as usize * y as usize)
    }

    /// The alpha channel of the pixel at `x`, `y`.
    pub fn alpha(&self, x: u32, y: u32) -> (a: u8)
        requires
            pixel_offset(self.width as nat, x as nat, y as nat) + 3 < self.data@.len(),
        ensures
            a == self.data@[pixel_offset(self.width as nat, x as nat, y as nat) + 3int],
    {
        assert(self.data@.len() == self.data.len());
        let at: usize = self.offset(x, y);
        self.data[at + 3]
    }
}

} // verus!
