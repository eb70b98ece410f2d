//! The option enums the settings are made of, with the names the UI shows
//! and the ids the Qualetize library takes.

use vstd::prelude::*;

verus! {

/// The color space Qualetize clusters in.
#[derive(Clone, Copy, Debug, PartialEq, Eq, Structural)]
pub enum ColorSpace {
    Srgb,
    RgbLinear,
    Ycbcr,
    Ycocg,
    Cielab,
    Ictcp,
    Oklab,
    RgbPsy,
    YcbcrPsy,
    YcocgPsy,
}

impl ColorSpace {
    pub open spec fn spec_id(self) -> u8 {
        match self {
            ColorSpace::Srgb => 0,
            ColorSpace::RgbLinear => 1,
            ColorSpace::Ycbcr => 2,
            ColorSpace::Ycocg => 3,
            ColorSpace::Cielab => 4,
            ColorSpace::Ictcp => 5,
            ColorSpace::Oklab => 6,
            ColorSpace::RgbPsy => 7,
            ColorSpace::YcbcrPsy => 8,
            ColorSpace::YcocgPsy => 9,
        }
    }

    /// The `COLOURSPACE_*` constant of the Qualetize header.
    pub fn to_id(self) -> (id: u8)
        ensures
            id == self.spec_id(),
    {
        match self {
            ColorSpace::Srgb => 0,
            ColorSpace::RgbLinear => 1,
            ColorSpace::Ycbcr => 2,
            ColorSpace::Ycocg => 3,
            ColorSpace::Cielab => 4,
            ColorSpace::Ictcp => 5,
            ColorSpace::Oklab => 6,
            ColorSpace::RgbPsy => 7,
            ColorSpace::YcbcrPsy => 8,
            ColorSpace::YcocgPsy => 9,
        }
    }

    pub open spec fn spec_display_name(self) -> Seq<char> {
        match self {
            ColorSpace::Srgb => "sRGB"@,
            ColorSpace::RgbLinear => "RGB linear"@,
            ColorSpace::Ycbcr => "YCbCr"@,
            ColorSpace::Ycocg => "YCoCg"@,
            ColorSpace::Cielab => "CIELAB"@,
            ColorSpace::Ictcp => "ICtCp"@,
            ColorSpace::Oklab => "OkLab"@,
            ColorSpace::RgbPsy => "RGB + psyopt"@,
            ColorSpace::YcbcrPsy => "YCbCr + psyopt"@,
            ColorSpace::YcocgPsy => "YCoCg + psyopt"@,
        }
    }

    pub fn display_name(&self) -> (name: &'static str)
        ensures
            name@ == self.spec_display_name(),
    {
        match self {
            ColorSpace::Srgb => "sRGB",
            ColorSpace::RgbLinear => "RGB linear",
            ColorSpace::Ycbcr => "YCbCr",
            ColorSpace::Ycocg => "YCoCg",
            ColorSpace::Cielab => "CIELAB",
            ColorSpace::Ictcp => "ICtCp",
            ColorSpace::Oklab => "OkLab",
            ColorSpace::RgbPsy => "RGB + psyopt",
            ColorSpace::YcbcrPsy => "YCbCr + psyopt",
            ColorSpace::YcocgPsy => "YCoCg + psyopt",
        }
    }

    pub fn all() -> (list: &'static [ColorSpace])
        ensures
            list@ == seq![
                ColorSpace::Srgb,
                ColorSpace::RgbLinear,
                ColorSpace::Ycbcr,
                ColorSpace::Ycocg,
                ColorSpace::Cielab,
                ColorSpace::Ictcp,
                ColorSpace::Oklab,
                ColorSpace::RgbPsy,
                ColorSpace::YcbcrPsy,
                ColorSpace::YcocgPsy,
            ],
    {
        &[
            ColorSpace::Srgb,
            ColorSpace::RgbLinear,
            ColorSpace::Ycbcr,
            ColorSpace::Ycocg,
            ColorSpace::Cielab,
            ColorSpace::Ictcp,
            ColorSpace::Oklab,
            ColorSpace::RgbPsy,
            ColorSpace::YcbcrPsy,
            ColorSpace::YcocgPsy,
        ]
    }
}

impl ColorSpace {
    pub open spec fn spec_description(self) -> Seq<char> {
        match self {
            ColorSpace::Srgb => "Standard RGB color space"@,
            ColorSpace::RgbLinear => "Linear RGB color space"@,
            ColorSpace::Ycbcr => "Luma + chroma color space"@,
            ColorSpace::Ycocg => "Luma + Co/Cg color space"@,
            ColorSpace::Cielab => "CIE L*a*b* color space\nNOTE: CIELAB has poor performance in most cases"@,
            ColorSpace::Ictcp => "ITU-R Rec. 2100 ICtCp color space"@,
            ColorSpace::Oklab => "OkLab perceptual color space"@,
            ColorSpace::RgbPsy => "RGB with psychovisual optimization\n(Non-linear light, weighted components)"@,
            ColorSpace::YcbcrPsy => "YCbCr with psychovisual optimization\n(Non-linear luma, weighted chroma)"@,
            ColorSpace::YcocgPsy => "YCoCg with psychovisual optimization\n(Non-linear luma)"@,
        }
    }

    pub fn description(&self) -> (text: &'static str)
        ensures
            text@ == self.spec_description(),
    {
        match self {
            ColorSpace::Srgb => "Standard RGB color space",
            ColorSpace::RgbLinear => "Linear RGB color space",
            ColorSpace::Ycbcr => "Luma + chroma color space",
            ColorSpace::Ycocg => "Luma + Co/Cg color space",
            ColorSpace::Cielab => "CIE L*a*b* color space\nNOTE: CIELAB has poor performance in most cases",
            ColorSpace::Ictcp => "ITU-R Rec. 2100 ICtCp color space",
            ColorSpace::Oklab => "OkLab perceptual color space",
            ColorSpace::RgbPsy => "RGB with psychovisual optimization\n(Non-linear light, weighted components)",
            ColorSpace::YcbcrPsy => "YCbCr with psychovisual optimization\n(Non-linear luma, weighted chroma)",
            ColorSpace::YcocgPsy => "YCoCg with psychovisual optimization\n(Non-linear luma)",
        }
    }
}

impl Default for ColorSpace {
    fn default() -> (space: Self)
        ensures
            space == ColorSpace::RgbLinear,
    {
        ColorSpace::RgbLinear
    }
}

/// How Qualetize dithers the quantized image.
#[derive(Clone, Copy, Debug, PartialEq, Eq, Structural)]
pub enum DitherMode {
    NoDither,
    Floyd,
    Atkinson,
    Checker,
    Ord2,
    Ord4,
    Ord8,
    Ord16,
    Ord32,
    Ord64,
}

impl DitherMode {
    pub open spec fn spec_display_name(self) -> Seq<char> {
        match self {
            DitherMode::NoDither => "None"@,
            DitherMode::Floyd => "Floyd-Steinberg"@,
            DitherMode::Atkinson => "Atkinson"@,
            DitherMode::Checker => "Checkerboard"@,
            DitherMode::Ord2 => "2x2 Ordered"@,
            DitherMode::Ord4 => "4x4 Ordered"@,
            DitherMode::Ord8 => "8x8 Ordered"@,
            DitherMode::Ord16 => "16x16 Ordered"@,
            DitherMode::Ord32 => "32x32 Ordered"@,
            DitherMode::Ord64 => "64x64 Ordered"@,
        }
    }

    pub fn display_name(&self) -> (name: &'static str)
        ensures
            name@ == self.spec_display_name(),
    {
        match self {
            DitherMode::NoDither => "None",
            DitherMode::Floyd => "Floyd-Steinberg",
            DitherMode::Atkinson => "Atkinson",
            DitherMode::Checker => "Checkerboard",
            DitherMode::Ord2 => "2x2 Ordered",
            DitherMode::Ord4 => "4x4 Ordered",
            DitherMode::Ord8 => "8x8 Ordered",
            DitherMode::Ord16 => "16x16 Ordered",
            DitherMode::Ord32 => "32x32 Ordered",
            DitherMode::Ord64 => "64x64 Ordered",
        }
    }

    pub open spec fn spec_description(self) -> Seq<char> {
        match self {
            DitherMode::NoDither => "No dithering"@,
            DitherMode::Floyd => "Floyd-Steinberg error diffusion (default level: 0.5)"@,
            DitherMode::Atkinson => "Atkinson error diffusion (default level: 0.5)"@,
            DitherMode::Checker => "Checkerboard dithering (default level: 1.0)"@,
            DitherMode::Ord2 => "2x2 ordered dithering (default level: 1.0)"@,
            DitherMode::Ord4 => "4x4 ordered dithering (default level: 1.0)"@,
            DitherMode::Ord8 => "8x8 ordered dithering (default level: 1.0)"@,
            DitherMode::Ord16 => "16x16 ordered dithering (default level: 1.0)"@,
            DitherMode::Ord32 => "32x32 ordered dithering (default level: 1.0)"@,
            DitherMode::Ord64 => "64x64 ordered dithering (default level: 1.0)"@,
        }
    }

    pub fn description(&self) -> (name: &'static str)
        ensures
            name@ == self.spec_description(),
    {
        match self {
            DitherMode::NoDither => "No dithering",
            DitherMode::Floyd => "Floyd-Steinberg error diffusion (default level: 0.5)",
            DitherMode::Atkinson => "Atkinson error diffusion (default level: 0.5)",
            DitherMode::Checker => "Checkerboard dithering (default level: 1.0)",
            DitherMode::Ord2 => "2x2 ordered dithering (default level: 1.0)",
            DitherMode::Ord4 => "4x4 ordered dithering (default level: 1.0)",
            DitherMode::Ord8 => "8x8 ordered dithering (default level: 1.0)",
            DitherMode::Ord16 => "16x16 ordered dithering (default level: 1.0)",
            DitherMode::Ord32 => "32x32 ordered dithering (default level: 1.0)",
            DitherMode::Ord64 => "64x64 ordered dithering (default level: 1.0)",
        }
    }

    pub open spec fn spec_id(self) -> u8 {
        match self {
            DitherMode::NoDither => 0,
            DitherMode::Floyd => 254,
            DitherMode::Atkinson => 253,
            DitherMode::Checker => 255,
            DitherMode::Ord2 => 1,
            DitherMode::Ord4 => 2,
            DitherMode::Ord8 => 3,
            DitherMode::Ord16 => 4,
            DitherMode::Ord32 => 5,
            DitherMode::Ord64 => 6,
        }
    }

    /// The `DITHER_*` constant of the Qualetize header: an ordered kernel of
    /// size `2^n x 2^n` is `n` itself, the diffusion modes are sentinels.
    pub fn to_id(self) -> (name: u8)
        ensures
            name == self.spec_id(),
    {
        match self {
            DitherMode::NoDither => 0,
            DitherMode::Floyd => 254,
            DitherMode::Atkinson => 253,
            DitherMode::Checker => 255,
            DitherMode::Ord2 => 1,
            DitherMode::Ord4 => 2,
            DitherMode::Ord8 => 3,
            DitherMode::Ord16 => 4,
            DitherMode::Ord32 => 5,
            DitherMode::Ord64 => 6,
        }
    }

    pub fn all() -> (list: &'static [DitherMode])
        ensures
            list@ == seq![
                DitherMode::NoDither,
                DitherMode::Floyd,
                DitherMode::Atkinson,
                DitherMode::Checker,
                DitherMode::Ord2,
                DitherMode::Ord4,
                DitherMode::Ord8,
                DitherMode::Ord16,
                DitherMode::Ord32,
                DitherMode::Ord64,
            ],
    {
        &[
            DitherMode::NoDither,
            DitherMode::Floyd,
            DitherMode::Atkinson,
            DitherMode::Checker,
            DitherMode::Ord2,
            DitherMode::Ord4,
            DitherMode::Ord8,
            DitherMode::Ord16,
            DitherMode::Ord32,
            DitherMode::Ord64,
        ]
    }

}

impl Default for DitherMode {
    fn default() -> (value: Self)
        ensures
            value == DitherMode::Floyd,
    {
        DitherMode::Floyd
    }
}

/// The file formats an image can be written in.
#[derive(Clone, Copy, Debug, PartialEq, Eq, Structural)]
pub enum ExportFormat {
    PngIndexed,
    Png,
    Bmp,
}

impl ExportFormat {
    pub open spec fn spec_display_name(self) -> Seq<char> {
        match self {
            ExportFormat::PngIndexed => "PNG"@,
            ExportFormat::Png => "PNG32"@,
            ExportFormat::Bmp => "BMP"@,
        }
    }

    pub fn display_name(&self) -> (name: &'static str)
        ensures
            name@ == self.spec_display_name(),
    {
        match self {
            ExportFormat::PngIndexed => "PNG",
            ExportFormat::Png => "PNG32",
            ExportFormat::Bmp => "BMP",
        }
    }

    pub open spec fn spec_extension(self) -> Seq<char> {
        match self {
            ExportFormat::PngIndexed => "png"@,
            ExportFormat::Png => "png"@,
            ExportFormat::Bmp => "bmp"@,
        }
    }

    pub fn extension(&self) -> (name: &'static str)
        ensures
            name@ == self.spec_extension(),
    {
        match self {
            ExportFormat::PngIndexed => "png",
            ExportFormat::Png => "png",
            ExportFormat::Bmp => "bmp",
        }
    }

    pub open spec fn spec_mime(self) -> Seq<char> {
        match self {
            ExportFormat::PngIndexed => "image/png"@,
            ExportFormat::Png => "image/png"@,
            ExportFormat::Bmp => "image/bmp"@,
        }
    }

    pub fn mime(&self) -> (name: &'static str)
        ensures
            name@ == self.spec_mime(),
    {
        match self {
            ExportFormat::PngIndexed => "image/png",
            ExportFormat::Png => "image/png",
            ExportFormat::Bmp => "image/bmp",
        }
    }

    /// Formats offered in the export menu; `Png` is only reached through the
    /// color corrected export.
    pub fn indexed_list() -> (list: &'static [ExportFormat])
        ensures
            list@ == seq![
                ExportFormat::Bmp,
                ExportFormat::PngIndexed,
            ],
    {
        &[
            ExportFormat::Bmp,
            ExportFormat::PngIndexed,
        ]
    }

}

impl Default for ExportFormat {
    fn default() -> (value: Self)
        ensures
            value == ExportFormat::PngIndexed,
    {
        ExportFormat::PngIndexed
    }
}

/// The two quantization engines.
#[derive(Clone, Copy, Debug, PartialEq, Eq, Structural)]
pub enum QuantEngine {
    Qualetize,
    TilePalQuant,
}

impl QuantEngine {
    pub open spec fn spec_display_name(self) -> Seq<char> {
        match self {
            QuantEngine::Qualetize => "Qualetize"@,
            QuantEngine::TilePalQuant => "tilepalquant"@,
        }
    }

    pub fn display_name(&self) -> (name: &'static str)
        ensures
            name@ == self.spec_display_name(),
    {
        match self {
            QuantEngine::Qualetize => "Qualetize",
            QuantEngine::TilePalQuant => "tilepalquant",
        }
    }

    pub fn all() -> (list: &'static [QuantEngine])
        ensures
            list@ == seq![
                QuantEngine::Qualetize,
                QuantEngine::TilePalQuant,
            ],
    {
        &[
            QuantEngine::Qualetize,
            QuantEngine::TilePalQuant,
        ]
    }

}

impl Default for QuantEngine {
    fn default() -> (value: Self)
        ensures
            value == QuantEngine::Qualetize,
    {
        QuantEngine::Qualetize
    }
}

/// Direction of a palette sort.
#[derive(Clone, Copy, Debug, PartialEq, Eq, Structural)]
pub enum SortOrder {
    Ascending,
    Descending,
}

impl SortOrder {
    pub open spec fn spec_display_name(self) -> Seq<char> {
        match self {
            SortOrder::Ascending => "Ascending"@,
            SortOrder::Descending => "Descending"@,
        }
    }

    pub fn display_name(&self) -> (name: &'static str)
        ensures
            name@ == self.spec_display_name(),
    {
        match self {
            SortOrder::Ascending => "Ascending",
            SortOrder::Descending => "Descending",
        }
    }

    pub fn all() -> (list: &'static [SortOrder])
        ensures
            list@ == seq![
                SortOrder::Ascending,
                SortOrder::Descending,
            ],
    {
        &[
            SortOrder::Ascending,
            SortOrder::Descending,
        ]
    }

}

impl Default for SortOrder {
    fn default() -> (value: Self)
        ensures
            value == SortOrder::Ascending,
    {
        SortOrder::Ascending
    }
}

/// The key palette colors are reordered by.
#[derive(Clone, Copy, Debug, PartialEq, Eq, Structural)]
pub enum SortMode {
    Unsorted,
    Luminance,
    Hue,
    Brightness,
    Saturation,
    /// Ramps grouped by hue and chroma, neutrals first, each dark to light.
    Ramps,
}

impl SortMode {
    pub open spec fn spec_display_name(self) -> Seq<char> {
        match self {
            SortMode::Unsorted => "None"@,
            SortMode::Luminance => "Luminance"@,
            SortMode::Hue => "Hue"@,
            SortMode::Brightness => "Brightness"@,
            SortMode::Saturation => "Saturation"@,
            SortMode::Ramps => "Ramps"@,
        }
    }

    pub fn display_name(&self) -> (name: &'static str)
        ensures
            name@ == self.spec_display_name(),
    {
        match self {
            SortMode::Unsorted => "None",
            SortMode::Luminance => "Luminance",
            SortMode::Hue => "Hue",
            SortMode::Brightness => "Brightness",
            SortMode::Saturation => "Saturation",
            SortMode::Ramps => "Ramps",
        }
    }

    pub fn all() -> (list: &'static [SortMode])
        ensures
            list@ == seq![
                SortMode::Unsorted,
                SortMode::Ramps,
                SortMode::Luminance,
                SortMode::Hue,
                SortMode::Brightness,
                SortMode::Saturation,
            ],
    {
        &[
            SortMode::Unsorted,
            SortMode::Ramps,
            SortMode::Luminance,
            SortMode::Hue,
            SortMode::Brightness,
            SortMode::Saturation,
        ]
    }

}

impl Default for SortMode {
    fn default() -> (value: Self)
        ensures
            value == SortMode::Ramps,
    {
        SortMode::Ramps
    }
}

/// How palette colors are reordered after quantization.
#[derive(Clone, Copy, Debug, PartialEq, Eq, Structural)]
pub struct PaletteSortSettings {
    pub mode: SortMode,
    pub order: SortOrder,
}

impl Default for PaletteSortSettings {
    fn default() -> (value: Self)
        ensures
            value.mode == SortMode::Ramps,
            value.order == SortOrder::Ascending,
    {
        PaletteSortSettings { mode: SortMode::Ramps, order: SortOrder::Ascending }
    }
}

/// When the tilepalquant engine dithers.
#[derive(Clone, Copy, Debug, PartialEq, Eq, Structural)]
pub enum TpqDitherMode {
    Off,
    /// Dither only when assigning final pixel colors.
    Fast,
    /// Evaluate palettes with dithering during optimization as well.
    Slow,
}

impl TpqDitherMode {
    pub open spec fn spec_description(self) -> Seq<char> {
        match self {
            TpqDitherMode::Off => "No dithering"@,
            TpqDitherMode::Fast => "Dither only when choosing the final color of each pixel"@,
            TpqDitherMode::Slow => "Evaluate palettes with dithering while optimizing them; much slower"@,
        }
    }

    pub fn description(&self) -> (name: &'static str)
        ensures
            name@ == self.spec_description(),
    {
        match self {
            TpqDitherMode::Off => "No dithering",
            TpqDitherMode::Fast => "Dither only when choosing the final color of each pixel",
            TpqDitherMode::Slow => "Evaluate palettes with dithering while optimizing them; much slower",
        }
    }

    pub fn all() -> (list: &'static [TpqDitherMode])
        ensures
            list@ == seq![
                TpqDitherMode::Off,
                TpqDitherMode::Fast,
                TpqDitherMode::Slow,
            ],
    {
        &[
            TpqDitherMode::Off,
            TpqDitherMode::Fast,
            TpqDitherMode::Slow,
        ]
    }

}

impl Default for TpqDitherMode {
    fn default() -> (value: Self)
        ensures
            value == TpqDitherMode::Fast,
    {
        TpqDitherMode::Fast
    }
}

/// 2x2 ordered dither patterns. The matrix value at `[x & 1][y & 1]` picks
/// which of the error-diffused candidates a pixel takes.
#[derive(Clone, Copy, Debug, PartialEq, Eq, Structural)]
pub enum DitherPattern {
    Diagonal4,
    Horizontal4,
    Vertical4,
    Diagonal2,
    Horizontal2,
    Vertical2,
}

impl DitherPattern {
    pub open spec fn spec_display_name(self) -> Seq<char> {
        match self {
            DitherPattern::Diagonal4 => "Diagonal 4"@,
            DitherPattern::Horizontal4 => "Horizontal 4"@,
            DitherPattern::Vertical4 => "Vertical 4"@,
            DitherPattern::Diagonal2 => "Diagonal 2"@,
            DitherPattern::Horizontal2 => "Horizontal 2"@,
            DitherPattern::Vertical2 => "Vertical 2"@,
        }
    }

    pub fn display_name(&self) -> (name: &'static str)
        ensures
            name@ == self.spec_display_name(),
    {
        match self {
            DitherPattern::Diagonal4 => "Diagonal 4",
            DitherPattern::Horizontal4 => "Horizontal 4",
            DitherPattern::Vertical4 => "Vertical 4",
            DitherPattern::Diagonal2 => "Diagonal 2",
            DitherPattern::Horizontal2 => "Horizontal 2",
            DitherPattern::Vertical2 => "Vertical 2",
        }
    }

    pub fn all() -> (list: &'static [DitherPattern])
        ensures
            list@ == seq![
                DitherPattern::Diagonal4,
                DitherPattern::Horizontal4,
                DitherPattern::Vertical4,
                DitherPattern::Diagonal2,
                DitherPattern::Horizontal2,
                DitherPattern::Vertical2,
            ],
    {
        &[
            DitherPattern::Diagonal4,
            DitherPattern::Horizontal4,
            DitherPattern::Vertical4,
            DitherPattern::Diagonal2,
            DitherPattern::Horizontal2,
            DitherPattern::Vertical2,
        ]
    }

    pub open spec fn spec_matrix(self) -> [[u8; 2]; 2] {
        match self {
            DitherPattern::Diagonal4 => [[0, 2], [3, 1]],
            DitherPattern::Horizontal4 => [[0, 3], [1, 2]],
            DitherPattern::Vertical4 => [[0, 1], [3, 2]],
            DitherPattern::Diagonal2 => [[0, 1], [1, 0]],
            DitherPattern::Horizontal2 => [[0, 1], [0, 1]],
            DitherPattern::Vertical2 => [[0, 0], [1, 1]],
        }
    }

    /// Candidate index per pixel position, indexed `[x & 1][y & 1]`.
    pub fn matrix(self) -> (matrix: [[u8; 2]; 2])
        ensures
            matrix == self.spec_matrix(),
    {
        match self {
            DitherPattern::Diagonal4 => [[0, 2], [3, 1]],
            DitherPattern::Horizontal4 => [[0, 3], [1, 2]],
            DitherPattern::Vertical4 => [[0, 1], [3, 2]],
            DitherPattern::Diagonal2 => [[0, 1], [1, 0]],
            DitherPattern::Horizontal2 => [[0, 1], [0, 1]],
            DitherPattern::Vertical2 => [[0, 0], [1, 1]],
        }
    }

    pub open spec fn spec_candidates(self) -> usize {
        match self {
            DitherPattern::Diagonal4 => 4,
            DitherPattern::Horizontal4 => 4,
            DitherPattern::Vertical4 => 4,
            DitherPattern::Diagonal2 => 2,
            DitherPattern::Horizontal2 => 2,
            DitherPattern::Vertical2 => 2,
        }
    }

    /// Number of error-diffused candidates the pattern selects from.
    pub fn candidates(self) -> (name: usize)
        ensures
            name == self.spec_candidates(),
    {
        match self {
            DitherPattern::Diagonal4 => 4,
            DitherPattern::Horizontal4 => 4,
            DitherPattern::Vertical4 => 4,
            DitherPattern::Diagonal2 => 2,
            DitherPattern::Horizontal2 => 2,
            DitherPattern::Vertical2 => 2,
        }
    }

}

impl Default for DitherPattern {
    fn default() -> (value: Self)
        ensures
            value == DitherPattern::Diagonal2,
    {
        DitherPattern::Diagonal2
    }
}

/// A palette entry as the Qualetize library lays it out.
#[derive(Clone, Copy, Debug, PartialEq, Eq, Structural)]
pub struct BGRA8 {
    pub b: u8,
    pub g: u8,
    pub r: u8,
    pub a: u8,
}

/// The key color index 0 stands for when it is transparent, if any.
#[derive(Clone, Copy, Debug, PartialEq, Eq, Structural)]
pub enum ClearColor {
    NoColor,
    Rgb(u8, u8, u8),
}

impl Default for ClearColor {
    fn default() -> (value: Self)
        ensures
            value == ClearColor::NoColor,
    {
        ClearColor::NoColor
    }
}

impl ClearColor {
    pub open spec fn spec_to_bgra8(self) -> BGRA8 {
        match self {
            ClearColor::NoColor => BGRA8 { b: 0, g: 0, r: 0, a: 0 },
            ClearColor::Rgb(r, g, b) => BGRA8 { b, g, r, a: 0xFF },
        }
    }

    /// The color as the library's plan takes it: opaque when set, all zero
    /// otherwise.
    pub fn to_bgra8(self) -> (color: BGRA8)
        ensures
            color == self.spec_to_bgra8(),
    {
        match self {
            ClearColor::NoColor => BGRA8 { b: 0, g: 0, r: 0, a: 0 },
            ClearColor::Rgb(r, g, b) => BGRA8 { b, g, r, a: 0xFF },
        }
    }
}

/// What goes into index 0 of every palette. Shared by both engines; Qualetize
/// has no shared color and runs `Shared` as `Unique`.
#[derive(Clone, Copy, Debug, PartialEq, Eq, Structural)]
pub enum FirstColor {
    /// An ordinary quantized color, different per palette.
    Unique,
    /// The shared color in every palette, kept fixed during optimization.
    Shared,
    /// The transparent color, inserted at output; pixels with alpha below 255 map to it.
    TransparentFromAlpha,
    /// The transparent color, inserted at output; pixels whose RGB equals it map to it.
    TransparentFromColor,
}

impl Default for FirstColor {
    fn default() -> (value: Self)
        ensures
            value == FirstColor::Unique,
    {
        FirstColor::Unique
    }
}

impl FirstColor {
    pub open spec fn spec_description(self) -> Seq<char> {
        match self {
            FirstColor::Unique => "Index 0 is a normal color, chosen per palette"@,
            FirstColor::Shared => "Index 0 of every palette is the same color; Qualetize has no shared color and treats this as Unique"@,
            FirstColor::TransparentFromAlpha => "Index 0 is transparent; pixels with alpha below 255 map to it"@,
            FirstColor::TransparentFromColor => "Index 0 is transparent; pixels matching the color beside it map to it"@,
        }
    }

    pub fn description(&self) -> (name: &'static str)
        ensures
            name@ == self.spec_description(),
    {
        match self {
            FirstColor::Unique => "Index 0 is a normal color, chosen per palette",
            FirstColor::Shared => "Index 0 of every palette is the same color; Qualetize has no shared color and treats this as Unique",
            FirstColor::TransparentFromAlpha => "Index 0 is transparent; pixels with alpha below 255 map to it",
            FirstColor::TransparentFromColor => "Index 0 is transparent; pixels matching the color beside it map to it",
        }
    }

    pub open spec fn spec_pins_index_zero(self) -> bool {
        self != FirstColor::Unique
    }

    /// Whether index 0 is reserved and must stay in place (palette sort,
    /// optimization).
    pub fn pins_index_zero(self) -> (pinned: bool)
        ensures
            pinned == self.spec_pins_index_zero(),
    {
        !matches!(self, FirstColor::Unique)
    }

    pub open spec fn spec_is_transparent(self) -> bool {
        self == FirstColor::TransparentFromAlpha || self == FirstColor::TransparentFromColor
    }

    /// Whether index 0 is inserted at output rather than optimized.
    pub fn is_transparent(self) -> (transparent: bool)
        ensures
            transparent == self.spec_is_transparent(),
    {
        matches!(self, FirstColor::TransparentFromAlpha | FirstColor::TransparentFromColor)
    }
}

/// The name the results list gives an index 0 mode.
pub open spec fn spec_first_color_name(first_color: FirstColor) -> Seq<char> {
        match first_color {
            FirstColor::Unique => "Unique"@,
            FirstColor::Shared => "Shared color"@,
            FirstColor::TransparentFromAlpha => "Transparent, from alpha"@,
            FirstColor::TransparentFromColor => "Transparent, from color"@,
        }
    }

pub fn first_color_name(first_color: FirstColor) -> (name: &'static str)
        ensures
            name@ == spec_first_color_name(first_color),
    {
        match first_color {
            FirstColor::Unique => "Unique",
            FirstColor::Shared => "Shared color",
            FirstColor::TransparentFromAlpha => "Transparent, from alpha",
            FirstColor::TransparentFromColor => "Transparent, from color",
        }
    }

/// The index 0 modes as the settings combo box groups them: the two
/// transparent variants collapse into one entry, picked below it.
#[derive(Clone, Copy, Debug, PartialEq, Eq, Structural)]
pub enum FirstColorKind {
    Unique,
    Shared,
    Transparent,
}

impl FirstColorKind {
    pub open spec fn spec_from(first_color: FirstColor) -> FirstColorKind {
        match first_color {
            FirstColor::Unique => FirstColorKind::Unique,
            FirstColor::Shared => FirstColorKind::Shared,
            FirstColor::TransparentFromAlpha | FirstColor::TransparentFromColor => FirstColorKind::Transparent,
        }
    }

    pub fn from(first_color: FirstColor) -> (kind: Self)
        ensures
            kind == Self::spec_from(first_color),
    {
        match first_color {
            FirstColor::Unique => FirstColorKind::Unique,
            FirstColor::Shared => FirstColorKind::Shared,
            FirstColor::TransparentFromAlpha | FirstColor::TransparentFromColor => FirstColorKind::Transparent,
        }
    }

    pub open spec fn spec_resolve(self, current: FirstColor) -> FirstColor {
        match self {
            FirstColorKind::Unique => FirstColor::Unique,
            FirstColorKind::Shared => FirstColor::Shared,
            FirstColorKind::Transparent => if current.spec_is_transparent() {
                current
            } else {
                FirstColor::TransparentFromAlpha
            },
        }
    }

    /// The mode this kind stands for, coming from `current`: picking
    /// Transparent while already on a transparent variant keeps it.
    pub fn resolve(self, current: FirstColor) -> (mode: FirstColor)
        ensures
            mode == self.spec_resolve(current),
            Self::spec_from(mode) == self,
    {
        match self {
            FirstColorKind::Unique => FirstColor::Unique,
            FirstColorKind::Shared => FirstColor::Shared,
            FirstColorKind::Transparent => if current.is_transparent() {
                current
            } else {
                FirstColor::TransparentFromAlpha
            },
        }
    }

    pub open spec fn spec_display_name(self) -> Seq<char> {
        match self {
            FirstColorKind::Unique => "Unique"@,
            FirstColorKind::Shared => "Shared color"@,
            FirstColorKind::Transparent => "Transparent"@,
        }
    }

    pub fn display_name(&self) -> (name: &'static str)
        ensures
            name@ == self.spec_display_name(),
    {
        match self {
            FirstColorKind::Unique => "Unique",
            FirstColorKind::Shared => "Shared color",
            FirstColorKind::Transparent => "Transparent",
        }
    }

    pub open spec fn spec_description(self) -> Seq<char> {
        match self {
            FirstColorKind::Unique => FirstColor::Unique.spec_description(),
            FirstColorKind::Shared => FirstColor::Shared.spec_description(),
            FirstColorKind::Transparent => "Index 0 is transparent; choose how below"@,
        }
    }

    pub fn description(&self) -> (text: &'static str)
        ensures
            text@ == self.spec_description(),
    {
        match self {
            FirstColorKind::Unique => FirstColor::Unique.description(),
            FirstColorKind::Shared => FirstColor::Shared.description(),
            FirstColorKind::Transparent => "Index 0 is transparent; choose how below",
        }
    }

    pub fn all() -> (list: &'static [FirstColorKind])
        ensures
            list@ == seq![
                FirstColorKind::Unique,
                FirstColorKind::Shared,
                FirstColorKind::Transparent,
            ],
    {
        &[
            FirstColorKind::Unique,
            FirstColorKind::Shared,
            FirstColorKind::Transparent,
        ]
    }

}

/// The target format presets of the settings panel.
#[derive(Clone, Copy, Debug, PartialEq, Eq, Structural)]
pub enum QualetizePreset {
    Genesis,
    GenesisFullPals,
    GbaNds,
    GbaNdsFullPals,
}

impl QualetizePreset {
    pub open spec fn spec_display_name(self) -> Seq<char> {
        match self {
            QualetizePreset::Genesis => "Genesis"@,
            QualetizePreset::GenesisFullPals => "Genesis (full palettes)"@,
            QualetizePreset::GbaNds => "GBA/NDS"@,
            QualetizePreset::GbaNdsFullPals => "GBA/NDS (full palettes)"@,
        }
    }

    pub fn display_name(&self) -> (name: &'static str)
        ensures
            name@ == self.spec_display_name(),
    {
        match self {
            QualetizePreset::Genesis => "Genesis",
            QualetizePreset::GenesisFullPals => "Genesis (full palettes)",
            QualetizePreset::GbaNds => "GBA/NDS",
            QualetizePreset::GbaNdsFullPals => "GBA/NDS (full palettes)",
        }
    }

    pub fn all() -> (list: &'static [QualetizePreset])
        ensures
            list@ == seq![
                QualetizePreset::Genesis,
                QualetizePreset::GenesisFullPals,
                QualetizePreset::GbaNds,
                QualetizePreset::GbaNdsFullPals,
            ],
    {
        &[
            QualetizePreset::Genesis,
            QualetizePreset::GenesisFullPals,
            QualetizePreset::GbaNds,
            QualetizePreset::GbaNdsFullPals,
        ]
    }

}

impl Default for QualetizePreset {
    fn default() -> (value: Self)
        ensures
            value == QualetizePreset::Genesis,
    {
        QualetizePreset::Genesis
    }
}

/// The color correction presets of the settings panel.
#[derive(Clone, Copy, Debug, PartialEq, Eq, Structural)]
pub enum ColorCorrectionPreset {
    Neutral,
    Vibrant,
    Warm,
    Cool,
    Dark,
}

impl ColorCorrectionPreset {
    pub open spec fn spec_display_name(self) -> Seq<char> {
        match self {
            ColorCorrectionPreset::Neutral => "None"@,
            ColorCorrectionPreset::Vibrant => "Vibrant"@,
            ColorCorrectionPreset::Warm => "Warm"@,
            ColorCorrectionPreset::Cool => "Cool"@,
            ColorCorrectionPreset::Dark => "Dark"@,
        }
    }

    pub fn display_name(&self) -> (name: &'static str)
        ensures
            name@ == self.spec_display_name(),
    {
        match self {
            ColorCorrectionPreset::Neutral => "None",
            ColorCorrectionPreset::Vibrant => "Vibrant",
            ColorCorrectionPreset::Warm => "Warm",
            ColorCorrectionPreset::Cool => "Cool",
            ColorCorrectionPreset::Dark => "Dark",
        }
    }

    pub fn all() -> (list: &'static [ColorCorrectionPreset])
        ensures
            list@ == seq![
                ColorCorrectionPreset::Neutral,
                ColorCorrectionPreset::Vibrant,
                ColorCorrectionPreset::Warm,
                ColorCorrectionPreset::Cool,
                ColorCorrectionPreset::Dark,
            ],
    {
        &[
            ColorCorrectionPreset::Neutral,
            ColorCorrectionPreset::Vibrant,
            ColorCorrectionPreset::Warm,
            ColorCorrectionPreset::Cool,
            ColorCorrectionPreset::Dark,
        ]
    }

}

/// Which stage of the pipeline an export refers to.
#[derive(Clone, Copy, Debug, PartialEq, Eq, Structural)]
pub enum ExportSource {
    /// The input image after color correction, in full color.
    ColorCorrected,
    /// The indexed quantization result, before tile reduction.
    Qualetized,
    /// The indexed result after the tile reduction pass.
    TileReduced,
}

impl ExportSource {
    pub open spec fn spec_file_suffix(self) -> Seq<char> {
        match self {
            ExportSource::ColorCorrected => "color_corrected"@,
            ExportSource::Qualetized => "qualetized"@,
            ExportSource::TileReduced => "tile_reduced"@,
        }
    }

    /// Appended to the input file name to build the default export name.
    pub fn file_suffix(self) -> (name: &'static str)
        ensures
            name@ == self.spec_file_suffix(),
    {
        match self {
            ExportSource::ColorCorrected => "color_corrected",
            ExportSource::Qualetized => "qualetized",
            ExportSource::TileReduced => "tile_reduced",
        }
    }

}

/// The light / dark appearance of the UI.
#[derive(Clone, Copy, Debug, PartialEq, Eq, Structural)]
pub enum AppearanceMode {
    System,
    Light,
    Dark,
}

impl Default for AppearanceMode {
    fn default() -> (value: Self)
        ensures
            value == AppearanceMode::System,
    {
        AppearanceMode::System
    }
}

/// The top-left pixel of the input, as the "Use top-left color" buttons and
/// the presets read it.
#[derive(Clone, Copy, Debug, PartialEq, Eq)]
pub enum TopLeftPixel {
    /// Fully opaque, so its RGB is usable as a key or shared color.
    Color([u8; 3]),
    /// Not fully opaque: the image marks transparency with alpha, not a color.
    Transparent,
}

/// How unique tiles are counted.
#[derive(Clone, Copy, Debug, PartialEq, Eq, Structural)]
pub struct TileCountSettings {
    pub visible_only: bool,
    pub allow_flip_x: bool,
    pub allow_flip_y: bool,
}

impl Default for TileCountSettings {
    fn default() -> (value: Self)
        ensures
            value.visible_only && value.allow_flip_x && value.allow_flip_y,
    {
        TileCountSettings { visible_only: true, allow_flip_x: true, allow_flip_y: true }
    }
}

/// The options a unique tile count runs with.
#[derive(Clone, Copy, Debug, PartialEq, Eq, Structural)]
pub struct TileCountOptions {
    pub visible_only: bool,
    pub allow_flip_x: bool,
    pub allow_flip_y: bool,
}

/// How unique tiles are counted, and whether the counts are stale.
#[derive(Clone, Copy, Debug, PartialEq, Eq, Structural)]
pub struct TileCountState {
    pub settings: TileCountSettings,
    pub dirty: bool,
}

impl Default for TileCountState {
    fn default() -> (value: Self)
        ensures
            value.settings.visible_only && value.settings.allow_flip_x
                && value.settings.allow_flip_y,
            !value.dirty,
    {
        TileCountState { settings: TileCountSettings::default(), dirty: false }
    }
}

impl TileCountState {
    pub fn options(&self) -> (options: TileCountOptions)
        ensures
            options.visible_only == self.settings.visible_only,
            options.allow_flip_x == self.settings.allow_flip_x,
            options.allow_flip_y == self.settings.allow_flip_y,
    {
        TileCountOptions {
            visible_only: self.settings.visible_only,
            allow_flip_x: self.settings.allow_flip_x,
            allow_flip_y: self.settings.allow_flip_y,
        }
    }

    /// Force a recount on the next frame, keeping the stale number visible until then.
    pub fn mark_dirty(&mut self)
        ensures
            final(self).dirty,
            final(self).settings == old(self).settings,
    {
        self.dirty = true;
    }
}

/// The name of a dither pattern choice, `None` standing for no dithering.
pub fn tpq_dither_pattern_option_name(option: &Option<DitherPattern>) -> (name: &'static str)
    ensures
        name@ == match option {
            Option::None => "None"@,
            Option::Some(pattern) => pattern.spec_display_name(),
        },
{
    match option {
        Option::None => "None",
        Option::Some(pattern) => pattern.display_name(),
    }
}

/// "on" or "off", as the results list prints a switch.
pub fn on_off(enabled: bool) -> (text: &'static str)
    ensures
        text@ == (if enabled { "on"@ } else { "off"@ }),
{
    if enabled { "on" } else { "off" }
}

} // verus!
