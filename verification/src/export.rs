//! The indexed image file formats: the bytes of an 8-bit indexed BMP, and
//! the palette and transparency chunks of an indexed PNG.

use vstd::prelude::*;
use crate::formats::BGRA8;
use crate::text::{decimal, push_decimal, push_str};

verus! {

/// Palette entries a file can hold: an 8-bit index reaches 256 of them.
pub const MAX_PALETTE_ENTRIES: usize = 256;

/// Size of the BMP file header and info header together.
pub const BMP_HEADER_BYTES: u32 = 54;

/// Size of the BMP palette: always 256 entries of four bytes.
pub const BMP_PALETTE_BYTES: u32 = 1024;

/// `v` as four little-endian bytes.
pub open spec fn le32(v: nat) -> Seq<u8> {
    seq![
        (v % 256) as u8,
        (v / 256 % 256) as u8,
        (v / 65536 % 256) as u8,
        (v / 16777216 % 256) as u8,
    ]
}

/// `v` as two little-endian bytes.
pub open spec fn le16(v: nat) -> Seq<u8> {
    seq![(v % 256) as u8, (v / 256 % 256) as u8]
}

/// A BMP row of `width` one-byte pixels, padded to a multiple of four bytes.
pub open spec fn bmp_row_size(width: nat) -> nat {
    (width + 3) / 4 * 4
}

/// The 54 header bytes of an 8-bit indexed BMP of `width` x `height`
/// pixels with a 256 entry palette.
#[verifier::opaque]
pub open spec fn bmp_header(width: nat, height: nat) -> Seq<u8> {
    let image_size = bmp_row_size(width) * height;
    let data_offset = 54 + 1024;
    seq!['B' as u8, 'M' as u8] + le32(data_offset + image_size) + le32(0) + le32(data_offset)
        + le32(40) + le32(width) + le32(height) + le16(1) + le16(8) + le32(0) + le32(image_size)
        + le32(0) + le32(0) + le32(256) + le32(0)
}

/// The first `k` of the 256 BMP palette entries: the palette's own colors
/// as blue, green, red, alpha, then all-zero entries.
pub open spec fn bmp_palette(palette: Seq<BGRA8>, k: nat) -> Seq<u8>
    decreases k,
{
    if k == 0 {
        Seq::<u8>::empty()
    } else {
        let i = k - 1;
        bmp_palette(palette, (k - 1) as nat) + if i < palette.len() && i < 256 {
            let c = palette[i];
            seq![c.b, c.g, c.r, c.a]
        } else {
            seq![0u8, 0u8, 0u8, 0u8]
        }
    }
}

/// `n` zero bytes.
pub open spec fn zeros(n: nat) -> Seq<u8> {
    Seq::new(n, |i: int| 0u8)
}

/// The first `k` rows of the BMP pixel array: image rows bottom-up, each
/// padded with `pad` zero bytes.
pub open spec fn bmp_rows(pixels: Seq<u8>, width: nat, height: nat, pad: nat, k: nat) -> Seq<u8>
    decreases k,
{
    if k == 0 {
        Seq::<u8>::empty()
    } else {
        let y = height - k;
        bmp_rows(pixels, width, height, pad, (k - 1) as nat) + pixels.subrange(
            y * width,
            y * width + width,
        ) + zeros(pad)
    }
}

/// The whole file: header, palette, pixel rows.
pub open spec fn bmp_file(pixels: Seq<u8>, palette: Seq<BGRA8>, width: nat, height: nat) -> Seq<
    u8,
> {
    bmp_header(width, height) + bmp_palette(palette, 256) + bmp_rows(
        pixels,
        width,
        height,
        (bmp_row_size(width) - width) as nat,
        height,
    )
}

/// The message for `len` pixels where a `width` x `height` image is due.
pub open spec fn bmp_size_message(len: nat, width: nat, height: nat) -> Seq<char> {
    "indexed data has "@ + decimal(len) + " pixels, expected "@ + decimal(width) + "x"@
        + decimal(height)
}

fn push_le32(out: &mut Vec<u8>, v: u32)
    ensures
        final(out)@ == old(out)@ + le32(v as nat),
{
    out.push((v % 256) as u8);
    out.push((v / 256 % 256) as u8);
    out.push((v / 65536 % 256) as u8);
    out.push((v / 16777216 % 256) as u8);
    assert(final(out)@ =~= old(out)@ + le32(v as nat));
}

fn push_le16(out: &mut Vec<u8>, v: u16)
    ensures
        final(out)@ == old(out)@ + le16(v as nat),
{
    out.push((v % 256) as u8);
    out.push((v / 256 % 256) as u8);
    assert(final(out)@ =~= old(out)@ + le16(v as nat));
}

fn push_zeros(out: &mut Vec<u8>, n: usize)
    ensures
        final(out)@ == old(out)@ + zeros(n as nat),
{
    let ghost start = out@;
    let mut i: usize = 0;
    while i < n
        invariant
            i <= n,
            out@ == start + zeros(i as nat),
        decreases n - i,
    {
        out.push(0);
        i += 1;
        assert(out@ =~= start + zeros(i as nat));
    }
}

/// The 54 header bytes.
fn push_bmp_header(out: &mut Vec<u8>, width: u32, height: u32)
    requires
        bmp_row_size(width as nat) <= u32::MAX,
        BMP_HEADER_BYTES + BMP_PALETTE_BYTES + bmp_row_size(width as nat) * height <= u32::MAX,
    ensures
        final(out)@ == old(out)@ + bmp_header(width as nat, height as nat),
{
    assert(bmp_row_size(width as nat) * height >= 0) by (nonlinear_arith);
    let row_size: u32 = (width / 4 + if width % 4 == 0 { 0 } else { 1 }) * 4;
    assert(row_size == bmp_row_size(width as nat));
    let image_size: u32 = row_size * height;
    let data_offset: u32 = BMP_HEADER_BYTES + BMP_PALETTE_BYTES;
    let ghost start = out@;
    out.push(66);
    out.push(77);
    push_le32(out, data_offset + image_size);
    push_le32(out, 0);
    push_le32(out, data_offset);
    push_le32(out, 40);
    push_le32(out, width);
    push_le32(out, height);
    push_le16(out, 1);
    push_le16(out, 8);
    push_le32(out, 0);
    push_le32(out, image_size);
    push_le32(out, 0);
    push_le32(out, 0);
    push_le32(out, 256);
    push_le32(out, 0);
    proof {
        assert('B' as u8 == 66u8);
        assert('M' as u8 == 77u8);
        reveal(bmp_header);
        assert(out@ =~= start + bmp_header(width as nat, height as nat));
    }
}

/// The 256 palette entries.
fn push_bmp_palette(out: &mut Vec<u8>, palette: &[BGRA8])
    ensures
        final(out)@ == old(out)@ + bmp_palette(palette@, 256),
{
    let ghost start = out@;
    let mut k: usize = 0;
    while k < MAX_PALETTE_ENTRIES
        invariant
            k <= 256,
            out@ == start + bmp_palette(palette@, k as nat),
        decreases 256 - k,
    {
        if k < palette.len() {
            let c = palette[k];
            out.push(c.b);
            out.push(c.g);
            out.push(c.r);
            out.push(c.a);
        } else {
            out.push(0);
            out.push(0);
            out.push(0);
            out.push(0);
        }
        k += 1;
        assert(out@ =~= start + bmp_palette(palette@, k as nat));
    }
}

/// The pixel rows, bottom-up, each padded with `pad` zero bytes.
fn push_bmp_rows(out: &mut Vec<u8>, pixels: &[u8], width: u32, height: u32, pad: usize)
    requires
        pixels@.len() == width * height,
    ensures
        final(out)@ == old(out)@ + bmp_rows(
            pixels@,
            width as nat,
            height as nat,
            pad as nat,
            height as nat,
        ),
{
    let ghost start = out@;
    let w: usize = width as usize;
    let mut k: u32 = 0;
    while k < height
        invariant
            k <= height,
            pixels@.len() == width * height,
            w == width,
            out@ == start + bmp_rows(pixels@, width as nat, height as nat, pad as nat, k as nat),
        decreases height - k,
    {
        let y: u32 = height - 1 - k;
        assert(y * width + width <= width * height) by (nonlinear_arith)
            requires
                y < height,
        ;
        assert(pixels@.len() == pixels.len());
        let from: usize = y as usize * w;
        let ghost before = out@;
        let mut x: usize = 0;
        while x < w
            invariant
                x <= w,
                w == width,
                from == y * width,
                from + w <= pixels@.len(),
                pixels@.len() <= usize::MAX,
                out@ == before + pixels@.subrange(from as int, from + x),
            decreases w - x,
        {
            out.push(pixels[from + x]);
            x += 1;
            assert(out@ =~= before + pixels@.subrange(from as int, from + x));
        }
        push_zeros(out, pad);
        k += 1;
        assert(out@ =~= start + bmp_rows(pixels@, width as nat, height as nat, pad as nat, k as nat));
    }
}

proof fn lemma_bmp_palette_entries(palette: Seq<BGRA8>, k: nat)
    ensures
        bmp_palette(palette, k).len() == 4 * k,
        forall|i: int|
            0 <= i < k && i < palette.len() && i < 256 ==> {
                &&& #[trigger] bmp_palette(palette, k)[4 * i] == palette[i].b
                &&& bmp_palette(palette, k)[4 * i + 1] == palette[i].g
                &&& bmp_palette(palette, k)[4 * i + 2] == palette[i].r
                &&& bmp_palette(palette, k)[4 * i + 3] == palette[i].a
            },
        forall|q: int|
            0 <= q < 4 * k && (q / 4 >= palette.len() || q / 4 >= 256) ==> #[trigger] bmp_palette(palette, k)[q]
                == 0,
    decreases k,
{
    if k > 0 {
        lemma_bmp_palette_entries(palette, (k - 1) as nat);
        let before = bmp_palette(palette, (k - 1) as nat);
        let now = bmp_palette(palette, k);
        assert forall|i: int| 0 <= i < k && i < palette.len() && i < 256 implies {
            &&& #[trigger] now[4 * i] == palette[i].b
            &&& now[4 * i + 1] == palette[i].g
            &&& now[4 * i + 2] == palette[i].r
            &&& now[4 * i + 3] == palette[i].a
        } by {
            if i < k - 1 {
                assert(now[4 * i] == before[4 * i]);
                assert(now[4 * i + 1] == before[4 * i + 1]);
                assert(now[4 * i + 2] == before[4 * i + 2]);
                assert(now[4 * i + 3] == before[4 * i + 3]);
            }
        }
        assert forall|q: int| 0 <= q < 4 * k && (q / 4 >= palette.len() || q / 4 >= 256) implies #[trigger] now[q]
            == 0 by {
            if q < 4 * (k - 1) {
                assert(now[q] == before[q]);
            } else {
                assert(q / 4 == k - 1);
            }
        }
    }
}

/// The number four little-endian bytes starting at `at` stand for.
pub open spec fn le32_at(bytes: Seq<u8>, at: int) -> nat {
    (bytes[at] + 256 * bytes[at + 1] + 65536 * bytes[at + 2] + 16777216 * bytes[at + 3]) as nat
}

proof fn lemma_le32_value(v: nat)
    requires
        v < 0x1_0000_0000,
    ensures
        le32_at(le32(v), 0) == v,
{
    let a = v % 256;
    let b = v / 256 % 256;
    let c = v / 65536 % 256;
    let d = v / 16777216 % 256;
    vstd::arithmetic::div_mod::lemma_fundamental_div_mod(v as int, 256);
    vstd::arithmetic::div_mod::lemma_fundamental_div_mod((v / 256) as int, 256);
    vstd::arithmetic::div_mod::lemma_fundamental_div_mod((v / 65536) as int, 256);
    vstd::arithmetic::div_mod::lemma_div_denominator(v as int, 256, 256);
    vstd::arithmetic::div_mod::lemma_div_denominator(v as int, 65536, 256);
    assert(v / 16777216 < 256) by {
        vstd::arithmetic::div_mod::lemma_div_by_multiple_is_strongly_ordered(v as int, 0x1_0000_0000, 256, 16777216);
    }
    vstd::arithmetic::div_mod::lemma_small_mod((v / 16777216) as nat, 256);
    assert(v == a + 256 * b + 65536 * c + 16777216 * d) by (nonlinear_arith)
        requires
            v == 256 * (v / 256) + a,
            v / 256 == 256 * (v / 256 / 256) + b,
            v / 256 / 256 == v / 65536,
            v / 65536 == 256 * (v / 65536 / 256) + c,
            v / 65536 / 256 == v / 16777216,
            d == v / 16777216,
    ;
}

proof fn lemma_bmp_rows(pixels: Seq<u8>, width: nat, height: nat, pad: nat, k: nat)
    requires
        k <= height,
        pixels.len() == width * height,
    ensures
        bmp_rows(pixels, width, height, pad, k).len() == k * (width + pad),
        forall|r: int, x: int|
            0 <= r < k && 0 <= x < width ==> #[trigger] bmp_rows(pixels, width, height, pad, k)[r * (width + pad) + x]
                == pixels[(height - 1 - r) * width + x],
    decreases k,
{
    if k > 0 {
        let prev = (k - 1) as nat;
        lemma_bmp_rows(pixels, width, height, pad, prev);
        let before = bmp_rows(pixels, width, height, pad, prev);
        let now = bmp_rows(pixels, width, height, pad, k);
        let y = height - k;
        assert(y * width + width <= width * height) by (nonlinear_arith)
            requires
                y == height - k,
                k >= 1,
                k <= height,
        ;
        assert(0 <= y * width) by (nonlinear_arith)
            requires
                y >= 0,
        ;
        assert(k * (width + pad) == prev * (width + pad) + width + pad) by (nonlinear_arith)
            requires
                prev == k - 1,
        ;
        assert forall|r: int, x: int| 0 <= r < k && 0 <= x < width implies #[trigger] now[r * (width + pad) + x]
            == pixels[(height - 1 - r) * width + x] by {
            if r < prev {
                assert(r * (width + pad) + x < prev * (width + pad)) by (nonlinear_arith)
                    requires
                        0 <= r < prev,
                        0 <= x < width,
                ;
                assert(now[r * (width + pad) + x] == before[r * (width + pad) + x]);
            } else {
                assert(r * (width + pad) == prev * (width + pad));
                assert(now[r * (width + pad) + x] == pixels.subrange(y * width, y * width + width)[x]);
            }
        }
    }
}

proof fn lemma_header_fields(width: nat, height: nat)
    ensures
        ({
            let h = bmp_header(width, height);
            let size = 1078 + bmp_row_size(width) * height;
            &&& h.len() == 54
            &&& h[0] == 66 && h[1] == 77
            &&& h.subrange(2, 6) == le32(size as nat)
            &&& h.subrange(10, 14) == le32(1078)
            &&& h.subrange(18, 22) == le32(width)
            &&& h.subrange(22, 26) == le32(height)
            &&& h.subrange(26, 28) == le16(1)
            &&& h.subrange(28, 30) == le16(8)
        }),
{
    reveal(bmp_header);
    let h = bmp_header(width, height);
    let size = 1078 + bmp_row_size(width) * height;
    assert(h.subrange(2, 6) =~= le32(size as nat));
    assert(h.subrange(10, 14) =~= le32(1078));
    assert(h.subrange(18, 22) =~= le32(width));
    assert(h.subrange(22, 26) =~= le32(height));
    assert(h.subrange(26, 28) =~= le16(1));
    assert(h.subrange(28, 30) =~= le16(8));
}

proof fn lemma_le32_in(b: Seq<u8>, at: int, v: nat)
    requires
        0 <= at,
        at + 4 <= b.len(),
        b.subrange(at, at + 4) == le32(v),
        v < 0x1_0000_0000,
    ensures
        le32_at(b, at) == v,
{
    lemma_le32_value(v);
    assert(b[at] == le32(v)[0] && b[at + 1] == le32(v)[1] && b[at + 2] == le32(v)[2] && b[at + 3] == le32(v)[3]) by {
        assert(b.subrange(at, at + 4)[0] == b[at]);
        assert(b.subrange(at, at + 4)[1] == b[at + 1]);
        assert(b.subrange(at, at + 4)[2] == b[at + 2]);
        assert(b.subrange(at, at + 4)[3] == b[at + 3]);
    }
}

/// Where the header fields, the palette entries and the pixels sit in the
/// bytes of a BMP.
proof fn lemma_bmp_layout(b: Seq<u8>, pixels: Seq<u8>, palette: Seq<BGRA8>, width: u32, height: u32)
    requires
        b == bmp_file(pixels, palette, width as nat, height as nat),
        width > 0,
        pixels.len() == width * height,
        width * height <= u32::MAX,
        bmp_row_size(width as nat) <= u32::MAX,
        54 + 1024 + bmp_row_size(width as nat) * height <= u32::MAX,
    ensures
        ({
            &&& b.len() == 1078 + bmp_row_size(width as nat) * height
            &&& b[0] == 66 && b[1] == 77
            &&& le32_at(b, 2) == b.len()
            &&& le32_at(b, 10) == 1078
            &&& le32_at(b, 18) == width
            &&& le32_at(b, 22) == height
            &&& b[28] == 8 && b[29] == 0
            &&& forall|y: int, x: int|
                0 <= y < height && 0 <= x < width ==> #[trigger] b[1078 + (height - 1 - y) * bmp_row_size(
                    width as nat,
                ) + x] == pixels[y * width + x]
            &&& forall|k: int|
                0 <= k < palette.len() && k < 256 ==> {
                    &&& #[trigger] b[54 + 4 * k] == palette[k].b
                    &&& b[54 + 4 * k + 1] == palette[k].g
                    &&& b[54 + 4 * k + 2] == palette[k].r
                    &&& b[54 + 4 * k + 3] == palette[k].a
                }
            &&& forall|k: int|
                palette.len() <= k < 256 ==> #[trigger] b[54 + 4 * k] == 0 && b[54 + 4 * k + 1] == 0
                    && b[54 + 4 * k + 2] == 0 && b[54 + 4 * k + 3] == 0
        }),
{
    let rs = bmp_row_size(width as nat);
    let pad = (rs - width) as nat;
    let hdr = bmp_header(width as nat, height as nat);
    let pal = bmp_palette(palette, 256);
    let rows = bmp_rows(pixels, width as nat, height as nat, pad, height as nat);
    lemma_header_fields(width as nat, height as nat);
    lemma_bmp_palette_entries(palette, 256);
    lemma_bmp_rows(pixels, width as nat, height as nat, pad, height as nat);
    assert(rs == width + pad);
    assert(1078 + rs * height <= u32::MAX);
    assert(pal.len() == 1024);
    assert(rows.len() == height * (width + pad));
    assert(width < 0x1_0000_0000 && height < 0x1_0000_0000);
    assert forall|i: int| 0 <= i < 256 && i < palette.len() && i < 256 implies {
        &&& #[trigger] pal[4 * i] == palette[i].b
        &&& pal[4 * i + 1] == palette[i].g
        &&& pal[4 * i + 2] == palette[i].r
        &&& pal[4 * i + 3] == palette[i].a
    } by {
        assert(bmp_palette(palette, 256)[4 * i] == palette[i].b);
    }
    lemma_bmp_parts(hdr, pal, rows, pixels, palette, width as nat, height as nat, rs, pad);
    assert(b == hdr + pal + rows);
}

/// An indexed BMP is laid out as the format says: "BM", the file size,
/// the pixel data offset 1078, the width and height and 8 bits per pixel in
/// the header; then 256 palette entries, each blue, green, red, alpha, the
/// palette's own colors first and zeros after; then the rows bottom-up,
/// each padded to a multiple of four bytes.
pub proof fn law_bmp_layout(pixels: Seq<u8>, palette: Seq<BGRA8>, width: u32, height: u32)
    requires
        width > 0,
        pixels.len() == width * height,
        width * height <= u32::MAX,
        bmp_row_size(width as nat) <= u32::MAX,
        54 + 1024 + bmp_row_size(width as nat) * height <= u32::MAX,
    ensures
        ({
            let b = bmp_file(pixels, palette, width as nat, height as nat);
            &&& b.len() == 1078 + bmp_row_size(width as nat) * height
            &&& b[0] == 66 && b[1] == 77
            &&& le32_at(b, 2) == b.len()
            &&& le32_at(b, 10) == 1078
            &&& le32_at(b, 18) == width
            &&& le32_at(b, 22) == height
            &&& b[28] == 8 && b[29] == 0
            &&& forall|y: int, x: int|
                0 <= y < height && 0 <= x < width ==> #[trigger] b[1078 + (height - 1 - y) * bmp_row_size(
                    width as nat,
                ) + x] == pixels[y * width + x]
            &&& forall|k: int|
                0 <= k < palette.len() && k < 256 ==> {
                    &&& #[trigger] b[54 + 4 * k] == palette[k].b
                    &&& b[54 + 4 * k + 1] == palette[k].g
                    &&& b[54 + 4 * k + 2] == palette[k].r
                    &&& b[54 + 4 * k + 3] == palette[k].a
                }
            &&& forall|k: int|
                palette.len() <= k < 256 ==> #[trigger] b[54 + 4 * k] == 0 && b[54 + 4 * k + 1] == 0
                    && b[54 + 4 * k + 2] == 0 && b[54 + 4 * k + 3] == 0
        }),
{
    lemma_bmp_layout(bmp_file(pixels, palette, width as nat, height as nat), pixels, palette, width, height);
}

proof fn lemma_bmp_parts(
    hdr: Seq<u8>,
    pal: Seq<u8>,
    rows: Seq<u8>,
    pixels: Seq<u8>,
    palette: Seq<BGRA8>,
    width: nat,
    height: nat,
    rs: nat,
    pad: nat,
)
    requires
        width > 0,
        rs == width + pad,
        1078 + rs * height <= u32::MAX,
        hdr.len() == 54,
        hdr[0] == 66 && hdr[1] == 77,
        hdr.subrange(2, 6) == le32((1078 + rs * height) as nat),
        hdr.subrange(10, 14) == le32(1078),
        hdr.subrange(18, 22) == le32(width),
        hdr.subrange(22, 26) == le32(height),
        hdr.subrange(28, 30) == le16(8),
        width < 0x1_0000_0000,
        height < 0x1_0000_0000,
        pal.len() == 1024,
        forall|i: int|
            0 <= i < 256 && i < palette.len() && i < 256 ==> {
                &&& #[trigger] pal[4 * i] == palette[i].b
                &&& pal[4 * i + 1] == palette[i].g
                &&& pal[4 * i + 2] == palette[i].r
                &&& pal[4 * i + 3] == palette[i].a
            },
        forall|q: int| 0 <= q < 1024 && (q / 4 >= palette.len() || q / 4 >= 256) ==> #[trigger] pal[q] == 0,
        rows.len() == height * (width + pad),
        forall|r: int, x: int|
            0 <= r < height && 0 <= x < width ==> #[trigger] rows[r * (width + pad) + x] == pixels[(height - 1 - r)
                * width + x],
    ensures
        ({
            let b = hdr + pal + rows;
            &&& b.len() == 1078 + rs * height
            &&& b[0] == 66 && b[1] == 77
            &&& le32_at(b, 2) == b.len()
            &&& le32_at(b, 10) == 1078
            &&& le32_at(b, 18) == width
            &&& le32_at(b, 22) == height
            &&& b[28] == 8 && b[29] == 0
            &&& forall|y: int, x: int|
                0 <= y < height && 0 <= x < width ==> #[trigger] b[1078 + (height - 1 - y) * rs + x] == pixels[y
                    * width + x]
            &&& forall|k: int|
                0 <= k < palette.len() && k < 256 ==> {
                    &&& #[trigger] b[54 + 4 * k] == palette[k].b
                    &&& b[54 + 4 * k + 1] == palette[k].g
                    &&& b[54 + 4 * k + 2] == palette[k].r
                    &&& b[54 + 4 * k + 3] == palette[k].a
                }
            &&& forall|k: int|
                palette.len() <= k < 256 ==> #[trigger] b[54 + 4 * k] == 0 && b[54 + 4 * k + 1] == 0 && b[54 + 4 * k
                    + 2] == 0 && b[54 + 4 * k + 3] == 0
        }),
{
    let b = hdr + pal + rows;
    assert(b.len() == 1078 + rs * height) by (nonlinear_arith)
        requires
            b.len() == 54 + 1024 + height * (width + pad),
            rs == width + pad,
    ;
    assert(b.subrange(0, 54) =~= hdr);
    lemma_le32_in(hdr, 2, (1078 + rs * height) as nat);
    lemma_le32_in(hdr, 10, 1078);
    lemma_le32_in(hdr, 18, width);
    lemma_le32_in(hdr, 22, height);
    assert(le32_at(b, 2) == le32_at(hdr, 2));
    assert(le32_at(b, 10) == le32_at(hdr, 10));
    assert(le32_at(b, 18) == le32_at(hdr, 18));
    assert(le32_at(b, 22) == le32_at(hdr, 22));
    assert(hdr[28] == hdr.subrange(28, 30)[0] && hdr[29] == hdr.subrange(28, 30)[1]);
    assert(b[28] == hdr[28] && b[29] == hdr[29]);
    assert forall|y: int, x: int| 0 <= y < height && 0 <= x < width implies #[trigger] b[1078 + (height - 1 - y)
        * rs + x] == pixels[y * width + x] by {
        let r = height - 1 - y;
        assert(0 <= r * rs && r * rs + x < height * rs) by (nonlinear_arith)
            requires
                0 <= r < height,
                0 <= x < width,
                rs == width + pad,
        ;
        assert(b[1078 + r * rs + x] == rows[r * (width + pad) + x]);
    }
    assert forall|k: int| 0 <= k < palette.len() && k < 256 implies {
        &&& #[trigger] b[54 + 4 * k] == palette[k].b
        &&& b[54 + 4 * k + 1] == palette[k].g
        &&& b[54 + 4 * k + 2] == palette[k].r
        &&& b[54 + 4 * k + 3] == palette[k].a
    } by {
        assert(b[54 + 4 * k] == pal[4 * k]);
        assert(b[54 + 4 * k + 1] == pal[4 * k + 1]);
        assert(b[54 + 4 * k + 2] == pal[4 * k + 2]);
        assert(b[54 + 4 * k + 3] == pal[4 * k + 3]);
    }
    assert forall|k: int| palette.len() <= k < 256 implies #[trigger] b[54 + 4 * k] == 0 && b[54 + 4 * k + 1] == 0
        && b[54 + 4 * k + 2] == 0 && b[54 + 4 * k + 3] == 0 by {
        assert((4 * k) / 4 == k && (4 * k + 1) / 4 == k && (4 * k + 2) / 4 == k && (4 * k + 3) / 4 == k);
        assert(b[54 + 4 * k] == pal[4 * k]);
        assert(b[54 + 4 * k + 1] == pal[4 * k + 1]);
        assert(b[54 + 4 * k + 2] == pal[4 * k + 2]);
        assert(b[54 + 4 * k + 3] == pal[4 * k + 3]);
    }
}

/// The bytes of an 8-bit indexed BMP of `width` x `height` pixels: rows
/// stored bottom-up and padded to four bytes, a palette of always 256
/// entries (the first 256 of `palette`, the rest zero). Pixel data of any
/// other size than `width * height` is refused.
#[verifier::spinoff_prover]
pub fn encode_indexed_bmp(pixels: &[u8], palette: &[BGRA8], width: u32, height: u32) -> (r:
    Result<Vec<u8>, String>)
    requires
        width > 0,
        width * height <= u32::MAX,
        bmp_row_size(width as nat) <= u32::MAX,
        BMP_HEADER_BYTES + BMP_PALETTE_BYTES + bmp_row_size(width as nat) * height <= u32::MAX,
    ensures
        match r {
            Ok(bytes) => pixels@.len() == width * height && bytes@ == bmp_file(
                pixels@,
                palette@,
                width as nat,
                height as nat,
            ),
            Err(message) => pixels@.len() != width * height && message@ == bmp_size_message(
                pixels@.len(),
                width as nat,
                height as nat,
            ),
        },
        (r is Ok) == (pixels@.len() == width * height),
        r matches Ok(bytes) ==> {
            &&& bytes@.len() == 1078 + bmp_row_size(width as nat) * height
            &&& bytes@[0] == 66 && bytes@[1] == 77
            &&& le32_at(bytes@, 2) == bytes@.len()
            &&& le32_at(bytes@, 10) == 1078
            &&& le32_at(bytes@, 18) == width
            &&& le32_at(bytes@, 22) == height
            &&& bytes@[28] == 8 && bytes@[29] == 0
            &&& forall|y: int, x: int|
                0 <= y < height && 0 <= x < width ==> #[trigger] bytes@[1078 + (height - 1 - y) * bmp_row_size(
                    width as nat,
                ) + x] == pixels@[y * width + x]
            &&& forall|k: int|
                0 <= k < palette@.len() && k < 256 ==> {
                    &&& #[trigger] bytes@[54 + 4 * k] == palette@[k].b
                    &&& bytes@[54 + 4 * k + 1] == palette@[k].g
                    &&& bytes@[54 + 4 * k + 2] == palette@[k].r
                    &&& bytes@[54 + 4 * k + 3] == palette@[k].a
                }
            &&& forall|k: int|
                palette@.len() <= k < 256 ==> #[trigger] bytes@[54 + 4 * k] == 0 && bytes@[54 + 4 * k + 1] == 0
                    && bytes@[54 + 4 * k + 2] == 0 && bytes@[54 + 4 * k + 3] == 0
        },
{
    let expected: u32 = width * height;
    if pixels.len() != expected as usize {
        let mut m = String::new();
        push_str(&mut m, "indexed data has ");
        push_decimal(&mut m, pixels.len() as u64);
        push_str(&mut m, " pixels, expected ");
        push_decimal(&mut m, width as u64);
        push_str(&mut m, "x");
        push_decimal(&mut m, height as u64);
        return Err(m);
    }
    let row_size: u32 = (width / 4 + if width % 4 == 0 { 0 } else { 1 }) * 4;
    assert(row_size == bmp_row_size(width as nat));
    let mut out: Vec<u8> = Vec::new();
    push_bmp_header(&mut out, width, height);
    push_bmp_palette(&mut out, palette);
    push_bmp_rows(&mut out, pixels, width, height, (row_size - width) as usize);
    assert(out@ =~= bmp_file(pixels@, palette@, width as nat, height as nat));
    proof {
        lemma_bmp_layout(out@, pixels@, palette@, width, height);
    }
    Ok(out)
}

/// The PNG palette (`PLTE`) of the first 256 entries: red, green, blue of
/// each.
pub open spec fn png_palette(palette: Seq<BGRA8>) -> Seq<u8>
    decreases palette.len(),
{
    if palette.len() == 0 {
        Seq::<u8>::empty()
    } else {
        let c = palette.last();
        png_palette(palette.drop_last()) + seq![c.r, c.g, c.b]
    }
}

/// The PNG transparency (`tRNS`) of the first 256 entries: the alpha of
/// each.
pub open spec fn png_transparency(palette: Seq<BGRA8>) -> Seq<u8>
    decreases palette.len(),
{
    if palette.len() == 0 {
        Seq::<u8>::empty()
    } else {
        png_transparency(palette.drop_last()).push(palette.last().a)
    }
}

/// The first 256 entries of `palette`: all an indexed PNG can refer to.
pub open spec fn png_entries(palette: Seq<BGRA8>) -> Seq<BGRA8> {
    if palette.len() <= 256 {
        palette
    } else {
        palette.take(256)
    }
}

proof fn lemma_png_chunks(palette: Seq<BGRA8>)
    ensures
        png_palette(palette).len() == 3 * palette.len(),
        png_transparency(palette).len() == palette.len(),
        forall|k: int|
            0 <= k < palette.len() ==> {
                &&& #[trigger] png_palette(palette)[3 * k] == palette[k].r
                &&& png_palette(palette)[3 * k + 1] == palette[k].g
                &&& png_palette(palette)[3 * k + 2] == palette[k].b
                &&& png_transparency(palette)[k] == palette[k].a
            },
    decreases palette.len(),
{
    if palette.len() > 0 {
        let rest = palette.drop_last();
        lemma_png_chunks(rest);
        assert forall|k: int| 0 <= k < palette.len() implies {
            &&& #[trigger] png_palette(palette)[3 * k] == palette[k].r
            &&& png_palette(palette)[3 * k + 1] == palette[k].g
            &&& png_palette(palette)[3 * k + 2] == palette[k].b
            &&& png_transparency(palette)[k] == palette[k].a
        } by {
            if k < rest.len() {
                assert(palette[k] == rest[k]);
                assert(png_palette(rest)[3 * k] == palette[k].r);
            }
        }
    }
}

/// The PNG palette chunk holds each entry as red, green, blue, and the
/// transparency chunk its alpha, entry by entry.
pub proof fn law_png_chunks_follow_the_palette(palette: Seq<BGRA8>)
    ensures
        png_palette(palette).len() == 3 * palette.len(),
        png_transparency(palette).len() == palette.len(),
        forall|k: int|
            #![trigger palette[k]]
            0 <= k < palette.len() ==> png_palette(palette)[3 * k] == palette[k].r && png_palette(palette)[3 * k + 1]
                == palette[k].g && png_palette(palette)[3 * k + 2] == palette[k].b && png_transparency(palette)[k]
                == palette[k].a,
{
    lemma_png_chunks(palette);
    assert forall|k: int|
        #![trigger palette[k]]
        0 <= k < palette.len() implies png_palette(palette)[3 * k] == palette[k].r && png_palette(palette)[3 * k + 1]
            == palette[k].g && png_palette(palette)[3 * k + 2] == palette[k].b && png_transparency(palette)[k]
            == palette[k].a by {
        assert(png_palette(palette)[3 * k] == palette[k].r);
    }
}

/// The palette and transparency chunks of an indexed PNG written with
/// `palette`: red, green, blue, and alpha of its first 256 entries.
pub fn indexed_png_chunks(palette: &[BGRA8]) -> (chunks: (Vec<u8>, Vec<u8>))
    ensures
        chunks.0@ == png_palette(png_entries(palette@)),
        chunks.1@ == png_transparency(png_entries(palette@)),
        chunks.1@.len() == if palette@.len() <= 256 { palette@.len() } else { 256 },
        chunks.0@.len() == 3 * chunks.1@.len(),
        forall|k: int|
            #![trigger palette@[k]]
            0 <= k < chunks.1@.len() ==> chunks.0@[3 * k] == palette@[k].r && chunks.0@[3 * k + 1] == palette@[k].g
                && chunks.0@[3 * k + 2] == palette@[k].b && chunks.1@[k] == palette@[k].a,
{
    let n: usize = if palette.len() <= MAX_PALETTE_ENTRIES {
        palette.len()
    } else {
        MAX_PALETTE_ENTRIES
    };
    let ghost entries = png_entries(palette@);
    assert(entries.len() == n);
    let mut rgb: Vec<u8> = Vec::new();
    let mut alpha: Vec<u8> = Vec::new();
    let mut k: usize = 0;
    while k < n
        invariant
            k <= n,
            entries == png_entries(palette@),
            entries.len() == n,
            n <= palette@.len(),
            forall|i: int| 0 <= i < n ==> entries[i] == palette@[i],
            rgb@ == png_palette(entries.take(k as int)),
            alpha@ == png_transparency(entries.take(k as int)),
        decreases n - k,
    {
        let c = palette[k];
        proof {
            assert(entries.take(k as int + 1).drop_last() =~= entries.take(k as int));
            assert(entries.take(k as int + 1).last() == c);
        }
        rgb.push(c.r);
        rgb.push(c.g);
        rgb.push(c.b);
        alpha.push(c.a);
        k += 1;
        assert(rgb@ =~= png_palette(entries.take(k as int)));
    }
    assert(entries.take(n as int) =~= entries);
    proof {
        lemma_png_chunks(entries);
    }
    let chunks = (rgb, alpha);
    proof {
        assert forall|k: int|
            #![trigger palette@[k]]
            0 <= k < chunks.1@.len() implies chunks.0@[3 * k] == palette@[k].r && chunks.0@[3 * k + 1]
                == palette@[k].g && chunks.0@[3 * k + 2] == palette@[k].b && chunks.1@[k] == palette@[k].a by {
            assert(entries[k] == palette@[k]);
            assert(png_palette(entries)[3 * k] == entries[k].r);
            assert(png_palette(entries)[3 * k + 1] == entries[k].g);
            assert(png_palette(entries)[3 * k + 2] == entries[k].b);
            assert(png_transparency(entries)[k] == entries[k].a);
        }
    }
    chunks
}

} // verus!
