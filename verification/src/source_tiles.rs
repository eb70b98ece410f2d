//! Splitting the image into tiles, the unit tilepalquant chooses a palette
//! for: each tile's distinct colors with the number of pixels on each, and
//! the pixels themselves, leaving out the ones index 0 claims.

use vstd::prelude::*;
use crate::engine::{SourceImage, pixel_offset};

verus! {

/// Which pixels index 0 claims, and which the tiles therefore leave out.
#[derive(Clone, Copy, Debug, PartialEq, Eq)]
pub enum Transparency {
    /// Index 0 is an ordinary color; every pixel takes part.
    Opaque,
    /// Pixels with alpha below 255 are transparent.
    FromAlpha,
    /// Pixels whose RGB equals this color are transparent.
    FromColor((u8, u8, u8)),
}

/// One pixel of a tile, carrying the index of the tile it came from.
#[derive(Clone, Copy, Debug, PartialEq, Eq)]
pub struct TilePixel {
    pub tile_id: usize,
    pub color: (u8, u8, u8),
    pub x: u32,
    pub y: u32,
}

/// A tile's distinct colors in the order first seen, how many pixels carry
/// each, and the pixels.
pub struct TileColors {
    pub colors: Vec<(u8, u8, u8)>,
    pub counts: Vec<i32>,
    pub pixels: Vec<TilePixel>,
}

/// Whether two colors are the same.
fn same_rgb(a: (u8, u8, u8), b: (u8, u8, u8)) -> (same: bool)
    ensures
        same == (a == b),
{
    a.0 == b.0 && a.1 == b.1 && a.2 == b.2
}

/// The RGB of the pixel at `x`, `y`.
pub open spec fn rgb_at(data: Seq<u8>, width: nat, x: nat, y: nat) -> (u8, u8, u8) {
    let o = pixel_offset(width, x, y) as int;
    (data[o], data[o + 1], data[o + 2])
}

/// The alpha of the pixel at `x`, `y`.
pub open spec fn alpha_at(data: Seq<u8>, width: nat, x: nat, y: nat) -> u8 {
    data[pixel_offset(width, x, y) + 3int]
}

/// Whether the pixel at `x`, `y` is one index 0 claims.
pub open spec fn claimed(data: Seq<u8>, width: nat, x: nat, y: nat, transparency: Transparency) -> bool {
    match transparency {
        Transparency::Opaque => false,
        Transparency::FromAlpha => alpha_at(data, width, x, y) < 255,
        Transparency::FromColor(key) => rgb_at(data, width, x, y) == key,
    }
}

/// The end of a tile's span starting at `start`, `size` long, clamped to
/// `limit`.
pub open spec fn span_end(start: nat, size: nat, limit: nat) -> nat {
    if start + size <= limit { start + size } else { limit }
}

/// How many pixels of a span starting at `start`, `size` long, lie below
/// `limit`.
pub open spec fn span_len(start: nat, size: nat, limit: nat) -> nat {
    let end = span_end(start, size, limit);
    if end > start { (end - start) as nat } else { 0 }
}

/// The pixels the first `k` positions of a `span_w` wide region at
/// `start_x`, `start_y` contribute, row by row: every one index 0 does not
/// claim.
pub open spec fn region_pixels(
    data: Seq<u8>,
    width: nat,
    start_x: nat,
    start_y: nat,
    span_w: nat,
    transparency: Transparency,
    tile_id: usize,
    k: nat,
) -> Seq<TilePixel>
    decreases k,
{
    if k == 0 || span_w == 0 {
        Seq::empty()
    } else {
        let p = (k - 1) as nat;
        let x = start_x + p % span_w;
        let y = start_y + p / span_w;
        let before = region_pixels(data, width, start_x, start_y, span_w, transparency, tile_id, p);
        if claimed(data, width, x, y, transparency) {
            before
        } else {
            before.push(TilePixel { tile_id, color: rgb_at(data, width, x, y), x: x as u32, y: y as u32 })
        }
    }
}

/// The colors of `pixels`, each once, in the order first seen.
pub open spec fn first_seen(pixels: Seq<TilePixel>) -> Seq<(u8, u8, u8)>
    decreases pixels.len(),
{
    if pixels.len() == 0 {
        Seq::empty()
    } else {
        let before = first_seen(pixels.drop_last());
        if before.contains(pixels.last().color) {
            before
        } else {
            before.push(pixels.last().color)
        }
    }
}

/// How many of `pixels` have `color`.
pub open spec fn count_color(pixels: Seq<TilePixel>, color: (u8, u8, u8)) -> nat
    decreases pixels.len(),
{
    if pixels.len() == 0 {
        0
    } else {
        count_color(pixels.drop_last(), color) + if pixels.last().color == color { 1nat } else { 0 }
    }
}

proof fn lemma_count_bound(pixels: Seq<TilePixel>, color: (u8, u8, u8))
    ensures
        count_color(pixels, color) <= pixels.len(),
    decreases pixels.len(),
{
    if pixels.len() > 0 {
        lemma_count_bound(pixels.drop_last(), color);
    }
}

/// The colors first seen are each seen once, and a color some pixel has
/// is among them.
proof fn lemma_first_seen_facts(pixels: Seq<TilePixel>)
    ensures
        forall|i: int, j: int|
            0 <= i < first_seen(pixels).len() && 0 <= j < first_seen(pixels).len() && i != j
                ==> first_seen(pixels)[i] != first_seen(pixels)[j],
        forall|c: (u8, u8, u8)| !first_seen(pixels).contains(c) ==> count_color(pixels, c) == 0,
    decreases pixels.len(),
{
    if pixels.len() > 0 {
        lemma_first_seen_facts(pixels.drop_last());
        let before = first_seen(pixels.drop_last());
        if !before.contains(pixels.last().color) {
            let now = before.push(pixels.last().color);
            assert forall|c: (u8, u8, u8)| !now.contains(c) implies count_color(pixels, c) == 0 by {
                if before.contains(c) {
                    let i = choose|i: int| 0 <= i < before.len() && before[i] == c;
                    assert(now[i] == c);
                }
                assert(c != pixels.last().color) by {
                    assert(now[before.len() as int] == pixels.last().color);
                }
                assert(count_color(pixels, c) == count_color(pixels.drop_last(), c));
            }
        } else {
            assert forall|c: (u8, u8, u8)| !before.contains(c) implies count_color(pixels, c) == 0 by {
                assert(c != pixels.last().color);
                assert(count_color(pixels, c) == count_color(pixels.drop_last(), c));
            }
        }
    }
}

proof fn lemma_region_len(
    data: Seq<u8>,
    width: nat,
    start_x: nat,
    start_y: nat,
    span_w: nat,
    transparency: Transparency,
    tile_id: usize,
    k: nat,
)
    ensures
        region_pixels(data, width, start_x, start_y, span_w, transparency, tile_id, k).len() <= k,
    decreases k,
{
    if k > 0 && span_w > 0 {
        lemma_region_len(data, width, start_x, start_y, span_w, transparency, tile_id, (k - 1) as nat);
    }
}

/// The tile at `start_x`, `start_y`, clamped to the image at the right and
/// bottom edges: its pixels that index 0 does not claim, their distinct
/// colors in the order first seen, and how many pixels carry each.
pub fn extract_tile(
    image: &SourceImage,
    start_x: u32,
    start_y: u32,
    tile_width: u32,
    tile_height: u32,
    transparency: Transparency,
    tile_id: usize,
) -> (tile: TileColors)
    requires
        image.width * image.height * 4 <= image.data@.len(),
        image.data@.len() <= usize::MAX,
        span_len(start_x as nat, tile_width as nat, image.width as nat) * span_len(
            start_y as nat,
            tile_height as nat,
            image.height as nat,
        ) <= i32::MAX,
    ensures
        ({
            let end_x = span_end(start_x as nat, tile_width as nat, image.width as nat);
            let end_y = span_end(start_y as nat, tile_height as nat, image.height as nat);
            let span_w: nat = if end_x > start_x { (end_x - start_x) as nat } else { 0 };
            let span_h: nat = if end_y > start_y { (end_y - start_y) as nat } else { 0 };
            let pixels = region_pixels(
                image.data@,
                image.width as nat,
                start_x as nat,
                start_y as nat,
                span_w,
                transparency,
                tile_id,
                span_w * span_h,
            );
            &&& tile.pixels@ == pixels
            &&& tile.colors@ == first_seen(pixels)
            &&& tile.counts@.len() == tile.colors@.len()
            &&& forall|i: int|
                0 <= i < tile.colors@.len() ==> #[trigger] tile.counts@[i] as int == count_color(
                    pixels,
                    tile.colors@[i],
                )
        }),
{
    let end_x: u32 = if start_x as u64 + tile_width as u64 <= image.width as u64 {
        start_x + tile_width
    } else {
        image.width
    };
    let end_y: u32 = if start_y as u64 + tile_height as u64 <= image.height as u64 {
        start_y + tile_height
    } else {
        image.height
    };
    let span_w: u32 = if end_x > start_x { end_x - start_x } else { 0 };
    let span_h: u32 = if end_y > start_y { end_y - start_y } else { 0 };
    let ghost data = image.data@;
    let ghost w = image.width as nat;
    let mut colors: Vec<(u8, u8, u8)> = Vec::new();
    let mut counts: Vec<i32> = Vec::new();
    let mut pixels: Vec<TilePixel> = Vec::new();
    let mut y: u32 = start_y;
    let ghost mut k: nat = 0;
    while y < end_y
        invariant
            image.width * image.height * 4 <= data.len(),
            data == image.data@,
            w == image.width,
            data.len() <= usize::MAX,
            end_x <= image.width,
            end_y <= image.height,
            span_w == (if end_x > start_x { end_x - start_x } else { 0 }),
            span_h == (if end_y > start_y { end_y - start_y } else { 0 }),
            span_w * span_h <= i32::MAX,
            start_y <= y <= end_y || (end_y <= start_y && y == start_y),
            k == span_w * (y - start_y),
            pixels@ == region_pixels(data, w, start_x as nat, start_y as nat, span_w as nat, transparency, tile_id, k),
            colors@ == first_seen(pixels@),
            counts@.len() == colors@.len(),
            forall|i: int| 0 <= i < colors@.len() ==> #[trigger] counts@[i] as int == count_color(pixels@, colors@[i]),
        decreases end_y - y,
    {
        let mut x: u32 = start_x;
        while x < end_x
            invariant
                image.width * image.height * 4 <= data.len(),
                data == image.data@,
                w == image.width,
                data.len() <= usize::MAX,
                end_x <= image.width,
                end_y <= image.height,
                span_w == (if end_x > start_x { end_x - start_x } else { 0 }),
                span_h == (if end_y > start_y { end_y - start_y } else { 0 }),
                span_w * span_h <= i32::MAX,
                start_y <= y < end_y,
                start_x <= x <= end_x || (end_x <= start_x && x == start_x),
                k == span_w * (y - start_y) + (x - start_x),
                pixels@ == region_pixels(data, w, start_x as nat, start_y as nat, span_w as nat, transparency, tile_id, k),
                colors@ == first_seen(pixels@),
                counts@.len() == colors@.len(),
                forall|i: int| 0 <= i < colors@.len() ==> #[trigger] counts@[i] as int == count_color(pixels@, colors@[i]),
            decreases end_x - x,
        {
            proof {
                assert(x + w * y < w * image.height) by (nonlinear_arith)
                    requires
                        x < w,
                        y < image.height,
                ;
                assert(span_w > 0);
                let p = k;
                vstd::arithmetic::div_mod::lemma_fundamental_div_mod(p as int, span_w as int);
                assert(p % (span_w as nat) == x - start_x && p / (span_w as nat) == y - start_y) by (nonlinear_arith)
                    requires
                        p == span_w * (y - start_y) + (x - start_x),
                        p == span_w * (p / (span_w as nat)) + p % (span_w as nat),
                        0 <= x - start_x < span_w,
                        0 <= p % (span_w as nat) < span_w,
                ;
                assert(k + 1 <= span_w * span_h) by (nonlinear_arith)
                    requires
                        k == span_w * (y - start_y) + (x - start_x),
                        y - start_y < span_h,
                        x - start_x < span_w,
                ;
            }
            let ghost px = start_x as nat + k % (span_w as nat);
            let ghost py = start_y as nat + k / (span_w as nat);
            assert(px == x && py == y);
            assert(4 * (x + w * y) + 3 < data.len()) by (nonlinear_arith)
                requires
                    x + w * y < w * image.height,
                    image.width * image.height * 4 <= data.len(),
                    w == image.width,
            ;
            let o: usize = image.offset(x, y);
            let claimed_here: bool = match transparency {
                Transparency::Opaque => false,
                Transparency::FromAlpha => image.alpha(x, y) < 255,
                Transparency::FromColor(key) => same_rgb(
                    (image.data[o], image.data[o + 1], image.data[o + 2]),
                    key,
                ),
            };
            let color: (u8, u8, u8) = (image.data[o], image.data[o + 1], image.data[o + 2]);
            proof {
                assert(color == rgb_at(data, w, x as nat, y as nat));
                assert(claimed_here == claimed(data, w, x as nat, y as nat, transparency));
            }
            if !claimed_here {
                let ghost before = pixels@;
                let ghost seen = colors@;
                let ghost pixel = TilePixel { tile_id, color, x, y };
                pixels.push(TilePixel { tile_id, color, x, y });
                proof {
                    lemma_region_len(data, w, start_x as nat, start_y as nat, span_w as nat, transparency, tile_id, k);
                    lemma_first_seen_facts(before);
                    assert(pixels@.drop_last() =~= before);
                    assert(pixels@.last() == pixel);
                }
                let mut i: usize = 0;
                while i < colors.len() && !same_rgb(colors[i], color)
                    invariant
                        i <= colors@.len(),
                        colors@ == seen,
                        counts@.len() == seen.len(),
                        forall|j: int| 0 <= j < i ==> seen[j] != color,
                    decreases colors.len() - i,
                {
                    i += 1;
                }
                if i < colors.len() {
                    let n: i32 = counts[i];
                    proof {
                        lemma_count_bound(before, color);
                    }
                    counts.set(i, n + 1);
                    proof {
                        assert(seen.contains(color));
                        assert forall|j: int| 0 <= j < colors@.len() implies #[trigger] counts@[j] as int
                            == count_color(pixels@, colors@[j]) by {
                            if j != i {
                                assert(seen[j] != seen[i as int]);
                            }
                        }
                    }
                } else {
                    proof {
                        assert(!seen.contains(color));
                        assert(count_color(before, color) == 0);
                    }
                    colors.push(color);
                    counts.push(1);
                    proof {
                        assert forall|j: int| 0 <= j < colors@.len() implies #[trigger] counts@[j] as int
                            == count_color(pixels@, colors@[j]) by {
                            if j < seen.len() {
                                assert(colors@[j] == seen[j]);
                                assert(seen[j] != color);
                            }
                        }
                    }
                }
            }
            x += 1;
            proof {
                k = k + 1;
            }
        }
        proof {
            assert(span_w * (y + 1 - start_y) == span_w * (y - start_y) + span_w) by (nonlinear_arith);
        }
        y += 1;
    }
    TileColors { colors, counts, pixels }
}

/// Tiles across: columns of `tile_width` that start inside `width`.
pub open spec fn tile_columns(width: nat, tile_width: nat) -> nat {
    (width + tile_width - 1) as nat / tile_width
}

/// The pixels of each tile that keeps at least one, for the first `j`
/// tile positions row-major (`tile_width` x `tile_height` apart), each
/// numbered by how many tiles were kept before it.
pub open spec fn kept_tiles(
    data: Seq<u8>,
    width: nat,
    height: nat,
    tile_width: nat,
    tile_height: nat,
    transparency: Transparency,
    j: nat,
) -> Seq<Seq<TilePixel>>
    decreases j,
{
    if j == 0 || tile_width == 0 {
        Seq::empty()
    } else {
        let before = kept_tiles(data, width, height, tile_width, tile_height, transparency, (j - 1) as nat);
        let cols = tile_columns(width, tile_width);
        let p = (j - 1) as nat;
        let start_x = (p % cols) * tile_width;
        let start_y = (p / cols) * tile_height;
        let span_w = span_len(start_x, tile_width, width);
        let span_h = span_len(start_y, tile_height, height);
        let pixels = region_pixels(
            data,
            width,
            start_x,
            start_y,
            span_w,
            transparency,
            before.len() as usize,
            span_w * span_h,
        );
        if pixels.len() == 0 {
            before
        } else {
            before.push(pixels)
        }
    }
}

/// `tile` holds `pixels`, their colors first seen, and how many carry each.
pub open spec fn tile_matches(tile: TileColors, pixels: Seq<TilePixel>) -> bool {
    &&& tile.pixels@ == pixels
    &&& tile.colors@ == first_seen(pixels)
    &&& tile.counts@.len() == tile.colors@.len()
    &&& forall|c: int|
        0 <= c < tile.colors@.len() ==> #[trigger] tile.counts@[c] as int == count_color(pixels, tile.colors@[c])
}

/// Each tile holds the pixels listed for it.
pub open spec fn tiles_match(tiles: Seq<TileColors>, kept: Seq<Seq<TilePixel>>) -> bool {
    &&& tiles.len() == kept.len()
    &&& forall|i: int| 0 <= i < kept.len() ==> tile_matches(#[trigger] tiles[i], kept[i])
}

proof fn lemma_columns(w: nat, tw: nat, col: nat)
    requires
        tw > 0,
    ensures
        (col * tw < w) == (col < tile_columns(w, tw)),
        col * tw >= w ==> col >= tile_columns(w, tw),
{
    let n = (w + tw - 1) as nat;
    vstd::arithmetic::div_mod::lemma_fundamental_div_mod(n as int, tw as int);
    let q = n / tw;
    let r = n % tw;
    assert((col * tw < w) == (col < q)) by (nonlinear_arith)
        requires
            n == w + tw - 1,
            n == tw * q + r,
            0 <= r < tw,
            tw > 0,
    ;
}

proof fn lemma_first_seen_empty(pixels: Seq<TilePixel>)
    ensures
        (first_seen(pixels).len() == 0) == (pixels.len() == 0),
    decreases pixels.len(),
{
    if pixels.len() > 0 {
        let before = first_seen(pixels.drop_last());
        if before.contains(pixels.last().color) {
            assert(before.len() > 0);
        }
    }
}

/// Every tile of the image that has at least one pixel left, numbered in
/// the order kept. A tile whose pixels index 0 all claims is dropped, and
/// does not take up a tile id.
pub fn extract_tiles(image: &SourceImage, tile_width: u32, tile_height: u32, transparency: Transparency) -> (tiles: Vec<TileColors>)
    requires
        tile_width > 0,
        tile_height > 0,
        tile_width * tile_height <= i32::MAX,
        image.width * image.height * 4 <= image.data@.len(),
    ensures
        tiles_match(
            tiles@,
            kept_tiles(
                image.data@,
                image.width as nat,
                image.height as nat,
                tile_width as nat,
                tile_height as nat,
                transparency,
                tile_columns(image.height as nat, tile_height as nat) * tile_columns(
                    image.width as nat,
                    tile_width as nat,
                ),
            ),
        ),
{
    let ghost data = image.data@;
    let ghost w = image.width as nat;
    let ghost h = image.height as nat;
    let ghost tw = tile_width as nat;
    let ghost th = tile_height as nat;
    let ghost cols = tile_columns(w, tw);
    let ghost rows = tile_columns(h, th);
    let mut tiles: Vec<TileColors> = Vec::new();
    let mut start_y: u64 = 0;
    let ghost mut row: nat = 0;
    assert(image.data@.len() == image.data.len());
    proof {
        lemma_columns(h, th, 0);
    }
    while start_y < image.height as u64
        invariant
            data == image.data@,
            w == image.width,
            h == image.height,
            tw == tile_width,
            th == tile_height,
            tw > 0,
            th > 0,
            tw * th <= i32::MAX,
            w * h * 4 <= data.len(),
            data.len() <= usize::MAX,
            cols == tile_columns(w, tw),
            rows == tile_columns(h, th),
            start_y == row * th,
            row <= rows,
            (row < rows) == (start_y < h),
            tiles_match(tiles@, kept_tiles(data, w, h, tw, th, transparency, row * cols)),
        decreases rows - row,
    {
        let mut start_x: u64 = 0;
        let ghost mut col: nat = 0;
        proof {
            lemma_columns(w, tw, 0);
        }
        while start_x < image.width as u64
            invariant
                data == image.data@,
                w == image.width,
                h == image.height,
                tw == tile_width,
                th == tile_height,
                tw > 0,
                th > 0,
                tw * th <= i32::MAX,
                w * h * 4 <= data.len(),
                data.len() <= usize::MAX,
                cols == tile_columns(w, tw),
                rows == tile_columns(h, th),
                start_y == row * th,
                start_y < h,
                row < rows,
                start_x == col * tw,
                col <= cols,
                (col < cols) == (start_x < w),
                tiles_match(tiles@, kept_tiles(data, w, h, tw, th, transparency, row * cols + col)),
            decreases cols - col,
        {
            let ghost j: nat = row * cols + col;
            let ghost before = tiles@;
            proof {
                vstd::arithmetic::div_mod::lemma_fundamental_div_mod(j as int, cols as int);
                assert(j % cols == col && j / cols == row) by (nonlinear_arith)
                    requires
                        j == row * cols + col,
                        j == cols * (j / cols) + j % cols,
                        0 <= j % cols < cols,
                        col < cols,
                ;
                assert(span_len(start_x as nat, tw, w) * span_len(start_y as nat, th, h) <= tw * th) by (nonlinear_arith)
                    requires
                        span_len(start_x as nat, tw, w) <= tw,
                        span_len(start_y as nat, th, h) <= th,
                ;
            }
            let tile = extract_tile(image, start_x as u32, start_y as u32, tile_width, tile_height, transparency, tiles.len());
            proof {
                lemma_first_seen_empty(tile.pixels@);
            }
            if tile.colors.len() > 0 {
                tiles.push(tile);
                proof {
                    assert(tiles@.drop_last() == before);
                }
            }
            proof {
                let next = kept_tiles(data, w, h, tw, th, transparency, j + 1);
                assert forall|i: int| 0 <= i < next.len() implies tile_matches(#[trigger] tiles@[i], next[i]) by {
                    if i < before.len() {
                        assert(tiles@[i] == before[i]);
                    }
                }
                assert(row * cols + col + 1 == row * cols + (col + 1));
                col = col + 1;
                lemma_columns(w, tw, col);
            }
            start_x = start_x + tile_width as u64;
            proof {
                assert(start_x == col * tw) by (nonlinear_arith)
                    requires
                        start_x == (col - 1) * tw + tw,
                ;
            }
        }
        proof {
            assert(row * cols + cols == (row + 1) * cols) by (nonlinear_arith);
            row = row + 1;
            lemma_columns(h, th, row);
        }
        start_y = start_y + tile_height as u64;
        proof {
            assert(start_y == row * th) by (nonlinear_arith)
                requires
                    start_y == (row - 1) * th + th,
            ;
        }
    }
    tiles
}

/// The pixels of `tiles`, back to back.
pub open spec fn all_pixels(tiles: Seq<TileColors>) -> Seq<TilePixel>
    decreases tiles.len(),
{
    if tiles.len() == 0 {
        Seq::empty()
    } else {
        all_pixels(tiles.drop_last()) + tiles.last().pixels@
    }
}

/// The pixels of every tile, back to back.
pub fn extract_all_pixels(tiles: &[TileColors]) -> (pixels: Vec<TilePixel>)
    ensures
        pixels@ == all_pixels(tiles@),
{
    let mut pixels: Vec<TilePixel> = Vec::new();
    let mut t: usize = 0;
    while t < tiles.len()
        invariant
            t <= tiles@.len(),
            pixels@ == all_pixels(tiles@.subrange(0, t as int)),
        decreases tiles@.len() - t,
    {
        let ghost done = pixels@;
        let tile = &tiles[t];
        let mut i: usize = 0;
        while i < tile.pixels.len()
            invariant
                i <= tile.pixels@.len(),
                pixels@ == done + tile.pixels@.subrange(0, i as int),
            decreases tile.pixels@.len() - i,
        {
            pixels.push(tile.pixels[i]);
            proof {
                assert(tile.pixels@.subrange(0, i + 1) == tile.pixels@.subrange(0, i as int).push(tile.pixels@[i as int]));
            }
            i += 1;
        }
        proof {
            let upto = tiles@.subrange(0, t + 1);
            assert(upto.drop_last() == tiles@.subrange(0, t as int));
            assert(upto.last() == tiles@[t as int]);
            assert(tile.pixels@.subrange(0, i as int) == tile.pixels@);
        }
        t += 1;
    }
    proof {
        assert(tiles@.subrange(0, t as int) == tiles@);
    }
    pixels
}

/// How many times `c` occurs in `colors`.
pub open spec fn occurrences(colors: Seq<(u8, u8, u8)>, c: (u8, u8, u8)) -> nat
    decreases colors.len(),
{
    if colors.len() == 0 {
        0
    } else {
        occurrences(colors.drop_last(), c) + if colors.last() == c { 1nat } else { 0 }
    }
}

/// The pixels of `pixels` carrying any of `colors`, each color counted as
/// often as it occurs there.
pub open spec fn total_count(colors: Seq<(u8, u8, u8)>, pixels: Seq<TilePixel>) -> nat
    decreases colors.len(),
{
    if colors.len() == 0 {
        0
    } else {
        total_count(colors.drop_last(), pixels) + count_color(pixels, colors.last())
    }
}

proof fn lemma_total_after_push(colors: Seq<(u8, u8, u8)>, pixels: Seq<TilePixel>, x: TilePixel)
    ensures
        total_count(colors, pixels.push(x)) == total_count(colors, pixels) + occurrences(colors, x.color),
    decreases colors.len(),
{
    if colors.len() > 0 {
        lemma_total_after_push(colors.drop_last(), pixels, x);
        assert(pixels.push(x).drop_last() == pixels);
    }
}

proof fn lemma_occurrences_of_distinct(colors: Seq<(u8, u8, u8)>, c: (u8, u8, u8))
    requires
        forall|i: int, j: int| 0 <= i < colors.len() && 0 <= j < colors.len() && i != j ==> colors[i] != colors[j],
    ensures
        occurrences(colors, c) == if colors.contains(c) { 1nat } else { 0 },
    decreases colors.len(),
{
    if colors.len() > 0 {
        let rest = colors.drop_last();
        lemma_occurrences_of_distinct(rest, c);
        if colors.last() == c {
            assert(!rest.contains(c)) by {
                if rest.contains(c) {
                    let i = choose|i: int| 0 <= i < rest.len() && rest[i] == c;
                    assert(colors[i] == colors[colors.len() - 1]);
                }
            }
            assert(colors[colors.len() - 1] == c);
        } else {
            assert(colors.contains(c) == rest.contains(c)) by {
                if colors.contains(c) {
                    let i = choose|i: int| 0 <= i < colors.len() && colors[i] == c;
                    assert(rest[i] == c);
                }
                if rest.contains(c) {
                    let i = choose|i: int| 0 <= i < rest.len() && rest[i] == c;
                    assert(colors[i] == c);
                }
            }
        }
    }
}

proof fn lemma_counts_of_first_seen(pixels: Seq<TilePixel>)
    ensures
        total_count(first_seen(pixels), pixels) == pixels.len(),
        forall|c: (u8, u8, u8)| first_seen(pixels).contains(c) ==> count_color(pixels, c) >= 1,
    decreases pixels.len(),
{
    if pixels.len() > 0 {
        let p = pixels.drop_last();
        let x = pixels.last();
        assert(p.push(x) == pixels);
        lemma_counts_of_first_seen(p);
        lemma_first_seen_facts(p);
        let before = first_seen(p);
        lemma_total_after_push(before, p, x);
        lemma_occurrences_of_distinct(before, x.color);
        assert(count_color(pixels, x.color) == count_color(p, x.color) + 1);
        if !before.contains(x.color) {
            assert(count_color(p, x.color) == 0);
            assert(first_seen(pixels) == before.push(x.color));
            assert(total_count(before.push(x.color), pixels) == total_count(before, pixels) + count_color(
                pixels,
                x.color,
            )) by {
                assert(before.push(x.color).drop_last() == before);
            }
            assert forall|c: (u8, u8, u8)| first_seen(pixels).contains(c) implies count_color(pixels, c) >= 1 by {
                let i = choose|i: int| 0 <= i < first_seen(pixels).len() && first_seen(pixels)[i] == c;
                if i < before.len() {
                    assert(before.contains(c));
                }
            }
        }
    }
}

/// A tile counts each of its colors once: the colors are distinct, every
/// one is carried by at least one pixel, and the counts add up to the
/// tile's pixels.
pub proof fn law_a_tile_counts_each_color_once(tile: TileColors, pixels: Seq<TilePixel>)
    requires
        tile_matches(tile, pixels),
    ensures
        forall|i: int, j: int|
            0 <= i < tile.colors@.len() && 0 <= j < tile.colors@.len() && i != j ==> tile.colors@[i]
                != tile.colors@[j],
        forall|i: int| 0 <= i < tile.counts@.len() ==> #[trigger] tile.counts@[i] >= 1,
        total_count(tile.colors@, pixels) == tile.pixels@.len(),
{
    lemma_first_seen_facts(pixels);
    lemma_counts_of_first_seen(pixels);
    assert forall|i: int| 0 <= i < tile.counts@.len() implies #[trigger] tile.counts@[i] >= 1 by {
        assert(first_seen(pixels).contains(tile.colors@[i]));
    }
}

proof fn lemma_region_ids(
    data: Seq<u8>,
    width: nat,
    start_x: nat,
    start_y: nat,
    span_w: nat,
    transparency: Transparency,
    tile_id: usize,
    k: nat,
)
    ensures
        forall|q: int|
            0 <= q < region_pixels(data, width, start_x, start_y, span_w, transparency, tile_id, k).len()
                ==> (#[trigger] region_pixels(data, width, start_x, start_y, span_w, transparency, tile_id, k)[q]).tile_id
                == tile_id,
    decreases k,
{
    if k > 0 && span_w > 0 {
        lemma_region_ids(data, width, start_x, start_y, span_w, transparency, tile_id, (k - 1) as nat);
        let before = region_pixels(data, width, start_x, start_y, span_w, transparency, tile_id, (k - 1) as nat);
        let now = region_pixels(data, width, start_x, start_y, span_w, transparency, tile_id, k);
        assert forall|q: int| 0 <= q < now.len() implies (#[trigger] now[q]).tile_id == tile_id by {
            if q < before.len() {
                assert(now[q] == before[q]);
            }
        }
    }
}

/// Tiles left with no pixel are dropped without taking up a tile id: the
/// tiles kept are numbered 0, 1, 2, ... in the order kept, and every pixel
/// carries the number of its tile. None of them is empty.
pub proof fn law_kept_tiles_are_numbered_in_order(
    data: Seq<u8>,
    width: nat,
    height: nat,
    tile_width: nat,
    tile_height: nat,
    transparency: Transparency,
    j: nat,
)
    requires
        j <= usize::MAX,
    ensures
        kept_tiles(data, width, height, tile_width, tile_height, transparency, j).len() <= j,
        forall|i: int, q: int|
            0 <= i < kept_tiles(data, width, height, tile_width, tile_height, transparency, j).len() && 0 <= q
                < kept_tiles(data, width, height, tile_width, tile_height, transparency, j)[i].len() ==> (#[trigger] kept_tiles(
                data,
                width,
                height,
                tile_width,
                tile_height,
                transparency,
                j,
            )[i][q]).tile_id == i,
        forall|i: int|
            0 <= i < kept_tiles(data, width, height, tile_width, tile_height, transparency, j).len() ==> (#[trigger] kept_tiles(
                data,
                width,
                height,
                tile_width,
                tile_height,
                transparency,
                j,
            )[i]).len() > 0,
    decreases j,
{
    if j > 0 && tile_width > 0 {
        law_kept_tiles_are_numbered_in_order(data, width, height, tile_width, tile_height, transparency, (j - 1) as nat);
        let before = kept_tiles(data, width, height, tile_width, tile_height, transparency, (j - 1) as nat);
        let cols = tile_columns(width, tile_width);
        let p = (j - 1) as nat;
        let start_x = (p % cols) * tile_width;
        let start_y = (p / cols) * tile_height;
        let span_w = span_len(start_x, tile_width, width);
        let span_h = span_len(start_y, tile_height, height);
        assert(before.len() <= j - 1);
        lemma_region_ids(data, width, start_x, start_y, span_w, transparency, before.len() as usize, span_w * span_h);
        let now = kept_tiles(data, width, height, tile_width, tile_height, transparency, j);
        assert forall|i: int, q: int| 0 <= i < now.len() && 0 <= q < now[i].len() implies (#[trigger] now[i][q]).tile_id
            == i by {
            if i < before.len() {
                assert(now[i] == before[i]);
            }
        }
        assert forall|i: int| 0 <= i < now.len() implies (#[trigger] now[i]).len() > 0 by {
            if i < before.len() {
                assert(now[i] == before[i]);
            }
        }
    }
}

} // verus!
