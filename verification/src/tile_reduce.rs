//! The pixel work of the tile reduction post-pass: resolving a tile's
//! indices to colors, the 3x3 box blur tiles are compared on, the squared
//! color distance, and the maps that read a tile in each allowed flip.

use vstd::prelude::*;
use crate::formats::BGRA8;

verus! {

/// The color an index resolves to for comparison, all zero past the end of
/// the palette.
pub open spec fn color4(palette: Seq<BGRA8>, index: u8) -> [u8; 4] {
    if (index as int) < palette.len() {
        let c = palette[index as int];
        [c.r, c.g, c.b, c.a]
    } else {
        [0u8, 0u8, 0u8, 0u8]
    }
}

/// Resolve `indices` through `palette` into `out`, as far as both reach.
pub fn expand_indices_to_colors_into(indices: &[u8], palette: &[BGRA8], out: &mut [[u8; 4]])
    ensures
        final(out)@.len() == old(out)@.len(),
        forall|i: int|
            0 <= i < old(out)@.len() ==> (#[trigger] final(out)@[i]) == (if i < indices@.len() {
                color4(palette@, indices@[i])
            } else {
                old(out)@[i]
            }),
{
    let n: usize = if out.len() < indices.len() { out.len() } else { indices.len() };
    let mut i: usize = 0;
    while i < n
        invariant
            n <= out@.len(),
            n <= indices@.len(),
            n == (if old(out)@.len() < indices@.len() { old(out)@.len() } else { indices@.len() }),
            i <= n,
            out@.len() == old(out)@.len(),
            forall|j: int|
                0 <= j < out@.len() ==> (#[trigger] out@[j]) == (if j < i {
                    color4(palette@, indices@[j])
                } else {
                    old(out)@[j]
                }),
        decreases n - i,
    {
        let idx: u8 = indices[i];
        let color = if (idx as usize) < palette.len() {
            let c = palette[idx as usize];
            [c.r, c.g, c.b, c.a]
        } else {
            [0, 0, 0, 0]
        };
        out[i] = color;
        i += 1;
    }
}

/// The squared difference of two channel values.
pub open spec fn sq(x: u8, y: u8) -> nat {
    ((x as int - y as int) * (x as int - y as int)) as nat
}

/// The squared distance of two colors over all four channels.
pub open spec fn spec_squared_diff(a: [u8; 4], b: [u8; 4]) -> nat {
    sq(a[0], b[0]) + sq(a[1], b[1]) + sq(a[2], b[2]) + sq(a[3], b[3])
}

fn sq_u8(x: u8, y: u8) -> (s: u64)
    ensures
        s == sq(x, y),
        s <= 65025,
{
    let d: i32 = x as i32 - y as i32;
    assert(d * d <= 65025 && d * d >= 0) by (nonlinear_arith)
        requires
            -255 <= d <= 255,
    ;
    (d * d) as u64
}

/// The squared distance of two colors over all four channels.
pub fn squared_diff(a: &[u8; 4], b: &[u8; 4]) -> (d: u64)
    ensures
        d == spec_squared_diff(*a, *b),
{
    sq_u8(a[0], b[0]) + sq_u8(a[1], b[1]) + sq_u8(a[2], b[2]) + sq_u8(a[3], b[3])
}

/// The most a tile may hold for its error total to fit in a `u64`: each
/// pixel adds at most four squared channel differences of 255.
pub open spec fn error_fits(n: nat) -> bool {
    n * 260100 <= u64::MAX
}

/// Squared error over the first `k` pixels of `tile`, pixel `i` compared
/// with `rep[map[i]]`.
pub open spec fn mapped_error(rep: Seq<[u8; 4]>, tile: Seq<[u8; 4]>, map: Seq<usize>, k: nat) -> nat
    decreases k,
{
    if k == 0 {
        0
    } else {
        mapped_error(rep, tile, map, (k - 1) as nat) + spec_squared_diff(
            rep[map[k - 1] as int],
            tile[k - 1],
        )
    }
}

/// Squared error over the first `k` pixels, pixel `i` compared with pixel
/// `i`.
pub open spec fn paired_error(rep: Seq<[u8; 4]>, tile: Seq<[u8; 4]>, k: nat) -> nat
    decreases k,
{
    if k == 0 {
        0
    } else {
        paired_error(rep, tile, (k - 1) as nat) + spec_squared_diff(rep[k - 1], tile[k - 1])
    }
}

proof fn lemma_squared_diff_bound(a: [u8; 4], b: [u8; 4])
    ensures
        spec_squared_diff(a, b) <= 260100,
{
    assert forall|x: u8, y: u8| sq(x, y) <= 65025 by {
        let d: int = x as int - y as int;
        assert(0 <= d * d <= 65025) by (nonlinear_arith)
            requires
                -255 <= d <= 255,
        ;
    }
    assert(sq(a[0], b[0]) <= 65025);
    assert(sq(a[1], b[1]) <= 65025);
    assert(sq(a[2], b[2]) <= 65025);
    assert(sq(a[3], b[3]) <= 65025);
}

proof fn lemma_mapped_error_bound(rep: Seq<[u8; 4]>, tile: Seq<[u8; 4]>, map: Seq<usize>, k: nat)
    ensures
        mapped_error(rep, tile, map, k) <= 260100 * k,
    decreases k,
{
    if k > 0 {
        lemma_mapped_error_bound(rep, tile, map, (k - 1) as nat);
        lemma_squared_diff_bound(rep[map[k - 1] as int], tile[k - 1]);
    }
}

proof fn lemma_paired_error_monotone(rep: Seq<[u8; 4]>, tile: Seq<[u8; 4]>, j: nat, k: nat)
    requires
        j <= k,
    ensures
        paired_error(rep, tile, j) <= paired_error(rep, tile, k),
        paired_error(rep, tile, k) <= 260100 * k,
    decreases k,
{
    if k > 0 {
        lemma_squared_diff_bound(rep[k - 1], tile[k - 1]);
        let j0: nat = if j < k { j } else { (k - 1) as nat };
        lemma_paired_error_monotone(rep, tile, j0, (k - 1) as nat);
    }
}

/// Total squared error between `rep` and `tile` read through `map`
/// (`tile[i]` is compared with `rep[map[i]]`); `None` when the three do not
/// have one common, non-zero length.
pub fn tile_error_with_map(rep: &[[u8; 4]], tile: &[[u8; 4]], map: &[usize]) -> (error: Option<u64>)
    requires
        error_fits(rep@.len()),
        rep@.len() == tile@.len() && rep@.len() == map@.len() ==> forall|i: int|
            0 <= i < map@.len() ==> (#[trigger] map@[i]) < rep@.len(),
    ensures
        error == if rep@.len() != tile@.len() || rep@.len() == 0 || map@.len() != rep@.len() {
            None
        } else {
            Some(mapped_error(rep@, tile@, map@, map@.len()) as u64)
        },
{
    if rep.len() != tile.len() || rep.len() == 0 || map.len() != rep.len() {
        return None;
    }
    let mut error: u64 = 0;
    let mut i: usize = 0;
    while i < map.len()
        invariant
            rep@.len() == tile@.len(),
            rep@.len() == map@.len(),
            error_fits(rep@.len()),
            forall|j: int| 0 <= j < map@.len() ==> (#[trigger] map@[j]) < rep@.len(),
            i <= map@.len(),
            error == mapped_error(rep@, tile@, map@, i as nat),
        decreases map.len() - i,
    {
        proof {
            lemma_mapped_error_bound(rep@, tile@, map@, (i + 1) as nat);
            assert(260100 * (i + 1) <= 260100 * rep@.len()) by (nonlinear_arith)
                requires
                    i + 1 <= rep@.len(),
            ;
        }
        error = error + squared_diff(&rep[map[i]], &tile[i]);
        i += 1;
    }
    Some(error)
}

/// Total squared error between two tiles already in the same orientation,
/// giving up as soon as it exceeds `stop` since the caller only wants the
/// smallest; `None` also when the tiles differ in length or are empty.
pub fn tile_error_fast(rep: &[[u8; 4]], tile: &[[u8; 4]], stop: u64) -> (error: Option<u64>)
    requires
        error_fits(rep@.len()),
    ensures
        error == if rep@.len() != tile@.len() || rep@.len() == 0 || paired_error(
            rep@,
            tile@,
            rep@.len(),
        ) > stop {
            None
        } else {
            Some(paired_error(rep@, tile@, rep@.len()) as u64)
        },
{
    if rep.len() != tile.len() || rep.len() == 0 {
        return None;
    }
    let mut error: u64 = 0;
    let mut i: usize = 0;
    while i < rep.len()
        invariant
            rep@.len() == tile@.len(),
            error_fits(rep@.len()),
            i <= rep@.len(),
            error == paired_error(rep@, tile@, i as nat),
            error <= stop,
        decreases rep.len() - i,
    {
        proof {
            lemma_paired_error_monotone(rep@, tile@, (i + 1) as nat, (i + 1) as nat);
            assert(260100 * (i + 1) <= 260100 * rep@.len()) by (nonlinear_arith)
                requires
                    i + 1 <= rep@.len(),
            ;
        }
        error = error + squared_diff(&rep[i], &tile[i]);
        i += 1;
        if error > stop {
            proof {
                lemma_paired_error_monotone(rep@, tile@, i as nat, rep@.len());
            }
            return None;
        }
    }
    Some(error)
}

/// The first coordinate of a 3-wide window around `v`, clamped at 0.
pub open spec fn window_lo(v: nat) -> nat {
    if v == 0 { 0 } else { (v - 1) as nat }
}

/// The last coordinate of a 3-wide window around `v`, clamped at `n - 1`.
pub open spec fn window_hi(v: nat, n: nat) -> nat {
    if v + 1 < n { v + 1 } else { (n - 1) as nat }
}

/// Channel `c` summed over columns `x0..x1` (exclusive) of row `y`.
pub open spec fn row_sum(src: Seq<[u8; 4]>, w: nat, y: nat, x0: nat, x1: nat, c: int) -> nat
    decreases x1 - x0,
{
    if x1 <= x0 {
        0
    } else {
        row_sum(src, w, y, x0, (x1 - 1) as nat, c) + src[y * w + x1 - 1][c] as nat
    }
}

/// Channel `c` summed over the window `x0..x1` by `y0..y1` (exclusive ends).
pub open spec fn box_sum(src: Seq<[u8; 4]>, w: nat, y0: nat, y1: nat, x0: nat, x1: nat, c: int) -> nat
    decreases y1 - y0,
{
    if y1 <= y0 {
        0
    } else {
        box_sum(src, w, y0, (y1 - 1) as nat, x0, x1, c) + row_sum(src, w, (y1 - 1) as nat, x0, x1, c)
    }
}

/// Channel `c` of the blurred pixel at `x`, `y`: the mean (rounded down) of
/// the 3x3 window around it, clamped at the tile edges.
pub open spec fn blurred_channel(src: Seq<[u8; 4]>, w: nat, h: nat, x: nat, y: nat, c: int) -> int {
    let x0 = window_lo(x);
    let x1 = window_hi(x, w) + 1;
    let y0 = window_lo(y);
    let y1 = window_hi(y, h) + 1;
    box_sum(src, w, y0, y1, x0, x1, c) as int / ((x1 - x0) * (y1 - y0))
}

proof fn lemma_row_sum_bound(src: Seq<[u8; 4]>, w: nat, y: nat, x0: nat, x1: nat, c: int)
    ensures
        row_sum(src, w, y, x0, x1, c) <= 255 * (if x1 > x0 { x1 - x0 } else { 0 }),
    decreases x1 - x0,
{
    if x1 > x0 {
        lemma_row_sum_bound(src, w, y, x0, (x1 - 1) as nat, c);
    }
}

proof fn lemma_box_sum_bound(src: Seq<[u8; 4]>, w: nat, y0: nat, y1: nat, x0: nat, x1: nat, c: int)
    requires
        x1 >= x0,
    ensures
        box_sum(src, w, y0, y1, x0, x1, c) <= 255 * (x1 - x0) * (if y1 > y0 { y1 - y0 } else { 0 }),
    decreases y1 - y0,
{
    if y1 > y0 {
        lemma_box_sum_bound(src, w, y0, (y1 - 1) as nat, x0, x1, c);
        lemma_row_sum_bound(src, w, (y1 - 1) as nat, x0, x1, c);
        assert(255 * (x1 - x0) * ((y1 - 1) - y0) + 255 * (x1 - x0) == 255 * (x1 - x0) * (y1 - y0)) by (nonlinear_arith)
            requires
                y1 > y0,
        ;
    }
}

proof fn lemma_index_in_tile(w: nat, h: nat, x: nat, y: nat)
    requires
        x < w,
        y < h,
    ensures
        y * w + x < w * h,
{
    assert(y * w + x < w * h) by (nonlinear_arith)
        requires
            x < w,
            y < h,
    ;
}

/// 3x3 box blur of a `tile_w` x `tile_h` tile, clamped at the tile edges.
pub fn blur_tile_colors_into(src: &[[u8; 4]], dst: &mut [[u8; 4]], tile_w: usize, tile_h: usize)
    requires
        tile_w * tile_h <= src@.len(),
        tile_w * tile_h <= old(dst)@.len(),
    ensures
        final(dst)@.len() == old(dst)@.len(),
        forall|i: int|
            tile_w * tile_h <= i < old(dst)@.len() ==> #[trigger] final(dst)@[i] == old(dst)@[i],
        forall|x: int, y: int, c: int|
            0 <= x < tile_w && 0 <= y < tile_h && 0 <= c < 4 ==> #[trigger] final(dst)@[y * tile_w + x][c] == blurred_channel(src@, tile_w as nat, tile_h as nat, x as nat, y as nat, c),
{
    let w = tile_w;
    let h = tile_h;
    assert(src@.len() == src.len());
    assert(dst@.len() == dst.len());
    let mut y: usize = 0;
    while y < h
        invariant
            w * h <= src@.len(),
            w * h <= dst@.len(),
            src@.len() <= usize::MAX,
            dst@.len() <= usize::MAX,
            y <= h,
            dst@.len() == old(dst)@.len(),
            forall|i: int| w * h <= i < old(dst)@.len() ==> #[trigger] dst@[i] == old(dst)@[i],
            forall|xx: int, yy: int, c: int|
                0 <= xx < w && 0 <= yy < y && 0 <= c < 4 ==> #[trigger] dst@[yy * w + xx][c]
                    == blurred_channel(src@, w as nat, h as nat, xx as nat, yy as nat, c),
        decreases h - y,
    {
        let mut x: usize = 0;
        while x < w
            invariant
                w * h <= src@.len(),
                w * h <= dst@.len(),
                src@.len() <= usize::MAX,
                dst@.len() <= usize::MAX,
                y < h,
                x <= w,
                dst@.len() == old(dst)@.len(),
                forall|i: int| w * h <= i < old(dst)@.len() ==> #[trigger] dst@[i] == old(dst)@[i],
                forall|xx: int, yy: int, c: int|
                    0 <= xx < w && 0 <= yy < h && (yy < y || (yy == y && xx < x)) && 0 <= c < 4
                        ==> #[trigger] dst@[yy * w + xx][c] == blurred_channel(
                        src@,
                        w as nat,
                        h as nat,
                        xx as nat,
                        yy as nat,
                        c,
                    ),
            decreases w - x,
        {
            let blurred = blur_pixel(src, w, h, x, y);
            proof {
                lemma_index_in_tile(w as nat, h as nat, x as nat, y as nat);
            }
            assert((y as int) * (w as int) + (x as int) < dst@.len());
            let ghost before = dst@;
            let at: usize = y * w + x;
            dst[at] = blurred;
            proof {
                assert(dst@ == before.update(at as int, blurred));
                assert forall|xx: int, yy: int, c: int|
                    0 <= xx < w && 0 <= yy < h && (yy < y || (yy == y && xx < x + 1)) && 0 <= c < 4
                        implies #[trigger] dst@[yy * w + xx][c] == blurred_channel(
                        src@,
                        w as nat,
                        h as nat,
                        xx as nat,
                        yy as nat,
                        c,
                    ) by {
                    lemma_index_in_tile(w as nat, h as nat, xx as nat, yy as nat);
                    if !(yy == y && xx == x) {
                        lemma_distinct_cells(w as int, xx, yy, x as int, y as int);
                    }
                }
            }
            x += 1;
        }
        y += 1;
    }
}

/// The blurred color of the pixel at `x`, `y`: each channel the mean of the
/// 3x3 window around it, clamped at the tile edges.
fn blur_pixel(src: &[[u8; 4]], w: usize, h: usize, x: usize, y: usize) -> (p: [u8; 4])
    requires
        w * h <= src@.len(),
        x < w,
        y < h,
    ensures
        forall|c: int| 0 <= c < 4 ==> p[c] as int == blurred_channel(
            src@,
            w as nat,
            h as nat,
            x as nat,
            y as nat,
            c,
        ),
{
    assert(src@.len() == src.len());
    let x0: usize = if x == 0 { 0 } else { x - 1 };
    let x1: usize = if x + 1 < w { x + 2 } else { w };
    let y0: usize = if y == 0 { 0 } else { y - 1 };
    let y1: usize = if y + 1 < h { y + 2 } else { h };
    let (s0, s1, s2, s3) = box_sums(src, w, h, x0, x1, y0, y1);
    let a: usize = x1 - x0;
    let b: usize = y1 - y0;
    proof {
        lemma_box_sum_bound(src@, w as nat, y0 as nat, y1 as nat, x0 as nat, x1 as nat, 0);
        lemma_box_sum_bound(src@, w as nat, y0 as nat, y1 as nat, x0 as nat, x1 as nat, 1);
        lemma_box_sum_bound(src@, w as nat, y0 as nat, y1 as nat, x0 as nat, x1 as nat, 2);
        lemma_box_sum_bound(src@, w as nat, y0 as nat, y1 as nat, x0 as nat, x1 as nat, 3);
    }
    [channel_mean(s0, a, b), channel_mean(s1, a, b), channel_mean(s2, a, b), channel_mean(s3, a, b)]
}

/// The four channel sums over the window `x0..x1` by `y0..y1`.
fn box_sums(src: &[[u8; 4]], w: usize, h: usize, x0: usize, x1: usize, y0: usize, y1: usize) -> (sums: (u32, u32, u32, u32))
    requires
        w * h <= src@.len(),
        x0 < x1 <= w,
        y0 < y1 <= h,
        x1 - x0 <= 3,
        y1 - y0 <= 3,
    ensures
        sums.0 == box_sum(src@, w as nat, y0 as nat, y1 as nat, x0 as nat, x1 as nat, 0),
        sums.1 == box_sum(src@, w as nat, y0 as nat, y1 as nat, x0 as nat, x1 as nat, 1),
        sums.2 == box_sum(src@, w as nat, y0 as nat, y1 as nat, x0 as nat, x1 as nat, 2),
        sums.3 == box_sum(src@, w as nat, y0 as nat, y1 as nat, x0 as nat, x1 as nat, 3),
{
    assert(src@.len() == src.len());
    let mut s0: u32 = 0;
    let mut s1: u32 = 0;
    let mut s2: u32 = 0;
    let mut s3: u32 = 0;
    let mut dy: usize = y0;
    while dy < y1
        invariant
            w * h <= src@.len(),
            src@.len() <= usize::MAX,
            y0 <= dy <= y1 <= h,
            x0 < x1 <= w,
            x1 - x0 <= 3,
            y1 - y0 <= 3,
            s0 == box_sum(src@, w as nat, y0 as nat, dy as nat, x0 as nat, x1 as nat, 0),
            s1 == box_sum(src@, w as nat, y0 as nat, dy as nat, x0 as nat, x1 as nat, 1),
            s2 == box_sum(src@, w as nat, y0 as nat, dy as nat, x0 as nat, x1 as nat, 2),
            s3 == box_sum(src@, w as nat, y0 as nat, dy as nat, x0 as nat, x1 as nat, 3),
            s0 <= 765 * (dy - y0),
            s1 <= 765 * (dy - y0),
            s2 <= 765 * (dy - y0),
            s3 <= 765 * (dy - y0),
        decreases y1 - dy,
    {
        let (r0, r1, r2, r3) = row_sums(src, w, h, dy, x0, x1);
        s0 = s0 + r0;
        s1 = s1 + r1;
        s2 = s2 + r2;
        s3 = s3 + r3;
        dy += 1;
    }
    (s0, s1, s2, s3)
}

/// The mean, rounded down, of a sum over an `a` x `b` window of channel values.
fn channel_mean(s: u32, a: usize, b: usize) -> (m: u8)
    requires
        1 <= a <= 3,
        1 <= b <= 3,
        s <= 255 * a * b,
    ensures
        m as int == s as int / (a * b),
{
    assert(a * b <= 9 && a * b >= 1) by (nonlinear_arith)
        requires
            1 <= a <= 3,
            1 <= b <= 3,
    ;
    proof {
        lemma_mean_fits(s as nat, a as nat, b as nat);
    }
    let count: u32 = (a * b) as u32;
    (s / count) as u8
}

proof fn lemma_mean_fits(s: nat, a: nat, b: nat)
    requires
        a >= 1,
        b >= 1,
        s <= 255 * a * b,
    ensures
        s / (a * b) <= 255,
{
    assert(s / (a * b) <= 255) by (nonlinear_arith)
        requires
            a >= 1,
            b >= 1,
            s <= 255 * a * b,
    ;
}

/// The four channel sums over columns `x0..x1` of row `y`.
fn row_sums(src: &[[u8; 4]], w: usize, h: usize, y: usize, x0: usize, x1: usize) -> (sums: (u32, u32, u32, u32))
    requires
        w * h <= src@.len(),
        y < h,
        x0 <= x1 <= w,
        x1 - x0 <= 3,
    ensures
        sums.0 == row_sum(src@, w as nat, y as nat, x0 as nat, x1 as nat, 0),
        sums.1 == row_sum(src@, w as nat, y as nat, x0 as nat, x1 as nat, 1),
        sums.2 == row_sum(src@, w as nat, y as nat, x0 as nat, x1 as nat, 2),
        sums.3 == row_sum(src@, w as nat, y as nat, x0 as nat, x1 as nat, 3),
        sums.0 <= 765 && sums.1 <= 765 && sums.2 <= 765 && sums.3 <= 765,
{
    assert(src@.len() == src.len());
    let mut t0: u32 = 0;
    let mut t1: u32 = 0;
    let mut t2: u32 = 0;
    let mut t3: u32 = 0;
    let mut dx: usize = x0;
    while dx < x1
        invariant
            w * h <= src@.len(),
            src@.len() <= usize::MAX,
            y < h,
            x0 <= dx <= x1 <= w,
            x1 - x0 <= 3,
            t0 == row_sum(src@, w as nat, y as nat, x0 as nat, dx as nat, 0),
            t1 == row_sum(src@, w as nat, y as nat, x0 as nat, dx as nat, 1),
            t2 == row_sum(src@, w as nat, y as nat, x0 as nat, dx as nat, 2),
            t3 == row_sum(src@, w as nat, y as nat, x0 as nat, dx as nat, 3),
            t0 <= 255 * (dx - x0) && t1 <= 255 * (dx - x0),
            t2 <= 255 * (dx - x0) && t3 <= 255 * (dx - x0),
        decreases x1 - dx,
    {
        proof {
            lemma_index_in_tile(w as nat, h as nat, dx as nat, y as nat);
        }
        assert((y as int) * (w as int) + (dx as int) < src@.len());
        let px = src[y * w + dx];
        t0 = t0 + px[0] as u32;
        t1 = t1 + px[1] as u32;
        t2 = t2 + px[2] as u32;
        t3 = t3 + px[3] as u32;
        dx += 1;
    }
    (t0, t1, t2, t3)
}

/// Different cells of a row-major grid sit at different indices.
proof fn lemma_distinct_cells(w: int, x1: int, y1: int, x2: int, y2: int)
    requires
        0 <= x1 < w,
        0 <= x2 < w,
        0 <= y1,
        0 <= y2,
        x1 != x2 || y1 != y2,
    ensures
        y1 * w + x1 != y2 * w + x2,
{
    if y1 * w + x1 == y2 * w + x2 {
        if y1 == y2 {
        } else if y1 < y2 {
            assert(y1 * w + x1 < y2 * w + x2) by (nonlinear_arith)
                requires
                    0 <= x1 < w,
                    0 <= x2,
                    y1 < y2,
            ;
        } else {
            assert(y2 * w + x2 < y1 * w + x1) by (nonlinear_arith)
                requires
                    0 <= x2 < w,
                    0 <= x1,
                    y2 < y1,
            ;
        }
    }
}

/// The outcome of a tile reduction pass: the rewritten indexed pixels and
/// how many tiles were replaced by a representative.
#[derive(Debug, Clone)]
pub struct TileReduceResult {
    pub indexed_pixels: Vec<u8>,
    pub merged: usize,
}

/// The ways a tile may be matched against a representative.
#[derive(Clone, Copy, PartialEq, Eq, Structural, Debug)]
pub enum Orientation {
    Identity,
    FlipX,
    FlipY,
    FlipXY,
}

/// The orientations allowed by the two flip settings, identity first.
pub open spec fn spec_available(allow_flip_x: bool, allow_flip_y: bool) -> Seq<Orientation> {
    seq![Orientation::Identity] + (if allow_flip_x { seq![Orientation::FlipX] } else {
        Seq::<Orientation>::empty()
    }) + (if allow_flip_y { seq![Orientation::FlipY] } else { Seq::<Orientation>::empty() }) + (
    if allow_flip_x && allow_flip_y {
        seq![Orientation::FlipXY]
    } else {
        Seq::<Orientation>::empty()
    })
}

impl Orientation {
    pub fn available(allow_flip_x: bool, allow_flip_y: bool) -> (list: Vec<Orientation>)
        ensures
            list@ == spec_available(allow_flip_x, allow_flip_y),
    {
        let mut v = Vec::new();
        v.push(Orientation::Identity);
        if allow_flip_x {
            v.push(Orientation::FlipX);
        }
        if allow_flip_y {
            v.push(Orientation::FlipY);
        }
        if allow_flip_x && allow_flip_y {
            v.push(Orientation::FlipXY);
        }
        proof {
            assert(v@ =~= spec_available(allow_flip_x, allow_flip_y));
        }
        v
    }

    /// For every allowed orientation, the source pixel index for each
    /// destination pixel of a `tile_w` x `tile_h` tile.
    pub fn maps(tile_w: usize, tile_h: usize, allow_flip_x: bool, allow_flip_y: bool) -> (maps: Vec<OrientationMap>)
        requires
            tile_w * tile_h <= usize::MAX,
        ensures
            maps@.len() == spec_available(allow_flip_x, allow_flip_y).len(),
            forall|k: int|
                0 <= k < maps@.len() ==> {
                    &&& (#[trigger] maps@[k]).orientation == spec_available(allow_flip_x, allow_flip_y)[k]
                    &&& maps@[k].map@.len() == tile_w * tile_h
                    &&& forall|i: int|
                        0 <= i < tile_w * tile_h ==> maps@[k].map@[i] as int == source_index(
                            maps@[k].orientation,
                            tile_w as int,
                            tile_h as int,
                            i,
                        )
                },
    {
        let list = Orientation::available(allow_flip_x, allow_flip_y);
        let mut maps: Vec<OrientationMap> = Vec::new();
        let mut k: usize = 0;
        while k < list.len()
            invariant
                tile_w * tile_h <= usize::MAX,
                k <= list@.len(),
                list@ == spec_available(allow_flip_x, allow_flip_y),
                maps@.len() == k,
                forall|j: int|
                    0 <= j < k ==> {
                        &&& (#[trigger] maps@[j]).orientation == list@[j]
                        &&& maps@[j].map@.len() == tile_w * tile_h
                        &&& forall|i: int|
                            0 <= i < tile_w * tile_h ==> maps@[j].map@[i] as int == source_index(
                                maps@[j].orientation,
                                tile_w as int,
                                tile_h as int,
                                i,
                            )
                    },
            decreases list.len() - k,
        {
            let orientation = list[k];
            let map = orientation_map(orientation, tile_w, tile_h);
            maps.push(OrientationMap { orientation, map });
            k += 1;
        }
        maps
    }
}

/// The source pixel of destination pixel `i` when a `w` x `h` tile is read
/// in orientation `o`.
pub open spec fn source_index(o: Orientation, w: int, h: int, i: int) -> int {
    let x = i % w;
    let y = i / w;
    let sx = match o {
        Orientation::FlipX | Orientation::FlipXY => w - 1 - x,
        _ => x,
    };
    let sy = match o {
        Orientation::FlipY | Orientation::FlipXY => h - 1 - y,
        _ => y,
    };
    sy * w + sx
}

fn orientation_map(orientation: Orientation, tile_w: usize, tile_h: usize) -> (map: Vec<usize>)
    requires
        tile_w * tile_h <= usize::MAX,
    ensures
        map@.len() == tile_w * tile_h,
        forall|i: int|
            0 <= i < tile_w * tile_h ==> map@[i] as int == source_index(
                orientation,
                tile_w as int,
                tile_h as int,
                i,
            ),
{
    let mut map: Vec<usize> = Vec::new();
    let mut y: usize = 0;
    while y < tile_h
        invariant
            tile_w * tile_h <= usize::MAX,
            y <= tile_h,
            map@.len() == y * tile_w,
            forall|i: int|
                0 <= i < y * tile_w ==> map@[i] as int == source_index(
                    orientation,
                    tile_w as int,
                    tile_h as int,
                    i,
                ),
        decreases tile_h - y,
    {
        let mut x: usize = 0;
        while x < tile_w
            invariant
                tile_w * tile_h <= usize::MAX,
                y < tile_h,
                x <= tile_w,
                map@.len() == y * tile_w + x,
                forall|i: int|
                    0 <= i < y * tile_w + x ==> map@[i] as int == source_index(
                        orientation,
                        tile_w as int,
                        tile_h as int,
                        i,
                    ),
            decreases tile_w - x,
        {
            let sx = match orientation {
                Orientation::FlipX | Orientation::FlipXY => tile_w - 1 - x,
                _ => x,
            };
            let sy = match orientation {
                Orientation::FlipY | Orientation::FlipXY => tile_h - 1 - y,
                _ => y,
            };
            proof {
                lemma_index_in_tile(tile_w as nat, tile_h as nat, sx as nat, sy as nat);
                lemma_index_in_tile(tile_w as nat, tile_h as nat, x as nat, y as nat);
                lemma_cell_of(tile_w as int, x as int, y as int);
            }
            map.push(sy * tile_w + sx);
            x += 1;
        }
        proof {
            assert((y + 1) * tile_w == y * tile_w + tile_w) by (nonlinear_arith);
        }
        y += 1;
    }
    assert(tile_h * tile_w == tile_w * tile_h) by (nonlinear_arith);
    map
}

/// Cell `x`, `y` of a row-major grid `w` wide reads back as `x`, `y`.
proof fn lemma_cell_of(w: int, x: int, y: int)
    requires
        0 <= x < w,
        0 <= y,
    ensures
        (y * w + x) % w == x,
        (y * w + x) / w == y,
{
    vstd::arithmetic::div_mod::lemma_fundamental_div_mod(y * w + x, w);
    let q = (y * w + x) / w;
    let r = (y * w + x) % w;
    assert(q == y && r == x) by (nonlinear_arith)
        requires
            y * w + x == w * q + r,
            0 <= r < w,
            0 <= x < w,
            0 <= y,
    ;
}

/// Reading a tile in an orientation twice gives the tile back: every
/// orientation map is its own inverse, so it visits every pixel exactly once.
pub proof fn law_orientation_maps_are_involutions(o: Orientation, w: int, h: int, i: int)
    requires
        w > 0,
        h > 0,
        0 <= i < w * h,
    ensures
        0 <= source_index(o, w, h, i) < w * h,
        source_index(o, w, h, source_index(o, w, h, i)) == i,
{
    vstd::arithmetic::div_mod::lemma_fundamental_div_mod(i, w);
    let x = i % w;
    let y = i / w;
    assert(0 <= y < h) by (nonlinear_arith)
        requires
            i == w * y + x,
            0 <= x < w,
            0 <= i < w * h,
    ;
    assert(i == y * w + x) by (nonlinear_arith)
        requires
            i == w * y + x,
    ;
    let sx = match o {
        Orientation::FlipX | Orientation::FlipXY => w - 1 - x,
        _ => x,
    };
    let sy = match o {
        Orientation::FlipY | Orientation::FlipXY => h - 1 - y,
        _ => y,
    };
    lemma_cell_of(w, sx, sy);
    lemma_index_in_tile(w as nat, h as nat, sx as nat, sy as nat);
}

/// The source pixel index for each destination pixel, in one orientation.
pub struct OrientationMap {
    pub orientation: Orientation,
    pub map: Vec<usize>,
}

/// `tile` placed through `map`, one pixel after another: pixel `i` lands at
/// `map[i]`.
pub open spec fn placed(tile: Seq<[u8; 4]>, map: Seq<usize>, k: nat) -> Seq<[u8; 4]>
    decreases k,
{
    if k == 0 {
        Seq::new(tile.len(), |i: int| [0u8, 0u8, 0u8, 0u8])
    } else {
        placed(tile, map, (k - 1) as nat).update(map[k - 1] as int, tile[k - 1])
    }
}

/// `tile` rearranged so pixel `i` lands at `map[i]`.
pub fn orient_tile_to_rep(tile: &[[u8; 4]], map: &[usize]) -> (oriented: Vec<[u8; 4]>)
    requires
        map@.len() <= tile@.len(),
        forall|i: int| 0 <= i < map@.len() ==> (#[trigger] map@[i]) < tile@.len(),
    ensures
        oriented@ == placed(tile@, map@, map@.len()),
{
    let mut oriented: Vec<[u8; 4]> = Vec::new();
    let mut k: usize = 0;
    while k < tile.len()
        invariant
            k <= tile@.len(),
            oriented@ =~= Seq::new(k as nat, |i: int| [0u8, 0u8, 0u8, 0u8]),
        decreases tile.len() - k,
    {
        oriented.push([0, 0, 0, 0]);
        k += 1;
    }
    let mut i: usize = 0;
    while i < map.len()
        invariant
            map@.len() <= tile@.len(),
            forall|j: int| 0 <= j < map@.len() ==> (#[trigger] map@[j]) < tile@.len(),
            i <= map@.len(),
            oriented@ == placed(tile@, map@, i as nat),
            oriented@.len() == tile@.len(),
        decreases map.len() - i,
    {
        let target: usize = map[i];
        oriented.set(target, tile[i]);
        i += 1;
    }
    oriented
}

/// Write one row of the representative into `dest_row`, `map_row[x]` naming
/// the representative pixel that lands at column `x`.
pub fn write_rep_row(dest_row: &mut [u8], rep_indices: &[u8], map_row: &[usize])
    requires
        forall|i: int|
            0 <= i < old(dest_row)@.len() && 0 <= i < map_row@.len() ==> (#[trigger] map_row@[i])
                < rep_indices@.len(),
    ensures
        final(dest_row)@.len() == old(dest_row)@.len(),
        forall|i: int|
            0 <= i < old(dest_row)@.len() ==> (#[trigger] final(dest_row)@[i]) == (if i
                < map_row@.len() {
                rep_indices@[map_row@[i] as int]
            } else {
                old(dest_row)@[i]
            }),
{
    let n: usize = if dest_row.len() < map_row.len() { dest_row.len() } else { map_row.len() };
    let mut i: usize = 0;
    while i < n
        invariant
            n == (if old(dest_row)@.len() < map_row@.len() {
                old(dest_row)@.len()
            } else {
                map_row@.len()
            }),
            i <= n,
            dest_row@.len() == old(dest_row)@.len(),
            forall|j: int|
                0 <= j < old(dest_row)@.len() && 0 <= j < map_row@.len() ==> (#[trigger] map_row@[j])
                    < rep_indices@.len(),
            forall|j: int|
                0 <= j < dest_row@.len() ==> (#[trigger] dest_row@[j]) == (if j < i {
                    rep_indices@[map_row@[j] as int]
                } else {
                    old(dest_row)@[j]
                }),
        decreases n - i,
    {
        dest_row[i] = rep_indices[map_row[i]];
        i += 1;
    }
}

} // verus!
