//! Tiles of an indexed image: reading one out of the pixel buffer and
//! writing a representative back in its place.

use vstd::prelude::*;
use crate::formats::{BGRA8, TileCountOptions};
use crate::indexed::{ImageDataIndexed, buffer_row, flip_tile, flipped_rows, spec_flip_tile};

verus! {

/// Where pixel `x`, `y` of tile `tx`, `ty` sits in a row-major buffer
/// `stride` pixels wide, tiles being `tile_w` x `tile_h`.
pub open spec fn tile_pixel(stride: int, tx: int, ty: int, tile_w: int, tile_h: int, x: int, y: int) -> int {
    (ty * tile_h + y) * stride + tx * tile_w + x
}

/// Tile `tx`, `ty` lies inside a buffer of `len` pixels, `stride` wide.
pub open spec fn tile_in_buffer(len: nat, stride: nat, tx: nat, ty: nat, tile_w: nat, tile_h: nat) -> bool {
    &&& tx * tile_w + tile_w <= stride
    &&& (ty * tile_h + tile_h) * stride <= len
}

/// Buffer position `p` falls inside tile `tx`, `ty`.
pub open spec fn in_tile(p: int, stride: int, tx: int, ty: int, tile_w: int, tile_h: int) -> bool {
    &&& ty * tile_h <= p / stride < ty * tile_h + tile_h
    &&& tx * tile_w <= p % stride < tx * tile_w + tile_w
}

/// The position inside its tile, row-major, of buffer position `p`.
pub open spec fn tile_offset(p: int, stride: int, tx: int, ty: int, tile_w: int, tile_h: int) -> int {
    (p / stride - ty * tile_h) * tile_w + (p % stride - tx * tile_w)
}

pub proof fn lemma_row_col(stride: int, col: int, row: int)
    requires
        0 <= col < stride,
        0 <= row,
    ensures
        (row * stride + col) / stride == row,
        (row * stride + col) % stride == col,
{
    vstd::arithmetic::div_mod::lemma_fundamental_div_mod(row * stride + col, stride);
    let q = (row * stride + col) / stride;
    let r = (row * stride + col) % stride;
    assert(q == row && r == col) by (nonlinear_arith)
        requires
            row * stride + col == stride * q + r,
            0 <= r < stride,
            0 <= col < stride,
            0 <= row,
    ;
}

proof fn lemma_tile_pixel(len: nat, stride: nat, tx: nat, ty: nat, tile_w: nat, tile_h: nat, x: nat, y: nat)
    requires
        tile_in_buffer(len, stride, tx, ty, tile_w, tile_h),
        x < tile_w,
        y < tile_h,
    ensures
        0 <= tile_pixel(stride as int, tx as int, ty as int, tile_w as int, tile_h as int, x as int, y as int) < len,
        in_tile(tile_pixel(stride as int, tx as int, ty as int, tile_w as int, tile_h as int, x as int, y as int), stride as int, tx as int, ty as int, tile_w as int, tile_h as int),
        tile_offset(tile_pixel(stride as int, tx as int, ty as int, tile_w as int, tile_h as int, x as int, y as int), stride as int, tx as int, ty as int, tile_w as int, tile_h as int) == y * tile_w + x,
        y * tile_w + x < tile_w * tile_h,
{
    let row = ty * tile_h + y;
    let col = tx * tile_w + x;
    lemma_row_col(stride as int, col as int, row as int);
    assert(row * stride + col < len) by (nonlinear_arith)
        requires
            row < ty * tile_h + tile_h,
            col < stride,
            (ty * tile_h + tile_h) * stride <= len,
    ;
    assert(y * tile_w + x < tile_w * tile_h) by (nonlinear_arith)
        requires
            x < tile_w,
            y < tile_h,
    ;
}

/// The pixels of tile `tx`, `ty` of `buf`, row by row.
pub open spec fn spec_read_tile(buf: Seq<u8>, stride: nat, tx: nat, ty: nat, tile_w: nat, tile_h: nat) -> Seq<u8> {
    Seq::new(
        tile_w * tile_h,
        |i: int|
            buf[tile_pixel(stride as int, tx as int, ty as int, tile_w as int, tile_h as int, i % (tile_w as int), i / (tile_w as int))],
    )
}

/// `buf` with tile `tx`, `ty` overwritten: the pixel at offset `i` of the
/// tile takes `rep[map[i]]`, every other pixel stays.
pub open spec fn spec_write_rep_tile(
    buf: Seq<u8>,
    stride: nat,
    tx: nat,
    ty: nat,
    tile_w: nat,
    tile_h: nat,
    rep: Seq<u8>,
    map: Seq<usize>,
) -> Seq<u8> {
    Seq::new(
        buf.len(),
        |p: int|
            if in_tile(p, stride as int, tx as int, ty as int, tile_w as int, tile_h as int) {
                rep[map[tile_offset(p, stride as int, tx as int, ty as int, tile_w as int, tile_h as int)] as int]
            } else {
                buf[p]
            },
    )
}

proof fn lemma_split_offset(i: int, w: int, h: int)
    requires
        0 <= i < w * h,
        w >= 0,
        h >= 0,
    ensures
        w > 0,
        0 <= i % w < w,
        0 <= i / w < h,
        i == (i / w) * w + i % w,
{
    assert(w > 0) by (nonlinear_arith)
        requires
            0 <= i < w * h,
            w >= 0,
            h >= 0,
    ;
    vstd::arithmetic::div_mod::lemma_fundamental_div_mod(i, w);
    assert(0 <= i / w < h) by (nonlinear_arith)
        requires
            w > 0,
            i == w * (i / w) + i % w,
            0 <= i % w < w,
            i < w * h,
            i >= 0,
    ;
    assert(i == (i / w) * w + i % w) by (nonlinear_arith)
        requires
            i == w * (i / w) + i % w,
    ;
}

/// Reading back a tile just written gives, at each offset, the
/// representative's index that the map sends it to.
pub proof fn law_reading_a_written_tile_gives_the_representative(
    buf: Seq<u8>,
    stride: nat,
    tx: nat,
    ty: nat,
    tile_w: nat,
    tile_h: nat,
    rep: Seq<u8>,
    map: Seq<usize>,
)
    requires
        tile_in_buffer(buf.len(), stride, tx, ty, tile_w, tile_h),
        map.len() == tile_w * tile_h,
    ensures
        spec_read_tile(spec_write_rep_tile(buf, stride, tx, ty, tile_w, tile_h, rep, map), stride, tx, ty, tile_w, tile_h)
            =~= Seq::new(tile_w * tile_h, |i: int| rep[map[i] as int]),
{
    let after = spec_write_rep_tile(buf, stride, tx, ty, tile_w, tile_h, rep, map);
    assert forall|i: int| 0 <= i < tile_w * tile_h implies #[trigger] spec_read_tile(after, stride, tx, ty, tile_w, tile_h)[i]
        == rep[map[i] as int] by {
        lemma_split_offset(i, tile_w as int, tile_h as int);
        let x = (i % (tile_w as int)) as nat;
        let y = (i / (tile_w as int)) as nat;
        lemma_tile_pixel(buf.len(), stride, tx, ty, tile_w, tile_h, x, y);
    }
}

/// Where pixel `x`, `y` of a tile `w` x `h` flipped along the requested axes
/// comes from in the unflipped tile.
pub open spec fn flip_source(w: nat, h: nat, flip_x: bool, flip_y: bool, x: int, y: int) -> int {
    (if flip_y { h - 1 - y } else { y }) * w + (if flip_x { w - 1 - x } else { x })
}

proof fn lemma_flipped_rows(tile: Seq<u8>, w: nat, h: nat, flip_x: bool, flip_y: bool, k: nat)
    requires
        w > 0,
        tile.len() == w * h,
        k <= h,
    ensures
        flipped_rows(tile, w, flip_x, flip_y, k).len() == k * w,
        forall|y: int, x: int|
            0 <= y < k && 0 <= x < w ==> #[trigger] flipped_rows(tile, w, flip_x, flip_y, k)[y * w + x] == tile[flip_source(
                w,
                h,
                flip_x,
                flip_y,
                x,
                y,
            )],
    decreases k,
{
    vstd::arithmetic::div_mod::lemma_div_multiples_vanish(h as int, w as int);
    assert(tile.len() / w == h) by (nonlinear_arith)
        requires
            tile.len() == w * h,
            ((w * h) as int) / (w as int) == h,
    ;
    if k == 0 {
        assert(k * w == 0) by (nonlinear_arith)
            requires
                k == 0,
        ;
    } else {
        let prev = (k - 1) as nat;
        lemma_flipped_rows(tile, w, h, flip_x, flip_y, prev);
        let before = flipped_rows(tile, w, flip_x, flip_y, prev);
        let now = flipped_rows(tile, w, flip_x, flip_y, k);
        let y0 = k - 1;
        let src_y = if flip_y { h - 1 - y0 } else { y0 };
        assert(0 <= src_y * w && src_y * w + w <= w * h) by (nonlinear_arith)
            requires
                0 <= src_y < h,
                w > 0,
        ;
        let row = buffer_row(tile, w, src_y);
        assert(row.len() == w);
        let piece = if flip_x { row.reverse() } else { row };
        assert(piece.len() == w);
        assert(now == before + piece);
        assert(before.len() == prev * w);
        assert(k * w == prev * w + w) by (nonlinear_arith)
            requires
                prev == k - 1,
        ;
        assert(now.len() == k * w);
        assert forall|y: int, x: int| 0 <= y < k && 0 <= x < w implies #[trigger] now[y * w + x] == tile[flip_source(
            w,
            h,
            flip_x,
            flip_y,
            x,
            y,
        )] by {
            if y < prev {
                assert(y * w + x < prev * w) by (nonlinear_arith)
                    requires
                        0 <= y < prev,
                        0 <= x < w,
                ;
                assert(now[y * w + x] == before[y * w + x]);
            } else {
                assert(y * w == prev * w);
                if flip_x {
                    assert(now[y * w + x] == row.reverse()[x]);
                } else {
                    assert(now[y * w + x] == row[x]);
                }
            }
        }
    }
}

proof fn lemma_flip_points(tile: Seq<u8>, w: nat, h: nat, flip_x: bool, flip_y: bool)
    requires
        w > 0,
        tile.len() == w * h,
    ensures
        spec_flip_tile(tile, w, flip_x, flip_y).len() == w * h,
        forall|i: int|
            0 <= i < w * h ==> #[trigger] spec_flip_tile(tile, w, flip_x, flip_y)[i] == tile[flip_source(
                w,
                h,
                flip_x,
                flip_y,
                i % (w as int),
                i / (w as int),
            )],
{
    vstd::arithmetic::div_mod::lemma_div_multiples_vanish(h as int, w as int);
    assert(tile.len() / w == h) by (nonlinear_arith)
        requires
            tile.len() == w * h,
            ((w * h) as int) / (w as int) == h,
    ;
    lemma_flipped_rows(tile, w, h, flip_x, flip_y, h);
    assert(h * w == w * h) by (nonlinear_arith);
    assert forall|i: int| 0 <= i < w * h implies #[trigger] spec_flip_tile(tile, w, flip_x, flip_y)[i] == tile[flip_source(
        w,
        h,
        flip_x,
        flip_y,
        i % (w as int),
        i / (w as int),
    )] by {
        lemma_split_offset(i, w as int, h as int);
        let y = i / (w as int);
        let x = i % (w as int);
        assert(flipped_rows(tile, w, flip_x, flip_y, h)[y * w + x] == tile[flip_source(w, h, flip_x, flip_y, x, y)]);
    }
}

/// Flipping a tile and flipping the result flips the tile by both: each
/// axis flipped twice is back where it was.
proof fn lemma_flip_compose(tile: Seq<u8>, w: nat, h: nat, ax: bool, ay: bool, bx: bool, by_: bool)
    requires
        w > 0,
        tile.len() == w * h,
    ensures
        spec_flip_tile(spec_flip_tile(tile, w, ax, ay), w, bx, by_) == spec_flip_tile(tile, w, ax != bx, ay != by_),
{
    let once = spec_flip_tile(tile, w, ax, ay);
    lemma_flip_points(tile, w, h, ax, ay);
    lemma_flip_points(once, w, h, bx, by_);
    lemma_flip_points(tile, w, h, ax != bx, ay != by_);
    let twice = spec_flip_tile(once, w, bx, by_);
    let direct = spec_flip_tile(tile, w, ax != bx, ay != by_);
    assert forall|i: int| 0 <= i < w * h implies twice[i] == direct[i] by {
        lemma_split_offset(i, w as int, h as int);
        let y = i / (w as int);
        let x = i % (w as int);
        let sx = if bx { w - 1 - x } else { x };
        let sy = if by_ { h - 1 - y } else { y };
        let j = sy * w + sx;
        assert(0 <= j < w * h) by (nonlinear_arith)
            requires
                0 <= sx < w,
                0 <= sy < h,
                j == sy * w + sx,
        ;
        vstd::arithmetic::div_mod::lemma_fundamental_div_mod_converse(j, w as int, sy, sx);
        assert(twice[i] == once[j]);
    }
    assert(twice =~= direct);
}

proof fn lemma_flip_none(tile: Seq<u8>, w: nat, h: nat)
    requires
        w > 0,
        tile.len() == w * h,
    ensures
        spec_flip_tile(tile, w, false, false) == tile,
{
    lemma_flip_points(tile, w, h, false, false);
    assert forall|i: int| 0 <= i < w * h implies spec_flip_tile(tile, w, false, false)[i] == tile[i] by {
        lemma_split_offset(i, w as int, h as int);
    }
    assert(spec_flip_tile(tile, w, false, false) =~= tile);
}

/// Flipping a `w` x `h` tile moves each pixel to its mirror position: along
/// X column `x` takes column `w - 1 - x`, along Y row `y` takes row
/// `h - 1 - y`; and flipping the same way twice gives the tile back.
pub proof fn law_flip_mirrors_each_pixel(tile: Seq<u8>, w: nat, h: nat, flip_x: bool, flip_y: bool)
    requires
        w > 0,
        tile.len() == w * h,
    ensures
        spec_flip_tile(tile, w, flip_x, flip_y).len() == tile.len(),
        forall|y: int, x: int|
            0 <= y < h && 0 <= x < w ==> #[trigger] spec_flip_tile(tile, w, flip_x, flip_y)[y * w + x] == tile[(if flip_y {
                h - 1 - y
            } else {
                y
            }) * w + (if flip_x { w - 1 - x } else { x })],
        spec_flip_tile(spec_flip_tile(tile, w, flip_x, flip_y), w, flip_x, flip_y) == tile,
{
    lemma_flip_points(tile, w, h, flip_x, flip_y);
    assert forall|y: int, x: int| 0 <= y < h && 0 <= x < w implies #[trigger] spec_flip_tile(tile, w, flip_x, flip_y)[y
        * w + x] == tile[(if flip_y { h - 1 - y } else { y }) * w + (if flip_x { w - 1 - x } else { x })] by {
        let i = y * w + x;
        assert(0 <= i < w * h) by (nonlinear_arith)
            requires
                0 <= y < h,
                0 <= x < w,
                i == y * w + x,
        ;
        vstd::arithmetic::div_mod::lemma_fundamental_div_mod_converse(i, w as int, y, x);
    }
    lemma_flip_compose(tile, w, h, flip_x, flip_y, flip_x, flip_y);
    lemma_flip_none(tile, w, h);
}

proof fn lemma_seq_less_irreflexive(a: Seq<u8>)
    ensures
        !seq_less(a, a),
    decreases a.len(),
{
    if a.len() > 0 {
        lemma_seq_less_irreflexive(a.drop_first());
    }
}

proof fn lemma_seq_less_asymmetric(a: Seq<u8>, b: Seq<u8>)
    ensures
        !(seq_less(a, b) && seq_less(b, a)),
    decreases a.len(),
{
    if a.len() > 0 && b.len() > 0 && a[0] == b[0] {
        lemma_seq_less_asymmetric(a.drop_first(), b.drop_first());
    }
}

proof fn lemma_seq_less_transitive(a: Seq<u8>, b: Seq<u8>, c: Seq<u8>)
    requires
        seq_less(a, b),
        seq_less(b, c),
    ensures
        seq_less(a, c),
    decreases a.len(),
{
    if a.len() > 0 && b.len() > 0 && c.len() > 0 && a[0] == b[0] && b[0] == c[0] {
        lemma_seq_less_transitive(a.drop_first(), b.drop_first(), c.drop_first());
    }
}

proof fn lemma_seq_less_total(a: Seq<u8>, b: Seq<u8>)
    requires
        a != b,
    ensures
        seq_less(a, b) || seq_less(b, a),
    decreases a.len(),
{
    if a.len() > 0 && b.len() > 0 && a[0] == b[0] {
        if a.drop_first() == b.drop_first() {
            assert(a =~= seq![a[0]] + a.drop_first());
            assert(b =~= seq![b[0]] + b.drop_first());
        }
        lemma_seq_less_total(a.drop_first(), b.drop_first());
    } else if a.len() == 0 && b.len() == 0 {
        assert(a =~= b);
    }
}

/// Flipping along `flip_x`, `flip_y` is one of the orientations allowed.
pub open spec fn allowed_flip(allow_flip_x: bool, allow_flip_y: bool, flip_x: bool, flip_y: bool) -> bool {
    (flip_x ==> allow_flip_x) && (flip_y ==> allow_flip_y)
}

/// The canonical form is one of the allowed orientations of the tile, and
/// none of them is smaller.
proof fn lemma_canonical_is_least(tile: Seq<u8>, w: nat, h: nat, allow_flip_x: bool, allow_flip_y: bool)
    requires
        w > 0,
        tile.len() == w * h,
    ensures
        exists|fx: bool, fy: bool|
            allowed_flip(allow_flip_x, allow_flip_y, fx, fy) && #[trigger] spec_flip_tile(tile, w, fx, fy)
                == canonical_tile(tile, w, allow_flip_x, allow_flip_y),
        forall|fx: bool, fy: bool|
            allowed_flip(allow_flip_x, allow_flip_y, fx, fy) ==> !seq_less(
                #[trigger] spec_flip_tile(tile, w, fx, fy),
                canonical_tile(tile, w, allow_flip_x, allow_flip_y),
            ),
{
    let c = canonical_tile(tile, w, allow_flip_x, allow_flip_y);
    let f0 = spec_flip_tile(tile, w, false, false);
    let fx = spec_flip_tile(tile, w, true, false);
    let fy = spec_flip_tile(tile, w, false, true);
    let fxy = spec_flip_tile(tile, w, true, true);
    lemma_flip_none(tile, w, h);
    let b1 = if allow_flip_x && seq_less(fx, tile) { fx } else { tile };
    let b2 = if allow_flip_y && seq_less(fy, b1) { fy } else { b1 };
    // Every step keeps the smaller, so the result is no larger than any
    // candidate seen.
    assert(!seq_less(tile, b1) && (allow_flip_x ==> !seq_less(fx, b1))) by {
        lemma_seq_less_irreflexive(tile);
        lemma_seq_less_irreflexive(fx);
        lemma_seq_less_asymmetric(fx, tile);
    }
    assert(!seq_less(b1, b2) && (allow_flip_y ==> !seq_less(fy, b2))) by {
        lemma_seq_less_irreflexive(b1);
        lemma_seq_less_irreflexive(fy);
        lemma_seq_less_asymmetric(fy, b1);
    }
    assert(!seq_less(b2, c) && (allow_flip_x && allow_flip_y ==> !seq_less(fxy, c))) by {
        lemma_seq_less_irreflexive(b2);
        lemma_seq_less_irreflexive(fxy);
        lemma_seq_less_asymmetric(fxy, b2);
    }
    // No larger than b2 and b2 no larger than b1: chain by transitivity.
    assert forall|s: Seq<u8>| !seq_less(s, b1) && !seq_less(b1, b2) && !seq_less(b2, c) implies !seq_less(s, c) by {
        if seq_less(s, c) {
            if b1 != b2 {
                lemma_seq_less_total(b1, b2);
            }
            if b2 != c {
                lemma_seq_less_total(b2, c);
            }
            if b2 == c {
                if b1 == b2 {
                } else {
                    lemma_seq_less_transitive(s, b2, b1);
                }
            } else {
                if b1 == b2 {
                    lemma_seq_less_transitive(s, c, b2);
                } else {
                    lemma_seq_less_transitive(s, c, b2);
                    lemma_seq_less_transitive(s, b2, b1);
                }
            }
        }
    }
    assert forall|s: Seq<u8>| !seq_less(s, b2) && !seq_less(b2, c) implies !seq_less(s, c) by {
        if seq_less(s, c) {
            if b2 != c {
                lemma_seq_less_total(b2, c);
                lemma_seq_less_transitive(s, c, b2);
            }
        }
    }
    assert forall|ffx: bool, ffy: bool| allowed_flip(allow_flip_x, allow_flip_y, ffx, ffy) implies !seq_less(
        #[trigger] spec_flip_tile(tile, w, ffx, ffy),
        c,
    ) by {
        let s = spec_flip_tile(tile, w, ffx, ffy);
        if !ffx && !ffy {
            assert(s == tile);
        } else if ffx && !ffy {
            assert(s == fx);
        } else if !ffx && ffy {
            assert(s == fy);
        } else {
            assert(s == fxy);
        }
    }
    if c == tile {
        assert(spec_flip_tile(tile, w, false, false) == c);
    } else if c == fx && allow_flip_x {
        assert(spec_flip_tile(tile, w, true, false) == c);
    } else if c == fy && allow_flip_y {
        assert(spec_flip_tile(tile, w, false, true) == c);
    } else {
        assert(spec_flip_tile(tile, w, true, true) == c);
    }
}

/// A tile and any of its allowed flips have the same canonical form, so
/// they count as one tile: mirrored along X when X flips are allowed, along
/// Y when Y flips are, and turned half round when both are.
pub proof fn law_allowed_flips_share_the_canonical_form(
    tile: Seq<u8>,
    w: nat,
    h: nat,
    allow_flip_x: bool,
    allow_flip_y: bool,
    flip_x: bool,
    flip_y: bool,
)
    requires
        w > 0,
        tile.len() == w * h,
        allowed_flip(allow_flip_x, allow_flip_y, flip_x, flip_y),
    ensures
        canonical_tile(spec_flip_tile(tile, w, flip_x, flip_y), w, allow_flip_x, allow_flip_y) == canonical_tile(
            tile,
            w,
            allow_flip_x,
            allow_flip_y,
        ),
{
    let u = spec_flip_tile(tile, w, flip_x, flip_y);
    lemma_flip_points(tile, w, h, flip_x, flip_y);
    let ct = canonical_tile(tile, w, allow_flip_x, allow_flip_y);
    let cu = canonical_tile(u, w, allow_flip_x, allow_flip_y);
    lemma_canonical_is_least(tile, w, h, allow_flip_x, allow_flip_y);
    lemma_canonical_is_least(u, w, h, allow_flip_x, allow_flip_y);
    // The orientations of `u` are those of `tile`.
    assert forall|ox: bool, oy: bool| allowed_flip(allow_flip_x, allow_flip_y, ox, oy) implies #[trigger] spec_flip_tile(
        u,
        w,
        ox,
        oy,
    ) == spec_flip_tile(tile, w, flip_x != ox, flip_y != oy) && allowed_flip(
        allow_flip_x,
        allow_flip_y,
        flip_x != ox,
        flip_y != oy,
    ) by {
        lemma_flip_compose(tile, w, h, flip_x, flip_y, ox, oy);
    }
    let (ux, uy) = choose|fx: bool, fy: bool|
        allowed_flip(allow_flip_x, allow_flip_y, fx, fy) && #[trigger] spec_flip_tile(u, w, fx, fy) == cu;
    let (tx, ty) = choose|fx: bool, fy: bool|
        allowed_flip(allow_flip_x, allow_flip_y, fx, fy) && #[trigger] spec_flip_tile(tile, w, fx, fy) == ct;
    // `cu` is an orientation of `tile`, so not below `ct`; `ct` is one of
    // `u`, so not below `cu`.
    assert(spec_flip_tile(u, w, ux, uy) == spec_flip_tile(tile, w, flip_x != ux, flip_y != uy));
    assert(!seq_less(cu, ct));
    lemma_flip_compose(tile, w, h, flip_x, flip_y, flip_x != tx, flip_y != ty);
    assert((flip_x != (flip_x != tx)) == tx && (flip_y != (flip_y != ty)) == ty);
    assert(spec_flip_tile(u, w, flip_x != tx, flip_y != ty) == ct);
    assert(!seq_less(ct, cu));
    if cu != ct {
        lemma_seq_less_total(cu, ct);
    }
}

/// The pixels of tile `tx`, `ty`, row by row.
pub fn read_tile(indexed: &[u8], stride: usize, tx: usize, ty: usize, tile_w: usize, tile_h: usize) -> (tile: Vec<u8>)
    requires
        tile_in_buffer(indexed@.len(), stride as nat, tx as nat, ty as nat, tile_w as nat, tile_h as nat),
    ensures
        tile@ == spec_read_tile(indexed@, stride as nat, tx as nat, ty as nat, tile_w as nat, tile_h as nat),
        tile@.len() == tile_w * tile_h,
        forall|x: int, y: int|
            0 <= x < tile_w && 0 <= y < tile_h ==> #[trigger] tile@[y * tile_w + x] == indexed@[tile_pixel(
                stride as int,
                tx as int,
                ty as int,
                tile_w as int,
                tile_h as int,
                x,
                y,
            )],
{
    assert(indexed@.len() == indexed.len());
    let mut tile: Vec<u8> = Vec::new();
    let mut y: usize = 0;
    while y < tile_h
        invariant
            tile_in_buffer(indexed@.len(), stride as nat, tx as nat, ty as nat, tile_w as nat, tile_h as nat),
            indexed@.len() <= usize::MAX,
            y <= tile_h,
            tile@.len() == y * tile_w,
            forall|xx: int, yy: int|
                0 <= xx < tile_w && 0 <= yy < y ==> #[trigger] tile@[yy * tile_w + xx] == indexed@[tile_pixel(
                    stride as int,
                    tx as int,
                    ty as int,
                    tile_w as int,
                    tile_h as int,
                    xx,
                    yy,
                )],
        decreases tile_h - y,
    {
        let mut x: usize = 0;
        while x < tile_w
            invariant
                tile_in_buffer(indexed@.len(), stride as nat, tx as nat, ty as nat, tile_w as nat, tile_h as nat),
                indexed@.len() <= usize::MAX,
                y < tile_h,
                x <= tile_w,
                tile@.len() == y * tile_w + x,
                forall|xx: int, yy: int|
                    0 <= xx < tile_w && 0 <= yy < tile_h && (yy < y || (yy == y && xx < x))
                        ==> #[trigger] tile@[yy * tile_w + xx] == indexed@[tile_pixel(
                        stride as int,
                        tx as int,
                        ty as int,
                        tile_w as int,
                        tile_h as int,
                        xx,
                        yy,
                    )],
            decreases tile_w - x,
        {
            proof {
                lemma_tile_pixel(indexed@.len(), stride as nat, tx as nat, ty as nat, tile_w as nat, tile_h as nat, x as nat, y as nat);
                assert((ty * tile_h + y) * stride + tx * tile_w + x == tile_pixel(
                    stride as int,
                    tx as int,
                    ty as int,
                    tile_w as int,
                    tile_h as int,
                    x as int,
                    y as int,
                ));
                assert forall|xx: int, yy: int|
                    #![trigger tile@[yy * tile_w + xx]]
                    0 <= xx < tile_w && 0 <= yy < tile_h && (yy < y || (yy == y && xx < x))
                        implies yy * tile_w + xx < y * tile_w + x by {
                    if yy < y {
                        assert(yy * tile_w + xx < y * tile_w) by (nonlinear_arith)
                            requires
                                yy < y,
                                xx < tile_w,
                        ;
                    }
                }
            }
            assert(ty * tile_h + y <= (ty * tile_h + y) * stride) by (nonlinear_arith)
                requires
                    stride >= 1,
            ;
            let p: usize = (ty * tile_h + y) * stride + tx * tile_w + x;
            let ghost prior = tile@;
            tile.push(indexed[p]);
            proof {
                assert(tile@[y * tile_w + x] == indexed@[tile_pixel(
                    stride as int,
                    tx as int,
                    ty as int,
                    tile_w as int,
                    tile_h as int,
                    x as int,
                    y as int,
                )]);
                assert forall|xx: int, yy: int|
                    0 <= xx < tile_w && 0 <= yy < tile_h && (yy < y || (yy == y && xx < x))
                        implies #[trigger] tile@[yy * tile_w + xx] == prior[yy * tile_w + xx] by {
                    if yy < y {
                        assert(yy * tile_w + xx < y * tile_w) by (nonlinear_arith)
                            requires
                                yy < y,
                                xx < tile_w,
                        ;
                    }
                }
            }
            x += 1;
        }
        proof {
            assert((y + 1) * tile_w == y * tile_w + tile_w) by (nonlinear_arith);
        }
        y += 1;
    }
    assert(tile_h * tile_w == tile_w * tile_h) by (nonlinear_arith);
    assert forall|i: int| 0 <= i < tile_w * tile_h implies #[trigger] tile@[i] == spec_read_tile(
        indexed@,
        stride as nat,
        tx as nat,
        ty as nat,
        tile_w as nat,
        tile_h as nat,
    )[i] by {
        lemma_split_offset(i, tile_w as int, tile_h as int);
        let x = i % (tile_w as int);
        let y = i / (tile_w as int);
        assert(tile@[y * tile_w + x] == indexed@[tile_pixel(
            stride as int,
            tx as int,
            ty as int,
            tile_w as int,
            tile_h as int,
            x,
            y,
        )]);
    }
    assert(tile@ =~= spec_read_tile(indexed@, stride as nat, tx as nat, ty as nat, tile_w as nat, tile_h as nat));
    tile
}

/// Write tile `tx`, `ty` of `indexed` from `rep_indices`: the pixel at
/// position `i` of the tile takes `rep_indices[map[i]]`. Everything outside
/// the tile is left as it was.
pub fn write_rep_tile(
    indexed: &mut [u8],
    stride: usize,
    tx: usize,
    ty: usize,
    tile_w: usize,
    tile_h: usize,
    rep_indices: &[u8],
    map: &[usize],
)
    requires
        tile_in_buffer(old(indexed)@.len(), stride as nat, tx as nat, ty as nat, tile_w as nat, tile_h as nat),
        map@.len() == tile_w * tile_h,
        forall|i: int| 0 <= i < map@.len() ==> (#[trigger] map@[i]) < rep_indices@.len(),
    ensures
        final(indexed)@ == spec_write_rep_tile(
            old(indexed)@,
            stride as nat,
            tx as nat,
            ty as nat,
            tile_w as nat,
            tile_h as nat,
            rep_indices@,
            map@,
        ),
        final(indexed)@.len() == old(indexed)@.len(),
        forall|p: int|
            0 <= p < old(indexed)@.len() ==> #[trigger] final(indexed)@[p] == if in_tile(
                p,
                stride as int,
                tx as int,
                ty as int,
                tile_w as int,
                tile_h as int,
            ) {
                rep_indices@[map@[tile_offset(
                    p,
                    stride as int,
                    tx as int,
                    ty as int,
                    tile_w as int,
                    tile_h as int,
                )] as int]
            } else {
                old(indexed)@[p]
            },
{
    assert(indexed@.len() == indexed.len());
    let ghost before = indexed@;
    let ghost s = stride as int;
    let ghost c0 = (tx * tile_w) as int;
    let ghost r0 = (ty * tile_h) as int;
    let mut y: usize = 0;
    while y < tile_h
        invariant
            tile_in_buffer(before.len(), stride as nat, tx as nat, ty as nat, tile_w as nat, tile_h as nat),
            before.len() <= usize::MAX,
            indexed@.len() == before.len(),
            s == stride,
            c0 == tx * tile_w,
            r0 == ty * tile_h,
            map@.len() == tile_w * tile_h,
            forall|i: int| 0 <= i < map@.len() ==> (#[trigger] map@[i]) < rep_indices@.len(),
            y <= tile_h,
            forall|p: int|
                0 <= p < before.len() ==> #[trigger] indexed@[p] == if in_tile(p, s, tx as int, ty as int, tile_w as int, tile_h as int)
                    && p / s < r0 + y {
                    rep_indices@[map@[tile_offset(p, s, tx as int, ty as int, tile_w as int, tile_h as int)] as int]
                } else {
                    before[p]
                },
        decreases tile_h - y,
    {
        let mut x: usize = 0;
        while x < tile_w
            invariant
                tile_in_buffer(before.len(), stride as nat, tx as nat, ty as nat, tile_w as nat, tile_h as nat),
                before.len() <= usize::MAX,
                indexed@.len() == before.len(),
                s == stride,
                c0 == tx * tile_w,
                r0 == ty * tile_h,
                map@.len() == tile_w * tile_h,
                forall|i: int| 0 <= i < map@.len() ==> (#[trigger] map@[i]) < rep_indices@.len(),
                y < tile_h,
                x <= tile_w,
                forall|p: int|
                    0 <= p < before.len() ==> #[trigger] indexed@[p] == if in_tile(p, s, tx as int, ty as int, tile_w as int, tile_h as int)
                        && (p / s < r0 + y || (p / s == r0 + y && p % s < c0 + x)) {
                        rep_indices@[map@[tile_offset(p, s, tx as int, ty as int, tile_w as int, tile_h as int)] as int]
                    } else {
                        before[p]
                    },
            decreases tile_w - x,
        {
            let ghost q = tile_pixel(s, tx as int, ty as int, tile_w as int, tile_h as int, x as int, y as int);
            proof {
                lemma_tile_pixel(before.len(), stride as nat, tx as nat, ty as nat, tile_w as nat, tile_h as nat, x as nat, y as nat);
                lemma_row_col(s, c0 + x, r0 + y);
                assert((ty * tile_h + y) * stride + tx * tile_w + x == q);
            }
            assert(ty * tile_h + y <= (ty * tile_h + y) * stride) by (nonlinear_arith)
                requires
                    stride >= 1,
            ;
            assert(map@.len() == map.len());
            let p: usize = (ty * tile_h + y) * stride + tx * tile_w + x;
            let v: u8 = rep_indices[map[y * tile_w + x]];
            let ghost mid = indexed@;
            indexed[p] = v;
            proof {
                assert forall|pp: int| 0 <= pp < before.len() implies #[trigger] indexed@[pp] == if in_tile(pp, s, tx as int, ty as int, tile_w as int, tile_h as int)
                    && (pp / s < r0 + y || (pp / s == r0 + y && pp % s < c0 + x + 1)) {
                    rep_indices@[map@[tile_offset(pp, s, tx as int, ty as int, tile_w as int, tile_h as int)] as int]
                } else {
                    before[pp]
                } by {
                    if pp != q {
                        assert(indexed@[pp] == mid[pp]);
                        if pp / s == r0 + y && pp % s == c0 + x {
                            vstd::arithmetic::div_mod::lemma_fundamental_div_mod(pp, s);
                            assert(pp == s * (pp / s) + pp % s);
                            assert(q == (r0 + y) * s + c0 + x);
                            assert(s * (r0 + y) == (r0 + y) * s) by (nonlinear_arith);
                        }
                    }
                }
            }
            x += 1;
        }
        y += 1;
    }
    assert(indexed@ =~= spec_write_rep_tile(
        before,
        stride as nat,
        tx as nat,
        ty as nat,
        tile_w as nat,
        tile_h as nat,
        rep_indices@,
        map@,
    ));
}

/// Lexicographic order of byte strings, a proper prefix first.
pub open spec fn seq_less(a: Seq<u8>, b: Seq<u8>) -> bool
    decreases a.len(),
{
    if a.len() == 0 {
        b.len() > 0
    } else if b.len() == 0 {
        false
    } else if a[0] != b[0] {
        a[0] < b[0]
    } else {
        seq_less(a.drop_first(), b.drop_first())
    }
}

/// The canonical form of a tile `w` pixels wide: the smallest of the tile
/// and its allowed flips, so mirrored tiles collapse into one.
pub open spec fn canonical_tile(tile: Seq<u8>, w: nat, allow_flip_x: bool, allow_flip_y: bool) -> Seq<u8> {
    let fx = spec_flip_tile(tile, w, true, false);
    let b1 = if allow_flip_x && seq_less(fx, tile) { fx } else { tile };
    let fy = spec_flip_tile(tile, w, false, true);
    let b2 = if allow_flip_y && seq_less(fy, b1) { fy } else { b1 };
    let fxy = spec_flip_tile(tile, w, true, true);
    if allow_flip_x && allow_flip_y && seq_less(fxy, b2) { fxy } else { b2 }
}

/// The pixels of tile `tx`, `ty`, row by row.
pub open spec fn tile_content(pixels: Seq<u8>, stride: nat, tx: nat, ty: nat, w: nat, h: nat) -> Seq<u8> {
    Seq::new(
        w * h,
        |i: int| pixels[tile_pixel(stride as int, tx as int, ty as int, w as int, h as int, i % (w as int), i / (w as int))],
    )
}

/// Every pixel of `tile` is a palette entry with zero alpha.
pub open spec fn invisible(tile: Seq<u8>, palettes: Seq<BGRA8>) -> bool {
    forall|i: int|
        0 <= i < tile.len() ==> (#[trigger] tile[i] as int) < palettes.len() && palettes[tile[i] as int].a
            == 0
}

/// Tile number `j`, row-major, of an image `width` pixels wide: its
/// canonical form, or `None` when it is left out as invisible.
pub open spec fn counted_tile(
    image: ImageDataIndexed,
    width: nat,
    tile_w: nat,
    tile_h: nat,
    options: TileCountOptions,
    j: int,
) -> Option<Seq<u8>> {
    let tiles_x = width / tile_w;
    let tile = tile_content(image.indexed_pixels@, width, (j % (tiles_x as int)) as nat, (j / (tiles_x as int)) as nat, tile_w, tile_h);
    if options.visible_only && invisible(tile, image.palettes@) {
        None
    } else {
        Some(canonical_tile(tile, tile_w, options.allow_flip_x, options.allow_flip_y))
    }
}

/// The canonical forms of the first `k` tiles that are counted.
pub open spec fn unique_tiles_upto(
    image: ImageDataIndexed,
    width: nat,
    tile_w: nat,
    tile_h: nat,
    options: TileCountOptions,
    k: int,
) -> Set<Seq<u8>> {
    Set::new(|t: Seq<u8>| exists|j: int| 0 <= j < k && #[trigger] counted_tile(image, width, tile_w, tile_h, options, j) == Some(t))
}

proof fn lemma_upto_step(
    image: ImageDataIndexed,
    width: nat,
    tile_w: nat,
    tile_h: nat,
    options: TileCountOptions,
    k: int,
)
    requires
        0 <= k,
    ensures
        unique_tiles_upto(image, width, tile_w, tile_h, options, k + 1) == match counted_tile(image, width, tile_w, tile_h, options, k) {
            None => unique_tiles_upto(image, width, tile_w, tile_h, options, k),
            Some(c) => unique_tiles_upto(image, width, tile_w, tile_h, options, k).insert(c),
        },
{
    let next = unique_tiles_upto(image, width, tile_w, tile_h, options, k + 1);
    let now = unique_tiles_upto(image, width, tile_w, tile_h, options, k);
    let expected = match counted_tile(image, width, tile_w, tile_h, options, k) {
        None => now,
        Some(c) => now.insert(c),
    };
    assert forall|t: Seq<u8>| next.contains(t) <==> expected.contains(t) by {
        if next.contains(t) {
            let j = choose|j: int| 0 <= j < k + 1 && #[trigger] counted_tile(image, width, tile_w, tile_h, options, j) == Some(t);
            if j < k {
                assert(now.contains(t));
            }
        }
        if now.contains(t) {
            let j = choose|j: int| 0 <= j < k && #[trigger] counted_tile(image, width, tile_w, tile_h, options, j) == Some(t);
            assert(next.contains(t));
        }
    }
    assert(next =~= expected);
}

/// Whether `a` is lexicographically before `b`.
fn less(a: &[u8], b: &[u8]) -> (before: bool)
    ensures
        before == seq_less(a@, b@),
{
    let mut i: usize = 0;
    assert(a@.skip(0) =~= a@);
    assert(b@.skip(0) =~= b@);
    while i < a.len() && i < b.len()
        invariant
            i <= a@.len(),
            i <= b@.len(),
            seq_less(a@, b@) == seq_less(a@.skip(i as int), b@.skip(i as int)),
        decreases a.len() - i,
    {
        if a[i] != b[i] {
            return a[i] < b[i];
        }
        proof {
            assert(a@.skip(i as int).drop_first() =~= a@.skip(i as int + 1));
            assert(b@.skip(i as int).drop_first() =~= b@.skip(i as int + 1));
        }
        i += 1;
    }
    i < b.len()
}

/// Whether `a` and `b` hold the same bytes.
fn same_bytes(a: &[u8], b: &[u8]) -> (same: bool)
    ensures
        same == (a@ == b@),
{
    if a.len() != b.len() {
        return false;
    }
    let mut i: usize = 0;
    while i < a.len()
        invariant
            a@.len() == b@.len(),
            i <= a@.len(),
            forall|j: int| 0 <= j < i ==> a@[j] == b@[j],
        decreases a.len() - i,
    {
        if a[i] != b[i] {
            return false;
        }
        i += 1;
    }
    assert(a@ =~= b@);
    true
}

/// Whether every pixel of `tile` is a palette entry with zero alpha.
fn all_invisible(tile: &[u8], palettes: &[BGRA8]) -> (result: bool)
    ensures
        result == invisible(tile@, palettes@),
{
    let mut i: usize = 0;
    while i < tile.len()
        invariant
            i <= tile@.len(),
            forall|j: int|
                0 <= j < i ==> (#[trigger] tile@[j] as int) < palettes@.len() && palettes@[tile@[j] as int].a
                    == 0,
        decreases tile.len() - i,
    {
        let idx: usize = tile[i] as usize;
        if idx >= palettes.len() || palettes[idx].a != 0 {
            return false;
        }
        i += 1;
    }
    true
}

/// The canonical form of `tile`: the smallest of it and its allowed flips.
fn canonical(tile: Vec<u8>, tile_w: usize, allow_flip_x: bool, allow_flip_y: bool) -> (best: Vec<u8>)
    requires
        tile_w > 0,
    ensures
        best@ == canonical_tile(tile@, tile_w as nat, allow_flip_x, allow_flip_y),
{
    let mut best: Vec<u8> = tile.clone();
    assert(best@ == tile@);
    if allow_flip_x {
        let flipped = flip_tile(&tile, tile_w, true, false);
        if less(&flipped, &best) {
            best = flipped;
        }
    }
    if allow_flip_y {
        let flipped = flip_tile(&tile, tile_w, false, true);
        if less(&flipped, &best) {
            best = flipped;
        }
    }
    if allow_flip_x && allow_flip_y {
        let flipped = flip_tile(&tile, tile_w, true, true);
        if less(&flipped, &best) {
            best = flipped;
        }
    }
    best
}

/// Whether some entry of `seen` holds the bytes of `tile`.
fn seen_before(seen: &Vec<Vec<u8>>, tile: &Vec<u8>) -> (found: bool)
    ensures
        found == seen@.map_values(|v: Vec<u8>| v@).contains(tile@),
{
    let ghost views = seen@.map_values(|v: Vec<u8>| v@);
    let mut i: usize = 0;
    while i < seen.len()
        invariant
            i <= seen@.len(),
            views == seen@.map_values(|v: Vec<u8>| v@),
            forall|j: int| 0 <= j < i ==> views[j] != tile@,
        decreases seen.len() - i,
    {
        if same_bytes(seen[i].as_slice(), tile.as_slice()) {
            assert(views[i as int] == tile@);
            return true;
        }
        i += 1;
    }
    false
}

proof fn lemma_tile_content(pixels: Seq<u8>, stride: nat, tx: nat, ty: nat, w: nat, h: nat, tile: Seq<u8>)
    requires
        w > 0,
        tile.len() == w * h,
        forall|x: int, y: int|
            0 <= x < w && 0 <= y < h ==> #[trigger] tile[y * w + x] == pixels[tile_pixel(
                stride as int,
                tx as int,
                ty as int,
                w as int,
                h as int,
                x,
                y,
            )],
    ensures
        tile == tile_content(pixels, stride, tx, ty, w, h),
{
    let content = tile_content(pixels, stride, tx, ty, w, h);
    assert forall|i: int| 0 <= i < tile.len() implies tile[i] == content[i] by {
        vstd::arithmetic::div_mod::lemma_fundamental_div_mod(i, w as int);
        let x = i % (w as int);
        let y = i / (w as int);
        assert(0 <= y < h && i == y * w + x) by (nonlinear_arith)
            requires
                i == (w as int) * y + x,
                0 <= x < w,
                0 <= i < w * h,
        ;
    }
    assert(tile =~= content);
}

/// How many distinct tiles `tile_width` x `tile_height` the indexed image
/// of `width` x `height` pixels holds, a tile and its allowed flips counting
/// once, and tiles whose pixels are all transparent left out when only
/// visible tiles are asked for. `None` when the tile size does not divide
/// the image.
pub fn count_unique_tiles(
    indexed: &ImageDataIndexed,
    width: u32,
    height: u32,
    tile_width: u16,
    tile_height: u16,
    options: TileCountOptions,
) -> (count: Option<usize>)
    requires
        width * height <= usize::MAX,
        tile_width > 0 && tile_height > 0 && (width as nat) % (tile_width as nat) == 0 && (
        height as nat) % (tile_height as nat) == 0 ==> width * height
            <= indexed.indexed_pixels@.len(),
    ensures
        count == if tile_width == 0 || tile_height == 0 || (width as nat) % (tile_width as nat) != 0
            || (height as nat) % (tile_height as nat) != 0 {
            None::<usize>
        } else {
            Some(
                unique_tiles_upto(
                    *indexed,
                    width as nat,
                    tile_width as nat,
                    tile_height as nat,
                    options,
                    (((width as nat) / (tile_width as nat)) * ((height as nat) / (
                    tile_height as nat))) as int,
                ).len() as usize,
            )
        },
{
    if tile_width == 0 || tile_height == 0 {
        return None;
    }
    if width % (tile_width as u32) != 0 || height % (tile_height as u32) != 0 {
        return None;
    }
    let tiles_x: u32 = width / tile_width as u32;
    let tiles_y: u32 = height / tile_height as u32;
    let tile_w: usize = tile_width as usize;
    let tile_h: usize = tile_height as usize;
    let stride: usize = width as usize;
    proof {
        vstd::arithmetic::div_mod::lemma_fundamental_div_mod(width as int, tile_w as int);
        vstd::arithmetic::div_mod::lemma_fundamental_div_mod(height as int, tile_h as int);
        let wi = width as int;
        let hi = height as int;
        let twi = tile_w as int;
        let thi = tile_h as int;
        assert(tiles_x * tile_w == width && tiles_y * tile_h == height) by (nonlinear_arith)
            requires
                wi == twi * (wi / twi) + wi % twi,
                hi == thi * (hi / thi) + hi % thi,
                wi % twi == 0,
                hi % thi == 0,
                tiles_x == wi / twi,
                tiles_y == hi / thi,
                wi == width,
                hi == height,
                twi == tile_w,
                thi == tile_h,
        ;
    }
    assert(tiles_x * tiles_y <= width * height) by (nonlinear_arith)
        requires
            tiles_x * tile_w == width,
            tiles_y * tile_h == height,
            tile_w >= 1,
            tile_h >= 1,
    ;
    let total: usize = tiles_x as usize * tiles_y as usize;
    let ghost image = *indexed;
    let mut seen: Vec<Vec<u8>> = Vec::new();
    let mut j: usize = 0;
    while j < total
        invariant
            image == *indexed,
            total == tiles_x * tiles_y,
            tiles_x * tile_w == width,
            tiles_y * tile_h == height,
            tile_w == tile_width,
            tile_h == tile_height,
            tile_w >= 1,
            tile_h >= 1,
            stride == width,
            width * height <= indexed.indexed_pixels@.len(),
            j <= total,
            tiles_x == (width as nat) / (tile_w as nat),
            seen@.map_values(|v: Vec<u8>| v@).no_duplicates(),
            seen@.map_values(|v: Vec<u8>| v@).to_set() == unique_tiles_upto(
                image,
                width as nat,
                tile_w as nat,
                tile_h as nat,
                options,
                j as int,
            ),
        decreases total - j,
    {
        assert(tiles_x > 0) by (nonlinear_arith)
            requires
                j < tiles_x * tiles_y,
        ;
        let tx: usize = j % (tiles_x as usize);
        let ty: usize = j / (tiles_x as usize);
        proof {
            vstd::arithmetic::div_mod::lemma_fundamental_div_mod(j as int, tiles_x as int);
            assert(tx * tile_w + tile_w <= stride && (ty * tile_h + tile_h) * stride
                <= indexed.indexed_pixels@.len()) by (nonlinear_arith)
                requires
                    tx < tiles_x,
                    j == tiles_x * ty + tx,
                    j < tiles_x * tiles_y,
                    tiles_x * tile_w == width,
                    tiles_y * tile_h == height,
                    stride == width,
                    width * height <= indexed.indexed_pixels@.len(),
            ;
        }
        let tile = read_tile(indexed.indexed_pixels.as_slice(), stride, tx, ty, tile_w, tile_h);
        proof {
            lemma_tile_content(indexed.indexed_pixels@, stride as nat, tx as nat, ty as nat, tile_w as nat, tile_h as nat, tile@);
            lemma_upto_step(image, width as nat, tile_w as nat, tile_h as nat, options, j as int);
        }
        let skip = options.visible_only && all_invisible(tile.as_slice(), indexed.palettes.as_slice());
        let ghost content = tile@;
        assert(skip == (options.visible_only && invisible(content, image.palettes@)));
        if !skip {
            let best = canonical(tile, tile_w, options.allow_flip_x, options.allow_flip_y);
            assert(counted_tile(image, width as nat, tile_w as nat, tile_h as nat, options, j as int)
                == Some(best@));
            if seen_before(&seen, &best) {
                proof {
                    let views = seen@.map_values(|v: Vec<u8>| v@);
                    assert(views.to_set().insert(best@) =~= views.to_set());
                }
            } else {
                let ghost views = seen@.map_values(|v: Vec<u8>| v@);
                let ghost b = best@;
                seen.push(best);
                proof {
                    let after = seen@.map_values(|v: Vec<u8>| v@);
                    assert(after =~= views.push(b));
                    assert(after.to_set() =~= views.to_set().insert(b)) by {
                        assert forall|t: Seq<u8>| after.contains(t) <==> views.contains(t) || t == b by {
                            if after.contains(t) {
                                let i = choose|i: int| 0 <= i < after.len() && after[i] == t;
                                if i < views.len() {
                                    assert(views[i] == t);
                                }
                            }
                            if views.contains(t) {
                                let i = choose|i: int| 0 <= i < views.len() && views[i] == t;
                                assert(after[i] == t);
                            }
                            if t == b {
                                assert(after[views.len() as int] == b);
                            }
                        }
                    }
                }
            }
        }
        j += 1;
    }
    proof {
        seen@.map_values(|v: Vec<u8>| v@).unique_seq_to_set();
    }
    Some(seen.len())
}

} // verus!
