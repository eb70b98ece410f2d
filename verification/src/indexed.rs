//! Indexed images: palette indices over a flat palette buffer, as the
//! quantization engines produce them, and the pixel buffer operations on
//! them and on plain RGBA images.

use vstd::prelude::*;
use crate::formats::{BGRA8, SortOrder};
use crate::text::{decimal, push_decimal, push_str};

verus! {

/// The four bytes a palette index resolves to: the entry's RGBA, or opaque
/// black past the end of the palette.
pub open spec fn color_bytes(palettes: Seq<BGRA8>, index: u8) -> Seq<u8> {
    if (index as int) < palettes.len() {
        let c = palettes[index as int];
        seq![c.r, c.g, c.b, c.a]
    } else {
        seq![0u8, 0u8, 0u8, 255u8]
    }
}

/// Every pixel resolved through the palette, as RGBA bytes.
pub open spec fn rgba_pixels(palettes: Seq<BGRA8>, pixels: Seq<u8>) -> Seq<u8>
    decreases pixels.len(),
{
    if pixels.len() == 0 {
        Seq::<u8>::empty()
    } else {
        rgba_pixels(palettes, pixels.drop_last()) + color_bytes(palettes, pixels.last())
    }
}

/// The row length the palettes are cut into: the requested count of colors
/// per palette (at least 1), but no more than there are entries.
pub open spec fn effective_row_len(len: nat, colors_per_palette: nat) -> nat {
    if len == 0 {
        0
    } else {
        let c = if colors_per_palette == 0 { 1 } else { colors_per_palette };
        if c > len { len } else { c }
    }
}

/// `order` lists every position below `n` exactly once.
pub open spec fn is_order(order: Seq<usize>, n: nat) -> bool {
    &&& order.len() == n
    &&& forall|p: int| 0 <= p < n ==> (#[trigger] order[p]) < n
    &&& forall|p: int, q: int| 0 <= p < n && 0 <= q < n && p != q ==> order[p] != order[q]
    &&& forall|o: int| 0 <= o < n ==> #[trigger] occurs(order, o)
}

/// Some position of `order` holds `o`.
pub open spec fn occurs(order: Seq<usize>, o: int) -> bool {
    exists|p: int| 0 <= p < order.len() && order[p] == o
}

/// The position `order` moves the entry at `o` to.
pub open spec fn position_of(order: Seq<usize>, o: int) -> int {
    choose|p: int| 0 <= p < order.len() && order[p] == o
}

/// Where a pixel value goes when the full palettes are reordered by `orders`:
/// an entry of a complete palette follows its color, anything else stays.
pub open spec fn remapped_index(orders: Seq<Seq<usize>>, row_len: nat, full_rows: nat, v: u8) -> u8 {
    let vi = v as int;
    let rl = row_len as int;
    if rl > 0 && vi / rl < full_rows {
        let r = vi / rl;
        ((r * rl + position_of(orders[r], vi % rl)) % 256) as u8
    } else {
        v
    }
}

/// The palette buffer after reordering every complete palette by `orders`.
pub open spec fn reordered_palettes(
    palettes: Seq<BGRA8>,
    orders: Seq<Seq<usize>>,
    row_len: nat,
    full_rows: nat,
) -> Seq<BGRA8> {
    Seq::new(
        palettes.len(),
        |i: int|
            if row_len > 0 && i / (row_len as int) < full_rows {
                let r = i / (row_len as int);
                palettes[r * row_len + orders[r][i % (row_len as int)]]
            } else {
                palettes[i]
            },
    )
}

/// An image as indices into a flat palette buffer: `palettes` holds
/// `n_palettes * colors_per_palette` entries and a pixel index is
/// `palette * colors_per_palette + color`.
pub struct ImageDataIndexed {
    pub palettes: Vec<BGRA8>,
    /// The length of a palette row, as [`effective_row_len`] fixes it.
    pub colors_per_palette: usize,
    pub indexed_pixels: Vec<u8>,
}

impl ImageDataIndexed {
    /// The length of a palette row.
    pub open spec fn row_len(&self) -> nat {
        self.colors_per_palette as nat
    }

    pub open spec fn wf(&self) -> bool {
        self.colors_per_palette as nat == effective_row_len(
            self.palettes@.len(),
            self.colors_per_palette as nat,
        )
    }

    /// `palettes` is the flat palette buffer as the engines produce it, cut
    /// into rows of `colors_per_palette` entries.
    pub fn new(palettes: Vec<BGRA8>, colors_per_palette: usize, indexed_pixels: Vec<u8>) -> (image: Self)
        ensures
            image.wf(),
            image.palettes@ == palettes@,
            image.indexed_pixels@ == indexed_pixels@,
            image.row_len() == effective_row_len(palettes@.len(), colors_per_palette as nat),
    {
        let len = palettes.len();
        let c = if colors_per_palette == 0 { 1 } else { colors_per_palette };
        let row_len = if len == 0 { 0 } else if c > len { len } else { c };
        ImageDataIndexed { palettes, colors_per_palette: row_len, indexed_pixels }
    }

    /// The number of colors in a palette row; 0 without palettes.
    pub fn colors_per_palette(&self) -> (n: usize)
        ensures
            n == self.row_len(),
    {
        self.colors_per_palette
    }

    /// Every pixel resolved through the palette, as RGBA bytes. Indices past
    /// the end of the palette come out opaque black.
    pub fn to_rgba(&self) -> (pixels: Vec<u8>)
        ensures
            pixels@ == rgba_pixels(self.palettes@, self.indexed_pixels@),
    {
        let mut out: Vec<u8> = Vec::new();
        let mut i: usize = 0;
        while i < self.indexed_pixels.len()
            invariant
                i <= self.indexed_pixels.len(),
                out@ == rgba_pixels(self.palettes@, self.indexed_pixels@.take(i as int)),
            decreases self.indexed_pixels.len() - i,
        {
            let index = self.indexed_pixels[i];
            let ghost before = out@;
            if (index as usize) < self.palettes.len() {
                let c = self.palettes[index as usize];
                out.push(c.r);
                out.push(c.g);
                out.push(c.b);
                out.push(c.a);
            } else {
                out.push(0);
                out.push(0);
                out.push(0);
                out.push(255);
            }
            proof {
                let taken = self.indexed_pixels@.take((i + 1) as int);
                assert(taken.drop_last() =~= self.indexed_pixels@.take(i as int));
                assert(out@ =~= before + color_bytes(self.palettes@, index));
            }
            i += 1;
        }
        assert(self.indexed_pixels@.take(i as int) =~= self.indexed_pixels@);
        out
    }

    /// Reorder the colors inside every complete palette, `orders[r][new]`
    /// naming the old position of the color that lands at `new` in palette
    /// `r`, and rewrite the pixel indices to follow their colors.
    pub fn reordered(&self, orders: &Vec<Vec<usize>>) -> (image: Self)
        requires
            self.wf(),
            self.row_len() > 0 ==> orders@.len() >= self.palettes@.len() / self.row_len(),
            self.row_len() > 0 ==> forall|r: int|
                0 <= r < self.palettes@.len() / self.row_len() ==> is_order(
                    (#[trigger] orders@[r])@,
                    self.row_len(),
                ),
        ensures
            image.wf(),
            image.row_len() == self.row_len(),
            self.row_len() == 0 ==> image.palettes@ == self.palettes@ && image.indexed_pixels@
                == self.indexed_pixels@,
            self.row_len() > 0 ==> {
                let views = orders@.map_values(|o: Vec<usize>| o@);
                let full = self.palettes@.len() / self.row_len();
                &&& image.palettes@ == reordered_palettes(self.palettes@, views, self.row_len(), full)
                &&& image.indexed_pixels@ == self.indexed_pixels@.map_values(
                    |v: u8| remapped_index(views, self.row_len(), full, v),
                )
            },
    {
        let row_len = self.colors_per_palette;
        if row_len == 0 {
            return ImageDataIndexed {
                palettes: self.palettes.clone(),
                colors_per_palette: 0,
                indexed_pixels: self.indexed_pixels.clone(),
            };
        }
        let len = self.palettes.len();
        let full = len / row_len;
        let ghost views = orders@.map_values(|o: Vec<usize>| o@);
        let mut new_palettes = self.palettes.clone();
        let mut remap: Vec<u8> = Vec::new();
        let mut v: usize = 0;
        while v < 256
            invariant
                v <= 256,
                remap@.len() == v,
                forall|k: int| 0 <= k < v ==> remap@[k] == k,
            decreases 256 - v,
        {
            remap.push(v as u8);
            v += 1;
        }
        let mut r: usize = 0;
        while r < full
            invariant
                row_len == self.row_len(),
                row_len > 0,
                len == self.palettes@.len(),
                full == len / row_len,
                r <= full,
                views == orders@.map_values(|o: Vec<usize>| o@),
                forall|q: int| 0 <= q < full ==> is_order(#[trigger] views[q], row_len as nat),
                orders@.len() >= full,
                new_palettes@.len() == len,
                remap@.len() == 256,
                forall|i: int|
                    0 <= i < len ==> (#[trigger] new_palettes@[i]) == (if i / (row_len as int) < r {
                        self.palettes@[(i / (row_len as int)) * row_len + views[i / (
                        row_len as int)][i % (row_len as int)]]
                    } else {
                        self.palettes@[i]
                    }),
                forall|k: int|
                    0 <= k < 256 ==> (#[trigger] remap@[k]) == (if k / (row_len as int) < r {
                        ((k / (row_len as int) * row_len + position_of(
                            views[k / (row_len as int)],
                            k % (row_len as int),
                        )) % 256) as u8
                    } else {
                        k as u8
                    }),
            decreases full - r,
        {
            assert(r * row_len + row_len <= len) by (nonlinear_arith)
                requires
                    r < full,
                    full == len / row_len,
                    row_len > 0,
            ;
            let start = r * row_len;
            proof {
                assert forall|k: int| 0 <= k < 256 && k / (row_len as int) == r implies 0
                    <= #[trigger] position_of(views[r as int], k % (row_len as int)) by {
                    lemma_row_of(k, row_len as int);
                    lemma_position_of(views[r as int], row_len as nat, k % (row_len as int));
                }
            }
            let order = &orders[r];
            assert(order@ == views[r as int]);
            let mut p: usize = 0;
            while p < row_len
                invariant
                    row_len == self.row_len(),
                    row_len > 0,
                    len == self.palettes@.len(),
                    full == len / row_len,
                    r < full,
                    start == r * row_len,
                    start + row_len <= len,
                    p <= row_len,
                    order@ == views[r as int],
                    is_order(order@, row_len as nat),
                    new_palettes@.len() == len,
                    remap@.len() == 256,
                    forall|i: int|
                        0 <= i < len ==> (#[trigger] new_palettes@[i]) == (if i / (row_len as int)
                            < r || (i / (row_len as int) == r && i % (row_len as int) < p) {
                            self.palettes@[(i / (row_len as int)) * row_len + views[i / (
                            row_len as int)][i % (row_len as int)]]
                        } else {
                            self.palettes@[i]
                        }),
                    forall|k: int|
                        0 <= k < 256 ==> (#[trigger] remap@[k]) == (if k / (row_len as int) < r
                            || (k / (row_len as int) == r && position_of(
                            order@,
                            k % (row_len as int),
                        ) < p) {
                            ((k / (row_len as int) * row_len + position_of(
                                views[k / (row_len as int)],
                                k % (row_len as int),
                            )) % 256) as u8
                        } else {
                            k as u8
                        }),
                decreases row_len - p,
            {
                let old_idx = order[p];
                new_palettes.set(start + p, self.palettes[start + old_idx]);
                if start + old_idx < 256 {
                    remap.set(start + old_idx, ((start + p) % 256) as u8);
                }
                proof {
                    lemma_row_position(start as int, row_len as int, r as int, p as int);
                    lemma_row_position(start as int, row_len as int, r as int, old_idx as int);
                    assert(position_of(order@, old_idx as int) == p as int) by {
                        let w = position_of(order@, old_idx as int);
                        assert(0 <= w < row_len && order@[w] == old_idx);
                    }
                    assert forall|i: int| 0 <= i < len implies (#[trigger] new_palettes@[i]) == (
                    if i / (row_len as int) < r || (i / (row_len as int) == r && i % (
                    row_len as int) < p + 1) {
                        self.palettes@[(i / (row_len as int)) * row_len + views[i / (
                        row_len as int)][i % (row_len as int)]]
                    } else {
                        self.palettes@[i]
                    }) by {
                        if i == start + p {
                        } else {
                            lemma_row_position_unique(start as int, row_len as int, r as int, p as int, i);
                        }
                    }
                    assert forall|k: int| 0 <= k < 256 implies (#[trigger] remap@[k]) == (if k / (
                    row_len as int) < r || (k / (row_len as int) == r && position_of(
                        order@,
                        k % (row_len as int),
                    ) < p + 1) {
                        ((k / (row_len as int) * row_len + position_of(
                            views[k / (row_len as int)],
                            k % (row_len as int),
                        )) % 256) as u8
                    } else {
                        k as u8
                    }) by {
                        if k == start + old_idx {
                        } else if k / (row_len as int) == r {
                            lemma_row_of(k, row_len as int);
                            assert(k == start + k % (row_len as int)) by (nonlinear_arith)
                                requires
                                    k == (k / (row_len as int)) * (row_len as int) + k % (row_len as int),
                                    k / (row_len as int) == r,
                                    start == r * row_len,
                            ;
                            lemma_row_position(start as int, row_len as int, r as int, k - start);
                            let o = k % (row_len as int);
                            if position_of(order@, o) == p as int {
                                let w = position_of(order@, o);
                                assert(occurs(order@, o));
                                assert(0 <= w < row_len && order@[w] == o);
                                assert(o == old_idx);
                                assert(k == start + old_idx);
                            }
                        }
                    }
                }
                p += 1;
            }
            proof {
                assert forall|k: int| 0 <= k < 256 && k / (row_len as int) == r implies
                    #[trigger] position_of(order@, k % (row_len as int)) < row_len by {
                    lemma_row_of(k, row_len as int);
                    lemma_position_of(order@, row_len as nat, k % (row_len as int));
                }
                assert forall|i: int| 0 <= i < len && i / (row_len as int) == r implies
                    #[trigger] (i % (row_len as int)) < row_len by {
                    lemma_row_of(i, row_len as int);
                }
            }
            r += 1;
        }
        let mut pixels: Vec<u8> = Vec::new();
        let mut i: usize = 0;
        while i < self.indexed_pixels.len()
            invariant
                i <= self.indexed_pixels.len(),
                remap@.len() == 256,
                row_len > 0,
                full == len / row_len,
                len == self.palettes@.len(),
                forall|k: int|
                    0 <= k < 256 ==> (#[trigger] remap@[k]) == (if k / (row_len as int) < full {
                        ((k / (row_len as int) * row_len + position_of(
                            views[k / (row_len as int)],
                            k % (row_len as int),
                        )) % 256) as u8
                    } else {
                        k as u8
                    }),
                pixels@ == self.indexed_pixels@.take(i as int).map_values(
                    |v: u8| remapped_index(views, row_len as nat, full as nat, v),
                ),
            decreases self.indexed_pixels.len() - i,
        {
            let v = self.indexed_pixels[i];
            let t = remap[v as usize];
            pixels.push(t);
            proof {
                assert(self.indexed_pixels@.take((i + 1) as int) =~= self.indexed_pixels@.take(
                    i as int,
                ).push(v));
            }
            i += 1;
        }
        assert(self.indexed_pixels@.take(i as int) =~= self.indexed_pixels@);
        assert(new_palettes@ =~= reordered_palettes(self.palettes@, views, row_len as nat, full as nat));
        ImageDataIndexed { palettes: new_palettes, colors_per_palette: row_len, indexed_pixels: pixels }
    }
}

/// The entry at `p` of row `r` of rows of `row_len` entries sits at
/// `start + p`, and reads back as row `r`, position `p`.
proof fn lemma_row_position(start: int, row_len: int, r: int, p: int)
    requires
        row_len > 0,
        r >= 0,
        start == r * row_len,
        0 <= p < row_len,
    ensures
        (start + p) / row_len == r,
        (start + p) % row_len == p,
{
    vstd::arithmetic::div_mod::lemma_fundamental_div_mod(start + p, row_len);
    assert((start + p) / row_len == r && (start + p) % row_len == p) by (nonlinear_arith)
        requires
            row_len > 0,
            start == r * row_len,
            0 <= p < row_len,
            start + p == row_len * ((start + p) / row_len) + (start + p) % row_len,
            0 <= (start + p) % row_len < row_len,
    ;
}

/// `k` is its row times the row length plus its position in the row.
proof fn lemma_row_of(k: int, row_len: int)
    requires
        row_len > 0,
        k >= 0,
    ensures
        k == (k / row_len) * row_len + k % row_len,
        0 <= k % row_len < row_len,
        k / row_len >= 0,
{
    vstd::arithmetic::div_mod::lemma_fundamental_div_mod(k, row_len);
    assert(row_len * (k / row_len) == (k / row_len) * row_len) by (nonlinear_arith);
}

/// In an order, the position of `o` is a position, and holds `o`.
proof fn lemma_position_of(order: Seq<usize>, n: nat, o: int)
    requires
        is_order(order, n),
        0 <= o < n,
    ensures
        0 <= position_of(order, o) < n,
        order[position_of(order, o)] == o,
{
    assert(occurs(order, o));
}

/// Row `r`, position `p` is the only index of its row and position.
proof fn lemma_row_position_unique(start: int, row_len: int, r: int, p: int, i: int)
    requires
        row_len > 0,
        r >= 0,
        i >= 0,
        start == r * row_len,
        0 <= p < row_len,
        i != start + p,
    ensures
        !(i / row_len == r && i % row_len == p),
{
    vstd::arithmetic::div_mod::lemma_fundamental_div_mod(i, row_len);
    if i / row_len == r && i % row_len == p {
        assert(i == row_len * r + p);
        assert(row_len * r == r * row_len) by (nonlinear_arith);
    }
}

/// Reordering the palettes moves every pixel along with its color, so the
/// image resolves to the same RGBA bytes (as long as the palette buffer fits
/// the 256 values a pixel index can take).
pub proof fn law_reordering_keeps_resolved_colors(
    palettes: Seq<BGRA8>,
    pixels: Seq<u8>,
    orders: Seq<Seq<usize>>,
    row_len: nat,
)
    requires
        row_len > 0,
        palettes.len() <= 256,
        orders.len() >= palettes.len() / row_len,
        forall|r: int| 0 <= r < palettes.len() / row_len ==> is_order(#[trigger] orders[r], row_len),
    ensures
        rgba_pixels(
            reordered_palettes(palettes, orders, row_len, palettes.len() / row_len),
            pixels.map_values(|v: u8| remapped_index(orders, row_len, palettes.len() / row_len, v)),
        ) == rgba_pixels(palettes, pixels),
    decreases pixels.len(),
{
    let full = palettes.len() / row_len;
    let new_pal = reordered_palettes(palettes, orders, row_len, full);
    let moved = pixels.map_values(|v: u8| remapped_index(orders, row_len, full, v));
    if pixels.len() > 0 {
        law_reordering_keeps_resolved_colors(palettes, pixels.drop_last(), orders, row_len);
        assert(moved.drop_last() =~= pixels.drop_last().map_values(
            |v: u8| remapped_index(orders, row_len, full, v),
        ));
        let v = pixels.last();
        assert(moved.last() == remapped_index(orders, row_len, full, v));
        assert(color_bytes(new_pal, moved.last()) == color_bytes(palettes, v)) by {
            let vi = v as int;
            let rl = row_len as int;
            if vi / rl < full {
                let r = vi / rl;
                let o = vi % rl;
                vstd::arithmetic::div_mod::lemma_fundamental_div_mod(vi, rl);
                assert(r * rl + rl <= palettes.len()) by (nonlinear_arith)
                    requires
                        r < full,
                        full == palettes.len() / row_len,
                        rl == row_len,
                        rl > 0,
                        r >= 0,
                ;
                let order = orders[r];
                assert(is_order(order, row_len));
                assert(occurs(order, o));
                let p = position_of(order, o);
                assert(0 <= p < rl && order[p] == o);
                let target = r * rl + p;
                assert(target < 256);
                assert(moved.last() as int == target) by {
                    assert(target % 256 == target);
                }
                lemma_row_position(r * rl, rl, r, p);
                assert(new_pal[target] == palettes[r * rl + order[p]]);
                assert(vi == r * rl + o) by (nonlinear_arith)
                    requires
                        vi == rl * (vi / rl) + vi % rl,
                        r == vi / rl,
                        o == vi % rl,
                ;
            } else {
                if vi < palettes.len() {
                    assert(new_pal[vi] == palettes[vi]);
                }
            }
        }
        assert(moved.drop_last().len() == pixels.drop_last().len());
    } else {
        assert(moved.len() == 0);
    }
}

/// The palette order of a Ramps sort: a pinned first color stays at index 0
/// and is left out of the ramp computation; `ramp` orders the remaining
/// entries (its values count from the first unpinned entry), and a
/// descending sort reverses that order.
pub open spec fn spec_ramps_order(n: nat, ramp: Seq<usize>, order: SortOrder, pinned: bool) -> Seq<usize> {
    let rest_start: nat = if pinned { 1 } else { 0 };
    let computed = ramp.map_values(|i: usize| (i + rest_start) as usize);
    let directed = if order == SortOrder::Descending { computed.reverse() } else { computed };
    if pinned {
        seq![0usize] + directed
    } else {
        directed
    }
}

/// How many entries lead a sorted palette: the pinned index 0, if any.
pub open spec fn pinned_lead(pinned: bool) -> int {
    if pinned { 1 } else { 0 }
}

/// Which position of the ramp the `k`-th sorted color comes from: the
/// ramp as it is ascending, read backwards descending.
pub open spec fn ramp_position(order: SortOrder, len: nat, k: int) -> int {
    match order {
        SortOrder::Ascending => k,
        SortOrder::Descending => len - 1 - k,
    }
}

/// A Ramps sort keeps the pinned index 0 first and lists the ramp after it,
/// shifted past that entry: in the ramp's own order ascending, read
/// backwards descending.
pub proof fn law_ramps_order_follows_the_ramp(n: nat, ramp: Seq<usize>, order: SortOrder, pinned: bool)
    requires
        forall|k: int| 0 <= k < ramp.len() ==> (#[trigger] ramp[k]) + pinned_lead(pinned) < n,
        n <= usize::MAX,
    ensures
        spec_ramps_order(n, ramp, order, pinned).len() == ramp.len() + pinned_lead(pinned),
        pinned ==> spec_ramps_order(n, ramp, order, pinned)[0] == 0,
        forall|k: int|
            0 <= k < ramp.len() ==> #[trigger] spec_ramps_order(n, ramp, order, pinned)[k + pinned_lead(pinned)]
                == ramp[ramp_position(order, ramp.len(), k)] + pinned_lead(pinned),
{
    let r = spec_ramps_order(n, ramp, order, pinned);
    let rest_start: nat = if pinned { 1 } else { 0 };
    let computed = ramp.map_values(|i: usize| (i + rest_start) as usize);
    assert forall|k: int| 0 <= k < ramp.len() implies #[trigger] r[k + pinned_lead(pinned)] == ramp[ramp_position(
        order,
        ramp.len(),
        k,
    )] + pinned_lead(pinned) by {
        let j = ramp_position(order, ramp.len(), k);
        assert(computed[j] == (ramp[j] + rest_start) as usize);
        assert(ramp[j] + rest_start < n);
    }
}

/// The palette order of a Ramps sort, see [`spec_ramps_order`].
pub fn ramps_order_of(n: usize, ramp: &Vec<usize>, order: SortOrder, first_color_is_transparent: bool) -> (result: Vec<usize>)
    requires
        forall|k: int|
            0 <= k < ramp@.len() ==> (#[trigger] ramp@[k]) + (if first_color_is_transparent {
                1int
            } else {
                0int
            }) < n,
    ensures
        result@ == spec_ramps_order(n as nat, ramp@, order, first_color_is_transparent),
        result@.len() == ramp@.len() + pinned_lead(first_color_is_transparent),
        first_color_is_transparent ==> result@[0] == 0,
        forall|k: int|
            0 <= k < ramp@.len() ==> #[trigger] result@[k + pinned_lead(first_color_is_transparent)] == ramp@[ramp_position(
                order,
                ramp@.len(),
                k,
            )] + pinned_lead(first_color_is_transparent),
{
    let rest_start: usize = if first_color_is_transparent { 1 } else { 0 };
    let mut computed: Vec<usize> = Vec::new();
    let mut k: usize = 0;
    while k < ramp.len()
        invariant
            k <= ramp@.len(),
            forall|j: int| 0 <= j < ramp@.len() ==> (#[trigger] ramp@[j]) + rest_start < n,
            computed@ == ramp@.take(k as int).map_values(|i: usize| (i + rest_start) as usize),
        decreases ramp.len() - k,
    {
        let index = ramp[k] + rest_start;
        computed.push(index);
        assert(ramp@.take((k + 1) as int) =~= ramp@.take(k as int).push(ramp@[k as int]));
        k += 1;
    }
    assert(ramp@.take(k as int) =~= ramp@);
    let ghost computed_spec = computed@;
    let mut directed: Vec<usize> = Vec::new();
    if order == SortOrder::Descending {
        let mut j: usize = computed.len();
        while j > 0
            invariant
                j <= computed@.len(),
                computed@ == computed_spec,
                directed@ == computed_spec.subrange(j as int, computed_spec.len() as int).reverse(),
            decreases j,
        {
            j -= 1;
            directed.push(computed[j]);
            assert(computed_spec.subrange(j as int, computed_spec.len() as int).reverse() =~= 
                computed_spec.subrange((j + 1) as int, computed_spec.len() as int).reverse().push(computed_spec[j as int]));
        }
        assert(computed_spec.subrange(0, computed_spec.len() as int) =~= computed_spec);
    } else {
        directed = computed;
    }
    let mut result: Vec<usize> = Vec::new();
    if first_color_is_transparent {
        result.push(0);
    }
    let ghost head = result@;
    let mut q: usize = 0;
    while q < directed.len()
        invariant
            q <= directed@.len(),
            result@ == head + directed@.take(q as int),
        decreases directed.len() - q,
    {
        result.push(directed[q]);
        assert(directed@.take((q + 1) as int) =~= directed@.take(q as int).push(directed@[q as int]));
        q += 1;
    }
    assert(directed@.take(q as int) =~= directed@);
    proof {
        if first_color_is_transparent {
            assert(head =~= seq![0usize]);
        } else {
            assert(head =~= Seq::<usize>::empty());
        }
        let off = pinned_lead(first_color_is_transparent);
        let computed_spec = ramp@.map_values(|i: usize| (i + rest_start) as usize);
        assert forall|k: int| 0 <= k < ramp@.len() implies #[trigger] result@[k + off] == ramp@[ramp_position(
            order,
            ramp@.len(),
            k,
        )] + off by {
            let j = ramp_position(order, ramp@.len(), k);
            assert(computed_spec[j] == (ramp@[j] + rest_start) as usize);
            assert(ramp@[j] + rest_start < n);
        }
    }
    result
}

/// Row `y` of a row-major buffer `w` entries wide.
pub open spec fn buffer_row(buffer: Seq<u8>, w: nat, y: int) -> Seq<u8> {
    buffer.subrange(y * w, y * w + w)
}

/// The first `k` rows of a tile mirrored along the requested axes.
pub open spec fn flipped_rows(tile: Seq<u8>, w: nat, flip_x: bool, flip_y: bool, k: nat) -> Seq<u8>
    decreases k,
{
    if k == 0 {
        Seq::<u8>::empty()
    } else {
        let rows = tile.len() / w;
        let y = k - 1;
        let src_y = if flip_y { rows - 1 - y } else { y };
        let row = buffer_row(tile, w, src_y);
        flipped_rows(tile, w, flip_x, flip_y, (k - 1) as nat) + (if flip_x {
            row.reverse()
        } else {
            row
        })
    }
}

/// `tile` (row-major, `w` wide, a trailing partial row dropped) mirrored
/// along the requested axes.
pub open spec fn spec_flip_tile(tile: Seq<u8>, w: nat, flip_x: bool, flip_y: bool) -> Seq<u8> {
    flipped_rows(tile, w, flip_x, flip_y, tile.len() / w)
}

proof fn lemma_row_in_bounds(len: nat, w: nat, y: int)
    requires
        w > 0,
        0 <= y < len / w,
    ensures
        y * w + w <= len,
        0 <= y * w,
{
    assert(y * w + w <= len) by (nonlinear_arith)
        requires
            w > 0,
            0 <= y < len / w,
    ;
    assert(0 <= y * w) by (nonlinear_arith)
        requires
            w > 0,
            0 <= y,
    ;
}

/// `tile` (row-major, `tile_w` wide) mirrored along the requested axes.
pub fn flip_tile(tile: &[u8], tile_w: usize, flip_x: bool, flip_y: bool) -> (flipped: Vec<u8>)
    requires
        tile_w > 0,
    ensures
        flipped@ == spec_flip_tile(tile@, tile_w as nat, flip_x, flip_y),
{
    let rows = tile.len() / tile_w;
    assert(tile@.len() == tile.len());
    let mut out: Vec<u8> = Vec::new();
    let mut y: usize = 0;
    while y < rows
        invariant
            tile_w > 0,
            rows == tile@.len() / (tile_w as nat),
            tile@.len() <= usize::MAX,
            y <= rows,
            out@ == flipped_rows(tile@, tile_w as nat, flip_x, flip_y, y as nat),
        decreases rows - y,
    {
        let src_y = if flip_y { rows - 1 - y } else { y };
        proof {
            lemma_row_in_bounds(tile@.len(), tile_w as nat, src_y as int);
        }
        assert((src_y as int) * (tile_w as int) + tile_w <= tile@.len());
        let start = src_y * tile_w;
        let ghost row = buffer_row(tile@, tile_w as nat, src_y as int);
        let ghost before = out@;
        let mut x: usize = 0;
        while x < tile_w
            invariant
                tile_w > 0,
                start + tile_w <= tile@.len(),
                tile@.len() <= usize::MAX,
                row == tile@.subrange(start as int, start + tile_w),
                x <= tile_w,
                out@ == before + (if flip_x { row.reverse() } else { row }).take(x as int),
            decreases tile_w - x,
        {
            let src_x = if flip_x { tile_w - 1 - x } else { x };
            out.push(tile[start + src_x]);
            proof {
                let directed = if flip_x { row.reverse() } else { row };
                assert(directed.take((x + 1) as int) =~= directed.take(x as int).push(
                    directed[x as int],
                ));
            }
            x += 1;
        }
        proof {
            let directed = if flip_x { row.reverse() } else { row };
            assert(directed.take(tile_w as int) =~= directed);
        }
        y += 1;
    }
    out
}

/// `n` copies of the four bytes of `fill`.
pub open spec fn fill_run(fill: [u8; 4], n: nat) -> Seq<u8>
    decreases n,
{
    if n == 0 {
        Seq::<u8>::empty()
    } else {
        fill_run(fill, (n - 1) as nat) + fill@
    }
}

/// Row `y` of `src` extended to `width` pixels: the source row (cut to
/// `width`) while `y` is inside the source, then `fill` to the end.
pub open spec fn extended_row(
    src: Seq<u8>,
    src_width: nat,
    src_height: nat,
    width: nat,
    fill: [u8; 4],
    y: int,
) -> Seq<u8> {
    let copied = if src_width < width { src_width } else { width };
    if y < src_height {
        src.subrange(y * src_width * 4, y * src_width * 4 + copied * 4) + fill_run(
            fill,
            (width - copied) as nat,
        )
    } else {
        fill_run(fill, width)
    }
}

/// The first `k` rows of `src` placed at the top left of a `width` wide
/// canvas filled with `fill`.
pub open spec fn extended_rows(
    src: Seq<u8>,
    src_width: nat,
    src_height: nat,
    width: nat,
    fill: [u8; 4],
    k: nat,
) -> Seq<u8>
    decreases k,
{
    if k == 0 {
        Seq::<u8>::empty()
    } else {
        extended_rows(src, src_width, src_height, width, fill, (k - 1) as nat) + extended_row(
            src,
            src_width,
            src_height,
            width,
            fill,
            k - 1,
        )
    }
}

/// Place `src` (RGBA, `src_width` x `src_height`) at the top left of a
/// `width` x `height` RGBA buffer, filling the rest with `fill`.
pub fn extend_pixels(
    src: &[u8],
    src_width: u32,
    src_height: u32,
    width: u32,
    height: u32,
    fill: [u8; 4],
) -> (out: Vec<u8>)
    requires
        width * height * 4 <= u32::MAX,
        forall|y: int|
            0 <= y < height && y < src_height ==> #[trigger] (y * src_width * 4) <= u32::MAX
                && y * src_width * 4 + (if src_width < width { src_width } else { width }) * 4
                <= src@.len(),
    ensures
        out@ == extended_rows(src@, src_width as nat, src_height as nat, width as nat, fill, height as nat),
{
    let copied_width = if src_width < width { src_width } else { width };
    assert(src@.len() == src.len());
    let mut out: Vec<u8> = Vec::new();
    let mut y: u32 = 0;
    while y < height
        invariant
            y <= height,
            width * height * 4 <= u32::MAX,
            src@.len() <= usize::MAX,
            copied_width == (if src_width < width { src_width } else { width }),
            forall|q: int|
                0 <= q < height && q < src_height ==> #[trigger] (q * src_width * 4) <= u32::MAX
                    && q * src_width * 4 + copied_width * 4 <= src@.len(),
            out@ == extended_rows(src@, src_width as nat, src_height as nat, width as nat, fill, y as nat),
        decreases height - y,
    {
        let ghost before = out@;
        let mut written: u32 = 0;
        if y < src_height {
            assert((y as int) * src_width * 4 <= u32::MAX);
            assert((y as int) * src_width * 4 + copied_width * 4 <= src@.len());
            assert(copied_width * 4 <= u32::MAX) by (nonlinear_arith)
                requires
                    copied_width <= width,
                    width * height * 4 <= u32::MAX,
                    height >= 1,
            ;
            let row_start = (y * src_width * 4) as usize;
            let row_end = row_start + (copied_width * 4) as usize;
            let mut i = row_start;
            while i < row_end
                invariant
                    row_start <= i <= row_end,
                    row_end <= src@.len(),
                    out@ == before + src@.subrange(row_start as int, i as int),
                decreases row_end - i,
            {
                out.push(src[i]);
                assert(src@.subrange(row_start as int, (i + 1) as int) =~= src@.subrange(
                    row_start as int,
                    i as int,
                ).push(src@[i as int]));
                i += 1;
            }
            written = copied_width;
        }
        let ghost copied = out@;
        let mut x = written;
        while x < width
            invariant
                written <= x <= width,
                out@ == copied + fill_run(fill, (x - written) as nat),
            decreases width - x,
        {
            out.push(fill[0]);
            out.push(fill[1]);
            out.push(fill[2]);
            out.push(fill[3]);
            proof {
                assert(fill_run(fill, (x + 1 - written) as nat) == fill_run(fill, (x - written) as nat) + fill@);
                assert(fill@ =~= seq![fill[0], fill[1], fill[2], fill[3]]);
            }
            x += 1;
        }
        proof {
            let row = extended_row(src@, src_width as nat, src_height as nat, width as nat, fill, y as int);
            if y < src_height {
                assert(out@ =~= before + row);
            } else {
                assert(copied == before);
                assert(out@ =~= before + row);
            }
        }
        y += 1;
    }
    out
}

/// Pixels from which loading an image asks for confirmation first.
pub const LARGE_IMAGE_PIXELS: u64 = 1024 * 768;

/// Whether an image of this size is large enough to ask before loading it.
pub fn is_large_image(width: u32, height: u32) -> (large: bool)
    ensures
        large == (width as nat * height as nat >= LARGE_IMAGE_PIXELS),
{
    assert((width as nat) * (height as nat) <= 0xFFFF_FFFE_0000_0001) by (nonlinear_arith)
        requires
            width <= 0xFFFF_FFFF,
            height <= 0xFFFF_FFFF,
    ;
    (width as u64) * (height as u64) >= LARGE_IMAGE_PIXELS
}

/// The notice shown while an image of `original` size is extended to
/// `fitted` to line up with the tile grid.
pub open spec fn spec_tile_fit_notice(original: (u32, u32), fitted: (u32, u32), tile_width: u16, tile_height: u16) -> Seq<char> {
    "⚠ Extended "@ + decimal(original.0 as nat) + "×"@ + decimal(original.1 as nat) + " → "@
        + decimal(fitted.0 as nat) + "×"@ + decimal(fitted.1 as nat) + " to fit "@ + decimal(
        tile_width as nat,
    ) + "×"@ + decimal(tile_height as nat) + " tiles"@
}

/// The notice shown while an image of `original` size is extended to
/// `fitted` to line up with the tile grid.
pub fn tile_fit_notice(original: (u32, u32), fitted: (u32, u32), tile_width: u16, tile_height: u16) -> (notice: String)
    ensures
        notice@ == spec_tile_fit_notice(original, fitted, tile_width, tile_height),
{
    let mut m = String::new();
    push_str(&mut m, "⚠ Extended ");
    push_decimal(&mut m, original.0 as u64);
    push_str(&mut m, "×");
    push_decimal(&mut m, original.1 as u64);
    push_str(&mut m, " → ");
    push_decimal(&mut m, fitted.0 as u64);
    push_str(&mut m, "×");
    push_decimal(&mut m, fitted.1 as u64);
    push_str(&mut m, " to fit ");
    push_decimal(&mut m, tile_width as u64);
    push_str(&mut m, "×");
    push_decimal(&mut m, tile_height as u64);
    push_str(&mut m, " tiles");
    m
}

/// The smallest multiple of `m` at or above `v`.
pub open spec fn next_multiple(v: nat, m: nat) -> nat {
    if v % m == 0 { v } else { (v + (m - v % m)) as nat }
}

/// Smallest size at or above `size` whose sides are multiples of the tile
/// size (a tile size of 0 counting as 1).
pub fn tile_fit_target(size: (u32, u32), tile_width: u16, tile_height: u16) -> (target: (u32, u32))
    requires
        next_multiple(size.0 as nat, if tile_width == 0 { 1 } else { tile_width as nat }) <= u32::MAX,
        next_multiple(size.1 as nat, if tile_height == 0 { 1 } else { tile_height as nat }) <= u32::MAX,
    ensures
        target.0 == next_multiple(size.0 as nat, if tile_width == 0 { 1 } else { tile_width as nat }),
        target.1 == next_multiple(size.1 as nat, if tile_height == 0 { 1 } else { tile_height as nat }),
{
    let tw: u32 = if tile_width == 0 { 1 } else { tile_width as u32 };
    let th: u32 = if tile_height == 0 { 1 } else { tile_height as u32 };
    let w = if size.0 % tw == 0 { size.0 } else { size.0 + (tw - size.0 % tw) };
    let h = if size.1 % th == 0 { size.1 } else { size.1 + (th - size.1 % th) };
    (w, h)
}

/// The fitted size is the least multiple of the tile size that holds the
/// image: a multiple, no smaller than the image, and less than one tile
/// larger.
pub proof fn law_tile_fit_is_the_least_covering_multiple(v: nat, m: nat)
    requires
        m > 0,
    ensures
        next_multiple(v, m) % m == 0,
        v <= next_multiple(v, m) < v + m,
{
    vstd::arithmetic::div_mod::lemma_fundamental_div_mod(v as int, m as int);
    if v % m != 0 {
        let n = next_multiple(v, m);
        assert(n == m * (v / m) + m);
        assert(n == m * (v / m + 1)) by (nonlinear_arith)
            requires
                n == m * (v / m) + m,
        ;
        vstd::arithmetic::div_mod::lemma_mod_multiples_basic((v / m + 1) as int, m as int);
        assert((v / m + 1) * m == m * (v / m + 1)) by (nonlinear_arith);
    }
}

/// RGBA of the top-left pixel, used as the fill when extending the image;
/// all zero for an empty image.
pub fn top_left_pixel(rgba_data: &[u8]) -> (pixel: [u8; 4])
    ensures
        rgba_data@.len() >= 4 ==> pixel@ == rgba_data@.take(4),
        rgba_data@.len() < 4 ==> pixel == [0u8, 0u8, 0u8, 0u8],
{
    if rgba_data.len() >= 4 {
        let p = [rgba_data[0], rgba_data[1], rgba_data[2], rgba_data[3]];
        assert(p@ =~= rgba_data@.take(4));
        p
    } else {
        [0, 0, 0, 0]
    }
}

} // verus!
