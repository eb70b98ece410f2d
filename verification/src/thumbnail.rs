//! Thumbnails for the results list: an image scaled down so its longest
//! side is [`THUMBNAIL_SIZE`], each thumbnail pixel the average of the
//! source pixels that fall into it.
//!
//! The scale and the cell each source row and column falls into are the
//! values binary64 arithmetic gives for `size / longest` and `(i + 0.5) *
//! scale`. They are computed here on integers: a double is `m / 2^e`, and
//! every operation rounds to the nearest double with 53 significant bits,
//! ties to even, as IEEE 754 prescribes.

use vstd::prelude::*;
use crate::results::{THUMBNAIL_SIZE, Thumbnail};
use crate::tiles::lemma_row_col;

verus! {

/// `2^e`.
pub open spec fn p2(e: nat) -> nat
    decreases e,
{
    if e == 0 {
        1
    } else {
        2 * p2((e - 1) as nat)
    }
}

/// `n / d` rounded to the nearest integer, ties to the even one.
pub open spec fn round_half_even(n: nat, d: nat) -> nat {
    let q = n / d;
    let r = n % d;
    if 2 * r > d || (2 * r == d && q % 2 == 1) {
        q + 1
    } else {
        q
    }
}

/// The exponent, from `e` on, at which `n / d` scaled by `2^e` has 53
/// significant bits.
pub open spec fn binade_exp(n: nat, d: nat, e: nat, fuel: nat) -> nat
    decreases fuel,
{
    if fuel == 0 || n * p2(e) >= p2(52) * d {
        e
    } else {
        binade_exp(n, d, e + 1, (fuel - 1) as nat)
    }
}

/// How many low bits `n` has past 53 significant ones.
pub open spec fn excess_bits(n: nat) -> nat
    decreases n,
{
    if n < p2(53) || n == 0 {
        0
    } else {
        1 + excess_bits(n / 2)
    }
}

/// The double nearest `n / d`, as `(m, e)` standing for `m / 2^e`.
pub open spec fn nearest_ratio(n: nat, d: nat) -> (nat, nat) {
    let e = binade_exp(n, d, 0, 128);
    (round_half_even(n * p2(e), d), e)
}

/// The double nearest `n / 2^e`, as `(m, e')` standing for `m / 2^e'`.
pub open spec fn nearest_scaled(n: nat, e: nat) -> (nat, nat) {
    let s = excess_bits(n);
    (round_half_even(n, p2(s)), (e - s) as nat)
}

/// The scale of a thumbnail of an image whose longest side is `longest`:
/// the double nearest `THUMBNAIL_SIZE / longest`.
pub open spec fn thumbnail_scale(longest: nat) -> (nat, nat) {
    nearest_ratio(THUMBNAIL_SIZE as nat, longest)
}

/// A side of `len` pixels scaled: `len * scale` rounded to a double, then to
/// the nearest integer with halves away from zero, and at least 1.
pub open spec fn scaled_len(len: nat, scale: (nat, nat)) -> nat {
    let (m, e) = nearest_scaled(len * scale.0, scale.1);
    let r = (2 * m + p2(e)) / p2(e + 1);
    if r == 0 {
        1
    } else {
        r
    }
}

/// The cell of `n` a row or column `i` falls into: `(i + 0.5) * scale`
/// rounded to a double, then down to an integer, and at most `n - 1`.
pub open spec fn cell_index(i: nat, scale: (nat, nat), n: nat) -> nat {
    let (m, e) = nearest_scaled((2 * i + 1) * scale.0, scale.1 + 1);
    let t = m / p2(e);
    if t < n - 1 {
        t
    } else {
        (n - 1) as nat
    }
}

/// The cell source pixel `k` (row-major, `width` wide) falls into.
pub open spec fn cell_of_pixel(k: nat, width: nat, scale: (nat, nat), dst_width: nat, dst_height: nat) -> nat {
    cell_index(k / width, scale, dst_height) * dst_width + cell_index(k % width, scale, dst_width)
}

/// Channel `c` summed over the first `k` source pixels that lie inside
/// `rgba` and fall into `cell`.
pub open spec fn cell_sum(
    rgba: Seq<u8>,
    width: nat,
    scale: (nat, nat),
    dst_width: nat,
    dst_height: nat,
    cell: nat,
    c: int,
    k: nat,
) -> nat
    decreases k,
{
    if k == 0 {
        0
    } else {
        let p = (k - 1) as nat;
        cell_sum(rgba, width, scale, dst_width, dst_height, cell, c, p) + if 4 * p + 4 <= rgba.len()
            && cell_of_pixel(p, width, scale, dst_width, dst_height) == cell {
            rgba[4 * p + c] as nat
        } else {
            0
        }
    }
}

/// How many of the first `k` source pixels lie inside `rgba` and fall into
/// `cell`.
pub open spec fn cell_count(
    rgba: Seq<u8>,
    width: nat,
    scale: (nat, nat),
    dst_width: nat,
    dst_height: nat,
    cell: nat,
    k: nat,
) -> nat
    decreases k,
{
    if k == 0 {
        0
    } else {
        let p = (k - 1) as nat;
        cell_count(rgba, width, scale, dst_width, dst_height, cell, p) + if 4 * p + 4 <= rgba.len()
            && cell_of_pixel(p, width, scale, dst_width, dst_height) == cell {
            1nat
        } else {
            0
        }
    }
}

/// Whether an image of `width` x `height` is kept at its own size.
pub open spec fn keeps_size(width: nat, height: nat) -> bool {
    width == 0 || height == 0 || (if width >= height { width } else { height }) <= THUMBNAIL_SIZE
}

proof fn lemma_p2_positive(e: nat)
    ensures
        p2(e) >= 1,
    decreases e,
{
    if e > 0 {
        lemma_p2_positive((e - 1) as nat);
    }
}

proof fn lemma_p2_add(a: nat, b: nat)
    ensures
        p2(a + b) == p2(a) * p2(b),
    decreases b,
{
    if b == 0 {
        assert(a + b == a);
        assert(p2(0) == 1);
    } else {
        let b1 = (b - 1) as nat;
        lemma_p2_add(a, b1);
        let s = a + b;
        assert(s - 1 == a + b1);
        assert(p2(s) == 2 * p2((s - 1) as nat));
        assert(p2(b) == 2 * p2(b1));
        let x = p2(a);
        let y = p2(b1);
        assert(p2(a + b1) == x * y);
        assert(x * (2 * y) == 2 * (x * y)) by (nonlinear_arith);
        assert(p2(s) == x * p2(b));
    }
}

proof fn lemma_p2_monotone(a: nat, b: nat)
    requires
        a <= b,
    ensures
        p2(a) <= p2(b),
    decreases b,
{
    if a < b {
        lemma_p2_monotone(a, (b - 1) as nat);
        lemma_p2_positive((b - 1) as nat);
    }
}

proof fn lemma_p2_values()
    ensures
        p2(4) == 16,
        p2(32) == 0x1_0000_0000,
        p2(84) == 0x10_0000_0000_0000_0000_0000,
        p2(52) == 0x10_0000_0000_0000,
        p2(53) == 0x20_0000_0000_0000,
        p2(100) == 0x10_0000_0000_0000_0000_0000_0000,
        p2(120) == 0x100_0000_0000_0000_0000_0000_0000_0000,
{
    reveal_with_fuel(p2, 5);
    assert(p2(4) == 16);
    lemma_p2_add(4, 4);
    assert(p2(8) == 256);
    lemma_p2_add(8, 8);
    assert(p2(16) == 65536);
    lemma_p2_add(16, 16);
    assert(p2(32) == 0x1_0000_0000);
    lemma_p2_add(32, 16);
    assert(p2(48) == 0x1_0000_0000_0000);
    lemma_p2_add(48, 4);
    assert(p2(52) == 0x10_0000_0000_0000);
    assert(p2(53) == 2 * p2(52));
    lemma_p2_add(32, 32);
    assert(p2(64) == 0x1_0000_0000_0000_0000);
    lemma_p2_add(52, 32);
    assert(p2(84) == 0x10_0000_0000_0000_0000_0000);
    lemma_p2_add(64, 32);
    assert(p2(96) == 0x1_0000_0000_0000_0000_0000_0000);
    lemma_p2_add(96, 4);
    lemma_p2_add(96, 16);
    assert(p2(112) == 0x1_0000_0000_0000_0000_0000_0000_0000);
    lemma_p2_add(112, 8);
}

/// `2^e` for `e` up to 120.
fn pow2(e: u32) -> (p: u128)
    requires
        e <= 120,
    ensures
        p == p2(e as nat),
{
    let mut p: u128 = 1;
    let mut i: u32 = 0;
    while i < e
        invariant
            i <= e <= 120,
            p == p2(i as nat),
        decreases e - i,
    {
        proof {
            lemma_p2_monotone(i as nat + 1, 120);
            lemma_p2_values();
        }
        p = p * 2;
        i += 1;
    }
    p
}

fn round_half_even_exec(n: u128, d: u128) -> (q: u128)
    requires
        0 < d < 0x1000_0000_0000_0000_0000_0000_0000_0000,
    ensures
        q == round_half_even(n as nat, d as nat),
{
    let q: u128 = n / d;
    let r: u128 = n % d;
    assert(q <= n / 1) by {
        vstd::arithmetic::div_mod::lemma_div_is_ordered_by_denominator(n as int, 1, d as int);
    }
    if 2 * r > d || (2 * r == d && q % 2 == 1) {
        assert(q < 0xffff_ffff_ffff_ffff_ffff_ffff_ffff_ffff) by {
            vstd::arithmetic::div_mod::lemma_fundamental_div_mod(n as int, d as int);
            if d == 1 {
                assert(r == 0);
            } else {
                assert(q <= n / 2) by {
                    vstd::arithmetic::div_mod::lemma_div_is_ordered_by_denominator(n as int, 2, d as int);
                }
            }
        }
        q + 1
    } else {
        q
    }
}

/// The scale of a thumbnail of an image whose longest side is `longest`,
/// as `(m, e)` standing for `m / 2^e`, with the bounds the products of
/// the scale rely on.
fn thumbnail_scale_exec(longest: u32) -> (scale: (u128, u32))
    requires
        longest > THUMBNAIL_SIZE,
    ensures
        (scale.0 as nat, scale.1 as nat) == thumbnail_scale(longest as nat),
        52 <= scale.1 <= 84,
        scale.0 <= p2(53),
        longest * scale.0 <= THUMBNAIL_SIZE * p2(scale.1 as nat) + longest,
{
    let d: u128 = longest as u128;
    let mut pw: u128 = 1;
    let mut e: u32 = 0;
    proof {
        lemma_p2_values();
    }
    while 160 * pw < 0x10_0000_0000_0000 * d
        invariant
            d == longest,
            d < 0x1_0000_0000,
            d > 160,
            e <= 84,
            pw == p2(e as nat),
            160 * pw < p2(53) * d,
            p2(52) == 0x10_0000_0000_0000,
            p2(53) == 0x20_0000_0000_0000,
            p2(32) == 0x1_0000_0000,
            binade_exp(160, d as nat, 0, 128) == binade_exp(160, d as nat, e as nat, (128 - e) as nat),
        decreases 84 - e,
    {
        proof {
            if e == 84 {
                lemma_p2_add(52, 32);
                assert(160 * pw >= p2(52) * d) by (nonlinear_arith)
                    requires
                        pw == p2(52) * p2(32),
                        d < p2(32),
                ;
            }
        }
        pw = pw * 2;
        e += 1;
    }
    let m: u128 = round_half_even_exec(160 * pw, d);
    proof {
        assert(binade_exp(160, d as nat, e as nat, (128 - e) as nat) == e);
        if e <= 52 {
            lemma_p2_monotone(e as nat, 52);
            let big = p2(52);
            let pwi = pw as int;
            let dd = d as int;
            assert(160 * pwi < big * dd) by (nonlinear_arith)
                requires
                    pwi <= big,
                    dd > 160,
                    pwi >= 1,
            ;
        }
        let num: int = 160 * pw;
        let di: int = d as int;
        let q: int = num / di;
        vstd::arithmetic::div_mod::lemma_fundamental_div_mod(num, di);
        assert(q < p2(53)) by (nonlinear_arith)
            requires
                num == di * q + num % di,
                num % di >= 0,
                num < p2(53) * di,
                di > 0,
        ;
        assert(m <= q + 1);
        assert(di * m <= num + di) by (nonlinear_arith)
            requires
                m <= q + 1,
                num == di * q + num % di,
                num % di >= 0,
                di > 0,
        ;
    }
    (m, e)
}

proof fn lemma_excess_bits_bound(n: nat, e: nat)
    requires
        n < p2(53) * p2(e),
    ensures
        excess_bits(n) <= e,
    decreases e,
{
    lemma_p2_values();
    if n >= p2(53) && n != 0 {
        if e == 0 {
            assert(false);
        } else {
            assert(n / 2 < p2(53) * p2((e - 1) as nat)) by (nonlinear_arith)
                requires
                    n < p2(53) * (2 * p2((e - 1) as nat)),
            ;
            lemma_excess_bits_bound(n / 2, (e - 1) as nat);
        }
    }
}

/// The double nearest `n / 2^e`, for a quotient below `2^53`.
fn nearest_scaled_exec(n: u128, e: u32) -> (r: (u128, u32))
    requires
        e <= 100,
        n < p2(53) * p2(e as nat),
    ensures
        (r.0 as nat, r.1 as nat) == nearest_scaled(n as nat, e as nat),
        r.0 <= p2(53),
        r.1 <= e,
        r.0 * p2((e - r.1) as nat) <= n + p2((e - r.1) as nat),
        p2(e as nat) == p2((e - r.1) as nat) * p2(r.1 as nat),
{
    proof {
        lemma_p2_values();
        lemma_excess_bits_bound(n as nat, e as nat);
    }
    let mut t: u128 = n;
    let mut s: u32 = 0;
    let mut pw: u128 = 1;
    while t >= 0x20_0000_0000_0000
        invariant
            p2(53) == 0x20_0000_0000_0000,
            pw == p2(s as nat),
            t == n / pw,
            excess_bits(n as nat) == s + excess_bits(t as nat),
            excess_bits(n as nat) <= e,
            e <= 100,
        decreases t,
    {
        proof {
            lemma_p2_positive(s as nat);
            vstd::arithmetic::div_mod::lemma_div_denominator(n as int, pw as int, 2);
            lemma_p2_monotone(s as nat + 1, 100);
            lemma_p2_values();
        }
        t = t / 2;
        s += 1;
        pw = pw * 2;
    }
    proof {
        lemma_p2_positive(s as nat);
        lemma_p2_monotone(s as nat, 100);
        assert(excess_bits(t as nat) == 0);
    }
    let m: u128 = round_half_even_exec(n, pw);
    proof {
        vstd::arithmetic::div_mod::lemma_fundamental_div_mod(n as int, pw as int);
        assert(m <= p2(53)) by (nonlinear_arith)
            requires
                m <= t + 1,
                t < p2(53),
        ;
        assert(m * pw <= n + pw) by (nonlinear_arith)
            requires
                m <= t + 1,
                n == pw * t + n % pw,
                n % pw >= 0,
        ;
        lemma_p2_add(s as nat, (e - s) as nat);
    }
    (m, e - s)
}

/// A side of `len` pixels scaled by the thumbnail scale `(m, e)`.
fn scaled_len_exec(len: u32, m: u128, e: u32, longest: u32) -> (n: u32)
    requires
        len <= longest,
        52 <= e <= 84,
        m <= p2(53),
        longest * m <= THUMBNAIL_SIZE * p2(e as nat) + longest,
    ensures
        n == scaled_len(len as nat, (m as nat, e as nat)),
        1 <= n <= 162,
{
    proof {
        lemma_p2_values();
        lemma_p2_monotone(52, e as nat);
        assert(len * m <= longest * m) by (nonlinear_arith)
            requires
                len <= longest,
        ;
        assert(len * m < p2(53) * p2(e as nat)) by (nonlinear_arith)
            requires
                len * m <= 160 * p2(e as nat) + longest,
                longest < 0x1_0000_0000,
                p2(e as nat) >= p2(52),
                p2(52) == 0x10_0000_0000_0000,
                p2(53) == 0x20_0000_0000_0000,
        ;
    }
    proof {
        lemma_p2_monotone(e as nat, 84);
        assert(len * m <= 0x1000_0000_0000_0000_0000_0000) by (nonlinear_arith)
            requires
                len * m <= 160 * p2(e as nat) + longest,
                p2(e as nat) <= 0x10_0000_0000_0000_0000_0000,
                longest < 0x1_0000_0000,
        ;
    }
    let n0: u128 = len as u128 * m;
    let (m2, e2) = nearest_scaled_exec(n0, e);
    let p: u128 = pow2(e2);
    let p1: u128 = pow2(e2 + 1);
    proof {
        lemma_p2_positive(e2 as nat);
        lemma_p2_monotone(e2 as nat, 84);
        lemma_p2_values();
    }
    let r: u128 = (2 * m2 + p) / p1;
    proof {
        let ps = p2((e - e2) as nat);
        let pe = p2(e as nat);
        lemma_p2_positive(e2 as nat);
        lemma_p2_positive((e - e2) as nat);
        lemma_p2_monotone((e - e2) as nat, e as nat);
        assert(p1 == 2 * p);
        assert(m2 <= 162 * p) by (nonlinear_arith)
            requires
                m2 * ps <= n0 + ps,
                n0 <= 160 * pe + longest,
                longest <= pe,
                ps <= pe,
                pe == ps * p,
                ps >= 1,
        ;
        assert(r <= 162) by (nonlinear_arith)
            requires
                r == (2 * m2 + p) / (2 * p),
                m2 <= 162 * p,
                p >= 1,
        ;
    }
    if r == 0 {
        1
    } else {
        r as u32
    }
}

/// The cell of `n` the row or column `i` falls into, under the thumbnail
/// scale `(m, e)`.
fn cell_index_exec(i: u32, m: u128, e: u32, longest: u32, n: u32) -> (cell: u32)
    requires
        i < longest,
        n >= 1,
        52 <= e <= 84,
        m <= p2(53),
        longest * m <= THUMBNAIL_SIZE * p2(e as nat) + longest,
    ensures
        cell == cell_index(i as nat, (m as nat, e as nat), n as nat),
        cell < n,
{
    proof {
        lemma_p2_values();
        lemma_p2_monotone(52, e as nat);
        assert((2 * i + 1) * m <= 2 * (longest * m)) by (nonlinear_arith)
            requires
                i < longest,
        ;
        assert((2 * i + 1) * m < p2(53) * (2 * p2(e as nat))) by (nonlinear_arith)
            requires
                (2 * i + 1) * m <= 2 * (160 * p2(e as nat) + longest),
                longest < 0x1_0000_0000,
                p2(e as nat) >= p2(52),
                p2(52) == 0x10_0000_0000_0000,
                p2(53) == 0x20_0000_0000_0000,
        ;
    }
    proof {
        lemma_p2_monotone(e as nat, 84);
        assert((2 * i + 1) * m <= 0x1_0000_0000_0000_0000_0000_0000) by (nonlinear_arith)
            requires
                (2 * i + 1) * m <= 2 * (160 * p2(e as nat) + longest),
                p2(e as nat) <= 0x10_0000_0000_0000_0000_0000,
                longest < 0x1_0000_0000,
        ;
    }
    let n0: u128 = (2 * i as u128 + 1) * m;
    let (m2, e2) = nearest_scaled_exec(n0, e + 1);
    let p: u128 = pow2(e2);
    proof {
        lemma_p2_positive(e2 as nat);
    }
    let t: u128 = m2 / p;
    if t < (n - 1) as u128 {
        t as u32
    } else {
        n - 1
    }
}

proof fn lemma_cell_count_bound(
    rgba: Seq<u8>,
    width: nat,
    scale: (nat, nat),
    dst_width: nat,
    dst_height: nat,
    cell: nat,
    k: nat,
)
    ensures
        cell_count(rgba, width, scale, dst_width, dst_height, cell, k) <= k,
        cell_count(rgba, width, scale, dst_width, dst_height, cell, k) <= rgba.len() / 4,
    decreases k,
{
    if k > 0 {
        lemma_cell_count_bound(rgba, width, scale, dst_width, dst_height, cell, (k - 1) as nat);
    }
}

proof fn lemma_cell_sum_bound(
    rgba: Seq<u8>,
    width: nat,
    scale: (nat, nat),
    dst_width: nat,
    dst_height: nat,
    cell: nat,
    c: int,
    k: nat,
)
    ensures
        cell_sum(rgba, width, scale, dst_width, dst_height, cell, c, k) <= 255 * cell_count(
            rgba,
            width,
            scale,
            dst_width,
            dst_height,
            cell,
            k,
        ),
    decreases k,
{
    if k > 0 {
        lemma_cell_sum_bound(rgba, width, scale, dst_width, dst_height, cell, c, (k - 1) as nat);
    }
}

proof fn lemma_uniform_sum(
    rgba: Seq<u8>,
    width: nat,
    scale: (nat, nat),
    dst_width: nat,
    dst_height: nat,
    cell: nat,
    c: int,
    v: u8,
    k: nat,
)
    requires
        0 <= c < 4,
        forall|p: nat| 4 * p + 4 <= rgba.len() ==> #[trigger] rgba[4 * p + c] == v,
    ensures
        cell_sum(rgba, width, scale, dst_width, dst_height, cell, c, k) == v * cell_count(
            rgba,
            width,
            scale,
            dst_width,
            dst_height,
            cell,
            k,
        ),
    decreases k,
{
    if k > 0 {
        let p = (k - 1) as nat;
        lemma_uniform_sum(rgba, width, scale, dst_width, dst_height, cell, c, v, p);
        let n = cell_count(rgba, width, scale, dst_width, dst_height, cell, p);
        let s = cell_sum(rgba, width, scale, dst_width, dst_height, cell, c, p);
        if 4 * p + 4 <= rgba.len() && cell_of_pixel(p, width, scale, dst_width, dst_height) == cell {
            assert(rgba[4 * p + c] == v);
            assert(cell_sum(rgba, width, scale, dst_width, dst_height, cell, c, k) == s + v);
            assert(cell_count(rgba, width, scale, dst_width, dst_height, cell, k) == n + 1);
            assert(v * n + v == v * (n + 1)) by (nonlinear_arith);
        } else {
            assert(cell_sum(rgba, width, scale, dst_width, dst_height, cell, c, k) == s);
            assert(cell_count(rgba, width, scale, dst_width, dst_height, cell, k) == n);
        }
    } else {
        assert(v * 0 == 0);
    }
}

/// A thumbnail cell that some source pixels fall into takes a channel's
/// value when every source pixel has that value in the channel; so a
/// single-colored image thumbnails to its color wherever a cell is covered.
pub proof fn law_a_covered_cell_keeps_a_uniform_color(
    rgba: Seq<u8>,
    width: nat,
    height: nat,
    scale: (nat, nat),
    dst_width: nat,
    dst_height: nat,
    cell: nat,
    c: int,
    v: u8,
)
    requires
        0 <= c < 4,
        forall|p: nat| 4 * p + 4 <= rgba.len() ==> #[trigger] rgba[4 * p + c] == v,
        cell_count(rgba, width, scale, dst_width, dst_height, cell, width * height) > 0,
    ensures
        cell_mean(rgba, width, height, scale, dst_width, dst_height, cell, c) == v,
{
    lemma_uniform_sum(rgba, width, scale, dst_width, dst_height, cell, c, v, width * height);
    let n: int = cell_count(rgba, width, scale, dst_width, dst_height, cell, width * height) as int;
    let vi: int = v as int;
    assert((vi * n) / n == vi) by (nonlinear_arith)
        requires
            n > 0,
    ;
}

/// The thumbnail pixel of `cell`: each channel the mean, rounded down, of
/// the source pixels that fall into it, or zero when none does.
pub open spec fn cell_mean(
    rgba: Seq<u8>,
    width: nat,
    height: nat,
    scale: (nat, nat),
    dst_width: nat,
    dst_height: nat,
    cell: nat,
    c: int,
) -> nat {
    let count = cell_count(rgba, width, scale, dst_width, dst_height, cell, width * height);
    cell_sum(rgba, width, scale, dst_width, dst_height, cell, c, width * height) / if count == 0 {
        1
    } else {
        count
    }
}

/// Downscale `rgba` (`width` x `height`) so its longest side is
/// [`THUMBNAIL_SIZE`], averaging the source pixels that fall into each
/// destination cell; pixels past the end of `rgba` are left out. An image
/// already that small is kept as it is.
pub fn thumbnail_of(rgba: &[u8], width: u32, height: u32) -> (thumbnail: Thumbnail)
    requires
        width * height * 4 <= usize::MAX,
        rgba@.len() / 4 * 255 <= u64::MAX,
    ensures
        keeps_size(width as nat, height as nat) ==> thumbnail.width == width && thumbnail.height
            == height && thumbnail.rgba@ == rgba@,
        !keeps_size(width as nat, height as nat) ==> {
            let scale = thumbnail_scale(if width >= height { width as nat } else { height as nat });
            let dst_width = scaled_len(width as nat, scale);
            let dst_height = scaled_len(height as nat, scale);
            &&& thumbnail.width == dst_width
            &&& thumbnail.height == dst_height
            &&& thumbnail.rgba@.len() == 4 * (dst_width * dst_height)
            &&& forall|cell: int, c: int|
                0 <= cell < dst_width * dst_height && 0 <= c < 4 ==> #[trigger] thumbnail.rgba@[4 * cell
                    + c] == cell_mean(
                    rgba@,
                    width as nat,
                    height as nat,
                    scale,
                    dst_width,
                    dst_height,
                    cell as nat,
                    c,
                )
        },
{
    let longest: u32 = if width >= height { width } else { height };
    if width == 0 || height == 0 || longest <= THUMBNAIL_SIZE {
        return Thumbnail { width, height, rgba: vstd::slice::slice_to_vec(rgba) };
    }
    let (m, e) = thumbnail_scale_exec(longest);
    let dst_width: u32 = scaled_len_exec(width, m, e, longest);
    let dst_height: u32 = scaled_len_exec(height, m, e, longest);
    let ghost scale = (m as nat, e as nat);
    assert(dst_width * dst_height <= 162 * 162) by (nonlinear_arith)
        requires
            dst_width <= 162,
            dst_height <= 162,
    ;
    let cells: usize = dst_width as usize * dst_height as usize;
    let mut sums: Vec<[u64; 4]> = Vec::new();
    let mut counts: Vec<u64> = Vec::new();
    let mut z: usize = 0;
    while z < cells
        invariant
            z <= cells,
            sums@.len() == z,
            counts@.len() == z,
            forall|q: int| 0 <= q < z ==> #[trigger] sums@[q] == [0u64, 0u64, 0u64, 0u64],
            forall|q: int| 0 <= q < z ==> #[trigger] counts@[q] == 0,
        decreases cells - z,
    {
        sums.push([0, 0, 0, 0]);
        counts.push(0);
        z += 1;
    }
    assert(rgba@.len() == rgba.len());
    let mut columns: Vec<u32> = Vec::new();
    let mut cx: u32 = 0;
    while cx < width
        invariant
            0 < width <= longest,
            52 <= e <= 84,
            m <= p2(53),
            longest * m <= THUMBNAIL_SIZE * p2(e as nat) + longest,
            1 <= dst_width,
            cx <= width,
            columns@.len() == cx,
            forall|i: int|
                0 <= i < cx ==> #[trigger] columns@[i] == cell_index(i as nat, (m as nat, e as nat), dst_width as nat)
                    && columns@[i] < dst_width,
        decreases width - cx,
    {
        columns.push(cell_index_exec(cx, m, e, longest, dst_width));
        cx += 1;
    }
    let mut k: usize = 0;
    let mut y: u32 = 0;
    while y < height
        invariant
            0 < width <= longest,
            0 < height <= longest,
            longest > THUMBNAIL_SIZE,
            52 <= e <= 84,
            m <= p2(53),
            longest * m <= THUMBNAIL_SIZE * p2(e as nat) + longest,
            scale == (m as nat, e as nat),
            1 <= dst_width <= 162,
            1 <= dst_height <= 162,
            cells == dst_width * dst_height,
            width * height * 4 <= usize::MAX,
            rgba@.len() / 4 * 255 <= u64::MAX,
            rgba@.len() <= usize::MAX,
            columns@.len() == width,
            forall|i: int|
                0 <= i < width ==> #[trigger] columns@[i] == cell_index(i as nat, scale, dst_width as nat)
                    && columns@[i] < dst_width,
            y <= height,
            k == y * width,
            sums@.len() == cells,
            counts@.len() == cells,
            forall|q: int, c: int|
                0 <= q < cells && 0 <= c < 4 ==> #[trigger] sums@[q][c] == cell_sum(
                    rgba@,
                    width as nat,
                    scale,
                    dst_width as nat,
                    dst_height as nat,
                    q as nat,
                    c,
                    k as nat,
                ),
            forall|q: int|
                0 <= q < cells ==> #[trigger] counts@[q] == cell_count(
                    rgba@,
                    width as nat,
                    scale,
                    dst_width as nat,
                    dst_height as nat,
                    q as nat,
                    k as nat,
                ),
        decreases height - y,
    {
        let dst_y: u32 = cell_index_exec(y, m, e, longest, dst_height);
        assert(dst_y * dst_width <= 162 * 162) by (nonlinear_arith)
            requires
                dst_y < dst_height <= 162,
                dst_width <= 162,
        ;
        let row: usize = dst_y as usize * dst_width as usize;
        assert(row + dst_width <= cells) by (nonlinear_arith)
            requires
                row == dst_y * dst_width,
                dst_y < dst_height,
                cells == dst_width * dst_height,
        ;
        let mut x: u32 = 0;
        while x < width
            invariant
                0 < width <= longest,
                0 < height <= longest,
                longest > THUMBNAIL_SIZE,
                52 <= e <= 84,
                m <= p2(53),
                longest * m <= THUMBNAIL_SIZE * p2(e as nat) + longest,
                scale == (m as nat, e as nat),
                1 <= dst_width <= 162,
                1 <= dst_height <= 162,
                cells == dst_width * dst_height,
                width * height * 4 <= usize::MAX,
                rgba@.len() / 4 * 255 <= u64::MAX,
                rgba@.len() <= usize::MAX,
                columns@.len() == width,
                forall|i: int|
                    0 <= i < width ==> #[trigger] columns@[i] == cell_index(i as nat, scale, dst_width as nat)
                        && columns@[i] < dst_width,
                y < height,
                x <= width,
                k == y * width + x,
                dst_y == cell_index(y as nat, scale, dst_height as nat),
                row == dst_y * dst_width,
                row + dst_width <= cells,
                sums@.len() == cells,
                counts@.len() == cells,
                forall|q: int, c: int|
                    0 <= q < cells && 0 <= c < 4 ==> #[trigger] sums@[q][c] == cell_sum(
                        rgba@,
                        width as nat,
                        scale,
                        dst_width as nat,
                        dst_height as nat,
                        q as nat,
                        c,
                        k as nat,
                    ),
                forall|q: int|
                    0 <= q < cells ==> #[trigger] counts@[q] == cell_count(
                        rgba@,
                        width as nat,
                        scale,
                        dst_width as nat,
                        dst_height as nat,
                        q as nat,
                        k as nat,
                    ),
            decreases width - x,
        {
            let dst_x: u32 = columns[x as usize];
            let cell: usize = row + dst_x as usize;
            proof {
                lemma_row_col(width as int, x as int, y as int);
                assert(k < width * height) by (nonlinear_arith)
                    requires
                        k == y * width + x,
                        x < width,
                        y < height,
                ;
                assert(cell_of_pixel(k as nat, width as nat, scale, dst_width as nat, dst_height as nat)
                    == cell);
            }
            let src: usize = k * 4;
            let ghost before_sums = sums@;
            let ghost before_counts = counts@;
            if src + 4 <= rgba.len() {
                proof {
                    lemma_cell_count_bound(rgba@, width as nat, scale, dst_width as nat, dst_height as nat, cell as nat, k as nat);
                    assert(k + 1 <= rgba@.len() / 4);
                    assert forall|c: int| 0 <= c < 4 implies #[trigger] sums@[cell as int][c] + 255 <= u64::MAX by {
                        lemma_cell_sum_bound(rgba@, width as nat, scale, dst_width as nat, dst_height as nat, cell as nat, c, k as nat);
                        assert(255 * cell_count(rgba@, width as nat, scale, dst_width as nat, dst_height as nat, cell as nat, k as nat) + 255 <= 255 * (rgba@.len() / 4)) by (nonlinear_arith)
                            requires
                                cell_count(rgba@, width as nat, scale, dst_width as nat, dst_height as nat, cell as nat, k as nat) + 1 <= rgba@.len() / 4,
                        ;
                    }
                }
                let s = sums[cell];
                let updated: [u64; 4] = [
                    s[0] + rgba[src] as u64,
                    s[1] + rgba[src + 1] as u64,
                    s[2] + rgba[src + 2] as u64,
                    s[3] + rgba[src + 3] as u64,
                ];
                sums.set(cell, updated);
                let n: u64 = counts[cell];
                counts.set(cell, n + 1);
            }
            proof {
                assert forall|q: int, c: int|
                    0 <= q < cells && 0 <= c < 4 implies #[trigger] sums@[q][c] == cell_sum(
                        rgba@,
                        width as nat,
                        scale,
                        dst_width as nat,
                        dst_height as nat,
                        q as nat,
                        c,
                        (k + 1) as nat,
                    ) by {
                    assert(before_sums[q][c] == cell_sum(
                        rgba@,
                        width as nat,
                        scale,
                        dst_width as nat,
                        dst_height as nat,
                        q as nat,
                        c,
                        k as nat,
                    ));
                }
                assert forall|q: int|
                    0 <= q < cells implies #[trigger] counts@[q] == cell_count(
                        rgba@,
                        width as nat,
                        scale,
                        dst_width as nat,
                        dst_height as nat,
                        q as nat,
                        (k + 1) as nat,
                    ) by {
                    assert(before_counts[q] == cell_count(
                        rgba@,
                        width as nat,
                        scale,
                        dst_width as nat,
                        dst_height as nat,
                        q as nat,
                        k as nat,
                    ));
                }
            }
            k += 1;
            x += 1;
        }
        assert((y + 1) * width == y * width + width) by (nonlinear_arith);
        y += 1;
    }
    assert(k == width * height) by (nonlinear_arith)
        requires
            k == y * width,
            y == height,
    ;
    let mut out: Vec<u8> = Vec::new();
    let mut q: usize = 0;
    while q < cells
        invariant
            q <= cells,
            k == width * height,
            sums@.len() == cells,
            counts@.len() == cells,
            out@.len() == 4 * q,
            forall|p: int, c: int|
                0 <= p < cells && 0 <= c < 4 ==> #[trigger] sums@[p][c] == cell_sum(
                    rgba@,
                    width as nat,
                    scale,
                    dst_width as nat,
                    dst_height as nat,
                    p as nat,
                    c,
                    k as nat,
                ),
            forall|p: int|
                0 <= p < cells ==> #[trigger] counts@[p] == cell_count(
                    rgba@,
                    width as nat,
                    scale,
                    dst_width as nat,
                    dst_height as nat,
                    p as nat,
                    k as nat,
                ),
            forall|p: int, c: int|
                0 <= p < q && 0 <= c < 4 ==> #[trigger] out@[4 * p + c] == cell_mean(
                    rgba@,
                    width as nat,
                    height as nat,
                    scale,
                    dst_width as nat,
                    dst_height as nat,
                    p as nat,
                    c,
                ),
        decreases cells - q,
    {
        let n: u64 = if counts[q] == 0 { 1 } else { counts[q] };
        let s = sums[q];
        proof {
            assert forall|c: int| 0 <= c < 4 implies s[c] / n <= 255 by {
                lemma_cell_sum_bound(rgba@, width as nat, scale, dst_width as nat, dst_height as nat, q as nat, c, k as nat);
                assert(s[c] / n <= 255) by (nonlinear_arith)
                    requires
                        s[c] <= 255 * counts@[q as int],
                        n == (if counts@[q as int] == 0 { 1 } else { counts@[q as int] }),
                        n >= 1,
                ;
            }
        }
        let ghost before = out@;
        out.push((s[0] / n) as u8);
        out.push((s[1] / n) as u8);
        out.push((s[2] / n) as u8);
        out.push((s[3] / n) as u8);
        proof {
            assert forall|p: int, c: int|
                0 <= p < q + 1 && 0 <= c < 4 implies #[trigger] out@[4 * p + c] == cell_mean(
                    rgba@,
                    width as nat,
                    height as nat,
                    scale,
                    dst_width as nat,
                    dst_height as nat,
                    p as nat,
                    c,
                ) by {
                if p < q {
                    assert(out@[4 * p + c] == before[4 * p + c]);
                }
            }
        }
        q += 1;
    }
    Thumbnail { width: dst_width, height: dst_height, rgba: out }
}

} // verus!
