//! The tilepalquant engine's random number generator and the pixel order it
//! drives.
//!
//! The optimization draws pixels through [`RandomShuffle`], the only consumer
//! of randomness: with the same seed and the same input the engine produces
//! the same output. The generator is xoshiro128**, seeded through splitmix64.

use vstd::prelude::*;

verus! {

/// 2^32, the range of one draw.
pub open spec fn two_32() -> nat {
    0x1_0000_0000
}

/// 2^64, the modulus of the seeding arithmetic.
pub open spec fn two_64() -> nat {
    0x1_0000_0000_0000_0000
}

/// One splitmix64 step: the advanced source and the value it yields.
pub open spec fn spec_split_mix_64(source: u64) -> (u64, u64) {
    let s = ((source as nat + 0x9E37_79B9_7F4A_7C15nat) % two_64()) as u64;
    let z1 = (((s ^ (s >> 30u64)) as nat * 0xBF58_476D_1CE4_E5B9nat) % two_64()) as u64;
    let z2 = (((z1 ^ (z1 >> 27u64)) as nat * 0x94D0_49BB_1331_11EBnat) % two_64()) as u64;
    (s, z2 ^ (z2 >> 31u64))
}

fn split_mix_64(source: &mut u64) -> (value: u64)
    ensures
        (*final(source), value) == spec_split_mix_64(*old(source)),
{
    *source = source.wrapping_add(0x9E37_79B9_7F4A_7C15);
    let mut z = *source;
    z = (z ^ (z >> 30)).wrapping_mul(0xBF58_476D_1CE4_E5B9);
    z = (z ^ (z >> 27)).wrapping_mul(0x94D0_49BB_1331_11EB);
    z ^ (z >> 31)
}

/// The four words of generator state.
pub type RngState = (u32, u32, u32, u32);

/// The state a seed starts the generator in.
pub open spec fn spec_seed_state(seed: u32) -> RngState {
    let (s1, low) = spec_split_mix_64(seed as u64);
    let (_s2, high) = spec_split_mix_64(s1);
    let state = (low as u32, (low >> 32u64) as u32, high as u32, (high >> 32u64) as u32);
    if state == (0u32, 0u32, 0u32, 0u32) {
        (1u32, 0u32, 0u32, 0u32)
    } else {
        state
    }
}

/// `x` rotated left by `k` bits, `0 < k < 32`.
pub open spec fn rotl(x: u32, k: u32) -> u32 {
    (x << k) | (x >> ((32 - k) as u32))
}

/// One xoshiro128** step: the value drawn and the state after it.
pub open spec fn spec_next(state: RngState) -> (u32, RngState) {
    let (s0, s1, s2, s3) = state;
    let m5 = ((s1 as nat * 5) % two_32()) as u32;
    let result = ((rotl(m5, 7) as nat * 9) % two_32()) as u32;
    let shifted = s1 << 9u32;
    let t2 = s2 ^ s0;
    let t3 = s3 ^ s1;
    let n1 = s1 ^ t2;
    let n0 = s0 ^ t3;
    let n2 = t2 ^ shifted;
    let n3 = rotl(t3, 11);
    (result, (n0, n1, n2, n3))
}

/// The state after `k` draws.
pub open spec fn spec_advance(state: RngState, k: nat) -> RngState
    decreases k,
{
    if k == 0 {
        state
    } else {
        spec_advance(spec_next(state).1, (k - 1) as nat)
    }
}

/// xoshiro128**, seeded through splitmix64.
#[derive(Clone, Copy)]
pub struct Rng {
    state: [u32; 4],
}

impl View for Rng {
    type V = RngState;

    closed spec fn view(&self) -> RngState {
        (self.state[0], self.state[1], self.state[2], self.state[3])
    }
}

fn rotate_left(x: u32, k: u32) -> (r: u32)
    requires
        0 < k < 32,
    ensures
        r == rotl(x, k),
{
    (x << k) | (x >> (32 - k))
}

impl Rng {
    pub fn new(seed: u32) -> (rng: Self)
        ensures
            rng@ == spec_seed_state(seed),
    {
        let mut source = seed as u64;
        let low = split_mix_64(&mut source);
        let high = split_mix_64(&mut source);
        let mut state = [low as u32, (low >> 32) as u32, high as u32, (high >> 32) as u32];
        if state[0] == 0 && state[1] == 0 && state[2] == 0 && state[3] == 0 {
            state[0] = 1;
        }
        Rng { state }
    }

    pub fn next_u32(&mut self) -> (value: u32)
        ensures
            (value, final(self)@) == spec_next(old(self)@),
    {
        let s0 = self.state[0];
        let s1 = self.state[1];
        let s2 = self.state[2];
        let s3 = self.state[3];
        let result = rotate_left(s1.wrapping_mul(5), 7).wrapping_mul(9);
        let shifted = s1 << 9;
        let t2 = s2 ^ s0;
        let t3 = s3 ^ s1;
        let n1 = s1 ^ t2;
        let n0 = s0 ^ t3;
        let n2 = t2 ^ shifted;
        let n3 = rotate_left(t3, 11);
        self.state = [n0, n1, n2, n3];
        result
    }
}

/// 2^53: below it every integer is a double.
pub open spec fn two_53() -> nat {
    0x20_0000_0000_0000
}

/// The spacing of doubles around `p`: 1 below 2^53, doubling with every
/// binade above.
pub open spec fn rounding_unit(p: nat) -> nat
    decreases p,
{
    if p < two_53() {
        1
    } else {
        2 * rounding_unit(p / 2)
    }
}

/// `p` rounded to the nearest double, ties to even: the value IEEE 754
/// multiplication gives for an exact product `p`.
pub open spec fn round_to_double(p: nat) -> nat {
    if p < two_53() {
        p
    } else {
        let unit = rounding_unit(p);
        let q = p / unit;
        let r = p % unit;
        let half = unit / 2;
        if r > half || (r == half && q % 2 == 1) {
            (q + 1) * unit
        } else {
            q * unit
        }
    }
}

/// The offset a draw of `u` picks among `n` positions:
/// `floor((u / 2^32) * n)` as double precision computes it. `u / 2^32` and
/// `n` are exact doubles, so only the product rounds.
pub open spec fn spec_pick(u: u32, n: nat) -> nat {
    round_to_double(u as nat * n) / two_32()
}

proof fn lemma_rounding_unit_bounds(p: nat)
    ensures
        rounding_unit(p) >= 1,
        p >= two_53() ==> rounding_unit(p) * 0x10_0000_0000_0000 <= p,
        p < rounding_unit(p) * two_53(),
        rounding_unit(p) == 1 || rounding_unit(p) % 2 == 0,
    decreases p,
{
    if p >= two_53() {
        lemma_rounding_unit_bounds(p / 2);
        let u2 = rounding_unit(p / 2);
        assert(p <= 2 * (p / 2) + 1);
        if p / 2 >= two_53() {
            assert(u2 * 0x10_0000_0000_0000 <= p / 2);
        } else {
            assert(u2 == 1);
        }
    }
}

/// The pick is a valid offset: the rounding never reaches `n` itself.
proof fn lemma_pick_in_range(u: u32, n: nat)
    requires
        n >= 1,
        n < two_32(),
    ensures
        spec_pick(u, n) < n,
{
    let p = u as nat * n;
    assert(p + n <= n * two_32()) by (nonlinear_arith)
        requires
            p == u as nat * n,
            u < two_32(),
    ;
    if p >= two_53() {
        lemma_rounding_unit_bounds(p);
        let unit = rounding_unit(p);
        let q = p / unit;
        let r = p % unit;
        assert(p == q * unit + r) by (nonlinear_arith)
            requires
                unit >= 1,
                q == p / unit,
                r == p % unit,
        ;
        assert(unit <= n) by (nonlinear_arith)
            requires
                unit * 0x10_0000_0000_0000 <= p,
                p + n <= n * two_32(),
                two_32() == 0x1_0000_0000,
        ;
        let rounded = round_to_double(p);
        if r > unit / 2 || (r == unit / 2 && q % 2 == 1) {
            assert(r >= 1) by {
                if unit == 1 {
                    assert(unit * 0x10_0000_0000_0000 <= p);
                    assert(p < unit * two_53());
                }
            }
            assert(rounded == q * unit + unit) by (nonlinear_arith)
                requires
                    rounded == (q + 1) * unit,
            ;
            assert(rounded < n * two_32());
        } else {
            assert(rounded <= p) by (nonlinear_arith)
                requires
                    rounded == q * unit,
                    p == q * unit + r,
            ;
        }
        assert(rounded / two_32() < n) by (nonlinear_arith)
            requires
                rounded < n * two_32(),
                two_32() > 0,
        ;
    } else {
        assert(p / two_32() < n) by (nonlinear_arith)
            requires
                p < n * two_32(),
                two_32() > 0,
        ;
    }
}

/// `u` draws among `n` positions as double precision floors
/// `(u / 2^32) * n`; see [`spec_pick`].
pub fn pick(u: u32, n: u32) -> (offset: u32)
    requires
        n >= 1,
    ensures
        offset == spec_pick(u, n as nat),
        offset < n,
{
    assert((u as nat) * (n as nat) <= 0xFFFF_FFFE_0000_0001) by (nonlinear_arith)
        requires
            u <= 0xFFFF_FFFF,
            n <= 0xFFFF_FFFF,
    ;
    let p: u64 = (u as u64) * (n as u64);
    proof {
        lemma_pick_in_range(u, n as nat);
        lemma_rounding_unit_bounds(p as nat);
    }
    let rounded: u64 = if p < 0x20_0000_0000_0000 {
        p
    } else {
        let unit = rounding_unit_of(p);
        let q = p / unit;
        let r = p % unit;
        let half = unit / 2;
        assert(unit <= 0x1000) by (nonlinear_arith)
            requires
                unit * 0x10_0000_0000_0000 <= p,
                p < 0x1_0000_0000_0000_0000,
        ;
        assert(q * unit <= p) by (nonlinear_arith)
            requires
                unit >= 1,
                q == p / unit,
        ;
        assert(p <= 0xFFFF_FFFE_0000_0001) by (nonlinear_arith)
            requires
                p == u as nat * n as nat,
                u <= 0xFFFF_FFFF,
                n <= 0xFFFF_FFFF,
        ;
        if r > half || (r == half && q % 2 == 1) {
            assert((q + 1) * unit <= p + unit) by (nonlinear_arith)
                requires
                    q * unit <= p,
            ;
            (q + 1) * unit
        } else {
            q * unit
        }
    };
    assert(rounded as nat == round_to_double(p as nat));
    (rounded / 0x1_0000_0000) as u32
}

/// The spacing of doubles around `p`, computed as [`rounding_unit`] defines it.
fn rounding_unit_of(p: u64) -> (unit: u64)
    ensures
        unit == rounding_unit(p as nat),
    decreases p,
{
    proof {
        lemma_rounding_unit_bounds(p as nat);
    }
    if p < 0x20_0000_0000_0000 {
        1
    } else {
        let half = rounding_unit_of(p / 2);
        proof {
            lemma_rounding_unit_bounds((p / 2) as nat);
        }
        2 * half
    }
}

/// Where the shuffle order comes from.
#[derive(Clone, Copy, Debug, PartialEq, Eq, Structural)]
pub enum ShuffleMode {
    /// Shuffle from a seeded generator.
    Seeded(u32),
    /// Leave the pixels in their natural order, so a run has no random input
    /// at all.
    Fixed,
}

/// The shuffle from position `i` on: each position swaps with one drawn from
/// the positions at or after it. Returns the values and the generator state
/// after the `len - i` draws.
pub open spec fn spec_shuffle_from(values: Seq<u32>, state: RngState, i: nat) -> (Seq<u32>, RngState)
    decreases values.len() - i,
{
    if i >= values.len() {
        (values, state)
    } else {
        let (u, next_state) = spec_next(state);
        let j = i + spec_pick(u, (values.len() - i) as nat);
        if j < values.len() {
            let swapped = values.update(i as int, values[j as int]).update(j as int, values[i as int]);
            spec_shuffle_from(swapped, next_state, i + 1)
        } else {
            spec_shuffle_from(values, next_state, i + 1)
        }
    }
}

/// `values` holds every index below its length exactly once.
pub open spec fn is_index_permutation(values: Seq<u32>) -> bool {
    &&& forall|k: int| 0 <= k < values.len() ==> (#[trigger] values[k]) < values.len()
    &&& forall|a: int, b: int|
        0 <= a < values.len() && 0 <= b < values.len() && a != b ==> values[a] != values[b]
}

/// The natural order `0, 1, .., count - 1`.
pub open spec fn natural_order(count: nat) -> Seq<u32> {
    Seq::new(count, |k: int| k as u32)
}

/// What a shuffle is: the drawn values, the position of the last value handed
/// out, and the generator state when seeded.
pub struct ShuffleView {
    pub values: Seq<u32>,
    pub current_index: nat,
    pub rng: Option<RngState>,
}

/// Draws pixel indices in a shuffled order, reshuffling once every index has
/// been handed out.
pub struct RandomShuffle {
    values: Vec<u32>,
    current_index: usize,
    rng: Option<Rng>,
}

impl View for RandomShuffle {
    type V = ShuffleView;

    closed spec fn view(&self) -> ShuffleView {
        ShuffleView {
            values: self.values@,
            current_index: self.current_index as nat,
            rng: match self.rng {
                Option::Some(rng) => Option::Some(rng@),
                Option::None => Option::None,
            },
        }
    }
}

/// The view of a shuffle after the reshuffle that starts a new round.
pub open spec fn spec_reshuffled(view: ShuffleView) -> ShuffleView {
    match view.rng {
        Option::Some(state) => {
            let (values, next_state) = spec_shuffle_from(view.values, state, 0);
            ShuffleView { values, current_index: 0, rng: Option::Some(next_state) }
        },
        Option::None => ShuffleView { values: view.values, current_index: 0, rng: Option::None },
    }
}

/// Swapping two positions keeps a permutation a permutation.
proof fn lemma_swap_keeps_permutation(values: Seq<u32>, i: int, j: int)
    requires
        is_index_permutation(values),
        0 <= i < values.len(),
        0 <= j < values.len(),
    ensures
        is_index_permutation(values.update(i, values[j]).update(j, values[i])),
{
    let swapped = values.update(i, values[j]).update(j, values[i]);
    assert forall|a: int, b: int|
        0 <= a < swapped.len() && 0 <= b < swapped.len() && a != b implies swapped[a]
        != swapped[b] by {
        let pa = if a == j { i } else if a == i { j } else { a };
        let pb = if b == j { i } else if b == i { j } else { b };
        assert(swapped[a] == values[pa]);
        assert(swapped[b] == values[pb]);
    }
    assert forall|k: int| 0 <= k < swapped.len() implies (#[trigger] swapped[k])
        < swapped.len() by {
        let pk = if k == j { i } else if k == i { j } else { k };
        assert(swapped[k] == values[pk]);
    }
}

proof fn lemma_shuffle_keeps_permutation(values: Seq<u32>, state: RngState, i: nat)
    requires
        is_index_permutation(values),
        values.len() < two_32(),
    ensures
        is_index_permutation(spec_shuffle_from(values, state, i).0),
        spec_shuffle_from(values, state, i).0.len() == values.len(),
        spec_shuffle_from(values, state, i).1 == spec_advance(
            state,
            if i <= values.len() { (values.len() - i) as nat } else { 0 },
        ),
    decreases values.len() - i,
{
    if i < values.len() {
        let (u, next_state) = spec_next(state);
        lemma_pick_in_range(u, (values.len() - i) as nat);
        let j = i + spec_pick(u, (values.len() - i) as nat);
        lemma_swap_keeps_permutation(values, i as int, j as int);
        let swapped = values.update(i as int, values[j as int]).update(j as int, values[i as int]);
        lemma_shuffle_keeps_permutation(swapped, next_state, i + 1);
        assert(spec_advance(state, (values.len() - i) as nat) == spec_advance(
            next_state,
            (values.len() - (i + 1)) as nat,
        ));
    }
}

/// A seeded reshuffle hands out every index exactly once again, and draws
/// exactly one random number per value: the generator ends `len` steps on.
pub proof fn law_reshuffle_is_a_permutation_drawing_once_per_value(view: ShuffleView, state: RngState)
    requires
        is_index_permutation(view.values),
        view.values.len() < two_32(),
        view.rng == Option::Some(state),
    ensures
        is_index_permutation(spec_reshuffled(view).values),
        spec_reshuffled(view).values.len() == view.values.len(),
        spec_reshuffled(view).rng == Option::Some(spec_advance(state, view.values.len())),
{
    lemma_shuffle_keeps_permutation(view.values, state, 0);
}

/// Without a generator a reshuffle leaves the order as it is, so a fixed
/// shuffle hands out its indices in the same order round after round.
pub proof fn law_fixed_shuffle_keeps_its_order(view: ShuffleView)
    requires
        view.rng is None,
    ensures
        spec_reshuffled(view).values == view.values,
        spec_reshuffled(view).rng is None,
{
}

/// One draw from a shuffle: the index handed out and the shuffle after it.
/// The position moves one on; past the last value the order is reshuffled
/// and the first value of the new order is handed out. An empty shuffle
/// hands out 0 and stays as it is.
pub open spec fn spec_draw(view: ShuffleView) -> (ShuffleView, nat) {
    if view.values.len() == 0 {
        (view, 0)
    } else if view.current_index + 1 >= view.values.len() {
        let next = spec_reshuffled(view);
        (next, next.values[0] as nat)
    } else {
        let advanced = view.current_index + 1;
        (ShuffleView { current_index: advanced, ..view }, view.values[advanced as int] as nat)
    }
}

/// `d` successive draws: the shuffle after them and the indices handed out,
/// in order.
pub open spec fn spec_draws(view: ShuffleView, d: nat) -> (ShuffleView, Seq<nat>)
    decreases d,
{
    if d == 0 {
        (view, Seq::empty())
    } else {
        let (before, drawn) = spec_draws(view, (d - 1) as nat);
        let (after, index) = spec_draw(before);
        (after, drawn.push(index))
    }
}

/// The shuffle of `count` indices seeded with `seed`, as `new` makes it.
pub open spec fn spec_seeded_start(count: nat, seed: u32) -> ShuffleView {
    ShuffleView {
        values: natural_order(count),
        current_index: if count == 0 { 0 } else { (count - 1) as nat },
        rng: Option::Some(spec_seed_state(seed)),
    }
}

proof fn lemma_advance_add(state: RngState, a: nat, b: nat)
    ensures
        spec_advance(spec_advance(state, a), b) == spec_advance(state, a + b),
    decreases a,
{
    if a > 0 {
        lemma_advance_add(spec_next(state).1, (a - 1) as nat, b);
        assert((a - 1) as nat + b == (a + b - 1) as nat);
    }
}

/// Block arithmetic for draw number `d` of blocks `n` long.
proof fn lemma_block_step(d: nat, n: nat)
    requires
        d >= 1,
        n >= 1,
    ensures
        d % n != 0 ==> d / n == ((d - 1) as nat / n) && d % n == ((d - 1) as nat % n) + 1,
        d % n == 0 ==> d / n == ((d - 1) as nat / n) + 1 && ((d - 1) as nat % n) == n - 1,
        ((d + n - 1) as nat / n) == ((d - 1) as nat / n) + 1,
{
    let e = (d - 1) as nat;
    let q = e / n;
    let r = e % n;
    vstd::arithmetic::div_mod::lemma_fundamental_div_mod(e as int, n as int);
    assert(0 <= r < n);
    assert(d == q * n + r + 1) by (nonlinear_arith)
        requires
            e == n * q + r,
            d == e + 1,
    ;
    if r + 1 < n {
        vstd::arithmetic::div_mod::lemma_fundamental_div_mod_converse(d as int, n as int, q as int, (r + 1) as int);
    } else {
        assert(d == (q + 1) * n + 0) by (nonlinear_arith)
            requires
                d == q * n + r + 1,
                r + 1 == n,
        ;
        vstd::arithmetic::div_mod::lemma_fundamental_div_mod_converse(d as int, n as int, (q + 1) as int, 0);
    }
    assert(d + n - 1 == (q + 1) * n + r) by (nonlinear_arith)
        requires
            d == q * n + r + 1,
    ;
    vstd::arithmetic::div_mod::lemma_fundamental_div_mod_converse((d + n - 1) as int, n as int, (q + 1) as int, r as int);
}

/// Two positions in one block with the same offset are the same position.
proof fn lemma_same_block(k1: nat, k2: nat, n: nat)
    requires
        n >= 1,
        k1 / n == k2 / n,
        k1 % n == k2 % n,
    ensures
        k1 == k2,
{
    vstd::arithmetic::div_mod::lemma_fundamental_div_mod(k1 as int, n as int);
    vstd::arithmetic::div_mod::lemma_fundamental_div_mod(k2 as int, n as int);
}

/// What holds after `d >= 1` draws from a seeded start of `n` indices.
pub open spec fn blocks_so_far(start: RngState, n: nat, d: nat, view: ShuffleView, drawn: Seq<nat>) -> bool {
    &&& is_index_permutation(view.values)
    &&& view.values.len() == n
    &&& view.current_index == ((d - 1) as nat % n)
    &&& view.rng == Option::Some(spec_advance(start, n * (((d - 1) as nat / n) + 1)))
    &&& drawn.len() == d
    &&& forall|k: int| 0 <= k < d ==> #[trigger] drawn[k] < n
    &&& forall|k: int|
        0 <= k < d && k / (n as int) == ((d - 1) as nat / n) ==> #[trigger] drawn[k] == view.values[k % (n as int)] as nat
    &&& forall|k1: int, k2: int|
        0 <= k1 < d && 0 <= k2 < d && k1 != k2 && k1 / (n as int) == k2 / (n as int) ==> #[trigger] drawn[k1]
            != #[trigger] drawn[k2]
}

proof fn lemma_blocks(n: nat, seed: u32, d: nat)
    requires
        0 < n < two_32(),
        d >= 1,
    ensures
        blocks_so_far(spec_seed_state(seed), n, d, spec_draws(spec_seeded_start(n, seed), d).0, spec_draws(
            spec_seeded_start(n, seed),
            d,
        ).1),
    decreases d,
{
    let s0 = spec_seed_state(seed);
    let start = spec_seeded_start(n, seed);
    assert(is_index_permutation(start.values));
    if d == 1 {
        let (v0, r0) = spec_draws(start, 0);
        assert(v0 == start);
        lemma_shuffle_keeps_permutation(start.values, s0, 0);
        let (v, r) = spec_draws(start, 1);
        assert(v == spec_reshuffled(start));
        assert(r =~= seq![v.values[0] as nat]);
        assert(0nat % n == 0 && 0nat / n == 0) by (nonlinear_arith)
            requires
                n >= 1,
        ;
        assert(n * (0nat / n + 1) == n) by (nonlinear_arith)
            requires
                0nat / n == 0,
        ;
        assert forall|k: int| 0 <= k < 1 && k / (n as int) == 0nat / n implies #[trigger] r[k] == v.values[k
            % (n as int)] as nat by {
            assert(k == 0);
        }
    } else {
        lemma_blocks(n, seed, (d - 1) as nat);
        let (v, r) = spec_draws(start, (d - 1) as nat);
        let (v2, r2) = spec_draws(start, d);
        let c = v.current_index;
        let e = (d - 1) as nat;
        lemma_block_step(e, n);
        assert(c == ((e - 1) as nat % n));
        if c + 1 >= n {
            // The block is used up: a reshuffle starts the next one.
            let st = spec_advance(s0, n * (((e - 1) as nat / n) + 1));
            lemma_shuffle_keeps_permutation(v.values, st, 0);
            lemma_advance_add(s0, n * (((e - 1) as nat / n) + 1), n);
            assert(e % n == 0);
            assert(n * (((e - 1) as nat / n) + 1) + n == n * (e / n + 1)) by (nonlinear_arith)
                requires
                    e / n == ((e - 1) as nat / n) + 1,
            ;
            assert(v2 == spec_reshuffled(v));
            assert(r2 == r.push(v2.values[0] as nat));
            assert(v2.current_index == e % n);
            assert forall|k: int| 0 <= k < d && k / (n as int) == e / n implies #[trigger] r2[k] == v2.values[k
                % (n as int)] as nat by {
                if k < e {
                    assert(k / (n as int) <= ((e - 1) as nat / n)) by {
                        vstd::arithmetic::div_mod::lemma_div_is_ordered(k, (e - 1) as int, n as int);
                    }
                } else {
                    assert(k == e);
                }
            }
            assert forall|k1: int, k2: int|
                0 <= k1 < d && 0 <= k2 < d && k1 != k2 && k1 / (n as int) == k2 / (n as int) implies #[trigger] r2[k1]
                != #[trigger] r2[k2] by {
                if k1 < e && k2 < e {
                    assert(r2[k1] == r[k1] && r2[k2] == r[k2]);
                } else if k1 == e {
                    vstd::arithmetic::div_mod::lemma_div_is_ordered(k2, (e - 1) as int, n as int);
                } else {
                    vstd::arithmetic::div_mod::lemma_div_is_ordered(k1, (e - 1) as int, n as int);
                }
            }
            assert forall|k: int| 0 <= k < d implies #[trigger] r2[k] < n by {
                if k < e {
                    assert(r2[k] == r[k]);
                }
            }
        } else {
            // Still inside the block: the next value of the same order.
            assert(e % n != 0);
            assert(c + 1 == e % n);
            assert(v2 == ShuffleView { current_index: c + 1, ..v });
            assert(r2 == r.push(v.values[(c + 1) as int] as nat));
            assert forall|k: int| 0 <= k < d && k / (n as int) == e / n implies #[trigger] r2[k] == v2.values[k
                % (n as int)] as nat by {
                if k < e {
                    assert(r2[k] == r[k]);
                }
            }
            assert forall|k1: int, k2: int|
                0 <= k1 < d && 0 <= k2 < d && k1 != k2 && k1 / (n as int) == k2 / (n as int) implies #[trigger] r2[k1]
                != #[trigger] r2[k2] by {
                if k1 < e && k2 < e {
                    assert(r2[k1] == r[k1] && r2[k2] == r[k2]);
                } else if k1 == e {
                    assert(r2[k2] == r[k2]);
                    assert(r[k2] == v.values[k2 % (n as int)] as nat);
                    if k2 % (n as int) == c + 1 {
                        lemma_same_block(k1 as nat, k2 as nat, n);
                    }
                } else {
                    assert(r2[k1] == r[k1]);
                    assert(r[k1] == v.values[k1 % (n as int)] as nat);
                    if k1 % (n as int) == c + 1 {
                        lemma_same_block(k1 as nat, k2 as nat, n);
                    }
                }
            }
            assert forall|k: int| 0 <= k < d implies #[trigger] r2[k] < n by {
                if k < e {
                    assert(r2[k] == r[k]);
                }
            }
        }
    }
}

/// Successive draws from a seeded shuffle of `n` indices come in blocks of
/// `n`: the draws of one block are distinct indices below `n`, so a full
/// block is an order of all of them, and the generator moves exactly `n`
/// steps per block begun, on the block's first draw and on no other. The
/// draws are a function of `n` and the seed alone, so two shuffles made
/// alike draw alike.
pub proof fn law_draws_come_in_permuted_blocks(n: nat, seed: u32, d: nat)
    requires
        0 < n < two_32(),
    ensures
        spec_draws(spec_seeded_start(n, seed), d).1.len() == d,
        forall|k: int| 0 <= k < d ==> #[trigger] spec_draws(spec_seeded_start(n, seed), d).1[k] < n,
        forall|k1: int, k2: int|
            0 <= k1 < d && 0 <= k2 < d && k1 != k2 && k1 / (n as int) == k2 / (n as int) ==> #[trigger] spec_draws(
                spec_seeded_start(n, seed),
                d,
            ).1[k1] != #[trigger] spec_draws(spec_seeded_start(n, seed), d).1[k2],
        spec_draws(spec_seeded_start(n, seed), d).0.rng == Option::Some(
            spec_advance(spec_seed_state(seed), n * (((d + n - 1) as nat / n))),
        ),
        spec_draws(spec_seeded_start(n, seed), d + 1).0.rng == Option::Some(
            spec_advance(
                spec_draws(spec_seeded_start(n, seed), d).0.rng->Some_0,
                if d % n == 0 { n } else { 0 },
            ),
        ),
{
    let s0 = spec_seed_state(seed);
    let start = spec_seeded_start(n, seed);
    let (v, r) = spec_draws(start, d);
    let v1 = spec_draws(start, d + 1).0;
    assert(v1.rng == Option::Some(spec_advance(v.rng->Some_0, if d % n == 0 { n } else { 0 }))) by {
        lemma_rng_per_draw(n, seed, d);
    }
    if d == 0 {
        assert(v == start);
        assert(((d + n - 1) as nat / n) == 0) by (nonlinear_arith)
            requires
                d == 0,
                n >= 1,
        ;
    } else {
        assert(blocks_so_far(s0, n, d, v, r)) by {
            lemma_blocks(n, seed, d);
        }
        lemma_block_step(d, n);
    }
}

proof fn lemma_rng_per_draw(n: nat, seed: u32, d: nat)
    requires
        0 < n < two_32(),
    ensures
        spec_draws(spec_seeded_start(n, seed), d + 1).0.rng == Option::Some(
            spec_advance(
                spec_draws(spec_seeded_start(n, seed), d).0.rng->Some_0,
                if d % n == 0 { n } else { 0 },
            ),
        ),
{
    let s0 = spec_seed_state(seed);
    let start = spec_seeded_start(n, seed);
    let v = spec_draws(start, d).0;
    let v1 = spec_draws(start, d + 1).0;
    assert(v1.rng == Option::Some(spec_advance(s0, n * (d / n + 1)))) by {
        lemma_blocks(n, seed, d + 1);
    }
    if d == 0 {
        assert(v == start);
        assert(0nat % n == 0 && 0nat / n == 0) by (nonlinear_arith)
            requires
                n >= 1,
        ;
        assert(n * (0nat / n + 1) == n) by (nonlinear_arith)
            requires
                0nat / n == 0,
        ;
    } else {
        let before = n * (((d - 1) as nat / n) + 1);
        assert(v.rng == Option::Some(spec_advance(s0, before))) by {
            lemma_blocks(n, seed, d);
        }
        lemma_block_step(d, n);
        if d % n == 0 {
            lemma_advance_add(s0, before, n);
            assert(before + n == n * (d / n + 1)) by (nonlinear_arith)
                requires
                    d / n == ((d - 1) as nat / n) + 1,
                    before == n * (((d - 1) as nat / n) + 1),
            ;
        } else {
            assert(spec_advance(spec_advance(s0, before), 0) == spec_advance(s0, before));
        }
    }
}

impl RandomShuffle {
    /// The type's invariant: the values are a permutation of the indices, and
    /// the position stays inside them.
    pub closed spec fn wf(&self) -> bool {
        &&& is_index_permutation(self.values@)
        &&& self.values@.len() < two_32()
        &&& (self.values@.len() == 0 ==> self.current_index == 0)
        &&& (self.values@.len() > 0 ==> self.current_index < self.values@.len())
    }

    pub fn new(count: usize, mode: ShuffleMode) -> (shuffle: Self)
        requires
            count <= u32::MAX,
        ensures
            shuffle.wf(),
            shuffle@.values == natural_order(count as nat),
            shuffle@.current_index == if count == 0 { 0 } else { count - 1 },
            shuffle@.rng == match mode {
                ShuffleMode::Seeded(seed) => Option::Some(spec_seed_state(seed)),
                ShuffleMode::Fixed => Option::<RngState>::None,
            },
            mode matches ShuffleMode::Seeded(seed) ==> shuffle@ == spec_seeded_start(count as nat, seed),
    {
        let mut values: Vec<u32> = Vec::with_capacity(count);
        let mut k: usize = 0;
        while k < count
            invariant
                k <= count <= u32::MAX,
                values@ == natural_order(k as nat),
            decreases count - k,
        {
            values.push(k as u32);
            k += 1;
            assert(values@ =~= natural_order(k as nat));
        }
        let rng = match mode {
            ShuffleMode::Seeded(seed) => Option::Some(Rng::new(seed)),
            ShuffleMode::Fixed => Option::None,
        };
        RandomShuffle { values, current_index: count.saturating_sub(1), rng }
    }

    /// A copy of the generator, in the state the next reshuffle starts from.
    pub fn generator(&self) -> (rng: Option<Rng>)
        ensures
            match rng {
                Option::Some(g) => self@.rng == Option::Some(g@),
                Option::None => self@.rng is None,
            },
    {
        self.rng
    }

    /// The next index. Consumes exactly `len` random numbers on the draws that
    /// reshuffle, and none on the others. An empty shuffle hands out 0.
    pub fn next(&mut self) -> (index: usize)
        requires
            old(self).wf(),
        ensures
            final(self).wf(),
            old(self)@.values.len() == 0 ==> index == 0 && final(self)@ == old(self)@,
            old(self)@.values.len() > 0 ==> {
                let advanced = old(self)@.current_index + 1;
                if advanced >= old(self)@.values.len() {
                    &&& final(self)@ == spec_reshuffled(old(self)@)
                    &&& index == final(self)@.values[0]
                } else {
                    &&& final(self)@ == ShuffleView { current_index: advanced, ..old(self)@ }
                    &&& index == old(self)@.values[advanced as int]
                }
            },
            old(self)@.values.len() > 0 ==> index < old(self)@.values.len(),
            (final(self)@, index as nat) == spec_draw(old(self)@),
    {
        if self.values.len() == 0 {
            return 0;
        }
        self.current_index += 1;
        if self.current_index >= self.values.len() {
            self.shuffle();
            self.current_index = 0;
        }
        self.values[self.current_index] as usize
    }

    /// Reshuffle every value in place, as [`spec_shuffle_from`] describes.
    fn shuffle(&mut self)
        requires
            is_index_permutation(old(self).values@),
            old(self).values@.len() < two_32(),
        ensures
            final(self).current_index == old(self).current_index,
            final(self)@ == (match old(self)@.rng {
                Option::Some(state) => {
                    let (values, next_state) = spec_shuffle_from(old(self)@.values, state, 0);
                    ShuffleView { values, current_index: old(self)@.current_index, rng: Option::Some(next_state) }
                },
                Option::None => old(self)@,
            }),
            is_index_permutation(final(self).values@),
            final(self).values@.len() == old(self).values@.len(),
    {
        let len = self.values.len();
        if let Option::Some(start_rng) = self.rng {
            let mut rng = start_rng;
            let ghost start = rng@;
            proof {
                lemma_shuffle_keeps_permutation(self.values@, rng@, 0);
            }
            let mut i: usize = 0;
            while i < len
                invariant
                    len == self.values@.len(),
                    len < two_32(),
                    i <= len,
                    spec_shuffle_from(self.values@, rng@, i as nat)
                        == spec_shuffle_from(old(self).values@, start, 0),
                    is_index_permutation(self.values@),
                    self.current_index == old(self).current_index,
                    self.rng == old(self).rng,
                    start == start_rng@,
                decreases len - i,
            {
                let ghost before = self.values@;
                let ghost state = rng@;
                let u = rng.next_u32();
                let offset = pick(u, (len - i) as u32);
                let index = i + offset as usize;
                let a = self.values[i];
                let b = self.values[index];
                self.values.set(i, b);
                self.values.set(index, a);
                proof {
                    lemma_swap_keeps_permutation(before, i as int, index as int);
                    assert(self.values@ == before.update(i as int, before[index as int]).update(
                        index as int,
                        before[i as int],
                    ));
                }
                i += 1;
            }
            self.rng = Option::Some(rng);
        }
    }
}

} // verus!
