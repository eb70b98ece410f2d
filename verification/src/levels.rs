//! Per-channel quantization levels: the comma separated level lists the user
//! edits, the uniform lists a bit depth stands for, and the RGBA depth strings
//! that name those bit depths.

use vstd::prelude::*;
use vstd::string::*;
use crate::text::{decimal, digit_char, push_char, push_decimal, push_str};

verus! {

broadcast use vstd::seq_lib::group_to_multiset_ensures;

/// The Qualetize plan stores the per-channel level count in a `u8`, so a
/// channel can hold at most 255 entries.
pub const MAX_CUSTOM_LEVELS: usize = 255;

pub open spec fn is_digit(c: char) -> bool {
    '0' <= c && c <= '9'
}

pub open spec fn digit_value(c: char) -> nat {
    (c as nat - 48) as nat
}

/// The number a string of decimal digits spells.
pub open spec fn entry_value(e: Seq<char>) -> nat
    decreases e.len(),
{
    if e.len() == 0 {
        0
    } else {
        entry_value(e.drop_last()) * 10 + digit_value(e.last())
    }
}

pub open spec fn all_digits(e: Seq<char>) -> bool {
    forall|k: int| 0 <= k < e.len() ==> is_digit(#[trigger] e[k])
}

/// One entry of a level list: a number from 0 to 255 in decimal, without
/// leading zeros, signs or whitespace.
pub open spec fn is_level_entry(e: Seq<char>) -> bool {
    &&& 1 <= e.len() <= 3
    &&& all_digits(e)
    &&& (e.len() == 1 || e[0] != '0')
    &&& entry_value(e) <= 255
}

/// `s` cut at every comma, as `str::split(',')` cuts it: `n` commas give
/// `n + 1` parts, some of them possibly empty.
pub open spec fn split_commas(s: Seq<char>) -> Seq<Seq<char>>
    decreases s.len(),
{
    if s.len() == 0 {
        seq![Seq::<char>::empty()]
    } else {
        let parts = split_commas(s.drop_last());
        if s.last() == ',' {
            parts.push(Seq::<char>::empty())
        } else {
            parts.update(parts.len() - 1, parts.last().push(s.last()))
        }
    }
}

/// A level list: a non-empty, comma separated list of at most
/// [`MAX_CUSTOM_LEVELS`] entries of 0 to 255.
pub open spec fn is_level_list(s: Seq<char>) -> bool {
    let parts = split_commas(s);
    &&& s.len() > 0
    &&& forall|k: int| 0 <= k < parts.len() ==> is_level_entry(#[trigger] parts[k])
    &&& parts.len() <= 255
}

/// The values of a level list's entries, in the order written.
pub open spec fn level_values(s: Seq<char>) -> Seq<u8> {
    split_commas(s).map_values(|e: Seq<char>| entry_value(e) as u8)
}

pub open spec fn is_sorted(v: Seq<u8>) -> bool {
    forall|a: int, b: int| 0 <= a <= b < v.len() ==> v[a] <= v[b]
}

proof fn lemma_split_commas_nonempty(s: Seq<char>)
    ensures
        split_commas(s).len() >= 1,
    decreases s.len(),
{
    if s.len() > 0 {
        lemma_split_commas_nonempty(s.drop_last());
    }
}

proof fn lemma_entry_value_bound(e: Seq<char>)
    requires
        all_digits(e),
    ensures
        entry_value(e) < pow10(e.len()),
    decreases e.len(),
{
    if e.len() > 0 {
        assert(all_digits(e.drop_last()));
        lemma_entry_value_bound(e.drop_last());
        assert(is_digit(e[e.len() - 1]));
    }
}

pub open spec fn pow10(k: nat) -> nat
    decreases k,
{
    if k == 0 {
        1
    } else {
        10 * pow10((k - 1) as nat)
    }
}

/// Whether the entry scanned so far is a valid level entry.
fn entry_ok(len: usize, digits: bool, first_zero: bool, value: u32) -> (ok: bool)
    ensures
        ok == (1 <= len <= 3 && digits && (len == 1 || !first_zero) && value <= 255),
{
    1 <= len && len <= 3 && digits && (len == 1 || !first_zero) && value <= 255
}

/// Scan `s` once: whether it is a level list, and if so its values in the
/// order written.
fn scan_level_list(s: &str) -> (result: (bool, Vec<u8>))
    ensures
        result.0 == is_level_list(s@),
        result.0 ==> result.1@ == level_values(s@),
{
    let n = s.unicode_len();
    let mut ok = true;
    let mut values: Vec<u8> = Vec::new();
    let mut cur_len: usize = 0;
    let mut cur_digits = true;
    let mut cur_first_zero = false;
    let mut cur_value: u32 = 0;
    let mut commas: usize = 0;
    let mut k: usize = 0;
    proof {
        assert(s@.take(0) =~= Seq::<char>::empty());
    }
    while k < n
        invariant
            n == s@.len(),
            k <= n,
            split_commas(s@.take(k as int)).len() == commas + 1,
            commas <= k,
            cur_len <= k,
            ok == (forall|j: int|
                0 <= j < commas ==> is_level_entry(#[trigger] split_commas(s@.take(k as int))[j])),
            ok ==> values@ == split_commas(s@.take(k as int)).take(commas as int).map_values(
                |e: Seq<char>| entry_value(e) as u8,
            ),
            cur_len == split_commas(s@.take(k as int)).last().len(),
            cur_digits == all_digits(split_commas(s@.take(k as int)).last()),
            cur_first_zero == (cur_len > 0 && split_commas(s@.take(k as int)).last()[0] == '0'),
            cur_len <= 3 && cur_digits ==> cur_value == entry_value(
                split_commas(s@.take(k as int)).last(),
            ),
            cur_value <= 999,
        decreases n - k,
    {
        let c = s.get_char(k);
        let ghost prev = s@.take(k as int);
        let ghost parts = split_commas(prev);
        proof {
            lemma_split_commas_nonempty(prev);
            assert(s@.take((k + 1) as int).drop_last() =~= prev);
            assert(s@.take((k + 1) as int).last() == c);
        }
        if c == ',' {
            let done = entry_ok(cur_len, cur_digits, cur_first_zero, cur_value);
            proof {
                let last = parts.last();
                if cur_len <= 3 && cur_digits {
                    assert(done == is_level_entry(last));
                } else {
                    assert(!done);
                    assert(!is_level_entry(last));
                }
                let new_parts = split_commas(s@.take((k + 1) as int));
                assert(new_parts == parts.push(Seq::<char>::empty()));
                assert forall|j: int| 0 <= j < commas + 1 implies #[trigger] new_parts[j]
                    == parts[j] by {}
            }
            if ok && done {
                values.push(cur_value as u8);
                proof {
                    let new_parts = split_commas(s@.take((k + 1) as int));
                    assert(new_parts.take((commas + 1) as int) =~= parts.take(commas as int).push(
                        parts.last(),
                    ));
                }
            }
            let ghost old_ok = ok;
            ok = ok && done;
            proof {
                let new_parts = split_commas(s@.take((k + 1) as int));
                if ok {
                    assert forall|j: int| 0 <= j < commas + 1 implies is_level_entry(
                        #[trigger] new_parts[j],
                    ) by {
                        assert(new_parts[j] == parts[j]);
                    }
                } else if !old_ok {
                    let j = choose|j: int| 0 <= j < commas && !is_level_entry(#[trigger] parts[j]);
                    assert(new_parts[j] == parts[j]);
                    assert(!is_level_entry(new_parts[j]));
                } else {
                    assert(new_parts[commas as int] == parts[commas as int]);
                    assert(!is_level_entry(new_parts[commas as int]));
                }
            }
            commas += 1;
            cur_len = 0;
            cur_digits = true;
            cur_first_zero = false;
            cur_value = 0;
            proof {
                let new_parts = split_commas(s@.take((k + 1) as int));
                assert(new_parts.last() =~= Seq::<char>::empty());
                assert(all_digits(new_parts.last()));
            }
        } else {
            let is_d = '0' <= c && c <= '9';
            proof {
                let new_parts = split_commas(s@.take((k + 1) as int));
                let last = parts.last();
                let new_last = last.push(c);
                assert(new_parts == parts.update(parts.len() - 1, new_last));
                assert(new_last.drop_last() =~= last);
                assert(new_parts.take(commas as int) =~= parts.take(commas as int));
                assert forall|j: int| 0 <= j < commas implies #[trigger] new_parts[j]
                    == parts[j] by {}
                if is_d && cur_digits {
                    assert(all_digits(new_last)) by {
                        assert forall|q: int| 0 <= q < new_last.len() implies is_digit(
                            #[trigger] new_last[q],
                        ) by {
                            if q < last.len() {
                                assert(new_last[q] == last[q]);
                            }
                        }
                    }
                } else if !is_d {
                    assert(!is_digit(new_last[new_last.len() - 1]));
                } else {
                    let bad = choose|q: int| 0 <= q < last.len() && !is_digit(#[trigger] last[q]);
                    assert(new_last[bad] == last[bad]);
                }
                if cur_len == 0 {
                    assert(new_last[0] == c);
                } else {
                    assert(new_last[0] == last[0]);
                }
            }
            if cur_len == 0 {
                cur_first_zero = c == '0';
            }
            if is_d && cur_digits && cur_len < 3 {
                cur_value = cur_value * 10 + (c as u32 - 48);
                proof {
                    let last = parts.last();
                    lemma_entry_value_bound(last.push(c));
                    assert(pow10((last.len() + 1) as nat) <= 1000) by {
                        reveal_with_fuel(pow10, 4);
                        assert(pow10(1) == 10);
                        assert(pow10(2) == 100);
                        assert(pow10(3) == 1000);
                    }
                }
            }
            cur_digits = cur_digits && is_d;
            cur_len += 1;
            proof {
                let new_parts = split_commas(s@.take((k + 1) as int));
                if ok {
                    assert forall|j: int| 0 <= j < commas implies is_level_entry(
                        #[trigger] new_parts[j],
                    ) by {
                        assert(new_parts[j] == parts[j]);
                    }
                } else {
                    let j = choose|j: int| 0 <= j < commas && !is_level_entry(#[trigger] parts[j]);
                    assert(new_parts[j] == parts[j]);
                    assert(!is_level_entry(new_parts[j]));
                }
            }
        }
        k += 1;
    }
    proof {
        assert(s@.take(n as int) =~= s@);
    }
    let ghost parts = split_commas(s@);
    let last_ok = entry_ok(cur_len, cur_digits, cur_first_zero, cur_value);
    proof {
        let last = parts.last();
        if cur_len <= 3 && cur_digits {
            assert(last_ok == is_level_entry(last));
        } else {
            assert(!last_ok);
            assert(!is_level_entry(last));
        }
    }
    let valid = n > 0 && ok && last_ok && commas < MAX_CUSTOM_LEVELS;
    proof {
        if valid {
            assert forall|j: int| 0 <= j < parts.len() implies is_level_entry(#[trigger] parts[j]) by {
                if j < commas {
                } else {
                    assert(j == parts.len() - 1);
                }
            }
        } else if n > 0 && ok && last_ok {
            assert(parts.len() > 255);
        } else if n > 0 && !ok {
            let j = choose|j: int| 0 <= j < commas && !is_level_entry(#[trigger] parts[j]);
            assert(!is_level_entry(parts[j]));
        } else if n > 0 {
            assert(!is_level_entry(parts[parts.len() - 1]));
        }
    }
    if valid {
        values.push(cur_value as u8);
        proof {
            assert(parts =~= parts.take(commas as int).push(parts.last()));
            assert(values@ =~= level_values(s@));
        }
    }
    (valid, values)
}

/// Whether `array_str` is a level list: comma separated integers from 0 to
/// 255, without leading zeros or whitespace, at most [`MAX_CUSTOM_LEVELS`] of
/// them.
pub fn validate_0_255_array(array_str: &str) -> (valid: bool)
    ensures
        valid == is_level_list(array_str@),
{
    scan_level_list(array_str).0
}

/// Insert `x` into the sorted `v`, after every entry not above it.
fn insert_sorted(v: &mut Vec<u8>, x: u8)
    requires
        is_sorted(old(v)@),
    ensures
        is_sorted(final(v)@),
        final(v)@.to_multiset() == old(v)@.to_multiset().insert(x),
{
    let mut pos: usize = 0;
    while pos < v.len() && v[pos] <= x
        invariant
            pos <= v.len(),
            forall|a: int| 0 <= a < pos ==> v@[a] <= x,
        decreases v.len() - pos,
    {
        pos += 1;
    }
    let ghost before = v@;
    v.insert(pos, x);
    proof {
        vstd::seq_lib::to_multiset_insert(before, pos as int, x);
        assert forall|a: int, b: int| 0 <= a <= b < v@.len() implies v@[a] <= v@[b] by {
            if a < pos && b < pos {
            } else if a < pos && b == pos {
            } else if a < pos {
                assert(v@[b] == before[b - 1]);
            } else if a == pos && b > pos {
                assert(v@[b] == before[b - 1]);
                assert(before[pos as int] > x);
            } else if a > pos {
                assert(v@[a] == before[a - 1]);
                assert(v@[b] == before[b - 1]);
            }
        }
    }
}

/// The levels of a level list, sorted ascending; `None` when the list is
/// malformed.
pub fn parse_levels_u8(array_str: &str) -> (levels: Option<Vec<u8>>)
    ensures
        levels is None <==> !is_level_list(array_str@),
        levels matches Some(v) ==> is_sorted(v@) && v@.to_multiset() == level_values(
            array_str@,
        ).to_multiset(),
{
    let (valid, values) = scan_level_list(array_str);
    if !valid {
        return None;
    }
    let mut sorted: Vec<u8> = Vec::new();
    let mut i: usize = 0;
    while i < values.len()
        invariant
            i <= values.len(),
            is_sorted(sorted@),
            sorted@.to_multiset() == values@.take(i as int).to_multiset(),
        decreases values.len() - i,
    {
        insert_sorted(&mut sorted, values[i]);
        assert(values@.take((i + 1) as int) =~= values@.take(i as int).push(values@[i as int]));
        i += 1;
    }
    assert(values@.take(values.len() as int) =~= values@);
    Some(sorted)
}

/// The list written out: each level in decimal, joined by commas.
pub open spec fn join_levels(levels: Seq<u8>) -> Seq<char>
    decreases levels.len(),
{
    if levels.len() == 0 {
        Seq::<char>::empty()
    } else if levels.len() == 1 {
        decimal(levels[0] as nat)
    } else {
        join_levels(levels.drop_last()).push(',') + decimal(levels.last() as nat)
    }
}

/// `levels` as a level list string.
pub fn levels_to_string(levels: Vec<u8>) -> (text: String)
    ensures
        text@ == join_levels(levels@),
{
    let mut text = String::new();
    let mut i: usize = 0;
    while i < levels.len()
        invariant
            i <= levels.len(),
            text@ == join_levels(levels@.take(i as int)),
        decreases levels.len() - i,
    {
        let ghost prefix = levels@.take((i + 1) as int);
        assert(prefix.drop_last() =~= levels@.take(i as int));
        if i > 0 {
            push_char(&mut text, ',');
        }
        push_decimal(&mut text, levels[i] as u64);
        i += 1;
        proof {
            if i == 1 {
                assert(levels@.take(0) =~= Seq::<u8>::empty());
            }
        }
    }
    assert(levels@.take(levels.len() as int) =~= levels@);
    text
}

/// `2^d - 1` for a digit `d` of 1 to 8; 255 for any other character.
pub open spec fn char_depth(c: char) -> nat {
    if '1' <= c && c <= '8' {
        (pow2_nat(digit_value(c)) - 1) as nat
    } else {
        255
    }
}

pub open spec fn pow2_nat(k: nat) -> nat
    decreases k,
{
    if k == 0 {
        1
    } else {
        2 * pow2_nat((k - 1) as nat)
    }
}

/// The per-channel step counts an RGBA depth string stands for: four
/// characters, each read by [`char_depth`]; any other length is 8 bits on
/// every channel.
pub open spec fn rgba_depth_steps(s: Seq<char>) -> Seq<nat> {
    if s.len() == 4 {
        Seq::new(4, |k: int| char_depth(s[k]))
    } else {
        seq![255nat, 255nat, 255nat, 255nat]
    }
}

/// The uniform levels of a channel with `depth` steps: the step count is
/// kept within 1 to 254 (so the list fits the plan), and level `i` is
/// `i * 255 / steps` rounded half up.
pub open spec fn depth_levels(depth: nat) -> Seq<u8> {
    let steps = if depth < 1 { 1nat } else if depth > 254 { 254nat } else { depth };
    Seq::new(steps + 1, |i: int| uniform_level(steps, i) as u8)
}

/// Level `i` of `steps` even steps from 0 to 255: `i * 255 / steps`,
/// rounded half up.
pub open spec fn uniform_level(steps: nat, i: int) -> int {
    (2 * i * 255 + steps) / (2 * steps as int)
}

/// The step count of one character of an RGBA depth string: `2^d - 1` for
/// a digit `d` of 1 to 8 (that many bits per channel), and a full 8-bit
/// channel for anything else.
pub fn char_to_depth(c: char) -> (depth: u32)
    ensures
        depth == char_depth(c),
{
    if '1' <= c && c <= '8' {
        let d = c as u32 - 48;
        let mut p: u32 = 1;
        let mut k: u32 = 0;
        while k < d
            invariant
                k <= d <= 8,
                p == pow2_nat(k as nat),
                p >= 1,
                p <= 256,
            decreases d - k,
        {
            proof {
                reveal_with_fuel(pow2_nat, 9);
                assert(pow2_nat(8) == 256);
                lemma_pow2_nat_monotone((k + 1) as nat, 8);
            }
            p = p * 2;
            k += 1;
        }
        proof {
            assert(digit_value(c) == d as nat);
        }
        p - 1
    } else {
        255
    }
}

proof fn lemma_pow2_nat_monotone(a: nat, b: nat)
    requires
        a <= b,
    ensures
        1 <= pow2_nat(a) <= pow2_nat(b),
    decreases b,
{
    if b > a {
        lemma_pow2_nat_monotone(a, (b - 1) as nat);
    } else if a > 0 {
        lemma_pow2_nat_monotone((a - 1) as nat, (a - 1) as nat);
    }
}

/// The uniform levels of a channel with `depth` steps, see [`depth_levels`].
fn depth_to_levels(depth: u32) -> (levels: Vec<u8>)
    ensures
        levels@ == depth_levels(depth as nat),
{
    let steps: u32 = if depth < 1 { 1 } else if depth > 254 { 254 } else { depth };
    let mut levels: Vec<u8> = Vec::new();
    let mut i: u32 = 0;
    while i <= steps
        invariant
            1 <= steps <= 254,
            i <= steps + 1,
            steps == (if depth < 1 { 1nat } else if depth > 254 { 254nat } else { depth as nat }),
            levels@ =~= Seq::new(i as nat, |j: int| uniform_level(steps as nat, j) as u8),
        decreases steps + 1 - i,
    {
        let v = (2 * i * 255 + steps) / (2 * steps);
        levels.push(v as u8);
        i += 1;
    }
    levels
}

/// The per-channel step counts of an RGBA depth string: four characters,
/// each read by [`char_to_depth`], counted as characters rather than bytes;
/// a string of any other length is 8 bits on every channel.
pub fn parse_rgba_depth(rgba_depth: &str) -> (depths: [u32; 4])
    ensures
        forall|k: int| 0 <= k < 4 ==> #[trigger] depths[k] as nat == rgba_depth_steps(rgba_depth@)[k],
{
    let n = rgba_depth.unicode_len();
    if n == 4 {
        [
            char_to_depth(rgba_depth.get_char(0)),
            char_to_depth(rgba_depth.get_char(1)),
            char_to_depth(rgba_depth.get_char(2)),
            char_to_depth(rgba_depth.get_char(3)),
        ]
    } else {
        [255, 255, 255, 255]
    }
}

/// The level list strings of an RGBA depth string, one per channel.
pub fn default_level_strings_from_depth(rgba_depth: &str) -> (strings: [String; 4])
    ensures
        forall|k: int|
            0 <= k < 4 ==> (#[trigger] strings[k])@ == join_levels(
                depth_levels(rgba_depth_steps(rgba_depth@)[k]),
            ),
{
    let depths = parse_rgba_depth(rgba_depth);
    let strings = [
        levels_to_string(depth_to_levels(depths[0])),
        levels_to_string(depth_to_levels(depths[1])),
        levels_to_string(depth_to_levels(depths[2])),
        levels_to_string(depth_to_levels(depths[3])),
    ];
    strings
}

/// The depth string the presets and a repaired settings file fall back to.
pub const DEFAULT_RGBA_DEPTH: &'static str = "3331";

/// Genesis hardware brightness steps: eight levels for red, green and blue,
/// opaque or clear alpha.
pub fn genesis_custom_level_strings() -> (strings: [String; 4])
    ensures
        strings[0]@ == "0,49,87,119,146,174,206,255"@,
        strings[1]@ == "0,49,87,119,146,174,206,255"@,
        strings[2]@ == "0,49,87,119,146,174,206,255"@,
        strings[3]@ == "0,255"@,
{
    [
        String::from_str("0,49,87,119,146,174,206,255"),
        String::from_str("0,49,87,119,146,174,206,255"),
        String::from_str("0,49,87,119,146,174,206,255"),
        String::from_str("0,255"),
    ]
}

/// The level lists of the default depth string.
pub fn default_custom_level_strings() -> (strings: [String; 4])
    ensures
        forall|k: int|
            0 <= k < 4 ==> (#[trigger] strings[k])@ == join_levels(
                depth_levels(rgba_depth_steps("3331"@)[k]),
            ),
{
    default_level_strings_from_depth("3331")
}

/// A valid RGBA depth string: exactly 4 characters, each a digit 1 to 8.
pub open spec fn is_rgba_depth(s: Seq<char>) -> bool {
    s.len() == 4 && forall|k: int| 0 <= k < 4 ==> '1' <= #[trigger] s[k] && s[k] <= '8'
}

/// Whether `rgba_depth` names a bit depth for each of the four channels.
pub fn is_valid_rgba_depth(rgba_depth: &str) -> (valid: bool)
    ensures
        valid == is_rgba_depth(rgba_depth@),
{
    let n = rgba_depth.unicode_len();
    if n != 4 {
        return false;
    }
    let mut k: usize = 0;
    while k < 4
        invariant
            k <= 4,
            n == rgba_depth@.len() == 4,
            forall|j: int| 0 <= j < k ==> '1' <= #[trigger] rgba_depth@[j] && rgba_depth@[j] <= '8',
        decreases 4 - k,
    {
        let c = rgba_depth.get_char(k);
        if !('1' <= c && c <= '8') {
            return false;
        }
        k += 1;
    }
    true
}

/// The channel names of an RGBA depth string, in order.
pub open spec fn channel_name(k: int) -> Seq<char> {
    if k == 0 {
        "R"@
    } else if k == 1 {
        "G"@
    } else if k == 2 {
        "B"@
    } else {
        "A"@
    }
}

/// The first channel, in order, whose character is not a digit 1 to 8.
pub open spec fn first_bad_channel(s: Seq<char>) -> int
    recommends
        s.len() == 4,
{
    if !('1' <= s[0] && s[0] <= '8') {
        0
    } else if !('1' <= s[1] && s[1] <= '8') {
        1
    } else if !('1' <= s[2] && s[2] <= '8') {
        2
    } else {
        3
    }
}

/// The message for an RGBA depth string, `None` when it is valid.
pub open spec fn rgba_depth_message(s: Seq<char>) -> Option<Seq<char>> {
    if s.len() == 0 {
        Some("RGBA depth is required"@)
    } else if s.len() != 4 {
        Some("Expected 4 digits, got "@ + decimal(s.len()))
    } else if is_rgba_depth(s) {
        None
    } else {
        let k = first_bad_channel(s);
        let c = s[k];
        if is_digit(c) {
            Some(channel_name(k) + " component "@ + seq![c] + " must be 1-8"@)
        } else {
            Some(channel_name(k) + " component '"@ + seq![c] + "' is not a digit"@)
        }
    }
}

fn channel_label(k: usize) -> (name: &'static str)
    requires
        k < 4,
    ensures
        name@ == channel_name(k as int),
{
    if k == 0 {
        "R"
    } else if k == 1 {
        "G"
    } else if k == 2 {
        "B"
    } else {
        "A"
    }
}

/// Why `rgba_str` is not a valid RGBA depth, or `None` if it is: exactly 4
/// digits, each from 1 to 8.
pub fn get_rgba_depth_error(rgba_str: &str) -> (error: Option<String>)
    ensures
        match error {
            Some(text) => rgba_depth_message(rgba_str@) == Some(text@),
            None => rgba_depth_message(rgba_str@) is None,
        },
{
    proof {
        reveal_strlit("RGBA depth is required");
    }
    let n = rgba_str.unicode_len();
    if n == 0 {
        return Some(String::from_str("RGBA depth is required"));
    }
    if n != 4 {
        let mut text = String::from_str("Expected 4 digits, got ");
        push_decimal(&mut text, n as u64);
        return Some(text);
    }
    let mut k: usize = 0;
    while k < 4
        invariant
            k <= 4,
            n == rgba_str@.len() == 4,
            forall|j: int| 0 <= j < k ==> '1' <= #[trigger] rgba_str@[j] && rgba_str@[j] <= '8',
        decreases 4 - k,
    {
        let c = rgba_str.get_char(k);
        if !('1' <= c && c <= '8') {
            proof {
                assert(first_bad_channel(rgba_str@) == k as int);
            }
            let mut text = String::from_str(channel_label(k));
            if '0' <= c && c <= '9' {
                push_str(&mut text, " component ");
                push_char(&mut text, c);
                push_str(&mut text, " must be 1-8");
            } else {
                push_str(&mut text, " component '");
                push_char(&mut text, c);
                push_str(&mut text, "' is not a digit");
            }
            return Some(text);
        }
        k += 1;
    }
    None
}

} // verus!

verus! {

/// A string with no comma splits into itself alone.
proof fn lemma_split_no_comma(d: Seq<char>)
    requires
        forall|k: int| 0 <= k < d.len() ==> d[k] != ',',
    ensures
        split_commas(d) == seq![d],
    decreases d.len(),
{
    if d.len() > 0 {
        lemma_split_no_comma(d.drop_last());
        assert(d.drop_last().push(d.last()) =~= d);
        assert(seq![d.drop_last()].update(0, d.drop_last().push(d.last())) =~= seq![d]);
    } else {
        assert(d =~= Seq::<char>::empty());
    }
}

/// Appending a comma and then comma-free text adds that text as a new part.
proof fn lemma_split_append(t: Seq<char>, d: Seq<char>)
    requires
        forall|k: int| 0 <= k < d.len() ==> d[k] != ',',
    ensures
        split_commas(t.push(',') + d) == split_commas(t).push(d),
    decreases d.len(),
{
    if d.len() == 0 {
        assert(t.push(',') + d =~= t.push(','));
        assert(t.push(',').drop_last() =~= t);
        assert(d =~= Seq::<char>::empty());
    } else {
        let d0 = d.drop_last();
        lemma_split_append(t, d0);
        assert((t.push(',') + d).drop_last() =~= t.push(',') + d0);
        assert((t.push(',') + d).last() == d.last());
        lemma_split_commas_nonempty(t);
        assert(d0.push(d.last()) =~= d);
        assert(split_commas(t).push(d0).update(split_commas(t).len() as int, d0.push(d.last()))
            =~= split_commas(t).push(d));
    }
}

proof fn lemma_digit_char(d: nat)
    requires
        d < 10,
    ensures
        is_digit(digit_char(d)),
        digit_value(digit_char(d)) == d,
        digit_char(d) != ',',
        (digit_char(d) == '0') == (d == 0),
{
    assert(digit_char(d) as nat == d + 48);
}

/// The decimal form of a number up to 255 is a level entry that reads back
/// as that number.
proof fn lemma_decimal_entry(n: nat)
    requires
        n <= 999,
    ensures
        1 <= decimal(n).len() <= 3,
        n < 10 ==> decimal(n).len() == 1,
        n < 100 ==> decimal(n).len() <= 2,
        all_digits(decimal(n)),
        entry_value(decimal(n)) == n,
        n >= 1 ==> decimal(n)[0] != '0',
        forall|k: int| 0 <= k < decimal(n).len() ==> decimal(n)[k] != ',',
        n <= 255 ==> is_level_entry(decimal(n)),
    decreases n,
{
    if n < 10 {
        lemma_digit_char(n);
        assert(decimal(n).drop_last() =~= Seq::<char>::empty());
        assert(entry_value(decimal(n)) == entry_value(decimal(n).drop_last()) * 10 + digit_value(
            decimal(n).last(),
        ));
        assert(entry_value(Seq::<char>::empty()) == 0);
    } else {
        lemma_decimal_entry(n / 10);
        lemma_digit_char(n % 10);
        let prev = decimal(n / 10);
        assert(decimal(n) == prev.push(digit_char(n % 10)));
        assert(decimal(n).drop_last() =~= prev);
        assert(decimal(n)[0] == prev[0]);
        assert(entry_value(decimal(n)) == entry_value(prev) * 10 + digit_value(
            digit_char(n % 10),
        ));
        assert(all_digits(decimal(n))) by {
            assert forall|k: int| 0 <= k < decimal(n).len() implies is_digit(
                #[trigger] decimal(n)[k],
            ) by {
                if k < prev.len() {
                    assert(decimal(n)[k] == prev[k]);
                }
            }
        }
        assert forall|k: int| 0 <= k < decimal(n).len() implies decimal(n)[k] != ',' by {
            if k < prev.len() {
                assert(decimal(n)[k] == prev[k]);
            }
        }
    }
}

/// A written-out list splits back into the decimal forms of its levels.
proof fn lemma_split_join(v: Seq<u8>)
    requires
        v.len() >= 1,
    ensures
        split_commas(join_levels(v)) == v.map_values(|x: u8| decimal(x as nat)),
    decreases v.len(),
{
    lemma_decimal_entry(v.last() as nat);
    if v.len() == 1 {
        lemma_split_no_comma(decimal(v[0] as nat));
        assert(v.map_values(|x: u8| decimal(x as nat)) =~= seq![decimal(v[0] as nat)]);
    } else {
        lemma_split_join(v.drop_last());
        lemma_split_append(join_levels(v.drop_last()), decimal(v.last() as nat));
        assert(v.map_values(|x: u8| decimal(x as nat)) =~= v.drop_last().map_values(
            |x: u8| decimal(x as nat),
        ).push(decimal(v.last() as nat)));
    }
}

/// Every list of at most 255 levels, written out, is a level list whose
/// values are the levels themselves.
pub proof fn lemma_written_levels_parse_back(v: Seq<u8>)
    requires
        1 <= v.len() <= 255,
    ensures
        is_level_list(join_levels(v)),
        level_values(join_levels(v)) == v,
{
    lemma_split_join(v);
    let parts = split_commas(join_levels(v));
    assert forall|k: int| 0 <= k < parts.len() implies is_level_entry(#[trigger] parts[k]) by {
        lemma_decimal_entry(v[k] as nat);
    }
    assert(join_levels(v).len() > 0) by {
        lemma_decimal_entry(v.last() as nat);
        if v.len() > 1 {
            assert(join_levels(v) == join_levels(v.drop_last()).push(',') + decimal(
                v.last() as nat,
            ));
        }
    }
    assert forall|k: int| 0 <= k < v.len() implies (#[trigger] level_values(join_levels(v))[k])
        == v[k] by {
        lemma_decimal_entry(v[k] as nat);
    }
    assert(level_values(join_levels(v)) =~= v);
}

/// The uniform levels of a step count fit the plan: between 2 and 255 of
/// them, ascending, from 0 to 255.
pub proof fn lemma_depth_levels_fit(depth: nat)
    ensures
        2 <= depth_levels(depth).len() <= 255,
        is_sorted(depth_levels(depth)),
        depth_levels(depth)[0] == 0,
        depth_levels(depth).last() == 255,
{
    let steps = if depth < 1 { 1nat } else if depth > 254 { 254nat } else { depth };
    let lv = depth_levels(depth);
    assert forall|i: int| 0 <= i <= steps implies #[trigger] uniform_level(steps, i) <= 255 by {
        let x = 2 * i * 255 + steps;
        let m = 2 * steps as int;
        assert(x < 256 * m) by (nonlinear_arith)
            requires
                0 <= i <= steps,
                steps >= 1,
                x == 2 * i * 255 + steps,
                m == 2 * steps as int,
        ;
        assert(x / m <= 255) by (nonlinear_arith)
            requires
                x < 256 * m,
                m > 0,
        ;
    }
    assert forall|a: int, b: int| 0 <= a <= b < lv.len() implies lv[a] <= lv[b] by {
        let m = 2 * steps as int;
        let xa = 2 * a * 255 + steps;
        let xb = 2 * b * 255 + steps;
        assert(xa <= xb) by (nonlinear_arith)
            requires
                0 <= a <= b,
                xa == 2 * a * 255 + steps,
                xb == 2 * b * 255 + steps,
        ;
        assert(xa / m <= xb / m) by (nonlinear_arith)
            requires
                xa <= xb,
                m > 0,
        ;
    }
    assert((2 * steps as int * 255 + steps) / (2 * steps as int) == 255) by (nonlinear_arith)
        requires
            steps >= 1,
    ;
    assert((0 + steps as int) / (2 * steps as int) == 0) by (nonlinear_arith)
        requires
            steps >= 1,
    ;
}

/// The level strings a depth string generates are always level lists that
/// read back as the uniform levels.
pub proof fn law_generated_levels_fit_the_plan(depth: nat)
    ensures
        is_level_list(join_levels(depth_levels(depth))),
        level_values(join_levels(depth_levels(depth))) == depth_levels(depth),
{
    lemma_depth_levels_fit(depth);
    lemma_written_levels_parse_back(depth_levels(depth));
}

} // verus!
