//! The decoder: from a label in its ASCII-compatible encoding to the scalar
//! values it stands for.

use crate::punycode::{
    acc_max, adapt, is_scalar, lemma_checked_product, spec_adapt, threshold, threshold_of, BASE,
    DELIMITER, INITIAL_BIAS, INITIAL_N,
};
use crate::text::{char_at, chars_of, string_of};
use vstd::prelude::*;
use vstd::slice::slice_subrange;
use vstd::utf8::is_ascii_chars;

verus! {

/// The value of a digit of the bootstring alphabet: letters of either case
/// stand for 0 to 25, the decimal digits for 26 to 35.
pub open spec fn digit_value(c: char) -> Option<int> {
    let n = c as int;
    if 0x30 <= n <= 0x39 {
        Some(n - 0x30 + 26)
    } else if 0x41 <= n <= 0x5A {
        Some(n - 0x41)
    } else if 0x61 <= n <= 0x7A {
        Some(n - 0x61)
    } else {
        None
    }
}

/// The position of the last delimiter of `s`, if `s` holds one.
pub open spec fn last_delimiter(s: Seq<char>) -> Option<int>
    decreases s.len(),
{
    if s.len() == 0 {
        None
    } else if s.last() == DELIMITER {
        Some(s.len() - 1)
    } else {
        last_delimiter(s.drop_last())
    }
}

/// The basic code points of an encoded label: what stands before its last
/// delimiter.
pub open spec fn base_part(input: Seq<char>) -> Seq<char> {
    match last_delimiter(input) {
        None => Seq::empty(),
        Some(p) => input.subrange(0, p),
    }
}

/// The extended part of an encoded label: what follows its last delimiter.
/// A label without a delimiter, or with its only delimiter in front, is
/// extended as a whole.
pub open spec fn extended_part(input: Seq<char>) -> Seq<char> {
    match last_delimiter(input) {
        None => input,
        Some(p) => if p > 0 {
            input.subrange(p + 1, input.len() as int)
        } else {
            input
        },
    }
}

/// Reads one generalized variable-length integer from `ext` at `pos` and adds
/// it to `i`. Yields the sum and the position behind the last digit read, or
/// `None` where a character is no digit, the digits end early or a 32-bit
/// accumulator would overflow.
pub open spec fn read_integer(
    ext: Seq<char>,
    pos: int,
    i: int,
    weight: int,
    k: int,
    bias: int,
) -> Option<(int, int)>
    decreases ext.len() - pos,
{
    if pos < 0 || pos >= ext.len() {
        None
    } else {
        match digit_value(ext[pos]) {
            None => None,
            Some(d) => {
                let t = threshold(k, bias);
                if i + d * weight > acc_max() {
                    None
                } else if d < t {
                    Some((i + d * weight, pos + 1))
                } else if weight * (36 - t) > acc_max() {
                    None
                } else {
                    read_integer(ext, pos + 1, i + d * weight, weight * (36 - t), k + 36, bias)
                }
            },
        }
    }
}

/// An integer that was read ends behind the position it started at.
pub proof fn lemma_read_integer_advances(
    ext: Seq<char>,
    pos: int,
    i: int,
    weight: int,
    k: int,
    bias: int,
)
    requires
        read_integer(ext, pos, i, weight, k, bias) is Some,
    ensures
        ({
            let end = read_integer(ext, pos, i, weight, k, bias).unwrap().1;
            pos < end <= ext.len()
        }),
    decreases ext.len() - pos,
{
    let d = digit_value(ext[pos])->0;
    let t = threshold(k, bias);
    if d >= t {
        lemma_read_integer_advances(ext, pos + 1, i + d * weight, weight * (36 - t), k + 36, bias);
    }
}

/// The decoder's main loop from position `pos` of the extended part. `out` is
/// the output so far, `i` the insertion point, `n` the current code point and
/// `first` whether no integer has been read yet. Each integer read is added to
/// `i`; then `i` wraps around the output with one place more, and each wrap
/// counts `n` up by one; the scalar value `n` goes into the output where `i`
/// stands, and `i` moves behind it. `None` where an integer cannot be read or
/// `n` is no scalar value.
pub open spec fn decode_from(
    ext: Seq<char>,
    pos: int,
    out: Seq<char>,
    i: int,
    n: int,
    bias: int,
    first: bool,
) -> Option<Seq<char>>
    decreases ext.len() - pos,
{
    if pos < 0 || pos >= ext.len() {
        Some(out)
    } else {
        match read_integer(ext, pos, i, 1, 36, bias) {
            None => None,
            Some((sum, next_pos)) => {
                let points: int = out.len() as int + 1;
                let code = n + sum / points;
                if !is_scalar(code) {
                    None
                } else {
                    proof {
                        lemma_read_integer_advances(ext, pos, i, 1, 36, bias);
                    }
                    decode_from(
                        ext,
                        next_pos,
                        out.insert(sum % points, code as char),
                        sum % points + 1,
                        code,
                        spec_adapt(sum - i, points, first),
                        false,
                    )
                }
            },
        }
    }
}

/// What an encoded label decodes to: its basic code points, which must be
/// ASCII, with the scalar values that its extended part stands for inserted.
/// `None` where the label is malformed or an accumulator would overflow.
pub open spec fn spec_decode(input: Seq<char>) -> Option<Seq<char>> {
    if !is_ascii_chars(base_part(input)) {
        None
    } else {
        decode_from(extended_part(input), 0, base_part(input), 0, 0x80, 72, true)
    }
}

/// The output that a list of insertions stands for: the base characters with
/// each insertion placed at its position, in the order of the list.
pub open spec fn merged(base: Seq<char>, ins: Seq<(usize, char)>) -> Seq<char>
    decreases ins.len(),
{
    if ins.len() == 0 {
        base
    } else {
        merged(base, ins.drop_last()).insert(ins.last().0 as int, ins.last().1)
    }
}

/// Insertions are ordered when their positions strictly increase and each
/// lies within the output that the earlier ones and the base make up.
pub open spec fn insertions_ordered(base_len: nat, ins: Seq<(usize, char)>) -> bool {
    &&& forall|a: int, b: int| 0 <= a < b < ins.len() ==> (#[trigger] ins[a]).0 < (#[trigger] ins[b]).0
    &&& forall|j: int| 0 <= j < ins.len() ==> (#[trigger] ins[j]).0 <= base_len + j
}

/// Ordered insertions add one place each.
proof fn lemma_merged_len(base: Seq<char>, ins: Seq<(usize, char)>)
    requires
        insertions_ordered(base.len(), ins),
    ensures
        merged(base, ins).len() == base.len() + ins.len(),
    decreases ins.len(),
{
    if ins.len() > 0 {
        let rest = ins.drop_last();
        assert(insertions_ordered(base.len(), rest));
        lemma_merged_len(base, rest);
    }
}

/// A base character behind all insertions stays behind them.
proof fn lemma_merged_push_base(base: Seq<char>, x: char, ins: Seq<(usize, char)>)
    requires
        insertions_ordered(base.len(), ins),
    ensures
        merged(base.push(x), ins) == merged(base, ins).push(x),
    decreases ins.len(),
{
    if ins.len() > 0 {
        let rest = ins.drop_last();
        assert(insertions_ordered(base.len(), rest));
        lemma_merged_push_base(base, x, rest);
        lemma_merged_len(base, rest);
        let m = merged(base, rest);
        let p = ins.last().0 as int;
        assert(m.push(x).insert(p, ins.last().1) =~= m.insert(p, ins.last().1).push(x));
    }
}

/// The insertions with every position from `i` on moved one place outward.
pub open spec fn shifted(ins: Seq<(usize, char)>, i: usize) -> Seq<(usize, char)> {
    Seq::new(
        ins.len(),
        |j: int|
            if ins[j].0 >= i {
                ((ins[j].0 + 1) as usize, ins[j].1)
            } else {
                ins[j]
            },
    )
}

/// One step of the decoder on the list of insertions: moving the insertions
/// from `i` on outward and putting the new one among them, at `k`, is to
/// insert into the output at `i`; and the list stays ordered.
proof fn lemma_insert_step(base: Seq<char>, ins: Seq<(usize, char)>, i: usize, c: char, k: int)
    requires
        insertions_ordered(base.len(), ins),
        base.len() + ins.len() < usize::MAX,
        i <= base.len() + ins.len(),
        0 <= k <= ins.len(),
        forall|j: int| 0 <= j < k ==> (#[trigger] ins[j]).0 < i,
        forall|j: int| k <= j < ins.len() ==> (#[trigger] ins[j]).0 >= i,
    ensures
        merged(base, shifted(ins, i).insert(k, (i, c))) == merged(base, ins).insert(i as int, c),
        insertions_ordered(base.len(), shifted(ins, i).insert(k, (i, c))),
    decreases ins.len() - k,
{
    let after = shifted(ins, i).insert(k, (i, c));
    assert(insertions_ordered(base.len(), after)) by {
        assert forall|a: int, b: int| 0 <= a < b < after.len() implies (#[trigger] after[a]).0 < (
        #[trigger] after[b]).0 by {
            if a < k && b > k {
                assert(ins[a].0 < i);
                assert(ins[b - 1].0 >= i);
            } else if a < k && b < k {
                assert(ins[a].0 < ins[b].0);
            } else if a > k {
                assert(ins[a - 1].0 < ins[b - 1].0);
            } else if a == k {
                assert(ins[b - 1].0 >= i);
            } else {
                assert(ins[a].0 < i);
            }
        }
        assert forall|j: int| 0 <= j < after.len() implies (#[trigger] after[j]).0 <= base.len()
            + j by {
            if j < k {
                assert(ins[j].0 <= base.len() + j);
            } else if j > k {
                assert(ins[j - 1].0 <= base.len() + j - 1);
            } else {
                if k > 0 {
                    assert(ins[k - 1].0 < i);
                }
                if k < ins.len() {
                    assert(ins[k].0 >= i);
                    assert(ins[k].0 <= base.len() + k);
                } else {
                    assert(i <= base.len() + k);
                }
            }
        }
    }
    if k == ins.len() {
        assert(shifted(ins, i) =~= ins);
        assert(after.drop_last() =~= ins);
    } else {
        let rest = ins.drop_last();
        let p = ins.last().0;
        let d = ins.last().1;
        assert(insertions_ordered(base.len(), rest));
        assert(p >= i);
        lemma_insert_step(base, rest, i, c, k);
        lemma_merged_len(base, rest);
        assert(after.drop_last() =~= shifted(rest, i).insert(k, (i, c)));
        assert(after.last() == ((p + 1) as usize, d));
        let m = merged(base, rest);
        assert(p <= m.len());
        assert(m.insert(i as int, c).insert(p + 1, d) =~= m.insert(p as int, d).insert(i as int, c));
    }
}

/// Interleaves the base characters with the decoded insertions.
pub fn merge(input: &[char], insertions: &[(usize, char)]) -> (output: Vec<char>)
    requires
        insertions_ordered(input@.len(), insertions@),
    ensures
        output@ == merged(input@, insertions@),
{
    let mut output: Vec<char> = Vec::with_capacity(input.len());
    let mut taken: usize = 0;
    let mut placed: usize = 0;
    while placed < insertions.len() || taken < input.len()
        invariant
            insertions_ordered(input@.len(), insertions@),
            0 <= taken <= input@.len(),
            0 <= placed <= insertions@.len(),
            output@.len() == taken + placed,
            output@ == merged(input@.subrange(0, taken as int), insertions@.subrange(0, placed as int)),
            insertions_ordered(taken as nat, insertions@.subrange(0, placed as int)),
            forall|j: int| placed <= j < insertions@.len() ==> (#[trigger] insertions@[j]).0 >= taken + placed,
        decreases insertions@.len() - placed + input@.len() - taken,
    {
        let ghost done = insertions@.subrange(0, placed as int);
        let ghost seen = input@.subrange(0, taken as int);
        if placed < insertions.len() && insertions[placed].0 == output.len() {
            let c: char = insertions[placed].1;
            output.push(c);
            proof {
                let more = insertions@.subrange(0, placed + 1);
                assert(more.drop_last() =~= done);
                assert(more.last() == insertions@[placed as int]);
                assert(merged(seen, done).insert(insertions@[placed as int].0 as int, c) =~= merged(
                    seen,
                    done,
                ).push(c));
                assert forall|j: int| placed + 1 <= j < insertions@.len() implies (
                #[trigger] insertions@[j]).0 >= taken + placed + 1 by {
                    assert(insertions@[placed as int].0 < insertions@[j].0);
                }
            }
            placed = placed + 1;
        } else {
            proof {
                if taken == input@.len() {
                    assert(insertions@[placed as int].0 <= input@.len() + placed);
                    assert(insertions@[placed as int].0 >= taken + placed);
                    assert(false);
                }
            }
            let c: char = input[taken];
            output.push(c);
            proof {
                assert(input@.subrange(0, taken + 1) =~= seen.push(c));
                lemma_merged_push_base(seen, c, done);
                assert forall|j: int| placed <= j < insertions@.len() implies (
                #[trigger] insertions@[j]).0 >= taken + 1 + placed by {
                    if j > placed {
                        assert(insertions@[placed as int].0 < insertions@[j].0);
                    }
                }
            }
            taken = taken + 1;
        }
    }
    proof {
        assert(input@.subrange(0, taken as int) =~= input@);
        assert(insertions@.subrange(0, placed as int) =~= insertions@);
    }
    output
}

/// The last delimiter is a delimiter, and none follows it.
proof fn lemma_last_delimiter(s: Seq<char>)
    ensures
        match last_delimiter(s) {
            Some(p) => 0 <= p < s.len() && s[p] == DELIMITER && forall|j: int|
                p < j < s.len() ==> s[j] != DELIMITER,
            None => forall|j: int| 0 <= j < s.len() ==> s[j] != DELIMITER,
        },
    decreases s.len(),
{
    if s.len() > 0 && s.last() != DELIMITER {
        let rest = s.drop_last();
        lemma_last_delimiter(rest);
        match last_delimiter(rest) {
            Some(p) => {
                assert(s[p] == rest[p]);
                assert forall|j: int| p < j < s.len() implies s[j] != DELIMITER by {
                    if j < rest.len() {
                        assert(s[j] == rest[j]);
                    }
                }
            },
            None => {
                assert forall|j: int| 0 <= j < s.len() implies s[j] != DELIMITER by {
                    if j < rest.len() {
                        assert(s[j] == rest[j]);
                    }
                }
            },
        }
    }
}

/// The position of the last delimiter of `input`, found from the back.
fn find_last_delimiter(input: &[char]) -> (r: Option<usize>)
    ensures
        match r {
            Some(p) => last_delimiter(input@) == Some(p as int) && p < input@.len(),
            None => last_delimiter(input@) is None,
        },
{
    let mut end: usize = input.len();
    while end > 0
        invariant
            0 <= end <= input@.len(),
            forall|j: int| end <= j < input@.len() ==> input@[j] != DELIMITER,
        decreases end,
    {
        if input[end - 1] == DELIMITER {
            proof {
                lemma_last_delimiter(input@);
            }
            return Some(end - 1);
        }
        end = end - 1;
    }
    proof {
        lemma_last_delimiter(input@);
    }
    None
}

/// Whether every character of `s` is ASCII.
pub fn is_all_ascii(s: &[char]) -> (r: bool)
    ensures
        r == is_ascii_chars(s@),
{
    let mut j: usize = 0;
    while j < s.len()
        invariant
            0 <= j <= s@.len(),
            is_ascii_chars(s@.subrange(0, j as int)),
        decreases s@.len() - j,
    {
        let c: char = char_at(s, j);
        if c as u32 >= 0x80 {
            return false;
        }
        assert(is_ascii_chars(s@.subrange(0, j + 1))) by {
            assert forall|m: int| 0 <= m < j + 1 implies #[trigger] s@.subrange(0, j + 1)[m]
                <= '\u{7f}' by {
                if m < j {
                    assert(s@.subrange(0, j as int)[m] <= '\u{7f}');
                }
            }
        }
        j = j + 1;
    }
    assert(s@.subrange(0, j as int) =~= s@);
    true
}

/// The value of one digit, or `None` where `c` is no digit.
fn digit_of(c: char) -> (r: Option<u32>)
    ensures
        match r {
            Some(d) => digit_value(c) == Some(d as int) && d < 36,
            None => digit_value(c) is None,
        },
{
    let n: u32 = c as u32;
    if 0x30 <= n && n <= 0x39 {
        Some(n - 0x30 + 26)
    } else if 0x41 <= n && n <= 0x5A {
        Some(n - 0x41)
    } else if 0x61 <= n && n <= 0x7A {
        Some(n - 0x61)
    } else {
        None
    }
}

/// Splits an encoded label and decodes its extended part into a list of
/// insertions, ordered by position: each is a scalar value from U+0080 on
/// with the place it takes in the output. Yields the length of the base part
/// with that list.
pub fn insertions(input: &[char]) -> (r: Result<(usize, Vec<(usize, char)>), ()>)
    ensures
        match r {
            Ok((base_len, ins)) => {
                &&& base_len == base_part(input@).len()
                &&& insertions_ordered(base_len as nat, ins@)
                &&& forall|j: int| 0 <= j < ins@.len() ==> (#[trigger] ins@[j]).1 as int >= 0x80
                &&& spec_decode(input@) == Some(merged(base_part(input@), ins@))
            },
            Err(_) => spec_decode(input@) is None,
        },
{
    proof {
        lemma_last_delimiter(input@);
    }
    let input_len: usize = input.len();
    let (base_len, ext_start): (usize, usize) = match find_last_delimiter(input) {
        None => (0, 0),
        Some(position) => (
            position,
            if position > 0 {
                position + 1
            } else {
                0
            },
        ),
    };
    let base = slice_subrange(input, 0, base_len);
    let ext = slice_subrange(input, ext_start, input.len());
    assert(base@ =~= base_part(input@));
    assert(ext@ =~= extended_part(input@));
    if !is_all_ascii(base) {
        return Err(());
    }
    let mut length: usize = base_len;
    let mut buf: Vec<(usize, char)> = Vec::new();
    let mut code_point: u32 = INITIAL_N;
    let mut bias: u32 = INITIAL_BIAS;
    let mut i: u32 = 0;
    let mut pos: usize = 0;
    let ghost mut out: Seq<char> = base@;
    while pos < ext.len()
        invariant
            base@ == base_part(input@),
            ext@ == extended_part(input@),
            is_ascii_chars(base@),
            base@.len() + ext@.len() <= input@.len(),
            input@.len() == input_len,
            ext@.len() <= usize::MAX,
            0 <= pos <= ext@.len(),
            length == out.len(),
            length == base@.len() + buf@.len(),
            buf@.len() <= pos,
            i <= length,
            bias <= 215,
            code_point >= 0x80,
            forall|j: int| 0 <= j < buf@.len() ==> (#[trigger] buf@[j]).1 as int >= 0x80,
            insertions_ordered(base@.len(), buf@),
            merged(base@, buf@) == out,
            decode_from(ext@, pos as int, out, i as int, code_point as int, bias as int, i == 0)
                == spec_decode(input@),
        decreases ext@.len() - pos,
    {
        let previous_i: u32 = i;
        let ghost start: int = pos as int;
        let mut weight: u32 = 1;
        let mut k: u32 = BASE;
        // Read one generalized variable-length integer and add it to i.
        loop
            invariant_except_break
                0 <= start <= pos < ext@.len(),
                weight >= 1,
                previous_i <= i,
                (weight == 1 && k == 36) || (weight >= 10 && k <= 72 + weight / 2),
                read_integer(ext@, pos as int, i as int, weight as int, k as int, bias as int)
                    == read_integer(ext@, start, previous_i as int, 1, 36, bias as int),
            invariant
                bias <= 215,
                ext@.len() <= usize::MAX,
                read_integer(ext@, start, previous_i as int, 1, 36, bias as int) is None
                    ==> spec_decode(input@) is None,
            ensures
                start < pos <= ext@.len(),
                previous_i <= i,
                read_integer(ext@, start, previous_i as int, 1, 36, bias as int) == Some(
                    (i as int, pos as int),
                ),
            decreases ext@.len() - pos,
        {
            let digit: u32 = match digit_of(char_at(ext, pos)) {
                Some(d) => d,
                None => {
                    return Err(());
                },
            };
            proof {
                lemma_checked_product(digit as int, weight as int, u32::MAX - i);
            }
            if digit > (u32::MAX - i) / weight {
                return Err(());  // the sum does not fit
            }
            assert(digit * weight <= u32::MAX - i);
            i = i + digit * weight;
            let t: u32 = threshold_of(k, bias);
            pos = pos + 1;
            if digit < t {
                break ;
            }
            proof {
                lemma_checked_product(weight as int, (BASE - t) as int, u32::MAX as int);
                assert(weight * (BASE - t) == (BASE - t) * weight) by (nonlinear_arith);
            }
            if weight > u32::MAX / (BASE - t) {
                return Err(());  // the weight does not fit
            }
            assert(weight * (BASE - t) >= weight * 10) by (nonlinear_arith)
                requires
                    BASE - t >= 10,
                    weight >= 1,
            ;
            weight = weight * (BASE - t);
            k = k + BASE;
            if pos >= ext.len() {
                return Err(());  // the digits end before the integer does
            }
        }
        let points: usize = length + 1;
        let ghost old_out = out;
        let ghost old_bias = bias;
        let ghost old_code = code_point;
        assert(decode_from(
            ext@,
            start,
            old_out,
            previous_i as int,
            old_code as int,
            old_bias as int,
            previous_i == 0,
        ) == spec_decode(input@));
        let wraps: u32 = if points as u64 > u32::MAX as u64 {
            0
        } else {
            i / (points as u32)
        };
        assert(wraps == i as int / points as int) by {
            if points as u64 > u32::MAX as u64 {
                vstd::arithmetic::div_mod::lemma_basic_div(i as int, points as int);
            }
        }
        if wraps > u32::MAX - code_point {
            return Err(());  // the code point does not fit
        }
        bias = adapt(i - previous_i, points, previous_i == 0);
        code_point = code_point + wraps;
        let at: usize = if points as u64 > u32::MAX as u64 {
            i as usize
        } else {
            (i % (points as u32)) as usize
        };
        assert(at == i as int % points as int) by {
            if points as u64 > u32::MAX as u64 {
                vstd::arithmetic::div_mod::lemma_small_mod(i as nat, points as nat);
            }
        }
        let c: char = match char::from_u32(code_point) {
            Some(c) => c,
            None => {
                return Err(());
            },
        };
        // Move the insertions at or behind the new one outward, and find its place among them.
        let ghost before = buf@;
        let mut j: usize = 0;
        let mut place: usize = buf.len();
        while j < buf.len()
            invariant
                0 <= j <= before.len(),
                buf@.len() == before.len(),
                insertions_ordered(base@.len(), before),
                base@.len() + before.len() < usize::MAX,
                forall|m: int| 0 <= m < buf@.len() ==> (#[trigger] buf@[m]).1 as int >= 0x80,
                forall|m: int| 0 <= m < j ==> buf@[m] == shifted(before, at)[m],
                forall|m: int| j <= m < before.len() ==> buf@[m] == before[m],
                place <= j || place == before.len(),
                place < before.len() ==> place < j,
                forall|m: int| 0 <= m < place && m < j ==> (#[trigger] before[m]).0 < at,
                forall|m: int| place <= m < before.len() ==> (#[trigger] before[m]).0 >= at,
            decreases before.len() - j,
        {
            let (idx, ch): (usize, char) = buf[j];
            if idx >= at {
                proof {
                    assert(before[j as int].0 <= base@.len() + j);
                }
                buf.set(j, (idx + 1, ch));
                if place == buf.len() {
                    place = j;
                    proof {
                        assert forall|m: int| place <= m < before.len() implies (
                        #[trigger] before[m]).0 >= at by {
                            if m > j {
                                assert(before[j as int].0 < before[m].0);
                            }
                        }
                    }
                }
            }
            j = j + 1;
        }
        proof {
            assert(buf@ =~= shifted(before, at));
            lemma_insert_step(base@, before, at, c, place as int);
            out = old_out.insert(at as int, c);
            assert(c == code_point as char);
            assert(decode_from(ext@, pos as int, out, at + 1, code_point as int, bias as int, false)
                == spec_decode(input@));
        }
        buf.insert(place, (at, c));
        length = length + 1;
        if at as u64 >= u32::MAX as u64 {
            // The next insertion point does not fit: no further integer can be read.
            if pos < ext.len() {
                assert(read_integer(ext@, pos as int, at + 1, 1, 36, bias as int) is None);
                return Err(());
            }
            i = at as u32;
        } else {
            i = at as u32 + 1;
        }
    }
    Ok((base_len, buf))
}

/// Decodes an encoded label, without its `xn--` prefix, to scalar values.
/// `None` where the label is malformed or an accumulator would overflow.
pub fn decode(input: &str) -> (r: Option<Vec<char>>)
    ensures
        match r {
            Some(v) => spec_decode(input@) == Some(v@),
            None => spec_decode(input@) is None,
        },
{
    let chars = chars_of(input);
    decode_chars(chars.as_slice())
}

/// `decode` on a slice of scalar values.
pub fn decode_chars(input: &[char]) -> (r: Option<Vec<char>>)
    ensures
        match r {
            Some(v) => spec_decode(input@) == Some(v@),
            None => spec_decode(input@) is None,
        },
{
    match insertions(input) {
        Ok((base_len, buf)) => {
            proof {
                lemma_last_delimiter(input@);
            }
            let base = slice_subrange(input, 0, base_len);
            assert(base@ =~= base_part(input@));
            Some(merge(base, buf.as_slice()))
        },
        Err(_) => None,
    }
}

/// Decodes an encoded label to a `String`.
pub fn decode_to_string(input: &str) -> (r: Option<String>)
    ensures
        match r {
            Some(s) => spec_decode(input@) == Some(s@),
            None => spec_decode(input@) is None,
        },
{
    match decode(input) {
        Some(chars) => Some(string_of(chars.as_slice())),
        None => None,
    }
}

} // verus!
