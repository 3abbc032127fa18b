//! The encoder: from scalar values to a label in its ASCII-compatible
//! encoding.

use crate::punycode::{
    acc_max, adapt, lemma_char_range, lemma_checked_product, spec_adapt, threshold, threshold_of,
    BASE, DELIMITER, INITIAL_BIAS, INITIAL_N,
};
use crate::text::{char_at, chars_of, each_char, string_of};
use vstd::prelude::*;
use vstd::utf8::is_ascii_chars;

verus! {

/// The digit of the bootstring alphabet with the given value: `a` to `z`
/// for 0 to 25, `0` to `9` for 26 to 35.
pub open spec fn digit_char(value: int) -> char {
    if value < 26 {
        (value + 0x61) as char
    } else {
        (value - 26 + 0x30) as char
    }
}

/// The digits of `q` as a generalized variable-length integer, least
/// significant digit first, with the thresholds that `bias` gives from `k` on.
pub open spec fn encode_integer(q: int, k: int, bias: int) -> Seq<char>
    decreases q,
{
    let t = threshold(k, bias);
    if q < t {
        seq![digit_char(q)]
    } else {
        proof {
            lemma_quotient_smaller(q, t);
        }
        seq![digit_char(t + (q - t) % (36 - t))] + encode_integer(
            (q - t) / (36 - t),
            k + 36,
            bias,
        )
    }
}

/// Dividing what is left of `q` above the threshold makes it smaller.
pub proof fn lemma_quotient_smaller(q: int, t: int)
    requires
        1 <= t <= 26,
        t <= q,
    ensures
        0 <= (q - t) / (36 - t) < q,
        0 <= (q - t) % (36 - t) < 36 - t,
{
    vstd::arithmetic::div_mod::lemma_fundamental_div_mod(q - t, 36 - t);
    vstd::arithmetic::div_mod::lemma_mod_bound(q - t, 36 - t);
    vstd::arithmetic::div_mod::lemma_div_pos_is_pos(q - t, 36 - t);
    let d = (q - t) / (36 - t);
    assert((36 - t) * d >= d) by (nonlinear_arith)
        requires
            36 - t >= 1,
            d >= 0,
    ;
}

/// What makes a scalar value a basic code point: that it is ASCII.
pub open spec fn is_basic() -> spec_fn(char) -> bool {
    |c: char| c <= '\u{7f}'
}

/// The basic code points of `input`: its ASCII characters, in order.
pub open spec fn basic_part(input: Seq<char>) -> Seq<char> {
    input.filter(is_basic())
}

/// The least code point of `input` that is at least `n`, if there is one.
pub open spec fn next_code_point(input: Seq<char>, n: int) -> Option<int>
    decreases input.len(),
{
    if input.len() == 0 {
        None
    } else {
        let c = input.last() as int;
        match next_code_point(input.drop_last(), n) {
            Some(m) => if n <= c < m {
                Some(c)
            } else {
                Some(m)
            },
            None => if n <= c {
                Some(c)
            } else {
                None
            },
        }
    }
}

/// What the encoder carries from one code point to the next.
pub ghost struct EncoderState {
    /// The delta accumulated since the last integer was emitted.
    pub delta: int,
    pub bias: int,
    /// How many code points of the input have been handled.
    pub handled: int,
    /// The output so far.
    pub out: Seq<char>,
}

/// One pass over `input` from position `j` for the code point `n`: each
/// smaller code point adds one to the delta, each occurrence of `n` emits the
/// delta and adapts the bias. `None` where the delta would overflow.
pub open spec fn encode_pass(
    input: Seq<char>,
    j: int,
    n: int,
    basic: int,
    st: EncoderState,
) -> Option<EncoderState>
    decreases input.len() - j,
{
    if j < 0 || j >= input.len() {
        Some(st)
    } else {
        let c = input[j] as int;
        if c < n {
            if st.delta + 1 > acc_max() {
                None
            } else {
                encode_pass(input, j + 1, n, basic, EncoderState { delta: st.delta + 1, ..st })
            }
        } else if c == n {
            encode_pass(
                input,
                j + 1,
                n,
                basic,
                EncoderState {
                    delta: 0,
                    bias: spec_adapt(st.delta, st.handled + 1, st.handled == basic),
                    handled: st.handled + 1,
                    out: st.out + encode_integer(st.delta, 36, st.bias),
                },
            )
        } else {
            encode_pass(input, j + 1, n, basic, st)
        }
    }
}

/// The encoder's main loop from the code point `n` on: finds the next code
/// point of the input, advances the delta to it and makes one pass for it.
pub open spec fn encode_rounds(input: Seq<char>, n: int, basic: int, st: EncoderState) -> Option<
    Seq<char>,
>
    decreases 0x110000 - n,
{
    match next_code_point(input, n) {
        None => Some(st.out),
        Some(m) => {
            let delta = st.delta + (m - n) * (st.handled + 1);
            if delta > acc_max() {
                None
            } else {
                match encode_pass(input, 0, m, basic, EncoderState { delta, ..st }) {
                    None => None,
                    Some(after) => {
                        proof {
                            lemma_next_code_point(input, n);
                        }
                        encode_rounds(
                            input,
                            m + 1,
                            basic,
                            EncoderState { delta: after.delta + 1, ..after },
                        )
                    },
                }
            }
        },
    }
}

/// What a sequence of scalar values encodes to, or `None` where the delta
/// would overflow its 32 bits.
pub open spec fn spec_encode(input: Seq<char>) -> Option<Seq<char>> {
    let basic = basic_part(input);
    let head = if basic.len() > 0 {
        basic.push(DELIMITER)
    } else {
        basic
    };
    encode_rounds(
        input,
        0x80,
        basic.len() as int,
        EncoderState { delta: 0, bias: 72, handled: basic.len() as int, out: head },
    )
}

/// The next code point is one of the input, is at least `n`, and no code
/// point of the input lies between `n` and it.
pub proof fn lemma_next_code_point(input: Seq<char>, n: int)
    ensures
        match next_code_point(input, n) {
            Some(m) => {
                &&& n <= m <= 0x10FFFF
                &&& exists|j: int| 0 <= j < input.len() && #[trigger] input[j] as int == m
                &&& forall|j: int|
                    0 <= j < input.len() ==> !(n <= (#[trigger] input[j]) as int && (input[j] as int)
                        < m)
            },
            None => forall|j: int| 0 <= j < input.len() ==> ((#[trigger] input[j]) as int) < n,
        },
    decreases input.len(),
{
    if input.len() > 0 {
        let rest = input.drop_last();
        let last = input.last();
        let top = input.len() - 1;
        lemma_char_range(last);
        lemma_next_code_point(rest, n);
        assert(input[top] == last);
        assert forall|j: int| 0 <= j < rest.len() implies rest[j] == input[j] by {}
        let found = next_code_point(input, n);
        match next_code_point(rest, n) {
            Some(m) => {
                let w = choose|j: int| 0 <= j < rest.len() && #[trigger] rest[j] as int == m;
                assert(input[w] == rest[w]);
                if n <= last as int && (last as int) < m {
                    assert(found == Some(last as int));
                } else {
                    assert(found == Some(m));
                    assert(input[w] as int == m);
                }
                assert forall|j: int| 0 <= j < input.len() implies !(n <= (#[trigger] input[j]) as int
                    && (input[j] as int) < found.unwrap()) by {
                    if j < rest.len() {
                        assert(rest[j] == input[j]);
                        assert(!(n <= rest[j] as int && (rest[j] as int) < m));
                    }
                }
            },
            None => {
                assert forall|j: int| 0 <= j < rest.len() implies (input[j] as int) < n by {
                    assert(rest[j] == input[j]);
                    assert((rest[j] as int) < n);
                }
                if n <= last as int {
                    assert(found == Some(last as int));
                    assert(input[top] as int == last as int);
                    assert forall|j: int| 0 <= j < input.len() implies !(n <= (
                    #[trigger] input[j]) as int && (input[j] as int) < last as int) by {
                        if j < rest.len() {
                            assert((input[j] as int) < n);
                        }
                    }
                } else {
                    assert(found is None);
                    assert forall|j: int| 0 <= j < input.len() implies ((#[trigger] input[j]) as int)
                        < n by {
                        if j < rest.len() {
                            assert((input[j] as int) < n);
                        }
                    }
                }
            },
        }
    }
}

/// Whether the encoder has handled the code point `c` at position `p` once
/// it stands at position `j` of its pass for the code point `n`.
pub open spec fn is_settled(c: char, p: int, n: int, j: int) -> bool {
    (c as int) < n || (c as int == n && p < j)
}

/// How many code points of `input` the encoder has handled once it stands at
/// position `j` of its pass for the code point `n`.
pub open spec fn settled(input: Seq<char>, n: int, j: int) -> int
    decreases input.len(),
{
    if input.len() == 0 {
        0
    } else {
        settled(input.drop_last(), n, j) + if is_settled(input.last(), input.len() - 1, n, j) {
            1int
        } else {
            0int
        }
    }
}

/// The count goes by which positions are settled.
proof fn lemma_settled_same(input: Seq<char>, n1: int, j1: int, n2: int, j2: int)
    requires
        forall|p: int|
            0 <= p < input.len() ==> is_settled(#[trigger] input[p], p, n1, j1) == is_settled(
                input[p],
                p,
                n2,
                j2,
            ),
    ensures
        settled(input, n1, j1) == settled(input, n2, j2),
    decreases input.len(),
{
    if input.len() > 0 {
        let rest = input.drop_last();
        assert forall|p: int| 0 <= p < rest.len() implies is_settled(
            #[trigger] rest[p],
            p,
            n1,
            j1,
        ) == is_settled(rest[p], p, n2, j2) by {
            assert(rest[p] == input[p]);
        }
        lemma_settled_same(rest, n1, j1, n2, j2);
        assert(input[input.len() - 1] == input.last());
    }
}

/// The count is the length of the input exactly when every position is
/// settled.
proof fn lemma_settled_bound(input: Seq<char>, n: int, j: int)
    ensures
        0 <= settled(input, n, j) <= input.len(),
        (exists|p: int| 0 <= p < input.len() && !is_settled(#[trigger] input[p], p, n, j))
            <==> settled(input, n, j) < input.len(),
    decreases input.len(),
{
    if input.len() > 0 {
        let rest = input.drop_last();
        let top = input.len() - 1;
        lemma_settled_bound(rest, n, j);
        assert(input[top] == input.last());
        assert forall|p: int| 0 <= p < rest.len() implies rest[p] == input[p] by {}
        if settled(input, n, j) < input.len() {
            if is_settled(input.last(), top, n, j) {
                let p = choose|p: int| 0 <= p < rest.len() && !is_settled(#[trigger] rest[p], p, n, j);
                assert(!is_settled(input[p], p, n, j));
            } else {
                assert(!is_settled(input[top], top, n, j));
            }
        }
        if exists|p: int| 0 <= p < input.len() && !is_settled(#[trigger] input[p], p, n, j) {
            let p = choose|p: int| 0 <= p < input.len() && !is_settled(#[trigger] input[p], p, n, j);
            if p < rest.len() {
                assert(!is_settled(rest[p], p, n, j));
            }
        }
    }
}

/// One step of a pass settles the position it leaves where the code point
/// there is the one of the pass.
proof fn lemma_settled_step(input: Seq<char>, n: int, j: int)
    requires
        0 <= j < input.len(),
    ensures
        settled(input, n, j + 1) == settled(input, n, j) + if input[j] as int == n {
            1int
        } else {
            0int
        },
    decreases input.len(),
{
    let rest = input.drop_last();
    let top = input.len() - 1;
    assert(input[top] == input.last());
    if j < top {
        assert(rest[j] == input[j]);
        lemma_settled_step(rest, n, j);
    } else {
        assert forall|p: int| 0 <= p < rest.len() implies is_settled(
            #[trigger] rest[p],
            p,
            n,
            j,
        ) == is_settled(rest[p], p, n, j + 1) by {}
        lemma_settled_same(rest, n, j, n, j + 1);
    }
}

/// Before the first pass the basic code points are settled, and no others.
proof fn lemma_settled_basic(input: Seq<char>)
    ensures
        settled(input, 0x80, 0) == basic_part(input).len(),
    decreases input.len(),
{
    reveal(Seq::filter);
    if input.len() > 0 {
        lemma_settled_basic(input.drop_last());
    }
}

/// The digit of the bootstring alphabet with the given value.
pub fn value_to_digit(value: u32) -> (c: char)
    requires
        value < 36,
    ensures
        c == digit_char(value as int),
{
    if value < 26 {
        (value as u8 + 0x61) as char
    } else {
        (value as u8 - 26 + 0x30) as char
    }
}

/// The least code point of `input` that is at least `n`.
fn least_from(input: &[char], n: u32) -> (m: u32)
    requires
        next_code_point(input@, n as int) is Some,
    ensures
        next_code_point(input@, n as int) == Some(m as int),
{
    let mut found: Option<u32> = None;
    let mut j: usize = 0;
    while j < input.len()
        invariant
            0 <= j <= input@.len(),
            match found {
                Some(m) => next_code_point(input@.subrange(0, j as int), n as int) == Some(m as int),
                None => next_code_point(input@.subrange(0, j as int), n as int) is None,
            },
        decreases input@.len() - j,
    {
        let c: u32 = char_at(input, j) as u32;
        proof {
            assert(input@.subrange(0, j + 1).drop_last() =~= input@.subrange(0, j as int));
        }
        if c >= n {
            found =
            match found {
                Some(m) => if c < m {
                    Some(c)
                } else {
                    Some(m)
                },
                None => Some(c),
            };
        }
        j = j + 1;
    }
    proof {
        assert(input@.subrange(0, j as int) =~= input@);
    }
    match found {
        Some(m) => m,
        None => n,
    }
}

/// Bounds the digits that a 32-bit value still needs: each digit divides
/// what is left by ten at least.
spec fn digits_left(k: int, q: int) -> bool {
    ||| k == 36 && q < 10_000_000_000
    ||| k == 72 && q < 1_000_000_000
    ||| k == 108 && q < 100_000_000
    ||| k == 144 && q < 10_000_000
    ||| k == 180 && q < 1_000_000
    ||| k == 216 && q < 100_000
    ||| k == 252 && q < 10_000
    ||| k == 288 && q < 1_000
    ||| k == 324 && q < 100
    ||| k == 360 && q < 10
    ||| k == 396 && q < 1
}

/// Appends the digits of `delta` to `output`.
fn emit_integer(delta: u32, bias: u32, output: &mut Vec<char>)
    requires
        bias <= 215,
    ensures
        final(output)@ == old(output)@ + encode_integer(delta as int, 36, bias as int),
{
    let mut q: u32 = delta;
    let mut k: u32 = BASE;
    let ghost before = output@;
    loop
        invariant_except_break
            before + encode_integer(delta as int, 36, bias as int) == output@ + encode_integer(
                q as int,
                k as int,
                bias as int,
            ),
            digits_left(k as int, q as int),
        invariant
            bias <= 215,
            before == old(output)@,
        ensures
            output@ == before + encode_integer(delta as int, 36, bias as int),
        decreases q,
    {
        let t: u32 = threshold_of(k, bias);
        if q < t {
            let digit = value_to_digit(q);
            proof {
                assert(output@.push(digit) =~= output@ + encode_integer(q as int, k as int, bias as int));
            }
            output.push(digit);
            break ;
        }
        proof {
            lemma_quotient_smaller(q as int, t as int);
            assert((q - t) / (36 - t) <= (q - t) / 10) by (nonlinear_arith)
                requires
                    1 <= t <= 26,
                    t <= q,
            ;
        }
        let value: u32 = t + ((q - t) % (BASE - t));
        let digit = value_to_digit(value);
        proof {
            let rest = encode_integer(((q - t) / (36 - t)) as int, k + 36, bias as int);
            assert(encode_integer(q as int, k as int, bias as int) == seq![digit] + rest);
            assert(output@.push(digit) + rest =~= output@ + (seq![digit] + rest));
        }
        output.push(digit);
        q = (q - t) / (BASE - t);
        k = k + BASE;
    }
}

/// The encoder has a next code point exactly while a position is not
/// settled.
proof fn lemma_pending_has_next(input: Seq<char>, n: int)
    ensures
        settled(input, n, 0) < input.len() <==> next_code_point(input, n) is Some,
{
    lemma_settled_bound(input, n, 0);
    lemma_next_code_point(input, n);
    match next_code_point(input, n) {
        Some(m) => {
            let w = choose|j: int| 0 <= j < input.len() && #[trigger] input[j] as int == m;
            assert(!is_settled(input[w], w, n, 0));
        },
        None => {
            assert forall|p: int| 0 <= p < input.len() implies is_settled(
                #[trigger] input[p],
                p,
                n,
                0,
            ) by {}
        },
    }
}

/// Appends the encoding of `input` to `output`. `Err` where the delta would
/// overflow: then `output` still begins with what it held, followed by what
/// was written before the overflow.
pub fn encode_into(input: &[char], output: &mut Vec<char>) -> (r: Result<(), ()>)
    ensures
        match r {
            Ok(_) => spec_encode(input@) is Some && final(output)@ == old(output)@ + spec_encode(
                input@,
            ).unwrap(),
            Err(_) => {
                &&& spec_encode(input@) is None
                &&& old(output)@.len() <= final(output)@.len()
                &&& final(output)@.subrange(0, old(output)@.len() as int) == old(output)@
            },
        },
{
    let input_length: usize = input.len();
    let mut basic_length: usize = 0;
    let mut j: usize = 0;
    // The basic code points go out as they are.
    while j < input_length
        invariant
            input_length == input@.len(),
            0 <= j <= input_length,
            basic_length == basic_part(input@.subrange(0, j as int)).len(),
            basic_length <= j,
            output@ == old(output)@ + basic_part(input@.subrange(0, j as int)),
        decreases input_length - j,
    {
        let c: char = char_at(input, j);
        proof {
            reveal(Seq::filter);
            assert(input@.subrange(0, j + 1).drop_last() =~= input@.subrange(0, j as int));
        }
        if c as u32 <= 0x7f {
            output.push(c);
            basic_length = basic_length + 1;
        }
        j = j + 1;
    }
    proof {
        assert(input@.subrange(0, j as int) =~= input@);
        lemma_settled_basic(input@);
    }
    if basic_length > 0 {
        output.push(DELIMITER);
    }
    let ghost basic: int = basic_length as int;
    let ghost mut out: Seq<char> = if basic_length > 0 {
        basic_part(input@).push(DELIMITER)
    } else {
        basic_part(input@)
    };
    let mut code_point: u32 = INITIAL_N;
    let mut delta: u32 = 0;
    let mut bias: u32 = INITIAL_BIAS;
    let mut processed: usize = basic_length;
    while processed < input_length
        invariant
            input_length == input@.len(),
            0x80 <= code_point <= 0x110000,
            bias <= 215,
            basic == basic_length,
            processed == settled(input@, code_point as int, 0),
            output@ == old(output)@ + out,
            encode_rounds(
                input@,
                code_point as int,
                basic,
                EncoderState { delta: delta as int, bias: bias as int, handled: processed as int, out },
            ) == spec_encode(input@),
        decreases 0x110000 - code_point,
    {
        proof {
            lemma_pending_has_next(input@, code_point as int);
            lemma_next_code_point(input@, code_point as int);
        }
        // Every code point below code_point has been handled: find the next larger one.
        let min_code_point: u32 = least_from(input, code_point);
        let steps: u32 = min_code_point - code_point;
        proof {
            lemma_checked_product(steps as int, processed + 1, u32::MAX - delta);
            assert(steps * (processed + 1) == (processed + 1) * steps) by (nonlinear_arith);
        }
        if steps as u64 > (u32::MAX - delta) as u64 / (processed as u64 + 1) {
            assert(output@.subrange(0, old(output)@.len() as int) =~= old(output)@);
            return Err(());  // the delta does not fit
        }
        // Advance the decoder's state to the first position of min_code_point.
        let jump: u64 = (steps as u64) * (processed as u64 + 1);
        delta = delta + jump as u32;
        proof {
            assert forall|p: int| 0 <= p < input@.len() implies is_settled(
                #[trigger] input@[p],
                p,
                code_point as int,
                0,
            ) == is_settled(input@[p], p, min_code_point as int, 0) by {}
            lemma_settled_same(input@, code_point as int, 0, min_code_point as int, 0);
        }
        code_point = min_code_point;
        let ghost entry = EncoderState {
            delta: delta as int,
            bias: bias as int,
            handled: processed as int,
            out,
        };
        assert(match encode_pass(input@, 0, code_point as int, basic, entry) {
            None => spec_encode(input@) is None,
            Some(after) => spec_encode(input@) == encode_rounds(
                input@,
                code_point + 1,
                basic,
                EncoderState { delta: after.delta + 1, ..after },
            ),
        });
        let mut j: usize = 0;
        while j < input_length
            invariant
                input_length == input@.len(),
                0 <= j <= input_length,
                bias <= 215,
                basic == basic_length,
                code_point == min_code_point,
                processed == settled(input@, code_point as int, j as int),
                output@ == old(output)@ + out,
                encode_pass(
                    input@,
                    j as int,
                    code_point as int,
                    basic,
                    EncoderState {
                        delta: delta as int,
                        bias: bias as int,
                        handled: processed as int,
                        out,
                    },
                ) == encode_pass(input@, 0, code_point as int, basic, entry),
                encode_pass(input@, 0, code_point as int, basic, entry) is None ==> spec_encode(
                    input@,
                ) is None,
            decreases input_length - j,
        {
            let c: u32 = char_at(input, j) as u32;
            let ghost here = EncoderState {
                delta: delta as int,
                bias: bias as int,
                handled: processed as int,
                out,
            };
            proof {
                lemma_settled_step(input@, code_point as int, j as int);
                lemma_settled_bound(input@, code_point as int, j as int);
            }
            if c < code_point {
                if delta == u32::MAX {
                    assert(output@.subrange(0, old(output)@.len() as int) =~= old(output)@);
                    return Err(());  // the delta does not fit
                }
                delta = delta + 1;
            }
            if c == code_point {
                // Represent delta as a generalized variable-length integer.
                proof {
                    assert(!is_settled(input@[j as int], j as int, code_point as int, j as int));
                    out = out + encode_integer(delta as int, 36, bias as int);
                }
                emit_integer(delta, bias, output);
                proof {
                    assert(output@ =~= old(output)@ + out);
                }
                bias = adapt(delta, processed + 1, processed == basic_length);
                delta = 0;
                processed = processed + 1;
            }
            assert(encode_pass(input@, j as int, code_point as int, basic, here) == encode_pass(
                input@,
                j + 1,
                code_point as int,
                basic,
                EncoderState {
                    delta: delta as int,
                    bias: bias as int,
                    handled: processed as int,
                    out,
                },
            ));
            j = j + 1;
        }
        assert(encode_pass(input@, 0, code_point as int, basic, entry) == Some(
            EncoderState { delta: delta as int, bias: bias as int, handled: processed as int, out },
        ));
        proof {
            assert forall|p: int| 0 <= p < input@.len() implies is_settled(
                #[trigger] input@[p],
                p,
                code_point as int,
                input_length as int,
            ) == is_settled(input@[p], p, code_point + 1, 0) by {}
            lemma_settled_same(input@, code_point as int, input_length as int, code_point + 1, 0);
            lemma_pending_has_next(input@, code_point + 1);
            lemma_next_code_point(input@, code_point + 1);
        }
        if delta == u32::MAX {
            // One more does not fit: the encoding is done, or the next round overflows.
            if processed < input_length {
                proof {
                    let m = next_code_point(input@, code_point + 1).unwrap();
                    assert((m - (code_point + 1)) * (processed + 1) >= 0) by (nonlinear_arith)
                        requires
                            m >= code_point + 1,
                            processed >= 0,
                    ;
                }
                assert(output@.subrange(0, old(output)@.len() as int) =~= old(output)@);
                return Err(());
            }
            return Ok(());
        }
        delta = delta + 1;
        code_point = code_point + 1;
    }
    proof {
        lemma_pending_has_next(input@, code_point as int);
    }
    Ok(())
}

/// Encodes scalar values as one Punycode label, without the `xn--` prefix.
/// `None` where the delta would overflow.
pub fn encode(input: &[char]) -> (r: Option<String>)
    ensures
        match r {
            Some(s) => spec_encode(input@) == Some(s@),
            None => spec_encode(input@) is None,
        },
{
    let mut buf: Vec<char> = Vec::with_capacity(input.len());
    match encode_into(input, &mut buf) {
        Ok(_) => {
            assert(buf@ =~= spec_encode(input@).unwrap());
            Some(string_of(buf.as_slice()))
        },
        Err(_) => None,
    }
}

/// Encodes a string as one Punycode label.
pub fn encode_str(input: &str) -> (r: Option<String>)
    ensures
        match r {
            Some(s) => spec_encode(input@) == Some(s@),
            None => spec_encode(input@) is None,
        },
{
    let chars = chars_of(input);
    encode(chars.as_slice())
}

/// Whether a scalar value is a digit of the bootstring alphabet as the
/// encoder writes it: `a` to `z` or `0` to `9`.
pub open spec fn is_digit_char(c: char) -> bool {
    let n = c as int;
    0x61 <= n <= 0x7A || 0x30 <= n <= 0x39
}

/// What holds of the digits holds of all that an integer is written with.
proof fn lemma_integer_chars(q: int, k: int, bias: int, holds: spec_fn(char) -> bool)
    requires
        0 <= q,
        forall|c: char| is_digit_char(c) ==> #[trigger] holds(c),
    ensures
        each_char(encode_integer(q, k, bias), holds),
    decreases q,
{
    let t = threshold(k, bias);
    if q < t {
        assert(is_digit_char(digit_char(q)));
    } else {
        lemma_quotient_smaller(q, t);
        let first = digit_char(t + (q - t) % (36 - t));
        assert(is_digit_char(first));
        let rest = encode_integer((q - t) / (36 - t), k + 36, bias);
        lemma_integer_chars((q - t) / (36 - t), k + 36, bias, holds);
        let whole = encode_integer(q, k, bias);
        assert forall|j: int| 0 <= j < whole.len() implies holds(#[trigger] whole[j]) by {
            if j > 0 {
                assert(whole[j] == rest[j - 1]);
            }
        }
    }
}

/// What holds of the digits and of what is written already holds of all
/// that a pass writes.
proof fn lemma_pass_chars(
    input: Seq<char>,
    j: int,
    n: int,
    basic: int,
    st: EncoderState,
    holds: spec_fn(char) -> bool,
)
    requires
        0 <= st.delta,
        0 <= j,
        each_char(st.out, holds),
        forall|c: char| is_digit_char(c) ==> #[trigger] holds(c),
    ensures
        match encode_pass(input, j, n, basic, st) {
            Some(after) => 0 <= after.delta && each_char(after.out, holds) && after.handled
                >= st.handled,
            None => true,
        },
    decreases input.len() - j,
{
    if j < input.len() {
        let c = input[j] as int;
        if c < n {
            if st.delta + 1 <= acc_max() {
                lemma_pass_chars(
                    input,
                    j + 1,
                    n,
                    basic,
                    EncoderState { delta: st.delta + 1, ..st },
                    holds,
                );
            }
        } else if c == n {
            let digits = encode_integer(st.delta, 36, st.bias);
            lemma_integer_chars(st.delta, 36, st.bias, holds);
            let out = st.out + digits;
            assert forall|m: int| 0 <= m < out.len() implies holds(#[trigger] out[m]) by {
                if m < st.out.len() {
                    assert(out[m] == st.out[m]);
                } else {
                    assert(out[m] == digits[m - st.out.len()]);
                }
            }
            lemma_pass_chars(
                input,
                j + 1,
                n,
                basic,
                EncoderState {
                    delta: 0,
                    bias: spec_adapt(st.delta, st.handled + 1, st.handled == basic),
                    handled: st.handled + 1,
                    out,
                },
                holds,
            );
        } else {
            lemma_pass_chars(input, j + 1, n, basic, st, holds);
        }
    }
}

/// What holds of the digits and of what is written already holds of all
/// that the rounds write.
pub proof fn lemma_rounds_chars(
    input: Seq<char>,
    n: int,
    basic: int,
    st: EncoderState,
    holds: spec_fn(char) -> bool,
)
    requires
        0 <= st.delta,
        0 <= st.handled,
        each_char(st.out, holds),
        forall|c: char| is_digit_char(c) ==> #[trigger] holds(c),
    ensures
        match encode_rounds(input, n, basic, st) {
            Some(out) => each_char(out, holds),
            None => true,
        },
    decreases 0x110000 - n,
{
    lemma_next_code_point(input, n);
    match next_code_point(input, n) {
        None => {},
        Some(m) => {
            let delta = st.delta + (m - n) * (st.handled + 1);
            assert((m - n) * (st.handled + 1) >= 0) by (nonlinear_arith)
                requires
                    m >= n,
                    st.handled >= 0,
            ;
            if delta <= acc_max() {
                let entry = EncoderState { delta, ..st };
                lemma_pass_chars(input, 0, m, basic, entry, holds);
                match encode_pass(input, 0, m, basic, entry) {
                    None => {},
                    Some(after) => {
                        lemma_rounds_chars(
                            input,
                            m + 1,
                            basic,
                            EncoderState { delta: after.delta + 1, ..after },
                            holds,
                        );
                    },
                }
            }
        },
    }
}

/// What holds of the ASCII characters of the input holds of its basic code
/// points.
pub proof fn lemma_basic_chars(input: Seq<char>, holds: spec_fn(char) -> bool)
    requires
        forall|j: int| 0 <= j < input.len() && input[j] <= '\u{7f}' ==> holds(#[trigger] input[j]),
    ensures
        each_char(basic_part(input), holds),
    decreases input.len(),
{
    reveal(Seq::filter);
    if input.len() > 0 {
        let rest = input.drop_last();
        assert forall|j: int| 0 <= j < rest.len() && rest[j] <= '\u{7f}' implies holds(
            #[trigger] rest[j],
        ) by {
            assert(rest[j] == input[j]);
        }
        lemma_basic_chars(rest, holds);
        assert(input[input.len() - 1] == input.last());
    }
}

/// The alphabet of the encoder: what holds of the digits `a` to `z` and `0`
/// to `9`, of the delimiter and of the ASCII characters of the input holds of
/// every character of the encoding.
pub proof fn lemma_encode_chars(input: Seq<char>, holds: spec_fn(char) -> bool)
    requires
        forall|c: char| is_digit_char(c) ==> #[trigger] holds(c),
        holds(DELIMITER),
        forall|j: int| 0 <= j < input.len() && input[j] <= '\u{7f}' ==> holds(#[trigger] input[j]),
    ensures
        match spec_encode(input) {
            Some(out) => each_char(out, holds),
            None => true,
        },
{
    let basic = basic_part(input);
    lemma_basic_chars(input, holds);
    let head = if basic.len() > 0 {
        basic.push(DELIMITER)
    } else {
        basic
    };
    assert forall|j: int| 0 <= j < head.len() implies holds(#[trigger] head[j]) by {
        if j < basic.len() {
            assert(head[j] == basic[j]);
        }
    }
    lemma_rounds_chars(
        input,
        0x80,
        basic.len() as int,
        EncoderState { delta: 0, bias: 72, handled: basic.len() as int, out: head },
        holds,
    );
}

/// Every character of an encoding is ASCII.
pub proof fn lemma_encode_ascii(input: Seq<char>)
    ensures
        match spec_encode(input) {
            Some(out) => is_ascii_chars(out),
            None => true,
        },
{
    let ascii = |c: char| '\0' <= c <= '\u{7f}';
    assert forall|j: int| 0 <= j < input.len() && input[j] <= '\u{7f}' implies ascii(
        #[trigger] input[j],
    ) by {
        lemma_char_range(input[j]);
    }
    lemma_encode_chars(input, ascii);
    match spec_encode(input) {
        Some(out) => {
            assert forall|j: int| 0 <= j < out.len() implies '\0' <= #[trigger] out[j] <= '\u{7f}' by {
                assert(ascii(out[j]));
            }
        },
        None => {},
    }
}

} // verus!
