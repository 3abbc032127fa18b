//! The round trip of the Punycode codec: what decodes an encoding decodes it
//! to the scalar values that were encoded.

use crate::punycode::decoder::{
    base_part, decode_from, digit_value, extended_part, last_delimiter, read_integer, spec_decode,
};
use crate::punycode::encoder::{
    basic_part, digit_char, encode_integer, encode_pass, encode_rounds, is_basic, is_digit_char,
    lemma_basic_chars, lemma_next_code_point, lemma_quotient_smaller, lemma_rounds_chars,
    next_code_point, spec_encode, EncoderState,
};
use crate::punycode::{
    acc_max, lemma_adapt_bound, lemma_char_range, spec_adapt, threshold, DELIMITER,
};
use crate::text::each_char;
use vstd::prelude::*;
use vstd::utf8::is_ascii_chars;

verus! {

/// A digit that the encoder writes has the value it was written for.
proof fn lemma_digit_value(value: int)
    requires
        0 <= value < 36,
    ensures
        digit_value(digit_char(value)) == Some(value),
        is_digit_char(digit_char(value)),
{
}

/// Reading back the digits of `q`: where the decoder reads an integer at all
/// from the place where `encode_integer(q, k, bias)` stands, it reads `q`
/// times the weight and ends behind those digits.
proof fn lemma_read_back(
    ext: Seq<char>,
    pos: int,
    i: int,
    weight: int,
    q: int,
    k: int,
    bias: int,
)
    requires
        0 <= q,
        0 <= pos,
        1 <= weight,
        pos + encode_integer(q, k, bias).len() <= ext.len(),
        ext.subrange(pos, pos + encode_integer(q, k, bias).len()) == encode_integer(q, k, bias),
    ensures
        match read_integer(ext, pos, i, weight, k, bias) {
            Some(read) => read == (i + q * weight, pos + encode_integer(q, k, bias).len()),
            None => true,
        },
    decreases q,
{
    let digits = encode_integer(q, k, bias);
    let t = threshold(k, bias);
    assert(ext[pos] == ext.subrange(pos, pos + digits.len())[0]);
    if q < t {
        lemma_digit_value(q);
    } else {
        lemma_quotient_smaller(q, t);
        let d = t + (q - t) % (36 - t);
        let rest_q = (q - t) / (36 - t);
        let rest = encode_integer(rest_q, k + 36, bias);
        lemma_digit_value(d);
        assert(digits == seq![digit_char(d)] + rest);
        assert(ext.subrange(pos + 1, pos + 1 + rest.len()) =~= rest) by {
            assert forall|m: int| 0 <= m < rest.len() implies ext[pos + 1 + m] == rest[m] by {
                assert(ext.subrange(pos, pos + digits.len())[m + 1] == digits[m + 1]);
            }
        }
        if i + d * weight <= acc_max() && weight * (36 - t) <= acc_max() {
            assert(weight * (36 - t) >= 1) by (nonlinear_arith)
                requires
                    weight >= 1,
                    36 - t >= 1,
            ;
            lemma_read_back(ext, pos + 1, i + d * weight, weight * (36 - t), rest_q, k + 36, bias);
            vstd::arithmetic::div_mod::lemma_fundamental_div_mod(q - t, 36 - t);
            assert(d * weight + rest_q * (weight * (36 - t)) == q * weight) by (nonlinear_arith)
                requires
                    d == t + (q - t) % (36 - t),
                    q - t == (36 - t) * rest_q + (q - t) % (36 - t),
            ;
        }
    }
}

/// Bounds the weight at each of the first six digits of an integer. From the
/// seventh digit on the threshold is at its maximum and no bound is needed.
spec fn weight_fits(k: int, weight: int) -> bool {
    ||| k == 36 && weight <= 1
    ||| k == 72 && weight <= 35
    ||| k == 108 && weight <= 1225
    ||| k == 144 && weight <= 42875
    ||| k == 180 && weight <= 1500625
    ||| k == 216 && weight <= 52521875
    ||| k >= 252
}

/// Reading back the digits of `q` succeeds where the sum fits the
/// accumulator: no weight overflows on the way.
proof fn lemma_read_back_fits(
    ext: Seq<char>,
    pos: int,
    i: int,
    weight: int,
    q: int,
    k: int,
    bias: int,
)
    requires
        0 <= q,
        0 <= pos,
        0 <= i,
        1 <= weight,
        0 <= bias <= 215,
        weight_fits(k, weight),
        i + q * weight <= acc_max(),
        pos + encode_integer(q, k, bias).len() <= ext.len(),
        ext.subrange(pos, pos + encode_integer(q, k, bias).len()) == encode_integer(q, k, bias),
    ensures
        read_integer(ext, pos, i, weight, k, bias) is Some,
    decreases q,
{
    let digits = encode_integer(q, k, bias);
    let t = threshold(k, bias);
    assert(ext[pos] == ext.subrange(pos, pos + digits.len())[0]);
    if q < t {
        lemma_digit_value(q);
    } else {
        lemma_quotient_smaller(q, t);
        let d = t + (q - t) % (36 - t);
        let rest_q = (q - t) / (36 - t);
        let rest = encode_integer(rest_q, k + 36, bias);
        let wider = weight * (36 - t);
        lemma_digit_value(d);
        assert(digits == seq![digit_char(d)] + rest);
        assert(ext.subrange(pos + 1, pos + 1 + rest.len()) =~= rest) by {
            assert forall|m: int| 0 <= m < rest.len() implies ext[pos + 1 + m] == rest[m] by {
                assert(ext.subrange(pos, pos + digits.len())[m + 1] == digits[m + 1]);
            }
        }
        vstd::arithmetic::div_mod::lemma_fundamental_div_mod(q - t, 36 - t);
        assert(d * weight + rest_q * wider == q * weight) by (nonlinear_arith)
            requires
                d == t + (q - t) % (36 - t),
                q - t == (36 - t) * rest_q + (q - t) % (36 - t),
                wider == weight * (36 - t),
        ;
        assert(rest_q * wider >= 0) by (nonlinear_arith)
            requires
                rest_q >= 0,
                wider >= 0,
                wider == weight * (36 - t),
                weight >= 1,
                36 - t >= 1,
        ;
        assert(1 <= wider <= weight * 35) by (nonlinear_arith)
            requires
                wider == weight * (36 - t),
                weight >= 1,
                1 <= t <= 26,
        ;
        if k >= 252 {
            assert(t == 26);
            assert(weight * 10 <= q * weight) by (nonlinear_arith)
                requires
                    q >= 26,
                    weight >= 1,
            ;
        }
        assert(wider <= acc_max());
        assert(weight_fits(k + 36, wider));
        lemma_read_back_fits(ext, pos + 1, i + d * weight, wider, rest_q, k + 36, bias);
    }
}

/// The same state with nothing written yet.
spec fn fresh(st: EncoderState) -> EncoderState {
    EncoderState { out: Seq::empty(), ..st }
}

/// A pass only appends to the output.
proof fn lemma_pass_appends(input: Seq<char>, j: int, n: int, basic: int, st: EncoderState)
    ensures
        encode_pass(input, j, n, basic, st) == match encode_pass(input, j, n, basic, fresh(st)) {
            None => None::<EncoderState>,
            Some(after) => Some(EncoderState { out: st.out + after.out, ..after }),
        },
    decreases input.len() - j,
{
    if 0 <= j < input.len() {
        let c = input[j] as int;
        if c < n {
            if st.delta + 1 <= acc_max() {
                let next = EncoderState { delta: st.delta + 1, ..st };
                lemma_pass_appends(input, j + 1, n, basic, next);
                assert(fresh(next) == EncoderState { delta: st.delta + 1, ..fresh(st) });
            }
        } else if c == n {
            let digits = encode_integer(st.delta, 36, st.bias);
            let next = EncoderState {
                delta: 0,
                bias: spec_adapt(st.delta, st.handled + 1, st.handled == basic),
                handled: st.handled + 1,
                out: st.out + digits,
            };
            let bare = EncoderState { out: Seq::<char>::empty() + digits, ..next };
            lemma_pass_appends(input, j + 1, n, basic, next);
            lemma_pass_appends(input, j + 1, n, basic, bare);
            assert(fresh(next) == fresh(bare));
            match encode_pass(input, j + 1, n, basic, fresh(next)) {
                Some(after) => {
                    assert(st.out + ((Seq::<char>::empty() + digits) + after.out) =~= (st.out
                        + digits) + after.out);
                },
                None => {},
            }
        } else {
            lemma_pass_appends(input, j + 1, n, basic, st);
        }
    } else {
        assert(st.out + Seq::<char>::empty() =~= st.out);
    }
}

/// The rounds only append to the output.
proof fn lemma_rounds_append(input: Seq<char>, n: int, basic: int, st: EncoderState)
    ensures
        encode_rounds(input, n, basic, st) == match encode_rounds(input, n, basic, fresh(st)) {
            None => None::<Seq<char>>,
            Some(digits) => Some(st.out + digits),
        },
    decreases 0x110000 - n,
{
    lemma_next_code_point(input, n);
    match next_code_point(input, n) {
        None => {
            assert(st.out + Seq::<char>::empty() =~= st.out);
        },
        Some(m) => {
            let delta = st.delta + (m - n) * (st.handled + 1);
            if delta <= acc_max() {
                let entry = EncoderState { delta, ..st };
                lemma_pass_appends(input, 0, m, basic, entry);
                assert(fresh(entry) == EncoderState { delta, ..fresh(st) });
                match encode_pass(input, 0, m, basic, fresh(entry)) {
                    None => {},
                    Some(after) => {
                        let full = EncoderState { out: st.out + after.out, ..after };
                        let next_full = EncoderState { delta: full.delta + 1, ..full };
                        let next_bare = EncoderState { delta: after.delta + 1, ..after };
                        lemma_rounds_append(input, m + 1, basic, next_full);
                        lemma_rounds_append(input, m + 1, basic, next_bare);
                        assert(fresh(next_full) == fresh(next_bare));
                        match encode_rounds(input, m + 1, basic, fresh(next_bare)) {
                            Some(digits) => {
                                assert((st.out + after.out) + digits =~= st.out + (after.out
                                    + digits));
                            },
                            None => {},
                        }
                    },
                }
            }
        },
    }
}

/// The scalar values below `n`.
spec fn below(n: int) -> spec_fn(char) -> bool {
    |c: char| (c as int) < n
}

/// The scalar values up to `n`.
spec fn up_to(n: int) -> spec_fn(char) -> bool {
    |c: char| (c as int) <= n
}

/// What the decoder holds once the encoder stands at position `j` of its
/// pass for the code point `n`: the scalar values of the input up to `n`
/// before that position and those below `n` from it on, in their order.
spec fn kept(input: Seq<char>, n: int, j: int) -> Seq<char> {
    input.take(j).filter(up_to(n)) + input.skip(j).filter(below(n))
}

/// Where the encoder's next code point goes in what the decoder holds.
spec fn place(input: Seq<char>, n: int, j: int) -> int {
    input.take(j).filter(up_to(n)).len() as int
}

proof fn lemma_filter_agree(s: Seq<char>, p: spec_fn(char) -> bool, q: spec_fn(char) -> bool)
    requires
        forall|i: int| 0 <= i < s.len() ==> p(#[trigger] s[i]) == q(s[i]),
    ensures
        s.filter(p) == s.filter(q),
    decreases s.len(),
{
    reveal(Seq::filter);
    if s.len() > 0 {
        let rest = s.drop_last();
        assert forall|i: int| 0 <= i < rest.len() implies p(#[trigger] rest[i]) == q(rest[i]) by {
            assert(rest[i] == s[i]);
        }
        lemma_filter_agree(rest, p, q);
        assert(s[s.len() - 1] == s.last());
    }
}

proof fn lemma_filter_all(s: Seq<char>, p: spec_fn(char) -> bool)
    requires
        forall|i: int| 0 <= i < s.len() ==> p(#[trigger] s[i]),
    ensures
        s.filter(p) == s,
    decreases s.len(),
{
    reveal(Seq::filter);
    if s.len() > 0 {
        let rest = s.drop_last();
        assert forall|i: int| 0 <= i < rest.len() implies p(#[trigger] rest[i]) by {
            assert(rest[i] == s[i]);
        }
        lemma_filter_all(rest, p);
        assert(s[s.len() - 1] == s.last());
        assert(rest.push(s.last()) =~= s);
    } else {
        assert(s.filter(p) =~= s);
    }
}

/// One step of a pass, seen from the decoder: an occurrence of `n` at `j` is
/// one more scalar value held, at its place; any other changes nothing.
proof fn lemma_kept_step(input: Seq<char>, n: int, j: int)
    requires
        0 <= j < input.len(),
    ensures
        0 <= place(input, n, j) <= kept(input, n, j).len(),
        input[j] as int == n ==> kept(input, n, j + 1) == kept(input, n, j).insert(
            place(input, n, j),
            input[j],
        ) && place(input, n, j + 1) == place(input, n, j) + 1,
        (input[j] as int) < n ==> kept(input, n, j + 1) == kept(input, n, j) && place(
            input,
            n,
            j + 1,
        ) == place(input, n, j) + 1,
        input[j] as int > n ==> kept(input, n, j + 1) == kept(input, n, j) && place(input, n, j + 1)
            == place(input, n, j),
{
    reveal(Seq::filter);
    let c = input[j];
    let front = input.take(j).filter(up_to(n));
    let back = input.skip(j + 1).filter(below(n));
    assert(input.take(j + 1).drop_last() =~= input.take(j));
    assert(input.take(j + 1).last() == c);
    assert(input.skip(j) =~= seq![c] + input.skip(j + 1));
    Seq::filter_distributes_over_add(seq![c], input.skip(j + 1), below(n));
    assert(seq![c].drop_last() =~= Seq::<char>::empty());
    assert(seq![c].last() == c);
    assert(Seq::<char>::empty().filter(below(n)) =~= Seq::<char>::empty());
    if c as int == n {
        assert(seq![c].filter(below(n)) =~= Seq::<char>::empty());
        assert(kept(input, n, j + 1) =~= kept(input, n, j).insert(place(input, n, j), c));
    } else if (c as int) < n {
        assert(seq![c].filter(below(n)) =~= seq![c]);
        assert(kept(input, n, j + 1) =~= kept(input, n, j));
    } else {
        assert(seq![c].filter(below(n)) =~= Seq::<char>::empty());
        assert(kept(input, n, j + 1) =~= kept(input, n, j));
    }
}

/// At the end of a pass the decoder holds what it holds at the start of the
/// pass for the next code point, and the next place is behind all of it.
proof fn lemma_kept_turn(input: Seq<char>, n: int)
    ensures
        kept(input, n, input.len() as int) == kept(input, n + 1, 0),
        place(input, n, input.len() as int) == kept(input, n, input.len() as int).len(),
        place(input, n + 1, 0) == 0,
{
    reveal(Seq::filter);
    let len = input.len() as int;
    assert(input.take(len) =~= input);
    assert(input.skip(0) =~= input);
    assert(input.skip(len) =~= Seq::<char>::empty());
    assert(input.take(0) =~= Seq::<char>::empty());
    assert(Seq::<char>::empty().filter(below(n)) =~= Seq::<char>::empty());
    assert(Seq::<char>::empty().filter(up_to(n + 1)) =~= Seq::<char>::empty());
    lemma_filter_agree(input, up_to(n), below(n + 1));
    assert(kept(input, n, len) =~= input.filter(up_to(n)));
    assert(kept(input, n + 1, 0) =~= input.filter(below(n + 1)));
}

/// What the decoder holds at the start of a pass is the input below `n`.
proof fn lemma_kept_start(input: Seq<char>, n: int)
    ensures
        kept(input, n, 0) == input.filter(below(n)),
        place(input, n, 0) == 0,
{
    reveal(Seq::filter);
    assert(input.skip(0) =~= input);
    assert(input.take(0) =~= Seq::<char>::empty());
    assert(Seq::<char>::empty().filter(up_to(n)) =~= Seq::<char>::empty());
    assert(kept(input, n, 0) =~= input.filter(below(n)));
}

/// An input is short when it has at most 3854 scalar values: then no
/// accumulator of the codec can overflow.
pub open spec fn is_short(input: Seq<char>) -> bool {
    input.len() <= 3854
}

/// The decoder never holds more than the input.
proof fn lemma_kept_bound(input: Seq<char>, n: int, j: int)
    requires
        0 <= j <= input.len(),
    ensures
        kept(input, n, j).len() <= input.len(),
{
    input.take(j).lemma_filter_len(up_to(n));
    input.skip(j).lemma_filter_len(below(n));
}

/// For a short input the decoder's sum fits its accumulator.
proof fn lemma_sum_fits(steps: int, points: int, at: int)
    requires
        0 <= steps <= 0x10FFFF - 0x80,
        1 <= points <= 3855,
        0 <= at <= 3855,
    ensures
        0 <= steps * points + at <= acc_max(),
{
    assert(0 <= steps * points <= 1113983 * 3855) by (nonlinear_arith)
        requires
            0 <= steps <= 1113983,
            1 <= points <= 3855,
    ;
}

/// The digits that the encoder still writes from position `j` of its pass
/// for the code point `n`.
spec fn digits_from_pass(input: Seq<char>, j: int, n: int, basic: int, st: EncoderState) -> Option<
    Seq<char>,
> {
    match encode_pass(input, j, n, basic, fresh(st)) {
        None => None,
        Some(after) => match encode_rounds(
            input,
            n + 1,
            basic,
            fresh(EncoderState { delta: after.delta + 1, ..after }),
        ) {
            None => None,
            Some(digits) => Some(after.out + digits),
        },
    }
}

proof fn lemma_integer_nonempty(q: int, k: int, bias: int)
    ensures
        encode_integer(q, k, bias).len() >= 1,
{
}

/// From the start of a round on, what the decoder makes of the digits that
/// the encoder still writes is the input.
proof fn lemma_rounds_decode(
    input: Seq<char>,
    n: int,
    basic: int,
    st: EncoderState,
    i: int,
    code: int,
    ext: Seq<char>,
    pos: int,
    short: bool,
)
    requires
        0x80 <= code <= n <= 0x110000,
        0 <= st.delta,
        0 <= i,
        0 <= pos <= ext.len(),
        st.handled == kept(input, n, 0).len(),
        basic <= st.handled,
        i + st.delta == (n - code) * (st.handled + 1),
        encode_rounds(input, n, basic, fresh(st)) == Some(ext.skip(pos)),
        short ==> is_short(input) && 0 <= st.bias <= 215,
    ensures
        match decode_from(ext, pos, kept(input, n, 0), i, code, st.bias, st.handled == basic) {
            Some(out) => out == input,
            None => !short,
        },
    decreases 0x110000 - n, input.len() + 2,
{
    lemma_next_code_point(input, n);
    lemma_kept_start(input, n);
    match next_code_point(input, n) {
        None => {
            assert(ext.skip(pos).len() == 0);
            assert forall|p: int| 0 <= p < input.len() implies below(n)(#[trigger] input[p]) by {}
            lemma_filter_all(input, below(n));
        },
        Some(m) => {
            let points = st.handled + 1;
            let delta = st.delta + (m - n) * points;
            assert((m - n) * points >= 0) by (nonlinear_arith)
                requires
                    m >= n,
                    points >= 1,
            ;
            let entry = EncoderState { delta, ..st };
            assert(fresh(entry) == EncoderState { delta, ..fresh(st) });
            lemma_kept_start(input, m);
            assert forall|p: int| 0 <= p < input.len() implies below(n)(#[trigger] input[p])
                == below(m)(input[p]) by {}
            lemma_filter_agree(input, below(n), below(m));
            let after = encode_pass(input, 0, m, basic, fresh(entry)).unwrap();
            let next = EncoderState { delta: after.delta + 1, ..after };
            lemma_rounds_append(input, m + 1, basic, next);
            assert(digits_from_pass(input, 0, m, basic, entry) == Some(ext.skip(pos)));
            assert(i + delta == (m - code) * points) by (nonlinear_arith)
                requires
                    i + st.delta == (n - code) * points,
                    delta == st.delta + (m - n) * points,
            ;
            lemma_pass_decodes(input, 0, m, basic, entry, i, code, ext, pos, short);
        },
    }
}

/// From any position of a pass on, what the decoder makes of the digits that
/// the encoder still writes is the input.
proof fn lemma_pass_decodes(
    input: Seq<char>,
    j: int,
    n: int,
    basic: int,
    st: EncoderState,
    i: int,
    code: int,
    ext: Seq<char>,
    pos: int,
    short: bool,
)
    requires
        0 <= j <= input.len(),
        0x80 <= code <= n <= 0x10FFFF,
        0 <= st.delta,
        0 <= i,
        0 <= pos <= ext.len(),
        st.handled == kept(input, n, j).len(),
        basic <= st.handled,
        i + st.delta == (n - code) * (st.handled + 1) + place(input, n, j),
        digits_from_pass(input, j, n, basic, st) == Some(ext.skip(pos)),
        short ==> is_short(input) && 0 <= st.bias <= 215,
    ensures
        match decode_from(ext, pos, kept(input, n, j), i, code, st.bias, st.handled == basic) {
            Some(out) => out == input,
            None => !short,
        },
    decreases 0x110000 - n, input.len() - j + 1,
{
    let points = st.handled + 1;
    if j == input.len() {
        lemma_kept_turn(input, n);
        let next = EncoderState { delta: st.delta + 1, ..st };
        assert(fresh(next) == fresh(EncoderState { delta: fresh(st).delta + 1, ..fresh(st) }));
        assert(ext.skip(pos) =~= Seq::<char>::empty() + ext.skip(pos));
        assert(encode_rounds(input, n + 1, basic, fresh(next)).unwrap() =~= ext.skip(pos));
        assert(i + next.delta == (n + 1 - code) * points) by (nonlinear_arith)
            requires
                i + st.delta == (n - code) * points + (points - 1),
                next.delta == st.delta + 1,
        ;
        lemma_rounds_decode(input, n + 1, basic, next, i, code, ext, pos, short);
    } else {
        let c = input[j] as int;
        lemma_kept_step(input, n, j);
        if c < n {
            let next = EncoderState { delta: st.delta + 1, ..st };
            assert(fresh(next) == EncoderState { delta: st.delta + 1, ..fresh(st) });
            assert(digits_from_pass(input, j + 1, n, basic, next) == Some(ext.skip(pos)));
            lemma_pass_decodes(input, j + 1, n, basic, next, i, code, ext, pos, short);
        } else if c > n {
            assert(digits_from_pass(input, j + 1, n, basic, st) == Some(ext.skip(pos)));
            lemma_pass_decodes(input, j + 1, n, basic, st, i, code, ext, pos, short);
        } else {
            let digits = encode_integer(st.delta, 36, st.bias);
            lemma_integer_nonempty(st.delta, 36, st.bias);
            let bias = spec_adapt(st.delta, points, st.handled == basic);
            let next = EncoderState { delta: 0, bias, handled: points, out: Seq::empty() };
            let written = EncoderState { out: Seq::<char>::empty() + digits, ..next };
            lemma_pass_appends(input, j + 1, n, basic, written);
            assert(fresh(written) == fresh(next));
            assert(encode_pass(input, j, n, basic, fresh(st)) == encode_pass(
                input,
                j + 1,
                n,
                basic,
                written,
            ));
            let rest = encode_pass(input, j + 1, n, basic, fresh(next)).unwrap();
            let tail = encode_rounds(
                input,
                n + 1,
                basic,
                fresh(EncoderState { delta: rest.delta + 1, ..rest }),
            ).unwrap();
            let after = EncoderState { out: (Seq::<char>::empty() + digits) + rest.out, ..rest };
            assert(fresh(EncoderState { delta: after.delta + 1, ..after }) == fresh(
                EncoderState { delta: rest.delta + 1, ..rest },
            ));
            assert(ext.skip(pos) == after.out + tail);
            assert(ext.skip(pos) =~= digits + (rest.out + tail));
            let end = pos + digits.len();
            assert(ext.subrange(pos, end) =~= digits) by {
                assert(ext.skip(pos).len() >= digits.len());
                assert forall|m: int| 0 <= m < digits.len() implies ext[pos + m] == digits[m] by {
                    assert(ext.skip(pos)[m] == ext[pos + m]);
                    assert((digits + (rest.out + tail))[m] == digits[m]);
                }
            }
            assert(ext.skip(end) =~= rest.out + tail) by {
                assert(ext.skip(pos).len() == digits.len() + (rest.out + tail).len());
                assert forall|m: int| 0 <= m < ext.len() - end implies ext[end + m] == (rest.out
                    + tail)[m] by {
                    assert(ext.skip(pos)[digits.len() + m] == ext[end + m]);
                    assert((digits + (rest.out + tail))[digits.len() + m] == (rest.out + tail)[m]);
                }
            }
            lemma_read_back(ext, pos, i, 1, st.delta, 36, st.bias);
            if short {
                lemma_kept_bound(input, n, j + 1);
                lemma_sum_fits(n - code, points, place(input, n, j));
                lemma_read_back_fits(ext, pos, i, 1, st.delta, 36, st.bias);
                lemma_adapt_bound(st.delta, points, st.handled == basic);
            }
            if read_integer(ext, pos, i, 1, 36, st.bias) is Some {
                let sum = i + st.delta;
                let at = place(input, n, j);
                assert(sum == (n - code) * points + at);
                vstd::arithmetic::div_mod::lemma_fundamental_div_mod_converse(
                    sum,
                    points,
                    n - code,
                    at,
                );
                lemma_char_range(input[j]);
                assert(n as char == input[j]);
                assert(digits_from_pass(input, j + 1, n, basic, next) == Some(ext.skip(end)));
                lemma_pass_decodes(input, j + 1, n, basic, next, at + 1, n, ext, end, short);
            }
        }
    }
}

/// Digits behind a string do not move its last delimiter.
proof fn lemma_delimiter_before_digits(head: Seq<char>, digits: Seq<char>)
    requires
        each_char(digits, |c: char| is_digit_char(c)),
    ensures
        last_delimiter(head + digits) == last_delimiter(head),
    decreases digits.len(),
{
    if digits.len() == 0 {
        assert(head + digits =~= head);
    } else {
        let fewer = digits.drop_last();
        assert forall|j: int| 0 <= j < fewer.len() implies is_digit_char(#[trigger] fewer[j]) by {
            assert(fewer[j] == digits[j]);
        }
        lemma_delimiter_before_digits(head, fewer);
        assert((head + digits).drop_last() =~= head + fewer);
        assert((head + digits).last() == digits[digits.len() - 1]);
        assert(is_digit_char(digits[digits.len() - 1]));
    }
}

/// From the start of a round on, the encoder of a short input does not
/// overflow.
proof fn lemma_rounds_fit(input: Seq<char>, n: int, basic: int, st: EncoderState, i: int, code: int)
    requires
        is_short(input),
        0x80 <= code <= n <= 0x110000,
        0 <= st.delta,
        0 <= i,
        st.handled == kept(input, n, 0).len(),
        i + st.delta == (n - code) * (st.handled + 1),
    ensures
        encode_rounds(input, n, basic, st) is Some,
    decreases 0x110000 - n, input.len() + 2,
{
    lemma_next_code_point(input, n);
    lemma_kept_start(input, n);
    lemma_kept_bound(input, n, 0);
    match next_code_point(input, n) {
        None => {},
        Some(m) => {
            let points = st.handled + 1;
            let delta = st.delta + (m - n) * points;
            assert((m - n) * points >= 0) by (nonlinear_arith)
                requires
                    m >= n,
                    points >= 1,
            ;
            assert(i + delta == (m - code) * points) by (nonlinear_arith)
                requires
                    i + st.delta == (n - code) * points,
                    delta == st.delta + (m - n) * points,
            ;
            lemma_sum_fits(m - code, points, 0);
            let entry = EncoderState { delta, ..st };
            lemma_kept_start(input, m);
            assert forall|p: int| 0 <= p < input.len() implies below(n)(#[trigger] input[p])
                == below(m)(input[p]) by {}
            lemma_filter_agree(input, below(n), below(m));
            lemma_pass_fits(input, 0, m, basic, entry, i, code);
        },
    }
}

/// From any position of a pass on, the encoder of a short input does not
/// overflow.
proof fn lemma_pass_fits(
    input: Seq<char>,
    j: int,
    n: int,
    basic: int,
    st: EncoderState,
    i: int,
    code: int,
)
    requires
        is_short(input),
        0 <= j <= input.len(),
        0x80 <= code <= n <= 0x10FFFF,
        0 <= st.delta,
        0 <= i,
        st.handled == kept(input, n, j).len(),
        i + st.delta == (n - code) * (st.handled + 1) + place(input, n, j),
    ensures
        match encode_pass(input, j, n, basic, st) {
            Some(after) => encode_rounds(
                input,
                n + 1,
                basic,
                EncoderState { delta: after.delta + 1, ..after },
            ) is Some,
            None => false,
        },
    decreases 0x110000 - n, input.len() - j + 1,
{
    let points = st.handled + 1;
    if j == input.len() {
        lemma_kept_turn(input, n);
        let next = EncoderState { delta: st.delta + 1, ..st };
        assert(i + next.delta == (n + 1 - code) * points) by (nonlinear_arith)
            requires
                i + st.delta == (n - code) * points + (points - 1),
                next.delta == st.delta + 1,
        ;
        lemma_rounds_fit(input, n + 1, basic, next, i, code);
    } else {
        let c = input[j] as int;
        lemma_kept_step(input, n, j);
        lemma_kept_bound(input, n, j + 1);
        lemma_kept_bound(input, n, j);
        if c < n {
            lemma_sum_fits(n - code, points, place(input, n, j) + 1);
            let next = EncoderState { delta: st.delta + 1, ..st };
            lemma_pass_fits(input, j + 1, n, basic, next, i, code);
        } else if c > n {
            lemma_pass_fits(input, j + 1, n, basic, st, i, code);
        } else {
            let next = EncoderState {
                delta: 0,
                bias: spec_adapt(st.delta, points, st.handled == basic),
                handled: points,
                out: st.out + encode_integer(st.delta, 36, st.bias),
            };
            lemma_pass_fits(input, j + 1, n, basic, next, place(input, n, j) + 1, n);
        }
    }
}

/// What the decoder makes of the label that `input` encodes to.
proof fn lemma_label_decodes(input: Seq<char>, short: bool)
    requires
        spec_encode(input) is Some,
        short ==> is_short(input),
    ensures
        match spec_decode(spec_encode(input).unwrap()) {
            Some(out) => out == input,
            None => !short,
        },
{
    let basic = basic_part(input);
    let count = basic.len() as int;
    let head = if count > 0 {
        basic.push(DELIMITER)
    } else {
        basic
    };
    let start = EncoderState { delta: 0, bias: 72, handled: count, out: head };
    let digit = |c: char| is_digit_char(c);
    lemma_rounds_append(input, 0x80, count, start);
    let digits = encode_rounds(input, 0x80, count, fresh(start)).unwrap();
    let label = spec_encode(input).unwrap();
    assert(label == head + digits);
    lemma_rounds_chars(input, 0x80, count, fresh(start), digit);
    lemma_delimiter_before_digits(head, digits);
    // The label splits into the basic code points and the digits.
    assert(base_part(label) == basic && extended_part(label) == digits) by {
        if count > 0 {
            assert(head.drop_last() =~= basic);
            assert(last_delimiter(head) == Some(count));
            assert(label.subrange(0, count) =~= basic);
            assert(label.subrange(count + 1, label.len() as int) =~= digits);
        } else {
            assert(last_delimiter(head) is None);
            assert(label =~= digits);
        }
    }
    // The basic code points are ASCII.
    let ascii = |c: char| '\0' <= c <= '\u{7f}';
    assert forall|j: int| 0 <= j < input.len() && input[j] <= '\u{7f}' implies ascii(
        #[trigger] input[j],
    ) by {
        lemma_char_range(input[j]);
    }
    lemma_basic_chars(input, ascii);
    assert(is_ascii_chars(basic)) by {
        assert forall|j: int| 0 <= j < basic.len() implies '\0' <= #[trigger] basic[j] <= '\u{7f}' by {
            assert(ascii(basic[j]));
        }
    }
    // What the decoder starts from is what the encoder has handled.
    lemma_kept_start(input, 0x80);
    assert forall|p: int| 0 <= p < input.len() implies below(0x80)(#[trigger] input[p])
        == is_basic()(input[p]) by {}
    lemma_filter_agree(input, below(0x80), is_basic());
    assert(kept(input, 0x80, 0) == basic);
    assert(digits.skip(0) =~= digits);
    lemma_rounds_decode(input, 0x80, count, start, 0, 0x80, digits, 0, short);
}

/// The round trip of the codec: where `input` encodes to a label and the
/// decoder takes that label, it decodes it to `input`. The decoder refuses
/// such a label only where an insertion point leaves its 32 bits.
pub proof fn lemma_round_trip(input: Seq<char>)
    requires
        spec_encode(input) is Some,
        spec_decode(spec_encode(input).unwrap()) is Some,
    ensures
        spec_decode(spec_encode(input).unwrap()) == Some(input),
{
    lemma_label_decodes(input, false);
}

/// The round trip of the codec for short inputs: an input of at most 3854
/// scalar values encodes to a label, and the label decodes to the input.
pub proof fn lemma_round_trip_short(input: Seq<char>)
    requires
        is_short(input),
    ensures
        spec_encode(input) is Some,
        spec_decode(spec_encode(input).unwrap()) == Some(input),
{
    let basic = basic_part(input);
    let count = basic.len() as int;
    let head = if count > 0 {
        basic.push(DELIMITER)
    } else {
        basic
    };
    let start = EncoderState { delta: 0, bias: 72, handled: count, out: head };
    lemma_kept_start(input, 0x80);
    assert forall|p: int| 0 <= p < input.len() implies below(0x80)(#[trigger] input[p])
        == is_basic()(input[p]) by {}
    lemma_filter_agree(input, below(0x80), is_basic());
    lemma_rounds_fit(input, 0x80, count, start, 0, 0x80);
    lemma_label_decodes(input, true);
}

} // verus!
