//! The Punycode bootstring codec of RFC 3492.
//!
//! The codec works on sequences of Unicode scalar values. `encode` and `decode`
//! take and return `char`s; `encode_str` and `decode_to_string` are the same
//! codec on `str` and `String`.

pub mod decoder;
pub mod encoder;
pub mod round_trip;

pub use self::decoder::{decode, decode_chars, decode_to_string, insertions, merge};
pub use self::encoder::{encode, encode_into, encode_str, value_to_digit};
use vstd::prelude::*;

verus! {

/// The number of digits of the bootstring alphabet.
pub const BASE: u32 = 36;

/// The least threshold.
pub const T_MIN: u32 = 1;

/// The greatest threshold.
pub const T_MAX: u32 = 26;

/// The skew of the bias adaptation.
pub const SKEW: u32 = 38;

/// The damping of the first bias adaptation.
pub const DAMP: u32 = 700;

/// The bias that the codec starts with.
pub const INITIAL_BIAS: u32 = 72;

/// The first code point that is not basic.
pub const INITIAL_N: u32 = 0x80;

/// What parts the basic code points of a label from its digits.
pub const DELIMITER: char = '-';

/// Largest value of the 32-bit accumulators of the codec.
pub open spec fn acc_max() -> int {
    0xFFFF_FFFF
}

/// The scaling loop of the bias adaptation: `delta` is divided by
/// `BASE - T_MIN`, which is 35, while it exceeds `((BASE - T_MIN) * T_MAX) / 2`,
/// which is 455, and `k` grows by `BASE` for each division. What is left
/// yields `k + ((BASE - T_MIN + 1) * delta) / (delta + SKEW)`.
pub open spec fn adapt_scaled(delta: int, k: int) -> int
    decreases delta,
{
    if delta > 455 {
        adapt_scaled(delta / 35, k + 36)
    } else {
        k + (36 * delta) / (delta + 38)
    }
}

/// The bias adaptation function of the bootstring algorithm: `delta` is
/// divided by `DAMP` the first time and by 2 later, grows by its share for
/// each of the `num_points` code points, and is scaled.
pub open spec fn spec_adapt(delta: int, num_points: int, first_time: bool) -> int {
    let d: int = delta / (if first_time {
        700int
    } else {
        2int
    });
    adapt_scaled(d + d / num_points, 0)
}

/// The threshold `t_k = clamp(k - bias, T_MIN, T_MAX)`.
pub open spec fn threshold(k: int, bias: int) -> int {
    if k <= bias {
        1
    } else if k >= bias + 26 {
        26
    } else {
        k - bias
    }
}

/// The scaling loop ends after five divisions at most.
proof fn lemma_adapt_scaled_bound(delta: int, k: int)
    requires
        0 <= delta,
    ensures
        k <= adapt_scaled(delta, k),
        delta <= 455 ==> adapt_scaled(delta, k) <= k + 35,
        delta <= 0xFFFF_FFFF ==> adapt_scaled(delta, k) <= k + 5 * 36 + 35,
    decreases delta,
{
    if delta > 455 {
        lemma_adapt_scaled_bound(delta / 35, k + 36);
        if delta <= 0xFFFF_FFFF {
            let d1 = delta / 35;
            if d1 > 455 {
                lemma_adapt_scaled_bound(d1 / 35, k + 72);
                let d2 = d1 / 35;
                if d2 > 455 {
                    lemma_adapt_scaled_bound(d2 / 35, k + 108);
                    let d3 = d2 / 35;
                    if d3 > 455 {
                        lemma_adapt_scaled_bound(d3 / 35, k + 144);
                        let d4 = d3 / 35;
                        if d4 > 455 {
                            lemma_adapt_scaled_bound(d4 / 35, k + 180);
                            let d5 = d4 / 35;
                            assert(d5 <= 455);
                        }
                    }
                }
            }
        }
    } else {
        assert((36 * delta) / (delta + 38) <= 35) by (nonlinear_arith)
            requires
                0 <= delta,
        ;
        assert(0 <= (36 * delta) / (delta + 38)) by (nonlinear_arith)
            requires
                0 <= delta,
        ;
    }
}

/// Every bias that `spec_adapt` yields from 32-bit operands is small.
pub proof fn lemma_adapt_bound(delta: int, num_points: int, first_time: bool)
    requires
        0 <= delta <= 0xFFFF_FFFF,
        1 <= num_points,
    ensures
        0 <= spec_adapt(delta, num_points, first_time) <= 215,
{
    let d: int = delta / (if first_time { 700int } else { 2int });
    assert(0 <= d / num_points <= d) by (nonlinear_arith)
        requires
            0 <= d,
            1 <= num_points,
    ;
    lemma_adapt_scaled_bound(d + d / num_points, 0);
}

/// Adapts the bias after a delta has been coded.
pub fn adapt(delta: u32, num_points: usize, first_time: bool) -> (bias: u32)
    requires
        num_points >= 1,
    ensures
        bias == spec_adapt(delta as int, num_points as int, first_time),
        bias <= 215,
{
    proof {
        lemma_adapt_bound(delta as int, num_points as int, first_time);
    }
    let mut delta: u32 = delta / (if first_time { DAMP } else { 2 });
    let share: u32 = if num_points as u64 > u32::MAX as u64 {
        0
    } else {
        delta / (num_points as u32)
    };
    proof {
        if num_points as u64 > u32::MAX as u64 {
            vstd::arithmetic::div_mod::lemma_basic_div(delta as int, num_points as int);
        }
        assert(0 <= delta as int / num_points as int <= delta) by (nonlinear_arith)
            requires
                0 <= delta,
                1 <= num_points,
        ;
    }
    delta = delta + share;
    let mut k: u32 = 0;
    let ghost start: int = delta as int;
    while delta > ((BASE - T_MIN) * T_MAX) / 2
        invariant
            adapt_scaled(delta as int, k as int) == adapt_scaled(start, 0),
            adapt_scaled(start, 0) <= 215,
            k <= 215,
        decreases delta,
    {
        proof {
            lemma_adapt_scaled_bound(delta as int / 35, k as int + 36);
        }
        delta = delta / (BASE - T_MIN);
        k = k + BASE;
    }
    proof {
        lemma_adapt_scaled_bound(delta as int, k as int);
        assert(36 * delta <= 36 * 455);
    }
    k + (((BASE - T_MIN + 1) * delta) / (delta + SKEW))
}

/// `char::from_u32` yields the scalar value with the given number, or `None`
/// where the number is a surrogate or lies above U+10FFFF.
pub assume_specification[ char::from_u32 ](i: u32) -> (r: Option<char>)
    ensures
        r == (if is_scalar(i as int) {
            Some(i as char)
        } else {
            None
        }),
;

/// Whether `n` is the number of a Unicode scalar value.
pub open spec fn is_scalar(n: int) -> bool {
    0 <= n <= 0xD7FF || 0xE000 <= n <= 0x10FFFF
}

/// Every `char` is a scalar value.
pub proof fn lemma_char_range(c: char)
    ensures
        is_scalar(c as int),
{
}

/// Whether a product fits the room left in an accumulator, told by a
/// division.
pub proof fn lemma_checked_product(digit: int, weight: int, room: int)
    requires
        0 <= digit,
        1 <= weight,
        0 <= room,
    ensures
        digit > room / weight <==> digit * weight > room,
{
    vstd::arithmetic::div_mod::lemma_fundamental_div_mod(room, weight);
    vstd::arithmetic::div_mod::lemma_mod_bound(room, weight);
    let q = room / weight;
    if digit > q {
        assert(digit * weight >= (q + 1) * weight) by (nonlinear_arith)
            requires
                digit >= q + 1,
                weight >= 1,
        ;
        assert((q + 1) * weight == weight * q + weight) by (nonlinear_arith);
    } else {
        assert(digit * weight <= q * weight) by (nonlinear_arith)
            requires
                0 <= digit <= q,
                weight >= 1,
        ;
        assert(q * weight == weight * q) by (nonlinear_arith);
    }
}

/// The threshold for the digit at `k` under `bias`.
pub fn threshold_of(k: u32, bias: u32) -> (t: u32)
    ensures
        t == threshold(k as int, bias as int),
        1 <= t <= 26,
{
    if k <= bias {
        T_MIN
    } else if k - bias >= T_MAX {
        T_MAX
    } else {
        k - bias
    }
}

} // verus!
