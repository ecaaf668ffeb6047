//! The mathematical model of the variable-width digit codec: a magnitude is
//! written as its digits in base `2^d - 1`, least significant first, each
//! digit spelled in `d` bits, and an all-ones terminator digit closes the
//! sequence unless the width's maximum digit count has been reached.

use vstd::prelude::*;

use crate::bits::bits_of_uint;
use crate::bits::lemma_bits_of_uint_len;
use crate::bits::lemma_uint_of_bits_of_uint;
use crate::bits::uint_of_bits;
use vstd::arithmetic::div_mod::lemma_div_decreases;
use vstd::arithmetic::div_mod::lemma_div_is_ordered;
use vstd::arithmetic::div_mod::lemma_div_is_ordered_by_denominator;
use vstd::arithmetic::div_mod::lemma_fundamental_div_mod;
use vstd::arithmetic::div_mod::lemma_mod_division_less_than_divisor;
use vstd::arithmetic::div_mod::lemma_multiply_divide_lt;
use vstd::arithmetic::div_mod::lemma_small_mod;
use vstd::arithmetic::power::lemma_pow_adds;
use vstd::arithmetic::power::lemma_pow_positive;
use vstd::arithmetic::power::pow;
use vstd::arithmetic::power2::lemma2_to64;
use vstd::arithmetic::power2::lemma_pow2_pos;
use vstd::arithmetic::power2::lemma_pow2_strictly_increases;
use vstd::arithmetic::power2::lemma_pow2_unfold;
use vstd::arithmetic::power2::pow2;

verus! {

/// The number of data digit values of a digit of `d` bits: the all-ones
/// value `2^d - 1` is reserved as the terminator, so the data digits are
/// `0 .. 2^d - 2`.
pub open spec fn digit_base(d: nat) -> nat {
    (pow2(d) - 1) as nat
}

/// The digits of `v` in base `b`, least significant first; zero has no
/// digits.
pub open spec fn digits_of(v: nat, b: nat) -> Seq<nat>
    decreases v,
    when b >= 2
    via digits_of_decreases
{
    if v == 0 {
        Seq::empty()
    } else {
        seq![v % b] + digits_of(v / b, b)
    }
}

#[via_fn]
proof fn digits_of_decreases(v: nat, b: nat) {
    if v != 0 {
        lemma_div_decreases(v as int, b as int);
    }
}

/// How many digits `v` takes in base `b`.
pub open spec fn count_digits(v: nat, b: nat) -> nat {
    digits_of(v, b).len()
}

/// One division step peels off the least significant digit.
pub proof fn lemma_count_digits_step(v: nat, b: nat)
    requires
        b >= 2,
        v > 0,
    ensures
        count_digits(v, b) == 1 + count_digits(v / b, b),
        digits_of(v, b) == seq![v % b] + digits_of(v / b, b),
{
    assert(digits_of(v, b) == seq![v % b] + digits_of(v / b, b));
}

/// Every digit is a proper data digit: strictly below the base.
pub proof fn lemma_digits_below_base(v: nat, b: nat, i: int)
    requires
        b >= 2,
        0 <= i < digits_of(v, b).len(),
    ensures
        digits_of(v, b)[i] < b,
    decreases v,
{
    lemma_div_decreases(v as int, b as int);
    lemma_mod_division_less_than_divisor(v as int, b as int);
    if i > 0 {
        lemma_digits_below_base(v / b, b, i - 1);
    }
}

/// A larger value never takes fewer digits.
pub proof fn lemma_count_digits_monotone(v: nat, w: nat, b: nat)
    requires
        b >= 2,
        v <= w,
    ensures
        count_digits(v, b) <= count_digits(w, b),
    decreases w,
{
    if v > 0 {
        lemma_div_decreases(w as int, b as int);
        lemma_div_is_ordered(v as int, w as int, b as int);
        lemma_count_digits_monotone(v / b, w / b, b);
    }
}

/// A value below `2^n` takes at most `n` digits in any base of at least two.
pub proof fn lemma_count_digits_bounded(v: nat, b: nat, n: nat)
    requires
        b >= 2,
        v < pow2(n),
    ensures
        count_digits(v, b) <= n,
    decreases n,
{
    if v > 0 {
        if n == 0 {
            assert(pow2(0) == 1) by {
                lemma2_to64();
            }
        } else {
            lemma_div_is_ordered_by_denominator(v as int, 2, b as int);
            lemma_pow2_unfold(n);
            assert(pow2(n) == 2 * pow2((n - 1) as nat));
            assert(v / 2 < pow2((n - 1) as nat)) by {
                lemma_multiply_divide_lt(v as int, 2, pow2((n - 1) as nat) as int);
            }
            lemma_count_digits_bounded(v / b, b, (n - 1) as nat);
        }
    }
}

/// A value with `c` digits is at least `b^(c-1)`: the digit count cannot
/// overshoot the value.
pub proof fn lemma_count_digits_lower(v: nat, b: nat)
    requires
        b >= 2,
        v > 0,
    ensures
        pow(b as int, (count_digits(v, b) - 1) as nat) <= v,
    decreases v,
{
    lemma_count_digits_step(v, b);
    lemma_div_decreases(v as int, b as int);
    let c = count_digits(v, b);
    if v / b == 0 {
        assert(pow(b as int, 0) == 1) by {
            vstd::arithmetic::power::lemma_pow0(b as int);
        }
    } else {
        lemma_count_digits_lower(v / b, b);
        // b^(c-1) == b * b^(c-2) <= b * (v / b) <= v
        lemma_pow_adds(b as int, 1, (c - 2) as nat);
        assert(pow(b as int, 1) == b as int) by {
            vstd::arithmetic::power::lemma_pow1(b as int);
        }
        assert(pow(b as int, (c - 1) as nat) == b * pow(b as int, (c - 2) as nat));
        assert(b * pow(b as int, (c - 2) as nat) <= b * ((v / b) as int)) by {
            lemma_pow_positive(b as int, (c - 2) as nat);
            vstd::arithmetic::mul::lemma_mul_inequality(
                pow(b as int, (c - 2) as nat),
                (v / b) as int,
                b as int,
            );
        }
        assert(b * (v / b) <= v) by {
            lemma_fundamental_div_mod(v as int, b as int);
            vstd::arithmetic::div_mod::lemma_mod_bound(v as int, b as int);
        }
    }
}


/// The bit encoding of a digit sequence: each digit spelled in `d` bits,
/// least significant bit first, in digit order.
pub open spec fn enc_digit_seq(ds: Seq<nat>, d: nat) -> Seq<bool>
    decreases ds.len(),
{
    if ds.len() == 0 {
        Seq::empty()
    } else {
        bits_of_uint(ds[0], d) + enc_digit_seq(ds.skip(1), d)
    }
}

pub proof fn lemma_enc_digit_seq_len(ds: Seq<nat>, d: nat)
    ensures
        enc_digit_seq(ds, d).len() == ds.len() * d,
    decreases ds.len(),
{
    if ds.len() > 0 {
        lemma_bits_of_uint_len(ds[0], d);
        lemma_enc_digit_seq_len(ds.skip(1), d);
        assert(ds.len() * d == d + (ds.len() - 1) * d) by (nonlinear_arith)
            requires
                ds.len() >= 1,
                d >= 0,
        ;
    }
}

/// The bit encoding of the digit part of a magnitude: its digits in base
/// `2^d - 1`, then one all-ones terminator digit unless the maximum digit
/// count `max` has already been reached.
pub open spec fn digit_part_enc(v: nat, d: nat, max: nat) -> Seq<bool> {
    enc_digit_seq(digits_of(v, digit_base(d)), d) + if count_digits(v, digit_base(d)) < max {
        bits_of_uint(digit_base(d), d)
    } else {
        Seq::empty()
    }
}

/// What decoding a digit part reads from `bits`: up to `max` digits of `d`
/// bits each, stopping early at a terminator digit. `Ok` carries the decoded
/// magnitude and the number of bits consumed; `Err` carries the number of
/// bits consumed before the read that ran out of bits.
pub open spec fn digit_part_dec(bits: Seq<bool>, d: nat, max: nat) -> Result<(nat, nat), nat>
    decreases max,
{
    if max == 0 {
        Ok((0, 0))
    } else if bits.len() < d {
        Err(0)
    } else {
        let digit = uint_of_bits(bits.take(d as int));
        if digit == digit_base(d) {
            Ok((0, d))
        } else {
            match digit_part_dec(bits.skip(d as int), d, (max - 1) as nat) {
                Ok((v, c)) => Ok(((digit + digit_base(d) * v) as nat, (d + c) as nat)),
                Err(k) => Err((d + k) as nat),
            }
        }
    }
}

/// The digit size is valid: at least two bits and at most 127, so that the
/// base is at least three and every digit value fits in 128 bits.
pub open spec fn valid_digit_size(d: nat) -> bool {
    2 <= d <= 127
}

pub proof fn lemma_digit_base_bounds(d: nat)
    requires
        valid_digit_size(d),
    ensures
        3 <= digit_base(d),
        digit_base(d) < pow2(d),
        pow2(d) <= pow2(127),
{
    lemma2_to64();
    if d > 2 {
        lemma_pow2_strictly_increases(2, d);
    }
    if d < 127 {
        lemma_pow2_strictly_increases(d, 127);
    }
    lemma_pow2_pos(d);
}

/// Peeling one digit off the front of a digit-part encoding.
pub proof fn lemma_digit_part_enc_step(v: nat, d: nat, max: nat)
    requires
        valid_digit_size(d),
        v > 0,
        count_digits(v, digit_base(d)) <= max,
    ensures
        digit_part_enc(v, d, max) == bits_of_uint(v % digit_base(d), d) + digit_part_enc(
            v / digit_base(d),
            d,
            (max - 1) as nat,
        ),
{
    let b = digit_base(d);
    lemma_digit_base_bounds(d);
    lemma_count_digits_step(v, b);
    let ds = digits_of(v, b);
    assert(ds.skip(1) =~= digits_of(v / b, b));
    assert(ds[0] == v % b);
    assert(enc_digit_seq(ds, d) == bits_of_uint(v % b, d) + enc_digit_seq(digits_of(v / b, b), d));
    let term_full = count_digits(v, b) < max;
    let term_rest = count_digits(v / b, b) < (max - 1) as nat;
    assert(term_full == term_rest);
    let tail: Seq<bool> = if term_full {
        bits_of_uint(b, d)
    } else {
        Seq::empty()
    };
    assert(digit_part_enc(v, d, max) == (bits_of_uint(v % b, d) + enc_digit_seq(
        digits_of(v / b, b),
        d,
    )) + tail);
    assert((bits_of_uint(v % b, d) + enc_digit_seq(digits_of(v / b, b), d)) + tail
        =~= bits_of_uint(v % b, d) + (enc_digit_seq(digits_of(v / b, b), d) + tail));
}

/// The length of a digit-part encoding: `d` bits per digit, plus `d` more
/// for the terminator when one is written. It never exceeds `max * d`.
pub proof fn lemma_digit_part_enc_len(v: nat, d: nat, max: nat)
    requires
        valid_digit_size(d),
        count_digits(v, digit_base(d)) <= max,
    ensures
        digit_part_enc(v, d, max).len() == count_digits(v, digit_base(d)) * d + if count_digits(
            v,
            digit_base(d),
        ) < max {
            d
        } else {
            0nat
        },
        digit_part_enc(v, d, max).len() <= max * d,
{
    let b = digit_base(d);
    let c = count_digits(v, b);
    lemma_enc_digit_seq_len(digits_of(v, b), d);
    lemma_bits_of_uint_len(b, d);
    if c < max {
        assert((c + 1) * d <= max * d) by (nonlinear_arith)
            requires
                c + 1 <= max,
                d >= 0,
        ;
        assert(c * d + d == (c + 1) * d) by (nonlinear_arith);
    } else {
        assert(c * d <= max * d) by (nonlinear_arith)
            requires
                c <= max,
                d >= 0,
        ;
    }
}

/// Decoding undoes encoding for the digit part: decoding the encoding of a
/// magnitude followed by anything else yields that magnitude back and
/// consumes exactly the encoding.
pub proof fn lemma_digit_part_round_trip(v: nat, d: nat, max: nat, rest: Seq<bool>)
    requires
        valid_digit_size(d),
        count_digits(v, digit_base(d)) <= max,
    ensures
        digit_part_dec(digit_part_enc(v, d, max) + rest, d, max) == Ok::<(nat, nat), nat>(
            (v, digit_part_enc(v, d, max).len()),
        ),
    decreases v,
{
    let b = digit_base(d);
    lemma_digit_base_bounds(d);
    let enc = digit_part_enc(v, d, max);
    let all = enc + rest;
    lemma_digit_part_enc_len(v, d, max);
    if v == 0 {
        assert(count_digits(0, b) == 0);
        assert(enc_digit_seq(digits_of(0, b), d) == Seq::<bool>::empty());
        if max == 0 {
            assert(enc.len() == 0);
            assert(digit_part_dec(all, d, 0) == Ok::<(nat, nat), nat>((0, 0)));
        } else {
            // the encoding is exactly one terminator digit
            let term = bits_of_uint(b, d);
            lemma_bits_of_uint_len(b, d);
            assert(enc =~= term);
            assert(all.len() >= d);
            assert(all.take(d as int) =~= term);
            lemma_uint_of_bits_of_uint(b, d);
            lemma_small_mod(b, pow2(d));
            assert(uint_of_bits(term) == b);
            assert(digit_part_dec(all, d, max) == Ok::<(nat, nat), nat>((0, d)));
        }
    } else {
        let c = count_digits(v, b);
        assert(c >= 1) by {
            lemma_count_digits_step(v, b);
        }
        assert(max >= 1);
        lemma_digit_part_enc_step(v, d, max);
        let head = bits_of_uint(v % b, d);
        let tail_enc = digit_part_enc(v / b, d, (max - 1) as nat);
        lemma_bits_of_uint_len(v % b, d);
        assert(all =~= head + (tail_enc + rest));
        assert(all.len() >= d);
        assert(all.take(d as int) =~= head);
        lemma_mod_division_less_than_divisor(v as int, b as int);
        lemma_uint_of_bits_of_uint(v % b, d);
        lemma_small_mod((v % b) as nat, pow2(d));
        assert(uint_of_bits(head) == v % b);
        assert(v % b != b);
        assert(all.skip(d as int) =~= tail_enc + rest);
        lemma_count_digits_step(v, b);
        lemma_div_decreases(v as int, b as int);
        lemma_digit_part_round_trip(v / b, d, (max - 1) as nat, rest);
        lemma_digit_part_enc_len(v / b, d, (max - 1) as nat);
        assert(digit_part_dec(all.skip(d as int), d, (max - 1) as nat) == Ok::<(nat, nat), nat>(
            (v / b, tail_enc.len()),
        ));
        assert(digit_part_dec(all, d, max) == Ok::<(nat, nat), nat>(
            ((v % b + b * (v / b)) as nat, (d + tail_enc.len()) as nat),
        ));
        lemma_fundamental_div_mod(v as int, b as int);
        assert(v % b + b * (v / b) == v);
        assert(enc.len() == d + tail_enc.len());
    }
}


/// The full encoding of an unsigned magnitude `v` by the digit codec: with
/// `short` encodings enabled, zero and one become the two-bit prefixes `10`
/// and `11`, and any other value is prefixed with a single `0` bit and has
/// two subtracted before the digit part; without them the digit part stands
/// alone.
pub open spec fn digit_enc_unsigned(d: nat, short: bool, max: nat, v: nat) -> Seq<bool> {
    if short {
        if v == 0 {
            seq![true, false]
        } else if v == 1 {
            seq![true, true]
        } else {
            seq![false] + digit_part_enc((v - 2) as nat, d, max)
        }
    } else {
        digit_part_enc(v, d, max)
    }
}

/// The full encoding of a signed value `v` by the digit codec: the short
/// prefixes behave as for unsigned values; otherwise one sign bit follows
/// the prefix, a negative value encodes the magnitude `-v - 1`, and a
/// non-negative value encodes `v` less the short-encoding bias of two.
pub open spec fn digit_enc_signed(d: nat, short: bool, max: nat, v: int) -> Seq<bool> {
    if short && v == 0 {
        seq![true, false]
    } else if short && v == 1 {
        seq![true, true]
    } else if v < 0 {
        let prefix = if short {
            seq![false, true]
        } else {
            seq![true]
        };
        prefix + digit_part_enc((-v - 1) as nat, d, max)
    } else {
        let prefix = if short {
            seq![false, false]
        } else {
            seq![false]
        };
        let magnitude = if short {
            (v - 2) as nat
        } else {
            v as nat
        };
        prefix + digit_part_enc(magnitude, d, max)
    }
}

/// What decoding an unsigned value reads from `bits`, mirroring
/// `digit_enc_unsigned`.
pub open spec fn digit_dec_unsigned(bits: Seq<bool>, d: nat, short: bool, max: nat) -> Result<
    (nat, nat),
    nat,
> {
    if short {
        if bits.len() == 0 {
            Err(0)
        } else if bits[0] {
            if bits.len() < 2 {
                Err(1)
            } else {
                Ok(
                    (
                        if bits[1] {
                            1nat
                        } else {
                            0nat
                        },
                        2,
                    ),
                )
            }
        } else {
            match digit_part_dec(bits.skip(1), d, max) {
                Ok((v, c)) => Ok(((v + 2) as nat, (1 + c) as nat)),
                Err(k) => Err((1 + k) as nat),
            }
        }
    } else {
        digit_part_dec(bits, d, max)
    }
}

/// What decoding a signed value reads from `bits`, mirroring
/// `digit_enc_signed`: after the short prefix (when enabled) comes one sign
/// bit, then the digit part; a set sign bit negates as `-magnitude - 1`, a
/// clear one applies the short-encoding bias of two.
pub open spec fn digit_dec_signed(bits: Seq<bool>, d: nat, short: bool, max: nat) -> Result<
    (int, nat),
    nat,
> {
    if short {
        if bits.len() == 0 {
            Err(0)
        } else if bits[0] {
            if bits.len() < 2 {
                Err(1)
            } else {
                Ok(
                    (
                        if bits[1] {
                            1int
                        } else {
                            0int
                        },
                        2,
                    ),
                )
            }
        } else if bits.len() < 2 {
            Err(1)
        } else {
            let sign = bits[1];
            match digit_part_dec(bits.skip(2), d, max) {
                Ok((v, c)) => Ok(
                    (
                        if sign {
                            -(v as int) - 1
                        } else {
                            v + 2int
                        },
                        (2 + c) as nat,
                    ),
                ),
                Err(k) => Err((2 + k) as nat),
            }
        }
    } else {
        if bits.len() == 0 {
            Err(0)
        } else {
            let sign = bits[0];
            match digit_part_dec(bits.skip(1), d, max) {
                Ok((v, c)) => Ok(
                    (
                        if sign {
                            -(v as int) - 1
                        } else {
                            v as int
                        },
                        (1 + c) as nat,
                    ),
                ),
                Err(k) => Err((1 + k) as nat),
            }
        }
    }
}

/// Decoding undoes encoding for unsigned values.
pub proof fn lemma_digit_unsigned_round_trip(d: nat, short: bool, max: nat, v: nat, rest: Seq<bool>)
    requires
        valid_digit_size(d),
        short && v >= 2 ==> count_digits((v - 2) as nat, digit_base(d)) <= max,
        !short ==> count_digits(v, digit_base(d)) <= max,
    ensures
        digit_dec_unsigned(digit_enc_unsigned(d, short, max, v) + rest, d, short, max) == Ok::<
            (nat, nat),
            nat,
        >((v, digit_enc_unsigned(d, short, max, v).len())),
{
    let enc = digit_enc_unsigned(d, short, max, v);
    let all = enc + rest;
    if short {
        if v == 0 {
            assert(all[0] && !all[1]);
        } else if v == 1 {
            assert(all[0] && all[1]);
        } else {
            let part = digit_part_enc((v - 2) as nat, d, max);
            assert(!all[0]);
            assert(all.skip(1) =~= part + rest);
            lemma_digit_part_round_trip((v - 2) as nat, d, max, rest);
        }
    } else {
        lemma_digit_part_round_trip(v, d, max, rest);
    }
}

/// Decoding undoes encoding for signed values.
pub proof fn lemma_digit_signed_round_trip(d: nat, short: bool, max: nat, v: int, rest: Seq<bool>)
    requires
        valid_digit_size(d),
        v < 0 ==> count_digits((-v - 1) as nat, digit_base(d)) <= max,
        v >= 0 && short && v >= 2 ==> count_digits((v - 2) as nat, digit_base(d)) <= max,
        v >= 0 && !short ==> count_digits(v as nat, digit_base(d)) <= max,
    ensures
        digit_dec_signed(digit_enc_signed(d, short, max, v) + rest, d, short, max) == Ok::<
            (int, nat),
            nat,
        >((v, digit_enc_signed(d, short, max, v).len())),
{
    let enc = digit_enc_signed(d, short, max, v);
    let all = enc + rest;
    if short && v == 0 {
        assert(all[0] && !all[1]);
    } else if short && v == 1 {
        assert(all[0] && all[1]);
    } else if v < 0 {
        let part = digit_part_enc((-v - 1) as nat, d, max);
        lemma_digit_part_round_trip((-v - 1) as nat, d, max, rest);
        if short {
            assert(!all[0] && all[1]);
            assert(all.skip(2) =~= part + rest);
        } else {
            assert(all[0]);
            assert(all.skip(1) =~= part + rest);
        }
    } else {
        let magnitude: nat = if short {
            (v - 2) as nat
        } else {
            v as nat
        };
        let part = digit_part_enc(magnitude, d, max);
        lemma_digit_part_round_trip(magnitude, d, max, rest);
        if short {
            assert(!all[0] && !all[1]);
            assert(all.skip(2) =~= part + rest);
        } else {
            assert(!all[0]);
            assert(all.skip(1) =~= part + rest);
        }
    }
}

/// How an outer digit-part decode extends an inner one that starts after
/// `consumed` bits, when `acc` and `factor` carry the digits already read.
pub open spec fn dec_extends(
    outer: Result<(nat, nat), nat>,
    inner: Result<(nat, nat), nat>,
    acc: nat,
    factor: nat,
    consumed: nat,
) -> bool {
    match inner {
        Ok((v, c)) => outer == Ok::<(nat, nat), nat>(((acc + factor * v) as nat, (consumed
            + c) as nat)),
        Err(k) => outer == Err::<(nat, nat), nat>((consumed + k) as nat),
    }
}

/// Reading one more data digit keeps the decoder's accumulator faithful to
/// the outer decode.
pub proof fn lemma_dec_extends_step(
    outer: Result<(nat, nat), nat>,
    bits: Seq<bool>,
    d: nat,
    max_rem: nat,
    acc: nat,
    factor: nat,
    consumed: nat,
)
    requires
        valid_digit_size(d),
        max_rem >= 1,
        bits.len() >= d,
        uint_of_bits(bits.take(d as int)) != digit_base(d),
        dec_extends(outer, digit_part_dec(bits, d, max_rem), acc, factor, consumed),
    ensures
        dec_extends(
            outer,
            digit_part_dec(bits.skip(d as int), d, (max_rem - 1) as nat),
            (acc + factor * uint_of_bits(bits.take(d as int))) as nat,
            (factor * digit_base(d)) as nat,
            (consumed + d) as nat,
        ),
{
    let g = uint_of_bits(bits.take(d as int));
    let b = digit_base(d);
    let inner = digit_part_dec(bits.skip(d as int), d, (max_rem - 1) as nat);
    match inner {
        Ok((v, c)) => {
            assert(digit_part_dec(bits, d, max_rem) == Ok::<(nat, nat), nat>(
                ((g + b * v) as nat, (d + c) as nat),
            ));
            assert(acc + factor * (g + b * v) == (acc + factor * g) + (factor * b) * v)
                by (nonlinear_arith);
        },
        Err(k) => {
            assert(digit_part_dec(bits, d, max_rem) == Err::<(nat, nat), nat>((d + k) as nat));
        },
    }
}


/// The greatest number of digits any value of a width with `mb` magnitude
/// bits can need in the base of digit size `d`: the digit count of the
/// largest representable magnitude.
pub open spec fn width_max_digits(d: nat, mb: nat) -> nat {
    count_digits((pow2(mb) - 1) as nat, digit_base(d))
}

/// The magnitude bit counts of the ten supported integer widths, in the
/// order of the codecs' precomputed tables: for each width of 8, 16, 32, 64
/// and 128 bits, first the signed magnitude bits (one less than the width),
/// then the unsigned ones.
pub open spec fn relevant_bits() -> Seq<nat> {
    seq![7nat, 8, 15, 16, 31, 32, 63, 64, 127, 128]
}

/// A magnitude below `2^mb` never needs more digits than the width's
/// precomputed maximum.
pub proof fn lemma_count_within_width(d: nat, m: nat, mb: nat)
    requires
        valid_digit_size(d),
        m < pow2(mb),
    ensures
        count_digits(m, digit_base(d)) <= width_max_digits(d, mb),
{
    lemma_digit_base_bounds(d);
    lemma_count_digits_monotone(m, (pow2(mb) - 1) as nat, digit_base(d));
}


/// The running positional factor of the digit decoder never overflows: the
/// base raised to one less than a width's maximum digit count stays below
/// `2^128`.
pub proof fn lemma_width_pow_bound(d: nat, mb: nat)
    requires
        valid_digit_size(d),
        1 <= mb <= 128,
    ensures
        width_max_digits(d, mb) >= 1,
        pow(digit_base(d) as int, (width_max_digits(d, mb) - 1) as nat) < pow2(128),
{
    let b = digit_base(d);
    lemma_digit_base_bounds(d);
    let v = (pow2(mb) - 1) as nat;
    lemma_pow2_pos(mb);
    assert(v >= 1) by {
        lemma2_to64();
        if mb > 1 {
            lemma_pow2_strictly_increases(1, mb);
        }
    }
    lemma_count_digits_step(v, b);
    lemma_count_digits_lower(v, b);
    if mb < 128 {
        lemma_pow2_strictly_increases(mb, 128);
    }
}


/// A digit-part decode never accounts for more bits than the sequence
/// holds.
pub proof fn lemma_digit_part_dec_consumed(bits: Seq<bool>, d: nat, max: nat)
    ensures
        match digit_part_dec(bits, d, max) {
            Ok((v, c)) => c <= bits.len(),
            Err(k) => k <= bits.len(),
        },
    decreases max,
{
    if max == 0 {
    } else if bits.len() < d {
    } else {
        let digit = uint_of_bits(bits.take(d as int));
        if digit != digit_base(d) {
            lemma_digit_part_dec_consumed(bits.skip(d as int), d, (max - 1) as nat);
        }
    }
}

} // verus!
