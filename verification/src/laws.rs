//! The laws that tie the encoders and decoders of this crate together:
//! decoding undoes encoding, encoding is a pure function of the
//! configuration and the value, and a digit-codec encoding never outgrows
//! the width's precomputed bound.

use vstd::prelude::*;

use crate::bits::int_mod_pow2;
use crate::bits::lemma_bits_of_uint_len;
use crate::bits::lemma_signed_truncate_identity;
use crate::bits::lemma_uint_of_bits_of_uint;
use crate::bits::signed_of;
use crate::bits::uint_of_bits;
use crate::decoding::digit::DigitDecodingProtocol;
use crate::decoding::simple::SimpleIntDecodingProtocol;
use crate::decoding::IntDecodingProtocol;
use crate::digits::lemma_count_within_width;
use crate::digits::lemma_digit_base_bounds;
use crate::digits::lemma_digit_part_enc_len;
use crate::digits::lemma_digit_signed_round_trip;
use crate::digits::lemma_digit_unsigned_round_trip;
use crate::digits::valid_digit_size;
use crate::digits::width_max_digits;
use crate::encoding::digit::DigitIntEncodingProtocol;
use crate::encoding::simple::SimpleEncodingProtocol;
use crate::encoding::EncodingProtocol;
use vstd::arithmetic::div_mod::lemma_mod_bound;
use vstd::arithmetic::div_mod::lemma_small_mod;
use vstd::arithmetic::power2::lemma_pow2_pos;
use vstd::arithmetic::power2::pow2;

verus! {

/// Decoding undoes encoding for the simple codec, unsigned: for every width
/// and every value representable in it, decoding the encoding of the value,
/// followed by any further bits, yields the value back and consumes exactly
/// the encoding.
pub proof fn lemma_simple_round_trip_unsigned(
    enc: SimpleEncodingProtocol,
    dec: SimpleIntDecodingProtocol,
    width: nat,
    value: nat,
    rest: Seq<bool>,
)
    requires
        value < pow2(width),
    ensures
        dec.dec_unsigned(width, enc.enc_unsigned(width, value) + rest) == Ok::<(nat, nat), nat>(
            (value, width),
        ),
        enc.enc_unsigned(width, value).len() == width,
{
    let encoded = enc.enc_unsigned(width, value);
    lemma_bits_of_uint_len(value, width);
    assert((encoded + rest).take(width as int) =~= encoded);
    lemma_uint_of_bits_of_uint(value, width);
    lemma_small_mod(value, pow2(width));
}

/// Decoding undoes encoding for the simple codec, signed: for every width
/// of at least one bit and every value in its two's-complement range.
pub proof fn lemma_simple_round_trip_signed(
    enc: SimpleEncodingProtocol,
    dec: SimpleIntDecodingProtocol,
    width: nat,
    value: int,
    rest: Seq<bool>,
)
    requires
        width >= 1,
        -(pow2((width - 1) as nat) as int) <= value < pow2((width - 1) as nat) as int,
    ensures
        dec.dec_signed(width, enc.enc_signed(width, value) + rest) == Ok::<(int, nat), nat>(
            (value, width),
        ),
        enc.enc_signed(width, value).len() == width,
{
    let u = int_mod_pow2(value, width);
    let encoded = enc.enc_signed(width, value);
    lemma_bits_of_uint_len(u, width);
    assert((encoded + rest).take(width as int) =~= encoded);
    lemma_pow2_pos(width);
    lemma_mod_bound(value, pow2(width) as int);
    lemma_uint_of_bits_of_uint(u, width);
    lemma_small_mod(u, pow2(width));
    assert(uint_of_bits(encoded) == u);
    lemma_signed_truncate_identity(value, width);
    assert(signed_of(u, width) == value);
}

/// Decoding undoes encoding for the digit codec, unsigned: a decoder with
/// the same configuration as the encoder recovers every value representable
/// in the width, whatever bits follow the encoding.
pub proof fn lemma_digit_round_trip_unsigned(
    enc: DigitIntEncodingProtocol,
    dec: DigitDecodingProtocol,
    width: nat,
    value: nat,
    rest: Seq<bool>,
)
    requires
        valid_digit_size(enc.spec_digit_size()),
        dec.spec_digit_size() == enc.spec_digit_size(),
        dec.spec_short_zero_and_one() == enc.spec_short_zero_and_one(),
        value < pow2(width),
    ensures
        dec.dec_unsigned(width, enc.enc_unsigned(width, value) + rest) == Ok::<(nat, nat), nat>(
            (value, enc.enc_unsigned(width, value).len()),
        ),
{
    let d = enc.spec_digit_size();
    let short = enc.spec_short_zero_and_one();
    let max = width_max_digits(d, width);
    if short && value >= 2 {
        lemma_count_within_width(d, (value - 2) as nat, width);
    }
    if !short {
        lemma_count_within_width(d, value, width);
    }
    lemma_digit_unsigned_round_trip(d, short, max, value, rest);
}

/// Decoding undoes encoding for the digit codec, signed: a decoder with the
/// same configuration as the encoder recovers every value in the width's
/// two's-complement range, whatever bits follow the encoding.
pub proof fn lemma_digit_round_trip_signed(
    enc: DigitIntEncodingProtocol,
    dec: DigitDecodingProtocol,
    width: nat,
    value: int,
    rest: Seq<bool>,
)
    requires
        valid_digit_size(enc.spec_digit_size()),
        dec.spec_digit_size() == enc.spec_digit_size(),
        dec.spec_short_zero_and_one() == enc.spec_short_zero_and_one(),
        width >= 1,
        -(pow2((width - 1) as nat) as int) <= value < pow2((width - 1) as nat) as int,
    ensures
        dec.dec_signed(width, enc.enc_signed(width, value) + rest) == Ok::<(int, nat), nat>(
            (value, enc.enc_signed(width, value).len()),
        ),
{
    let d = enc.spec_digit_size();
    let short = enc.spec_short_zero_and_one();
    let max = width_max_digits(d, (width - 1) as nat);
    if value < 0 {
        lemma_count_within_width(d, (-value - 1) as nat, (width - 1) as nat);
    } else {
        if short && value >= 2 {
            lemma_count_within_width(d, (value - 2) as nat, (width - 1) as nat);
        }
        if !short {
            lemma_count_within_width(d, value as nat, (width - 1) as nat);
        }
    }
    lemma_digit_signed_round_trip(d, short, max, value, rest);
}

/// Encoding is deterministic for the simple codec: any two instances write
/// the same bit sequence for the same value at the same width.
pub proof fn lemma_simple_encoding_deterministic(
    first: SimpleEncodingProtocol,
    second: SimpleEncodingProtocol,
    width: nat,
    unsigned_value: nat,
    signed_value: int,
)
    ensures
        first.enc_unsigned(width, unsigned_value) == second.enc_unsigned(width, unsigned_value),
        first.enc_signed(width, signed_value) == second.enc_signed(width, signed_value),
{
}

/// Encoding is deterministic for the digit codec: two instances with the
/// same configuration write the same bit sequence for the same value at the
/// same width.
pub proof fn lemma_digit_encoding_deterministic(
    first: DigitIntEncodingProtocol,
    second: DigitIntEncodingProtocol,
    width: nat,
    unsigned_value: nat,
    signed_value: int,
)
    requires
        second.spec_digit_size() == first.spec_digit_size(),
        second.spec_short_zero_and_one() == first.spec_short_zero_and_one(),
    ensures
        first.enc_unsigned(width, unsigned_value) == second.enc_unsigned(width, unsigned_value),
        first.enc_signed(width, signed_value) == second.enc_signed(width, signed_value),
{
}

/// The digit codec's encoded size is bounded: an unsigned encoding never
/// exceeds one terminator digit plus the width's maximum digit count, each
/// of the configured digit size, in bits.
pub proof fn lemma_digit_encoded_size_unsigned(
    enc: DigitIntEncodingProtocol,
    width: nat,
    value: nat,
)
    requires
        valid_digit_size(enc.spec_digit_size()),
        value < pow2(width),
    ensures
        enc.enc_unsigned(width, value).len() <= enc.spec_digit_size() + width_max_digits(
            enc.spec_digit_size(),
            width,
        ) * enc.spec_digit_size(),
{
    let d = enc.spec_digit_size();
    let short = enc.spec_short_zero_and_one();
    let max = width_max_digits(d, width);
    lemma_digit_base_bounds(d);
    if short {
        if value >= 2 {
            lemma_count_within_width(d, (value - 2) as nat, width);
            lemma_digit_part_enc_len((value - 2) as nat, d, max);
        }
    } else {
        lemma_count_within_width(d, value, width);
        lemma_digit_part_enc_len(value, d, max);
    }
    assert(max * d >= 0) by (nonlinear_arith)
        requires
            max >= 0,
            d >= 0,
    ;
}

/// The digit codec's encoded size is bounded for signed values as well: a
/// signed encoding never exceeds one terminator digit plus the signed
/// width's maximum digit count, each of the configured digit size, in bits.
pub proof fn lemma_digit_encoded_size_signed(enc: DigitIntEncodingProtocol, width: nat, value: int)
    requires
        valid_digit_size(enc.spec_digit_size()),
        width >= 1,
        -(pow2((width - 1) as nat) as int) <= value < pow2((width - 1) as nat) as int,
    ensures
        enc.enc_signed(width, value).len() <= enc.spec_digit_size() + width_max_digits(
            enc.spec_digit_size(),
            (width - 1) as nat,
        ) * enc.spec_digit_size(),
{
    let d = enc.spec_digit_size();
    let short = enc.spec_short_zero_and_one();
    let max = width_max_digits(d, (width - 1) as nat);
    lemma_digit_base_bounds(d);
    if value < 0 {
        lemma_count_within_width(d, (-value - 1) as nat, (width - 1) as nat);
        lemma_digit_part_enc_len((-value - 1) as nat, d, max);
    } else if short {
        if value >= 2 {
            lemma_count_within_width(d, (value - 2) as nat, (width - 1) as nat);
            lemma_digit_part_enc_len((value - 2) as nat, d, max);
        }
    } else {
        lemma_count_within_width(d, value as nat, (width - 1) as nat);
        lemma_digit_part_enc_len(value as nat, d, max);
    }
    assert(max * d >= 0) by (nonlinear_arith)
        requires
            max >= 0,
            d >= 0,
    ;
}


} // verus!
