//! The variable-width digit decoder: integers are read back digit by digit
//! in a base derived from a configurable digit size, stopping at the
//! reserved all-ones terminator digit or at the width's maximum digit count.

use vstd::prelude::*;

use crate::bits::int_mod_pow2;
use crate::bits::lemma_int_mod_pow2_twice;
use crate::bits::lemma_neg_mod_pow2;
use crate::bits::lemma_pow2_fits_u128;
use crate::bits::pow2_u128;
use crate::bits::signed_of;
use crate::bits::signed_truncate;
use crate::bits::uint_of_bits;
use crate::decoding::simple::SimpleIntDecodingProtocol;
use crate::decoding::DecodeError;
use crate::decoding::IntDecodingProtocol;
use crate::digits::dec_extends;
use crate::digits::digit_base;
use crate::digits::digit_dec_signed;
use crate::digits::digit_dec_unsigned;
use crate::digits::digit_part_dec;
use crate::digits::lemma_dec_extends_step;
use crate::digits::lemma_digit_base_bounds;
use crate::digits::lemma_width_pow_bound;
use crate::digits::relevant_bits;
use crate::digits::valid_digit_size;
use crate::digits::width_max_digits;
use crate::encoding::digit::compute_relevant_num_digits;
use crate::encoding::digit::get_num_digit_values;
use crate::source::BitSource;
use crate::source::ReadError;
use vstd::arithmetic::div_mod::lemma_add_mod_noop;
use vstd::arithmetic::div_mod::lemma_mod_bound;
use vstd::arithmetic::div_mod::lemma_mod_mod;
use vstd::arithmetic::div_mod::lemma_small_mod;
use vstd::arithmetic::power::lemma_pow1;
use vstd::arithmetic::power::lemma_pow_adds;
use vstd::arithmetic::power::lemma_pow_increases;
use vstd::arithmetic::power::lemma_pow_positive;
use vstd::arithmetic::power::pow;
use vstd::arithmetic::power2::lemma2_to64;
use vstd::arithmetic::power2::lemma2_to64_rest;
use vstd::arithmetic::power2::lemma_pow2_adds;
use vstd::arithmetic::power2::lemma_pow2_pos;
use vstd::arithmetic::power2::lemma_pow2_strictly_increases;
use vstd::arithmetic::power2::pow2;

verus! {

/// Reads a single boolean from `source`.
fn read_bit<S: BitSource>(source: &mut S) -> (r: Result<bool, DecodeError>)
    ensures
        old(source).bits().len() >= 1 ==> r == Ok::<bool, DecodeError>(old(source).bits()[0])
            && final(source).bits() == old(source).bits().skip(1),
        old(source).bits().len() == 0 ==> r == Err::<bool, DecodeError>(
            DecodeError::Reading(ReadError::ReachedEnd { read_bools: 0 }),
        ) && final(source).bits() == Seq::<bool>::empty(),
{
    let mut buf: Vec<bool> = vec![false; 1];
    match source.read(buf.as_mut_slice()) {
        Ok(()) => {
            proof {
                assert(old(source).bits().take(1)[0] == old(source).bits()[0]);
            }
            Ok(buf[0])
        },
        Err(read_error) => Err(DecodeError::Reading(read_error)),
    }
}

/// The signed reading of a 128-bit two's-complement pattern.
fn twos_to_signed(m: u128, width: usize) -> (r: i128)
    requires
        1 <= width <= 128,
        (m as nat) < pow2(width as nat),
    ensures
        r as int == signed_of(m as nat, width as nat),
{
    proof {
        lemma_pow2_fits_u128((width - 1) as nat);
        assert(pow2(127) == 0x80000000000000000000000000000000) by {
            lemma_pow2_adds(63, 64);
            lemma2_to64();
            lemma2_to64_rest();
        }
        assert(pow2(128) == 0x100000000000000000000000000000000) by {
            lemma_pow2_adds(64, 64);
            lemma2_to64();
            lemma2_to64_rest();
        }
        if width < 128 {
            lemma_pow2_strictly_increases(width as nat, 128);
            if width < 127 {
                lemma_pow2_strictly_increases((width - 1) as nat, 127);
            }
        }
    }
    let half: u128 = pow2_u128(width - 1);
    if m < half {
        m as i128
    } else {
        let complement: u128 = if width == 128 {
            u128::MAX - m
        } else {
            proof {
                vstd::arithmetic::power2::lemma_pow2_unfold(width as nat);
            }
            let full: u128 = pow2_u128(width);
            (full - 1) - m
        };
        proof {
            assert(complement as int == pow2(width as nat) - 1 - m);
            assert(complement < 0x80000000000000000000000000000000);
        }
        -(complement as i128) - 1
    }
}

/// An `IntDecodingProtocol` that reads integers digit by digit, stopping at
/// the reserved all-ones terminator digit or at the statically known
/// maximum digit count for the integer width being decoded; that bound is
/// what prevents unbounded reads on corrupt input.
///
/// The corresponding encoding protocol is `DigitIntEncodingProtocol`; see
/// its documentation for the encoding itself.
pub struct DigitDecodingProtocol {
    digit_size: u8,
    short_zero_and_one: bool,
    max_num_digits: [u8; 10],
}

impl DigitDecodingProtocol {
    #[verifier::type_invariant]
    closed spec fn wf(self) -> bool {
        &&& valid_digit_size(self.digit_size as nat)
        &&& forall|i: int|
            0 <= i < 10 ==> (#[trigger] self.max_num_digits@[i]) as nat == width_max_digits(
                self.digit_size as nat,
                relevant_bits()[i],
            )
    }

    /// The configured digit size: the number of bits of one digit.
    pub closed spec fn spec_digit_size(&self) -> nat {
        self.digit_size as nat
    }

    /// Whether the two-bit short encodings of 0 and 1 are enabled.
    pub closed spec fn spec_short_zero_and_one(&self) -> bool {
        self.short_zero_and_one
    }

    /// Constructs a `DigitDecodingProtocol` with the given configuration; it
    /// decodes what a `DigitIntEncodingProtocol` with the same configuration
    /// encodes.
    pub fn new(digit_size: u8, short_zero_and_one: bool) -> (r: Self)
        requires
            2 <= digit_size <= 127,
        ensures
            r.spec_digit_size() == digit_size as nat,
            r.spec_short_zero_and_one() == short_zero_and_one,
    {
        Self {
            digit_size,
            short_zero_and_one,
            max_num_digits: compute_relevant_num_digits(digit_size),
        }
    }

    /// The decoder matching `DigitIntEncodingProtocol::v1`: a digit size of
    /// 3 with the short encodings of 0 and 1 enabled.
    pub fn v1() -> (r: Self)
        ensures
            r.spec_digit_size() == 3,
            r.spec_short_zero_and_one() == true,
    {
        Self::new(3, true)
    }

    /// Reads up to `max_num_digits` digits and reassembles the magnitude
    /// they spell, stopping early at a terminator digit. The returned value
    /// is reduced modulo `2^128`; corrupt input can spell a larger
    /// magnitude, which wraps silently.
    fn read_digit_part<S: BitSource>(&self, source: &mut S, max_num_digits: u8) -> (r: Result<
        u128,
        DecodeError,
    >)
        requires
            max_num_digits >= 1 ==> pow(
                digit_base(self.spec_digit_size()) as int,
                (max_num_digits - 1) as nat,
            ) < pow2(128),
        ensures
            match digit_part_dec(
                old(source).bits(),
                self.spec_digit_size(),
                max_num_digits as nat,
            ) {
                Ok((v, c)) => r == Ok::<u128, DecodeError>((v % pow2(128)) as u128)
                    && final(source).bits() == old(source).bits().skip(c as int),
                Err(k) => r == Err::<u128, DecodeError>(
                    DecodeError::Reading(
                        ReadError::ReachedEnd {
                            read_bools: (old(source).bits().len() - k) as usize,
                        },
                    ),
                ) && final(source).bits() == Seq::<bool>::empty(),
            },
    {
        proof {
            use_type_invariant(&*self);
        }
        let ghost d = self.digit_size as nat;
        let ghost b = digit_base(d);
        let ghost max = max_num_digits as nat;
        let ghost orig = old(source).bits();
        let ghost outer = digit_part_dec(orig, d, max);
        let ghost modulus = pow2(128);
        proof {
            lemma_digit_base_bounds(d);
            lemma_pow2_adds(64, 64);
            lemma2_to64();
            lemma2_to64_rest();
            assert(modulus == 0x100000000000000000000000000000000);
            assert(orig.skip(0) =~= orig);
            lemma_pow1(b as int);
            vstd::arithmetic::power::lemma_pow0(b as int);
        }
        let simple_decoder = SimpleIntDecodingProtocol::new();
        let num_digit_values: u128 = get_num_digit_values(self.digit_size);
        let mut current_factor: u128 = 1;
        let mut current_result: u128 = 0;
        let ghost mut acc: nat = 0;
        let mut i: u8 = 0;
        proof {
            match digit_part_dec(orig, d, max) {
                Ok((v, c)) => {
                    assert(1 * v == v) by (nonlinear_arith);
                },
                Err(k) => {},
            }
            lemma_small_mod(0, modulus);
        }
        while i < max_num_digits
            invariant
                valid_digit_size(d),
                self.spec_digit_size() == d,
                b == digit_base(d),
                num_digit_values as nat == b,
                num_digit_values >= 3,
                max == max_num_digits as nat,
                i <= max_num_digits,
                modulus == pow2(128),
                modulus == 0x100000000000000000000000000000000,
                orig == old(source).bits(),
                outer == digit_part_dec(orig, d, max),
                source.bits() == orig.skip(i as int * d as int),
                i < max_num_digits ==> current_factor as int == pow(b as int, i as nat),
                max >= 1 ==> pow(b as int, (max - 1) as nat) < pow2(128),
                dec_extends(
                    outer,
                    digit_part_dec(source.bits(), d, (max - i) as nat),
                    acc,
                    pow(b as int, i as nat) as nat,
                    (i as nat * d) as nat,
                ),
                current_result as nat == acc % modulus,
                orig.len() >= i as nat * d,
            decreases max_num_digits - i,
        {
            let ghost cur = source.bits();
            let ghost factor_exact: nat = pow(b as int, i as nat) as nat;
            proof {
                lemma_pow_positive(b as int, i as nat);
            }
            match simple_decoder.read_unsigned(source, self.digit_size as usize) {
                Err(error) => {
                    proof {
                        assert(cur.len() < d);
                        assert(digit_part_dec(cur, d, (max - i) as nat) == Err::<(nat, nat), nat>(
                            0,
                        ));
                        assert(outer == Err::<(nat, nat), nat>((i as nat * d) as nat));
                        assert(cur.len() == orig.len() - i as nat * d);
                        assert(source.bits() == Seq::<bool>::empty());
                        assert(error == DecodeError::Reading(
                            ReadError::ReachedEnd { read_bools: cur.len() as usize },
                        ));
                        assert((orig.len() - (i as nat * d) as nat) as usize == cur.len() as usize);
                    }
                    return Err(error);
                },
                Ok(next_digit) => {
                    let ghost g = uint_of_bits(cur.take(d as int));
                    proof {
                        crate::bits::lemma_uint_of_bits_bound(cur.take(d as int));
                        assert(cur.take(d as int).len() == d);
                        lemma_pow2_strictly_increases(d, 128);
                        assert(g < pow2(128));
                        assert(next_digit as nat == g);
                        assert(cur.len() >= d);
                        assert(orig.skip(i as int * d as int).skip(d as int) =~= orig.skip(
                            i as int * d as int + d as int,
                        ));
                        assert((i + 1) as int * d as int == i as int * d as int + d as int)
                            by (nonlinear_arith);
                    }
                    if next_digit == num_digit_values {
                        proof {
                            assert(digit_part_dec(cur, d, (max - i) as nat) == Ok::<
                                (nat, nat),
                                nat,
                            >((0, d)));
                            assert(factor_exact * 0 == 0) by (nonlinear_arith);
                            assert(outer == Ok::<(nat, nat), nat>(
                                (acc, (i as nat * d + d) as nat),
                            ));
                            lemma_mod_bound(acc as int, modulus as int);
                            assert(current_result == (acc % pow2(128)) as u128);
                            assert(source.bits() =~= orig.skip((i as nat * d + d) as int));
                        }
                        return Ok(current_result);
                    }
                    let addend: u128 = current_factor.wrapping_mul(next_digit);
                    let new_result: u128 = current_result.wrapping_add(addend);
                    proof {
                        lemma_dec_extends_step(
                            outer,
                            cur,
                            d,
                            (max - i) as nat,
                            acc,
                            factor_exact,
                            (i as nat * d) as nat,
                        );
                        // the wrapped accumulator tracks the exact one
                        lemma_pow2_pos(128);
                        assert(addend as nat == (factor_exact * g) % modulus);
                        lemma_add_mod_noop(acc as int, (factor_exact * g) as int, modulus as int);
                        lemma_mod_bound(acc as int, modulus as int);
                        lemma_mod_bound((factor_exact * g) as int, modulus as int);
                        assert(new_result as nat == ((acc % modulus) + (factor_exact * g)
                            % modulus) % modulus);
                        assert(new_result as nat == (acc + factor_exact * g) % modulus);
                        acc = acc + factor_exact * g;
                    }
                    current_result = new_result;
                    proof {
                        lemma_pow_adds(b as int, i as nat, 1);
                        lemma_pow1(b as int);
                        lemma_pow_positive(b as int, i as nat);
                        assert(pow(b as int, (i + 1) as nat) == pow(b as int, i as nat) * (
                        b as int));
                        assert(pow(b as int, (i + 1) as nat) as nat == factor_exact * b);
                    }
                    if i + 1 < max_num_digits {
                        proof {
                            lemma_pow_increases(b, (i + 1) as nat, (max - 1) as nat);
                            assert(pow(b as int, (i + 1) as nat) < pow2(128));
                        }
                        current_factor = current_factor * num_digit_values;
                    }
                    i = i + 1;
                },
            }
        }
        proof {
            assert(digit_part_dec(source.bits(), d, 0) == Ok::<(nat, nat), nat>((0, 0)));
            assert(pow(b as int, i as nat) >= 0) by {
                lemma_pow_positive(b as int, i as nat);
            }
            assert((pow(b as int, i as nat) as nat) * 0 == 0) by (nonlinear_arith);
            assert(outer == Ok::<(nat, nat), nat>((acc, (i as nat * d) as nat)));
        }
        Ok(current_result)
    }

    /// Reads the short prefix when it applies, then the digit part, and
    /// restores the bias of two on the regular path. The returned value is
    /// reduced modulo `2^128`.
    fn read_unsigned_value<S: BitSource>(&self, source: &mut S, max_num_digits: u8) -> (r: Result<
        u128,
        DecodeError,
    >)
        requires
            max_num_digits >= 1 ==> pow(
                digit_base(self.spec_digit_size()) as int,
                (max_num_digits - 1) as nat,
            ) < pow2(128),
        ensures
            match digit_dec_unsigned(
                old(source).bits(),
                self.spec_digit_size(),
                self.spec_short_zero_and_one(),
                max_num_digits as nat,
            ) {
                Ok((v, c)) => r == Ok::<u128, DecodeError>((v % pow2(128)) as u128)
                    && final(source).bits() == old(source).bits().skip(c as int),
                Err(k) => r == Err::<u128, DecodeError>(
                    DecodeError::Reading(
                        ReadError::ReachedEnd {
                            read_bools: (old(source).bits().len() - k) as usize,
                        },
                    ),
                ) && final(source).bits() == Seq::<bool>::empty(),
            },
    {
        proof {
            use_type_invariant(&*self);
        }
        let ghost d = self.spec_digit_size();
        let ghost orig = old(source).bits();
        let ghost modulus = pow2(128);
        proof {
            lemma_pow2_adds(64, 64);
            lemma2_to64();
            lemma2_to64_rest();
            assert(modulus == 0x100000000000000000000000000000000);
        }
        if self.short_zero_and_one {
            let first_bit = match read_bit(source) {
                Ok(bit) => bit,
                Err(error) => {
                    return Err(error);
                },
            };
            if first_bit {
                let second_bit = match read_bit(source) {
                    Ok(bit) => bit,
                    Err(error) => {
                        proof {
                            assert(orig.skip(1).len() == 0);
                            assert(orig.len() == 1);
                        }
                        return Err(error);
                    },
                };
                proof {
                    assert(orig.skip(1).skip(1) =~= orig.skip(2));
                    lemma_small_mod(
                        if second_bit {
                            1nat
                        } else {
                            0nat
                        },
                        modulus,
                    );
                }
                if second_bit {
                    return Ok(1);
                } else {
                    return Ok(0);
                }
            }
            let ghost after_prefix = source.bits();
            proof {
                assert(after_prefix =~= orig.skip(1));
            }
            let part = match self.read_digit_part(source, max_num_digits) {
                Ok(value) => value,
                Err(error) => {
                    proof {
                        match digit_part_dec(after_prefix, d, max_num_digits as nat) {
                            Ok((v, c)) => {},
                            Err(k) => {
                                assert(after_prefix.len() - k == orig.len() - (1 + k));
                            },
                        }
                    }
                    return Err(error);
                },
            };
            proof {
                crate::digits::lemma_digit_part_dec_consumed(after_prefix, d, max_num_digits as nat);
                match digit_part_dec(after_prefix, d, max_num_digits as nat) {
                    Ok((v, c)) => {
                        assert(part as nat == v % modulus);
                        lemma_pow2_pos(128);
                        lemma_add_mod_noop(v as int, 2, modulus as int);
                        lemma_mod_bound(v as int, modulus as int);
                        lemma_small_mod(2, modulus);
                        assert((v % modulus + 2) % modulus == (v + 2) % modulus);
                        assert(orig.skip(1).skip(c as int) =~= orig.skip(1 + c as int));
                    },
                    Err(k) => {},
                }
            }
            let two: u128 = 2;
            Ok(part.wrapping_add(two))
        } else {
            self.read_digit_part(source, max_num_digits)
        }
    }

    /// Reads the short prefix when it applies, then one sign bit and the
    /// digit part, and reassembles the signed value. The returned value is
    /// the 128-bit two's-complement pattern of the decoded integer.
    fn read_signed_value<S: BitSource>(&self, source: &mut S, max_num_digits: u8) -> (r: Result<
        u128,
        DecodeError,
    >)
        requires
            max_num_digits >= 1 ==> pow(
                digit_base(self.spec_digit_size()) as int,
                (max_num_digits - 1) as nat,
            ) < pow2(128),
        ensures
            match digit_dec_signed(
                old(source).bits(),
                self.spec_digit_size(),
                self.spec_short_zero_and_one(),
                max_num_digits as nat,
            ) {
                Ok((v, c)) => r == Ok::<u128, DecodeError>(int_mod_pow2(v, 128) as u128)
                    && final(source).bits() == old(source).bits().skip(c as int),
                Err(k) => r == Err::<u128, DecodeError>(
                    DecodeError::Reading(
                        ReadError::ReachedEnd {
                            read_bools: (old(source).bits().len() - k) as usize,
                        },
                    ),
                ) && final(source).bits() == Seq::<bool>::empty(),
            },
    {
        proof {
            use_type_invariant(&*self);
        }
        let ghost d = self.spec_digit_size();
        let ghost orig = old(source).bits();
        let ghost modulus = pow2(128);
        let ghost short = self.spec_short_zero_and_one();
        proof {
            lemma_pow2_adds(64, 64);
            lemma2_to64();
            lemma2_to64_rest();
            assert(modulus == 0x100000000000000000000000000000000);
        }
        if self.short_zero_and_one {
            let first_bit = match read_bit(source) {
                Ok(bit) => bit,
                Err(error) => {
                    return Err(error);
                },
            };
            if first_bit {
                let second_bit = match read_bit(source) {
                    Ok(bit) => bit,
                    Err(error) => {
                        proof {
                            assert(orig.skip(1).len() == 0);
                            assert(orig.len() == 1);
                        }
                        return Err(error);
                    },
                };
                proof {
                    assert(orig.skip(1).skip(1) =~= orig.skip(2));
                    lemma_small_mod(
                        if second_bit {
                            1nat
                        } else {
                            0nat
                        },
                        modulus,
                    );
                }
                if second_bit {
                    return Ok(1);
                } else {
                    return Ok(0);
                }
            }
        }
        let ghost consumed_prefix: int = if short {
            1
        } else {
            0
        };
        let ghost after_prefix = source.bits();
        proof {
            assert(after_prefix =~= orig.skip(consumed_prefix));
        }
        let sign_bit = match read_bit(source) {
            Ok(bit) => bit,
            Err(error) => {
                proof {
                    if short {
                        assert(orig.skip(1).len() == 0);
                        assert(orig.len() == 1);
                    }
                }
                return Err(error);
            },
        };
        let ghost after_sign = source.bits();
        proof {
            assert(after_sign =~= orig.skip(consumed_prefix + 1));
        }
        let part = match self.read_digit_part(source, max_num_digits) {
            Ok(value) => value,
            Err(error) => {
                proof {
                    match digit_part_dec(after_sign, d, max_num_digits as nat) {
                        Ok((v, c)) => {},
                        Err(k) => {
                            assert(after_sign.len() - k == orig.len() - (consumed_prefix + 1 + k));
                        },
                    }
                }
                return Err(error);
            },
        };
        proof {
            crate::digits::lemma_digit_part_dec_consumed(after_sign, d, max_num_digits as nat);
            match digit_part_dec(after_sign, d, max_num_digits as nat) {
                Ok((v, c)) => {
                    assert(part as nat == v % modulus);
                    assert(orig.skip(consumed_prefix + 1).skip(c as int) =~= orig.skip(
                        consumed_prefix + 1 + c as int,
                    ));
                },
                Err(k) => {},
            }
        }
        if sign_bit {
            // the decoded value is -(magnitude) - 1
            proof {
                match digit_part_dec(after_sign, d, max_num_digits as nat) {
                    Ok((v, c)) => {
                        lemma_neg_mod_pow2(v, 128);
                        lemma_mod_bound(v as int, modulus as int);
                        assert(int_mod_pow2(-(v as int) - 1, 128) == modulus - 1 - (v % modulus));
                    },
                    Err(k) => {},
                }
            }
            Ok(u128::MAX - part)
        } else if self.short_zero_and_one {
            // the decoded value is magnitude + 2
            proof {
                match digit_part_dec(after_sign, d, max_num_digits as nat) {
                    Ok((v, c)) => {
                        lemma_pow2_pos(128);
                        lemma_add_mod_noop(v as int, 2, modulus as int);
                        lemma_mod_bound(v as int, modulus as int);
                        lemma_small_mod(2, modulus);
                        assert((v % modulus + 2) % modulus == (v + 2) % modulus);
                        lemma_small_mod((v + 2) as nat % modulus, modulus);
                        assert(int_mod_pow2((v + 2) as int, 128) == (v + 2) as nat % modulus);
                    },
                    Err(k) => {},
                }
            }
            let two: u128 = 2;
            Ok(part.wrapping_add(two))
        } else {
            proof {
                match digit_part_dec(after_sign, d, max_num_digits as nat) {
                    Ok((v, c)) => {
                        lemma_mod_bound(v as int, modulus as int);
                        assert(int_mod_pow2(v as int, 128) == v % modulus);
                    },
                    Err(k) => {},
                }
            }
            Ok(part)
        }
    }
}


impl IntDecodingProtocol for DigitDecodingProtocol {
    open spec fn dec_unsigned(&self, width: nat, bits: Seq<bool>) -> Result<(nat, nat), nat> {
        digit_dec_unsigned(
            bits,
            self.spec_digit_size(),
            self.spec_short_zero_and_one(),
            width_max_digits(self.spec_digit_size(), width),
        )
    }

    open spec fn dec_signed(&self, width: nat, bits: Seq<bool>) -> Result<(int, nat), nat> {
        digit_dec_signed(
            bits,
            self.spec_digit_size(),
            self.spec_short_zero_and_one(),
            width_max_digits(self.spec_digit_size(), (width - 1) as nat),
        )
    }

    fn read_u8<S: BitSource>(&self, source: &mut S) -> (r: Result<u8, DecodeError>) {
        proof {
            use_type_invariant(&*self);
            lemma_width_pow_bound(self.spec_digit_size(), 8);
            assert(relevant_bits()[1] == 8);
            assert(self.max_num_digits@[1] as nat == width_max_digits(self.spec_digit_size(), 8));
        }
        match self.read_unsigned_value(source, self.max_num_digits[1]) {
            Ok(value) => {
                proof {
                    lemma_unsigned_width_reduction(
                        self.dec_unsigned(8, old(source).bits()),
                        value,
                        8,
                    );
                }
                Ok((value % 256) as u8)
            },
            Err(error) => Err(error),
        }
    }

    fn read_i8<S: BitSource>(&self, source: &mut S) -> (r: Result<i8, DecodeError>) {
        proof {
            use_type_invariant(&*self);
            lemma_width_pow_bound(self.spec_digit_size(), 7);
            assert(relevant_bits()[0] == 7);
            assert(self.max_num_digits@[0] as nat == width_max_digits(self.spec_digit_size(), 7));
        }
        match self.read_signed_value(source, self.max_num_digits[0]) {
            Ok(pattern) => {
                proof {
                    lemma_signed_width_reduction(self.dec_signed(8, old(source).bits()), pattern, 8);
                }
                let reduced: u128 = pattern % 256;
                Ok(twos_to_signed(reduced, 8) as i8)
            },
            Err(error) => Err(error),
        }
    }

    fn read_u16<S: BitSource>(&self, source: &mut S) -> (r: Result<u16, DecodeError>) {
        proof {
            use_type_invariant(&*self);
            lemma_width_pow_bound(self.spec_digit_size(), 16);
            assert(relevant_bits()[3] == 16);
            assert(self.max_num_digits@[3] as nat == width_max_digits(self.spec_digit_size(), 16));
        }
        match self.read_unsigned_value(source, self.max_num_digits[3]) {
            Ok(value) => {
                proof {
                    lemma_unsigned_width_reduction(
                        self.dec_unsigned(16, old(source).bits()),
                        value,
                        16,
                    );
                }
                Ok((value % 0x10000) as u16)
            },
            Err(error) => Err(error),
        }
    }

    fn read_i16<S: BitSource>(&self, source: &mut S) -> (r: Result<i16, DecodeError>) {
        proof {
            use_type_invariant(&*self);
            lemma_width_pow_bound(self.spec_digit_size(), 15);
            assert(relevant_bits()[2] == 15);
            assert(self.max_num_digits@[2] as nat == width_max_digits(self.spec_digit_size(), 15));
        }
        match self.read_signed_value(source, self.max_num_digits[2]) {
            Ok(pattern) => {
                proof {
                    lemma_signed_width_reduction(
                        self.dec_signed(16, old(source).bits()),
                        pattern,
                        16,
                    );
                }
                let reduced: u128 = pattern % 0x10000;
                Ok(twos_to_signed(reduced, 16) as i16)
            },
            Err(error) => Err(error),
        }
    }

    fn read_u32<S: BitSource>(&self, source: &mut S) -> (r: Result<u32, DecodeError>) {
        proof {
            use_type_invariant(&*self);
            lemma_width_pow_bound(self.spec_digit_size(), 32);
            assert(relevant_bits()[5] == 32);
            assert(self.max_num_digits@[5] as nat == width_max_digits(self.spec_digit_size(), 32));
        }
        match self.read_unsigned_value(source, self.max_num_digits[5]) {
            Ok(value) => {
                proof {
                    lemma_unsigned_width_reduction(
                        self.dec_unsigned(32, old(source).bits()),
                        value,
                        32,
                    );
                }
                Ok((value % 0x100000000) as u32)
            },
            Err(error) => Err(error),
        }
    }

    fn read_i32<S: BitSource>(&self, source: &mut S) -> (r: Result<i32, DecodeError>) {
        proof {
            use_type_invariant(&*self);
            lemma_width_pow_bound(self.spec_digit_size(), 31);
            assert(relevant_bits()[4] == 31);
            assert(self.max_num_digits@[4] as nat == width_max_digits(self.spec_digit_size(), 31));
        }
        match self.read_signed_value(source, self.max_num_digits[4]) {
            Ok(pattern) => {
                proof {
                    lemma_signed_width_reduction(
                        self.dec_signed(32, old(source).bits()),
                        pattern,
                        32,
                    );
                }
                let reduced: u128 = pattern % 0x100000000;
                Ok(twos_to_signed(reduced, 32) as i32)
            },
            Err(error) => Err(error),
        }
    }

    fn read_u64<S: BitSource>(&self, source: &mut S) -> (r: Result<u64, DecodeError>) {
        proof {
            use_type_invariant(&*self);
            lemma_width_pow_bound(self.spec_digit_size(), 64);
            assert(relevant_bits()[7] == 64);
            assert(self.max_num_digits@[7] as nat == width_max_digits(self.spec_digit_size(), 64));
        }
        match self.read_unsigned_value(source, self.max_num_digits[7]) {
            Ok(value) => {
                proof {
                    lemma_unsigned_width_reduction(
                        self.dec_unsigned(64, old(source).bits()),
                        value,
                        64,
                    );
                }
                Ok((value % 0x10000000000000000) as u64)
            },
            Err(error) => Err(error),
        }
    }

    fn read_i64<S: BitSource>(&self, source: &mut S) -> (r: Result<i64, DecodeError>) {
        proof {
            use_type_invariant(&*self);
            lemma_width_pow_bound(self.spec_digit_size(), 63);
            assert(relevant_bits()[6] == 63);
            assert(self.max_num_digits@[6] as nat == width_max_digits(self.spec_digit_size(), 63));
        }
        match self.read_signed_value(source, self.max_num_digits[6]) {
            Ok(pattern) => {
                proof {
                    lemma_signed_width_reduction(
                        self.dec_signed(64, old(source).bits()),
                        pattern,
                        64,
                    );
                }
                let reduced: u128 = pattern % 0x10000000000000000;
                Ok(twos_to_signed(reduced, 64) as i64)
            },
            Err(error) => Err(error),
        }
    }

    fn read_u128<S: BitSource>(&self, source: &mut S) -> (r: Result<u128, DecodeError>) {
        proof {
            use_type_invariant(&*self);
            lemma_width_pow_bound(self.spec_digit_size(), 128);
            assert(relevant_bits()[9] == 128);
            assert(self.max_num_digits@[9] as nat == width_max_digits(self.spec_digit_size(), 128));
        }
        self.read_unsigned_value(source, self.max_num_digits[9])
    }

    fn read_i128<S: BitSource>(&self, source: &mut S) -> (r: Result<i128, DecodeError>) {
        proof {
            use_type_invariant(&*self);
            lemma_width_pow_bound(self.spec_digit_size(), 127);
            assert(relevant_bits()[8] == 127);
            assert(self.max_num_digits@[8] as nat == width_max_digits(self.spec_digit_size(), 127));
        }
        match self.read_signed_value(source, self.max_num_digits[8]) {
            Ok(pattern) => {
                proof {
                    lemma_signed_width_reduction(
                        self.dec_signed(128, old(source).bits()),
                        pattern,
                        128,
                    );
                }
                Ok(twos_to_signed(pattern, 128))
            },
            Err(error) => Err(error),
        }
    }
}

/// Reducing a decoded unsigned value from the 128-bit accumulator to the
/// method's width: the accumulator holds the exact value modulo `2^128`,
/// and a further reduction modulo `2^width` gives the value the method
/// returns.
proof fn lemma_unsigned_width_reduction(dec: Result<(nat, nat), nat>, value: u128, width: nat)
    requires
        1 <= width <= 128,
        dec is Ok ==> value == (dec->Ok_0.0 % pow2(128)) as u128,
    ensures
        dec is Ok ==> (value as nat % pow2(width)) as nat == dec->Ok_0.0 % pow2(width),
        pow2(8) == 0x100,
        pow2(16) == 0x10000,
        pow2(32) == 0x100000000,
        pow2(64) == 0x10000000000000000,
        pow2(128) == 0x100000000000000000000000000000000,
{
    lemma_pow2_adds(64, 64);
    lemma2_to64();
    lemma2_to64_rest();
    if dec is Ok {
        let v = dec->Ok_0.0;
        lemma_mod_bound(v as int, pow2(128) as int);
        assert(value as nat == v % pow2(128));
        lemma_pow2_pos(width);
        lemma_pow2_pos((128 - width) as nat);
        lemma_pow2_adds(width, (128 - width) as nat);
        lemma_mod_mod(v as int, pow2(width) as int, pow2((128 - width) as nat) as int);
        lemma_mod_bound(v as int, pow2(128) as int);
        lemma_mod_bound((v as int % pow2(128) as int), pow2(width) as int);
    }
}

/// Reducing a decoded signed value from the 128-bit two's-complement
/// pattern to the method's width: a further reduction modulo `2^width`,
/// read at the width's midpoint, gives `signed_truncate` of the exact
/// value.
proof fn lemma_signed_width_reduction(dec: Result<(int, nat), nat>, pattern: u128, width: nat)
    requires
        1 <= width <= 128,
        dec is Ok ==> pattern == int_mod_pow2(dec->Ok_0.0, 128) as u128,
    ensures
        dec is Ok ==> {
            let reduced = pattern as nat % pow2(width);
            reduced == int_mod_pow2(dec->Ok_0.0, width) && reduced < pow2(width) && signed_of(
                reduced,
                width,
            ) == signed_truncate(dec->Ok_0.0, width)
        },
        pow2(8) == 0x100,
        pow2(16) == 0x10000,
        pow2(32) == 0x100000000,
        pow2(64) == 0x10000000000000000,
        pow2(128) == 0x100000000000000000000000000000000,
{
    lemma_pow2_adds(64, 64);
    lemma2_to64();
    lemma2_to64_rest();
    if dec is Ok {
        let v = dec->Ok_0.0;
        lemma_pow2_pos(128);
        lemma_mod_bound(v, pow2(128) as int);
        assert(pattern as nat == int_mod_pow2(v, 128));
        lemma_pow2_pos(width);
        lemma_int_mod_pow2_twice(v, width, 128);
        lemma_mod_bound(int_mod_pow2(v, 128) as int, pow2(width) as int);
        assert(int_mod_pow2(int_mod_pow2(v, 128) as int, width) == int_mod_pow2(v, width));
        assert(int_mod_pow2(v, 128) as int % (pow2(width) as int) == (int_mod_pow2(v, 128) % pow2(
            width,
        )) as int);
    }
}

} // verus!
