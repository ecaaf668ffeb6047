//! The variable-width digit encoder: integers are written digit by digit in
//! a base derived from a configurable digit size, with a reserved all-ones
//! terminator digit, so that small values get short encodings.

use vstd::prelude::*;

use crate::bits::bits_of_uint;
use crate::bits::lemma_pow2_fits_u128;
use crate::bits::pow2_u128;
use crate::digits::count_digits;
use crate::digits::digit_base;
use crate::digits::digit_enc_signed;
use crate::digits::digit_enc_unsigned;
use crate::digits::digit_part_enc;
use crate::digits::lemma_count_digits_bounded;
use crate::digits::lemma_count_digits_step;
use crate::digits::lemma_count_within_width;
use crate::digits::lemma_digit_base_bounds;
use crate::digits::lemma_digit_part_enc_step;
use crate::digits::relevant_bits;
use crate::digits::valid_digit_size;
use crate::digits::width_max_digits;
use crate::encoding::simple::SimpleEncodingProtocol;
use crate::encoding::EncodingProtocol;
use crate::sink::BitSink;
use crate::sink::WriteError;
use vstd::arithmetic::div_mod::lemma_div_decreases;
use vstd::arithmetic::div_mod::lemma_mod_division_less_than_divisor;
use vstd::arithmetic::power2::lemma2_to64;
use vstd::arithmetic::power2::lemma2_to64_rest;
use vstd::arithmetic::power2::lemma_pow2_adds;
use vstd::arithmetic::power2::pow2;

verus! {

/// The number of data digit values for digits of `digit_size` bits; the
/// value `2^digit_size - 1` itself is the reserved terminator.
pub(crate) fn get_num_digit_values(digit_size: u8) -> (r: u128)
    requires
        valid_digit_size(digit_size as nat),
    ensures
        r as nat == digit_base(digit_size as nat),
        r >= 3,
{
    proof {
        lemma_digit_base_bounds(digit_size as nat);
        lemma_pow2_fits_u128(digit_size as nat);
    }
    pow2_u128(digit_size as usize) - 1
}

/// How many digits of `digit_size` bits the largest magnitude of `max_bits`
/// bits needs.
fn compute_num_digits(digit_size: u8, max_bits: u8) -> (r: u8)
    requires
        valid_digit_size(digit_size as nat),
        1 <= max_bits <= 128,
    ensures
        r as nat == width_max_digits(digit_size as nat, max_bits as nat),
{
    let num_digit_values: u128 = get_num_digit_values(digit_size);
    let ghost b = digit_base(digit_size as nat);
    let mut value: u128 = if max_bits == 128 {
        proof {
            lemma_pow2_adds(64, 64);
            lemma2_to64();
            lemma2_to64_rest();
            assert(pow2(128) == 0x100000000000000000000000000000000);
        }
        u128::MAX
    } else {
        proof {
            lemma_pow2_fits_u128(max_bits as nat);
            vstd::arithmetic::power2::lemma_pow2_pos(max_bits as nat);
        }
        pow2_u128(max_bits as usize) - 1
    };
    let ghost start = value as nat;
    proof {
        assert(start == pow2(max_bits as nat) - 1);
        lemma_pow2_adds(64, 64);
        lemma2_to64();
        lemma2_to64_rest();
        assert(start < pow2(128));
        lemma_count_digits_bounded(start, b, 128);
    }
    let mut counter: u8 = 0;
    while value > 0
        invariant
            num_digit_values as nat == b,
            b >= 3,
            counter as nat + count_digits(value as nat, b) == count_digits(start, b),
            count_digits(start, b) <= 128,
        decreases value,
    {
        proof {
            lemma_count_digits_step(value as nat, b);
            lemma_div_decreases(value as int, b as int);
        }
        value = value / num_digit_values;
        counter = counter + 1;
    }
    counter
}

/// The per-width maximum digit counts for the given digit size, in the
/// order of `relevant_bits`.
pub(crate) fn compute_relevant_num_digits(digit_size: u8) -> (r: [u8; 10])
    requires
        valid_digit_size(digit_size as nat),
    ensures
        forall|i: int|
            0 <= i < 10 ==> (#[trigger] r@[i]) as nat == width_max_digits(
                digit_size as nat,
                relevant_bits()[i],
            ),
{
    let r: [u8; 10] = [
        compute_num_digits(digit_size, 7),
        compute_num_digits(digit_size, 8),
        compute_num_digits(digit_size, 15),
        compute_num_digits(digit_size, 16),
        compute_num_digits(digit_size, 31),
        compute_num_digits(digit_size, 32),
        compute_num_digits(digit_size, 63),
        compute_num_digits(digit_size, 64),
        compute_num_digits(digit_size, 127),
        compute_num_digits(digit_size, 128),
    ];
    r
}

/// An `EncodingProtocol` that writes integers digit by digit and marks the
/// end of a number with a reserved terminator digit. It is suitable for
/// encoding values that are usually small.
///
/// It is inspired by the decimal notation of integers: the number 537 needs
/// only four digits (counting the closing delimiter), yet the same notation
/// can write numbers of many more digits. This protocol generalises the
/// idea: with a digit size of `d` bits there are `2^d - 1` data digit
/// values, and the all-ones pattern is the terminator. A magnitude is
/// written as its digits in base `2^d - 1`, least significant first; a
/// terminator digit follows unless the number of digits has reached the
/// statically known maximum for the integer width being encoded, in which
/// case the reader already knows to stop.
///
/// In real applications the values 0 and 1 are by far the most common (for
/// instance, encoded collection sizes are usually 0). When
/// `short_zero_and_one` is enabled, the first written bit discriminates: a
/// `1` announces that a single further bit picks between the values 0 and 1,
/// while a `0` announces the regular digit encoding of the value minus two.
/// This gives 0 and 1 two-bit encodings at the cost of one extra bit on all
/// other values, so it is configurable.
pub struct DigitIntEncodingProtocol {
    digit_size: u8,
    short_zero_and_one: bool,
    max_num_digits: [u8; 10],
}

impl DigitIntEncodingProtocol {
    #[verifier::type_invariant]
    closed spec fn wf(self) -> bool {
        &&& valid_digit_size(self.digit_size as nat)
        &&& forall|i: int|
            0 <= i < 10 ==> (#[trigger] self.max_num_digits@[i]) as nat == width_max_digits(
                self.digit_size as nat,
                relevant_bits()[i],
            )
    }

    /// The configured digit size: the number of bits of one digit.
    pub closed spec fn spec_digit_size(&self) -> nat {
        self.digit_size as nat
    }

    /// Whether the two-bit short encodings of 0 and 1 are enabled.
    pub closed spec fn spec_short_zero_and_one(&self) -> bool {
        self.short_zero_and_one
    }

    /// Constructs a `DigitIntEncodingProtocol` with the given configuration:
    /// `digit_size` is the number of bits of one digit, between 2 and 127,
    /// and `short_zero_and_one` enables the extra short encodings of 0 and 1
    /// at the expense of a slightly longer encoding of every other value.
    pub fn new(digit_size: u8, short_zero_and_one: bool) -> (r: Self)
        requires
            2 <= digit_size <= 127,
        ensures
            r.spec_digit_size() == digit_size as nat,
            r.spec_short_zero_and_one() == short_zero_and_one,
    {
        DigitIntEncodingProtocol {
            digit_size,
            short_zero_and_one,
            max_num_digits: compute_relevant_num_digits(digit_size),
        }
    }

    /// The first configuration found to perform well: a digit size of 3 with
    /// the short encodings of 0 and 1 enabled. The `v1` function of
    /// `DigitDecodingProtocol` returns the corresponding decoder.
    pub fn v1() -> (r: Self)
        ensures
            r.spec_digit_size() == 3,
            r.spec_short_zero_and_one() == true,
    {
        Self::new(3, true)
    }

    /// Writes the digits of `value` in the configured base, least
    /// significant first, followed by a terminator digit unless
    /// `max_num_digits` digits were written.
    fn write_digit_part<S: BitSink>(
        &self,
        sink: &mut S,
        value: u128,
        max_num_digits: u8,
    ) -> (r: Result<(), WriteError>)
        requires
            count_digits(value as nat, digit_base(self.spec_digit_size())) <= max_num_digits,
        ensures
            old(sink).never_fails() ==> r is Ok,
            r is Ok && old(sink).retains() ==> final(sink).bits() == old(sink).bits()
                + digit_part_enc(value as nat, self.spec_digit_size(), max_num_digits as nat),
            r is Ok && !old(sink).retains() ==> final(sink).bits() == old(sink).bits(),
            final(sink).retains() == old(sink).retains(),
            final(sink).never_fails() == old(sink).never_fails(),
    {
        proof {
            use_type_invariant(&*self);
        }
        let ghost d = self.digit_size as nat;
        let ghost b = digit_base(d);
        let ghost max = max_num_digits as nat;
        let ghost target = digit_part_enc(value as nat, d, max);
        let simple_encoder = SimpleEncodingProtocol::new();
        let num_digit_values: u128 = get_num_digit_values(self.digit_size);
        let mut v: u128 = value;
        let mut num_digits: u8 = 0;
        let ghost mut emitted: Seq<bool> = Seq::empty();
        proof {
            assert(Seq::<bool>::empty() + digit_part_enc(v as nat, d, max) =~= digit_part_enc(
                v as nat,
                d,
                max,
            ));
            assert(old(sink).bits() + Seq::<bool>::empty() =~= old(sink).bits());
        }
        while v > 0
            invariant
                valid_digit_size(d),
                self.spec_digit_size() == d,
                b == digit_base(d),
                num_digit_values as nat == b,
                num_digit_values >= 3,
                num_digits as nat + count_digits(v as nat, b) == count_digits(value as nat, b),
                count_digits(value as nat, b) <= max,
                max == max_num_digits as nat,
                target == emitted + digit_part_enc(v as nat, d, (max - num_digits) as nat),
                target == digit_part_enc(value as nat, d, max),
                sink.retains() == old(sink).retains(),
                sink.never_fails() == old(sink).never_fails(),
                sink.retains() ==> sink.bits() == old(sink).bits() + emitted,
                !sink.retains() ==> sink.bits() == old(sink).bits(),
            decreases v,
        {
            let next_digit: u128 = v % num_digit_values;
            proof {
                lemma_count_digits_step(v as nat, b);
                lemma_mod_division_less_than_divisor(v as int, b as int);
            }
            match simple_encoder.write_unsigned(sink, self.digit_size as usize, next_digit) {
                Ok(()) => {},
                Err(error) => {
                    return Err(error);
                },
            }
            proof {
                lemma_digit_part_enc_step(v as nat, d, (max - num_digits) as nat);
                let head = bits_of_uint(next_digit as nat, d);
                assert(emitted + (head + digit_part_enc(
                    (v as nat / b) as nat,
                    d,
                    (max - num_digits - 1) as nat,
                )) =~= (emitted + head) + digit_part_enc(
                    (v as nat / b) as nat,
                    d,
                    (max - num_digits - 1) as nat,
                ));
                emitted = emitted + head;
                lemma_div_decreases(v as int, b as int);
            }
            v = v / num_digit_values;
            num_digits = num_digits + 1;
        }
        if num_digits < max_num_digits {
            let ghost term = bits_of_uint(b, d);
            match simple_encoder.write_unsigned(sink, self.digit_size as usize, num_digit_values) {
                Ok(()) => {},
                Err(error) => {
                    return Err(error);
                },
            }
            proof {
                assert(count_digits(v as nat, b) == 0);
                assert(digit_part_enc(v as nat, d, (max - num_digits) as nat) =~= term);
                assert((old(sink).bits() + emitted) + term =~= old(sink).bits() + (emitted + term));
            }
        } else {
            proof {
                assert(count_digits(v as nat, b) == 0);
                assert(num_digits as nat == count_digits(value as nat, b));
                assert(digit_part_enc(v as nat, d, (max - num_digits) as nat) =~= Seq::<
                    bool,
                >::empty());
                assert(emitted + Seq::<bool>::empty() =~= emitted);
            }
        }
        Ok(())
    }

    /// Writes the short prefix when it applies, then the digit part of the
    /// remaining magnitude.
    fn write_unsigned_value<S: BitSink>(
        &self,
        sink: &mut S,
        value: u128,
        max_num_digits: u8,
    ) -> (r: Result<(), WriteError>)
        requires
            self.spec_short_zero_and_one() && value >= 2 ==> count_digits(
                (value - 2) as nat,
                digit_base(self.spec_digit_size()),
            ) <= max_num_digits,
            !self.spec_short_zero_and_one() ==> count_digits(
                value as nat,
                digit_base(self.spec_digit_size()),
            ) <= max_num_digits,
        ensures
            old(sink).never_fails() ==> r is Ok,
            r is Ok && old(sink).retains() ==> final(sink).bits() == old(sink).bits()
                + digit_enc_unsigned(
                self.spec_digit_size(),
                self.spec_short_zero_and_one(),
                max_num_digits as nat,
                value as nat,
            ),
            r is Ok && !old(sink).retains() ==> final(sink).bits() == old(sink).bits(),
            final(sink).retains() == old(sink).retains(),
            final(sink).never_fails() == old(sink).never_fails(),
    {
        let mut value: u128 = value;
        if self.short_zero_and_one {
            if value == 0 {
                let mut prefix: Vec<bool> = Vec::new();
                prefix.push(true);
                prefix.push(false);
                proof {
                    assert(prefix@ =~= seq![true, false]);
                }
                return sink.write(prefix.as_slice());
            } else if value == 1 {
                let mut prefix: Vec<bool> = Vec::new();
                prefix.push(true);
                prefix.push(true);
                proof {
                    assert(prefix@ =~= seq![true, true]);
                }
                return sink.write(prefix.as_slice());
            } else {
                let mut prefix: Vec<bool> = Vec::new();
                prefix.push(false);
                proof {
                    assert(prefix@ =~= seq![false]);
                }
                match sink.write(prefix.as_slice()) {
                    Ok(()) => {},
                    Err(error) => {
                        return Err(error);
                    },
                }
                value = value - 2;
            }
        }
        let ghost mid = sink.bits();
        let r = self.write_digit_part(sink, value, max_num_digits);
        proof {
            if r is Ok && sink.retains() && self.spec_short_zero_and_one() {
                assert((old(sink).bits() + seq![false]) + digit_part_enc(
                    value as nat,
                    self.spec_digit_size(),
                    max_num_digits as nat,
                ) =~= old(sink).bits() + (seq![false] + digit_part_enc(
                    value as nat,
                    self.spec_digit_size(),
                    max_num_digits as nat,
                )));
            }
        }
        r
    }

    /// Writes the short prefix when it applies, then one sign bit, then the
    /// digit part of the magnitude: `-value - 1` for a negative value, and
    /// `value` less the short-encoding bias of two otherwise.
    fn write_signed_value<S: BitSink>(
        &self,
        sink: &mut S,
        value: i128,
        max_num_digits: u8,
    ) -> (r: Result<(), WriteError>)
        requires
            value < 0 ==> count_digits(
                (-value - 1) as nat,
                digit_base(self.spec_digit_size()),
            ) <= max_num_digits,
            value >= 2 && self.spec_short_zero_and_one() ==> count_digits(
                (value - 2) as nat,
                digit_base(self.spec_digit_size()),
            ) <= max_num_digits,
            value >= 0 && !self.spec_short_zero_and_one() ==> count_digits(
                value as nat,
                digit_base(self.spec_digit_size()),
            ) <= max_num_digits,
        ensures
            old(sink).never_fails() ==> r is Ok,
            r is Ok && old(sink).retains() ==> final(sink).bits() == old(sink).bits()
                + digit_enc_signed(
                self.spec_digit_size(),
                self.spec_short_zero_and_one(),
                max_num_digits as nat,
                value as int,
            ),
            r is Ok && !old(sink).retains() ==> final(sink).bits() == old(sink).bits(),
            final(sink).retains() == old(sink).retains(),
            final(sink).never_fails() == old(sink).never_fails(),
    {
        let ghost d = self.spec_digit_size();
        let ghost max = max_num_digits as nat;
        let mut value: i128 = value;
        if self.short_zero_and_one {
            if value == 0 {
                let mut prefix: Vec<bool> = Vec::new();
                prefix.push(true);
                prefix.push(false);
                proof {
                    assert(prefix@ =~= seq![true, false]);
                }
                return sink.write(prefix.as_slice());
            } else if value == 1 {
                let mut prefix: Vec<bool> = Vec::new();
                prefix.push(true);
                prefix.push(true);
                proof {
                    assert(prefix@ =~= seq![true, true]);
                }
                return sink.write(prefix.as_slice());
            } else {
                let mut prefix: Vec<bool> = Vec::new();
                prefix.push(false);
                proof {
                    assert(prefix@ =~= seq![false]);
                }
                match sink.write(prefix.as_slice()) {
                    Ok(()) => {},
                    Err(error) => {
                        return Err(error);
                    },
                }
                if value >= 0 {
                    value = value - 2;
                }
            }
        }
        let ghost original: int = if self.spec_short_zero_and_one() && value >= 0 {
            value + 2
        } else {
            value as int
        };
        let magnitude: u128;
        let mut sign: Vec<bool> = Vec::new();
        if value < 0 {
            sign.push(true);
            magnitude = (-(value + 1)) as u128;
            proof {
                assert(sign@ =~= seq![true]);
                assert(magnitude as nat == (-original - 1) as nat);
            }
        } else {
            sign.push(false);
            magnitude = value as u128;
            proof {
                assert(sign@ =~= seq![false]);
            }
        }
        match sink.write(sign.as_slice()) {
            Ok(()) => {},
            Err(error) => {
                return Err(error);
            },
        }
        let r = self.write_digit_part(sink, magnitude, max_num_digits);
        proof {
            if r is Ok && sink.retains() {
                let part = digit_part_enc(magnitude as nat, d, max);
                if self.spec_short_zero_and_one() {
                    assert(((old(sink).bits() + seq![false]) + sign@) + part =~= old(sink).bits()
                        + ((seq![false] + sign@) + part));
                    if original < 0 {
                        assert(seq![false] + sign@ =~= seq![false, true]);
                    } else {
                        assert(seq![false] + sign@ =~= seq![false, false]);
                    }
                } else {
                    assert((old(sink).bits() + sign@) + part =~= old(sink).bits() + (sign@ + part));
                }
            }
        }
        r
    }
}

impl EncodingProtocol for DigitIntEncodingProtocol {
    open spec fn enc_unsigned(&self, width: nat, value: nat) -> Seq<bool> {
        digit_enc_unsigned(
            self.spec_digit_size(),
            self.spec_short_zero_and_one(),
            width_max_digits(self.spec_digit_size(), width),
            value,
        )
    }

    open spec fn enc_signed(&self, width: nat, value: int) -> Seq<bool> {
        digit_enc_signed(
            self.spec_digit_size(),
            self.spec_short_zero_and_one(),
            width_max_digits(self.spec_digit_size(), (width - 1) as nat),
            value,
        )
    }

    fn write_u8<S: BitSink>(&self, sink: &mut S, value: u8) -> (r: Result<(), WriteError>) {
        proof {
            use_type_invariant(&*self);
            lemma2_to64();
            lemma_count_within_width(self.spec_digit_size(), value as nat, 8);
            if value >= 2 {
                lemma_count_within_width(self.spec_digit_size(), (value - 2) as nat, 8);
            }
        }
        self.write_unsigned_value(sink, value as u128, self.max_num_digits[1])
    }

    fn write_i8<S: BitSink>(&self, sink: &mut S, value: i8) -> (r: Result<(), WriteError>) {
        proof {
            use_type_invariant(&*self);
            lemma2_to64();
            if value < 0 {
                lemma_count_within_width(self.spec_digit_size(), (-value - 1) as nat, 7);
            } else {
                lemma_count_within_width(self.spec_digit_size(), value as nat, 7);
                if value >= 2 {
                    lemma_count_within_width(self.spec_digit_size(), (value - 2) as nat, 7);
                }
            }
        }
        self.write_signed_value(sink, value as i128, self.max_num_digits[0])
    }

    fn write_u16<S: BitSink>(&self, sink: &mut S, value: u16) -> (r: Result<(), WriteError>) {
        proof {
            use_type_invariant(&*self);
            lemma2_to64();
            lemma_count_within_width(self.spec_digit_size(), value as nat, 16);
            if value >= 2 {
                lemma_count_within_width(self.spec_digit_size(), (value - 2) as nat, 16);
            }
        }
        self.write_unsigned_value(sink, value as u128, self.max_num_digits[3])
    }

    fn write_i16<S: BitSink>(&self, sink: &mut S, value: i16) -> (r: Result<(), WriteError>) {
        proof {
            use_type_invariant(&*self);
            lemma2_to64();
            if value < 0 {
                lemma_count_within_width(self.spec_digit_size(), (-value - 1) as nat, 15);
            } else {
                lemma_count_within_width(self.spec_digit_size(), value as nat, 15);
                if value >= 2 {
                    lemma_count_within_width(self.spec_digit_size(), (value - 2) as nat, 15);
                }
            }
        }
        self.write_signed_value(sink, value as i128, self.max_num_digits[2])
    }

    fn write_u32<S: BitSink>(&self, sink: &mut S, value: u32) -> (r: Result<(), WriteError>) {
        proof {
            use_type_invariant(&*self);
            lemma2_to64();
            lemma_count_within_width(self.spec_digit_size(), value as nat, 32);
            if value >= 2 {
                lemma_count_within_width(self.spec_digit_size(), (value - 2) as nat, 32);
            }
        }
        self.write_unsigned_value(sink, value as u128, self.max_num_digits[5])
    }

    fn write_i32<S: BitSink>(&self, sink: &mut S, value: i32) -> (r: Result<(), WriteError>) {
        proof {
            use_type_invariant(&*self);
            lemma2_to64();
            if value < 0 {
                lemma_count_within_width(self.spec_digit_size(), (-value - 1) as nat, 31);
            } else {
                lemma_count_within_width(self.spec_digit_size(), value as nat, 31);
                if value >= 2 {
                    lemma_count_within_width(self.spec_digit_size(), (value - 2) as nat, 31);
                }
            }
        }
        self.write_signed_value(sink, value as i128, self.max_num_digits[4])
    }

    fn write_u64<S: BitSink>(&self, sink: &mut S, value: u64) -> (r: Result<(), WriteError>) {
        proof {
            use_type_invariant(&*self);
            lemma2_to64();
            lemma2_to64_rest();
            lemma_count_within_width(self.spec_digit_size(), value as nat, 64);
            if value >= 2 {
                lemma_count_within_width(self.spec_digit_size(), (value - 2) as nat, 64);
            }
        }
        self.write_unsigned_value(sink, value as u128, self.max_num_digits[7])
    }

    fn write_i64<S: BitSink>(&self, sink: &mut S, value: i64) -> (r: Result<(), WriteError>) {
        proof {
            use_type_invariant(&*self);
            lemma2_to64();
            lemma2_to64_rest();
            if value < 0 {
                lemma_count_within_width(self.spec_digit_size(), (-value - 1) as nat, 63);
            } else {
                lemma_count_within_width(self.spec_digit_size(), value as nat, 63);
                if value >= 2 {
                    lemma_count_within_width(self.spec_digit_size(), (value - 2) as nat, 63);
                }
            }
        }
        self.write_signed_value(sink, value as i128, self.max_num_digits[6])
    }

    fn write_u128<S: BitSink>(&self, sink: &mut S, value: u128) -> (r: Result<(), WriteError>) {
        proof {
            use_type_invariant(&*self);
            lemma_pow2_adds(64, 64);
            lemma2_to64();
            lemma2_to64_rest();
            assert(pow2(128) == 0x100000000000000000000000000000000);
            lemma_count_within_width(self.spec_digit_size(), value as nat, 128);
            if value >= 2 {
                lemma_count_within_width(self.spec_digit_size(), (value - 2) as nat, 128);
            }
        }
        self.write_unsigned_value(sink, value, self.max_num_digits[9])
    }

    fn write_i128<S: BitSink>(&self, sink: &mut S, value: i128) -> (r: Result<(), WriteError>) {
        proof {
            use_type_invariant(&*self);
            lemma_pow2_adds(63, 64);
            lemma2_to64();
            lemma2_to64_rest();
            assert(pow2(127) == 0x80000000000000000000000000000000);
            if value < 0 {
                lemma_count_within_width(self.spec_digit_size(), (-value - 1) as nat, 127);
            } else {
                lemma_count_within_width(self.spec_digit_size(), value as nat, 127);
                if value >= 2 {
                    lemma_count_within_width(self.spec_digit_size(), (value - 2) as nat, 127);
                }
            }
        }
        self.write_signed_value(sink, value, self.max_num_digits[8])
    }
}

} // verus!
