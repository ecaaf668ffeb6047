//! The fixed-width decoder: every integer is read back from its plain
//! binary representation, least significant bit first.

use vstd::prelude::*;

use crate::bits::lemma_pow2_fits_u128;
use crate::bits::lemma_signed_truncate_identity;
use crate::bits::lemma_uint_of_bits_bound;
use crate::bits::signed_of;
use crate::bits::uint_from_bits;
use crate::bits::uint_of_bits;
use crate::decoding::DecodeError;
use crate::decoding::IntDecodingProtocol;
use crate::source::BitSource;
use vstd::arithmetic::div_mod::lemma_small_mod;
use vstd::arithmetic::power2::lemma2_to64;
use vstd::arithmetic::power2::lemma2_to64_rest;
use vstd::arithmetic::power2::lemma_pow2_adds;
use vstd::arithmetic::power2::lemma_pow2_pos;
use vstd::arithmetic::power2::lemma_pow2_strictly_increases;
use vstd::arithmetic::power2::pow2;

verus! {

/// The simple implementation of `IntDecodingProtocol`: it decodes integers
/// back from their plain binary representation, least significant bit first.
///
/// This implementation is ideal when every possible integer has an equal
/// chance to be stored, but not so great when some integers (for instance
/// the small ones) are much more common than the others.
///
/// The corresponding encoding protocol is `SimpleEncodingProtocol`.
pub struct SimpleIntDecodingProtocol {}

impl SimpleIntDecodingProtocol {
    /// Constructs the simple decoding protocol. This is a no-op since the
    /// protocol has no configuration.
    pub fn new() -> (r: Self) {
        SimpleIntDecodingProtocol {  }
    }

    /// Reads `num_bits` booleans from `source` and reconstructs the unsigned
    /// integer they spell, least significant bit first. Fails with the
    /// source's end-of-data error when fewer booleans remain; the source is
    /// then drained.
    pub fn read_unsigned<S: BitSource>(&self, source: &mut S, num_bits: usize) -> (r: Result<
        u128,
        DecodeError,
    >)
        requires
            num_bits <= 128,
        ensures
            old(source).bits().len() >= num_bits ==> r == Ok::<u128, DecodeError>(
                uint_of_bits(old(source).bits().take(num_bits as int)) as u128,
            ) && final(source).bits() == old(source).bits().skip(num_bits as int),
            old(source).bits().len() < num_bits ==> r == Err::<u128, DecodeError>(
                DecodeError::Reading(
                    crate::source::ReadError::ReachedEnd {
                        read_bools: old(source).bits().len() as usize,
                    },
                ),
            ) && final(source).bits() == Seq::<bool>::empty(),
    {
        let mut bits: Vec<bool> = vec![false; num_bits];
        proof {
            if old(source).bits().len() >= num_bits {
                lemma_uint_of_bits_bound(old(source).bits().take(num_bits as int));
            }
        }
        match source.read(bits.as_mut_slice()) {
            Ok(()) => {
                let value: u128 = uint_from_bits(bits.as_slice());
                Ok(value)
            },
            Err(read_error) => Err(DecodeError::Reading(read_error)),
        }
    }

    /// Reads `num_bits` booleans from `source` and reconstructs the signed
    /// integer they spell in two's complement: the unsigned reconstruction
    /// itself when it lies below the midpoint of the `num_bits` range, and
    /// that reconstruction minus `2^num_bits` otherwise.
    pub fn read_signed<S: BitSource>(&self, source: &mut S, num_bits: usize) -> (r: Result<
        i128,
        DecodeError,
    >)
        requires
            num_bits <= 128,
        ensures
            old(source).bits().len() >= num_bits ==> r == Ok::<i128, DecodeError>(
                signed_of(
                    uint_of_bits(old(source).bits().take(num_bits as int)),
                    num_bits as nat,
                ) as i128,
            ) && final(source).bits() == old(source).bits().skip(num_bits as int),
            old(source).bits().len() < num_bits ==> r == Err::<i128, DecodeError>(
                DecodeError::Reading(
                    crate::source::ReadError::ReachedEnd {
                        read_bools: old(source).bits().len() as usize,
                    },
                ),
            ) && final(source).bits() == Seq::<bool>::empty(),
    {
        let unsigned: u128 = self.read_unsigned(source, num_bits)?;
        proof {
            let taken = old(source).bits().take(num_bits as int);
            lemma_uint_of_bits_bound(taken);
            assert(taken.len() == num_bits);
            lemma_pow2_adds(64, 64);
            lemma2_to64();
            lemma2_to64_rest();
            assert(pow2(128) == 0x100000000000000000000000000000000);
            if num_bits < 128 {
                lemma_pow2_strictly_increases(num_bits as nat, 128);
            }
            assert(uint_of_bits(taken) < pow2(128));
            assert(unsigned as nat == uint_of_bits(taken));
        }
        if num_bits == 0 {
            Ok(0)
        } else {
            proof {
                lemma_pow2_fits_u128((num_bits - 1) as nat);
            }
            let half: u128 = crate::bits::pow2_u128(num_bits - 1);
            if unsigned < half {
                Ok(unsigned as i128)
            } else {
                proof {
                    lemma_pow2_adds(63, 64);
                    lemma_pow2_adds(64, 64);
                    lemma2_to64();
                    lemma2_to64_rest();
                    assert(pow2(127) == 0x80000000000000000000000000000000);
                    assert(pow2(128) == 0x100000000000000000000000000000000);
                    if num_bits < 128 {
                        lemma_pow2_strictly_increases(num_bits as nat, 128);
                        if num_bits < 127 {
                            lemma_pow2_strictly_increases((num_bits - 1) as nat, 127);
                        }
                    }
                }
                let complement: u128 = if num_bits == 128 {
                    u128::MAX - unsigned
                } else {
                    proof {
                        vstd::arithmetic::power2::lemma_pow2_unfold(num_bits as nat);
                    }
                    let full: u128 = crate::bits::pow2_u128(num_bits);
                    (full - 1) - unsigned
                };
                proof {
                    assert(complement as int == pow2(num_bits as nat) - 1 - unsigned);
                    assert(complement < 0x80000000000000000000000000000000);
                }
                Ok(-(complement as i128) - 1)
            }
        }
    }
}

impl IntDecodingProtocol for SimpleIntDecodingProtocol {
    open spec fn dec_unsigned(&self, width: nat, bits: Seq<bool>) -> Result<(nat, nat), nat> {
        if bits.len() >= width {
            Ok((uint_of_bits(bits.take(width as int)), width))
        } else {
            Err(0)
        }
    }

    open spec fn dec_signed(&self, width: nat, bits: Seq<bool>) -> Result<(int, nat), nat> {
        if bits.len() >= width {
            Ok((signed_of(uint_of_bits(bits.take(width as int)), width), width))
        } else {
            Err(0)
        }
    }

    fn read_u8<S: BitSource>(&self, source: &mut S) -> (r: Result<u8, DecodeError>) {
        proof {
            lemma2_to64();
            if old(source).bits().len() >= 8 {
                lemma_simple_unsigned_fits(old(source).bits(), 8);
            }
        }
        match self.read_unsigned(source, 8) {
            Ok(value) => Ok(value as u8),
            Err(error) => Err(error),
        }
    }

    fn read_i8<S: BitSource>(&self, source: &mut S) -> (r: Result<i8, DecodeError>) {
        proof {
            lemma2_to64();
            if old(source).bits().len() >= 8 {
                lemma_simple_signed_fits(old(source).bits(), 8);
            }
        }
        match self.read_signed(source, 8) {
            Ok(value) => Ok(value as i8),
            Err(error) => Err(error),
        }
    }

    fn read_u16<S: BitSource>(&self, source: &mut S) -> (r: Result<u16, DecodeError>) {
        proof {
            lemma2_to64();
            if old(source).bits().len() >= 16 {
                lemma_simple_unsigned_fits(old(source).bits(), 16);
            }
        }
        match self.read_unsigned(source, 16) {
            Ok(value) => Ok(value as u16),
            Err(error) => Err(error),
        }
    }

    fn read_i16<S: BitSource>(&self, source: &mut S) -> (r: Result<i16, DecodeError>) {
        proof {
            lemma2_to64();
            if old(source).bits().len() >= 16 {
                lemma_simple_signed_fits(old(source).bits(), 16);
            }
        }
        match self.read_signed(source, 16) {
            Ok(value) => Ok(value as i16),
            Err(error) => Err(error),
        }
    }

    fn read_u32<S: BitSource>(&self, source: &mut S) -> (r: Result<u32, DecodeError>) {
        proof {
            lemma2_to64();
            if old(source).bits().len() >= 32 {
                lemma_simple_unsigned_fits(old(source).bits(), 32);
            }
        }
        match self.read_unsigned(source, 32) {
            Ok(value) => Ok(value as u32),
            Err(error) => Err(error),
        }
    }

    fn read_i32<S: BitSource>(&self, source: &mut S) -> (r: Result<i32, DecodeError>) {
        proof {
            lemma2_to64();
            if old(source).bits().len() >= 32 {
                lemma_simple_signed_fits(old(source).bits(), 32);
            }
        }
        match self.read_signed(source, 32) {
            Ok(value) => Ok(value as i32),
            Err(error) => Err(error),
        }
    }

    fn read_u64<S: BitSource>(&self, source: &mut S) -> (r: Result<u64, DecodeError>) {
        proof {
            lemma2_to64();
            if old(source).bits().len() >= 64 {
                lemma_simple_unsigned_fits(old(source).bits(), 64);
            }
        }
        match self.read_unsigned(source, 64) {
            Ok(value) => Ok(value as u64),
            Err(error) => Err(error),
        }
    }

    fn read_i64<S: BitSource>(&self, source: &mut S) -> (r: Result<i64, DecodeError>) {
        proof {
            lemma2_to64();
            if old(source).bits().len() >= 64 {
                lemma_simple_signed_fits(old(source).bits(), 64);
            }
        }
        match self.read_signed(source, 64) {
            Ok(value) => Ok(value as i64),
            Err(error) => Err(error),
        }
    }

    fn read_u128<S: BitSource>(&self, source: &mut S) -> (r: Result<u128, DecodeError>) {
        proof {
            if old(source).bits().len() >= 128 {
                lemma_simple_unsigned_fits(old(source).bits(), 128);
            }
        }
        self.read_unsigned(source, 128)
    }

    fn read_i128<S: BitSource>(&self, source: &mut S) -> (r: Result<i128, DecodeError>) {
        proof {
            if old(source).bits().len() >= 128 {
                lemma_simple_signed_fits(old(source).bits(), 128);
            }
        }
        self.read_signed(source, 128)
    }
}

/// The unsigned value the simple decoder reconstructs at width `w` lies
/// below `2^w`, so it needs no reduction.
proof fn lemma_simple_unsigned_fits(bits: Seq<bool>, w: nat)
    requires
        bits.len() >= w,
    ensures
        uint_of_bits(bits.take(w as int)) < pow2(w),
        uint_of_bits(bits.take(w as int)) % pow2(w) == uint_of_bits(bits.take(w as int)),
{
    let u = uint_of_bits(bits.take(w as int));
    lemma_uint_of_bits_bound(bits.take(w as int));
    assert(bits.take(w as int).len() == w);
    lemma_pow2_pos(w);
    lemma_small_mod(u, pow2(w));
}

/// The signed value the simple decoder reconstructs at width `w` lies in
/// the signed `w`-bit range, so it needs no reduction.
proof fn lemma_simple_signed_fits(bits: Seq<bool>, w: nat)
    requires
        bits.len() >= w,
        w >= 1,
    ensures
        -(pow2((w - 1) as nat) as int) <= signed_of(uint_of_bits(bits.take(w as int)), w) < pow2(
            (w - 1) as nat,
        ),
        crate::bits::signed_truncate(signed_of(uint_of_bits(bits.take(w as int)), w), w)
            == signed_of(uint_of_bits(bits.take(w as int)), w),
{
    let u = uint_of_bits(bits.take(w as int));
    lemma_uint_of_bits_bound(bits.take(w as int));
    assert(bits.take(w as int).len() == w);
    lemma_pow2_pos((w - 1) as nat);
    vstd::arithmetic::power2::lemma_pow2_unfold(w);
    assert(pow2(w) == 2 * pow2((w - 1) as nat));
    lemma_signed_truncate_identity(signed_of(u, w), w);
}

} // verus!
