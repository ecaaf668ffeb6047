//! The decoding side of the codec engine: protocols that read bit sequences
//! from a `BitSource` and turn them back into primitive integers.

use vstd::prelude::*;

pub mod digit;
pub mod simple;

use vstd::arithmetic::power2::pow2;
use crate::bits::signed_truncate;
use crate::source::BitSource;
use crate::source::ReadError;
use crate::LengthType;

verus! {

/// An error that occurred while trying to decode the data read from a
/// `BitSource`.
///
/// Most of the variants indicate a programming error or a corrupted
/// `BitSource`, except for `Reading`, which indicates that an error occurred
/// during reading data rather than decoding it.
#[derive(Debug)]
pub enum DecodeError {
    /// Decoders that decode a `Vec` of elements first decode its length. If
    /// that decoded length is very large, a decoder would try to allocate a
    /// very big `Vec`, which could exhaust the memory of the process. To
    /// prevent this, a decoder may refuse to decode a `Vec` whose length
    /// exceeds the maximum it allows, and return this error instead, before
    /// any attempt to allocate that much memory.
    BigVecLength(LengthExceeded),
    /// Like `BigVecLength`, but for the maximum length of a decoded string.
    BigStringLength(LengthExceeded),
    /// The decoded length of a `Vec` does not fit in `usize` on this
    /// machine.
    VecLengthOverflow { length: LengthType },
    /// The decoded length of a string does not fit in `usize` on this
    /// machine.
    StringLengthOverflow { length: LengthType },
    /// An error occurred while reading the data needed to decode something.
    Reading(ReadError),
}

/// A maximum length was exceeded while decoding something. This struct
/// stores both the maximum length and the actually read length.
#[derive(Debug)]
pub struct LengthExceeded {
    max_length: LengthType,
    read_length: LengthType,
}

impl LengthExceeded {
    /// Packs a maximum length and the read length that exceeded it.
    pub fn new(max_length: LengthType, read_length: LengthType) -> (r: Self)
        ensures
            r.max_length() == max_length,
            r.read_length() == read_length,
    {
        LengthExceeded { max_length, read_length }
    }

    /// The maximum length the decoder was willing to decode.
    pub closed spec fn max_length(&self) -> LengthType {
        self.max_length
    }

    /// The length of the `Vec`, string, or whatever else was being decoded.
    pub closed spec fn read_length(&self) -> LengthType {
        self.read_length
    }

    /// Gets the maximum length the decoder was willing to decode.
    pub fn get_max_length(&self) -> (r: LengthType)
        ensures
            r == self.max_length(),
    {
        self.max_length
    }

    /// Gets the length of the `Vec`, string, or whatever else was being
    /// decoded.
    pub fn get_read_length(&self) -> (r: LengthType)
        ensures
            r == self.read_length(),
    {
        self.read_length
    }
}

/// A protocol for decoding primitive integers from a `BitSource`. Every
/// implementation of this trait should have a corresponding
/// `EncodingProtocol` that encoded the integers into a `BitSink`; reading
/// them back in the same order yields the encoded values again.
///
/// The two spec functions describe the whole decoding behaviour: applied to
/// the remaining bits of the source, they give either the decoded value and
/// the number of bits consumed, or, when the source would be exhausted, the
/// number of bits consumed before the read that failed. Each read method
/// consumes exactly the bits its spec function accounts for; on exhaustion it
/// reports how many booleans the failing read could still deliver, and the
/// source is drained.
pub trait IntDecodingProtocol {
    /// What decoding an unsigned integer of width `width` reads from the
    /// bit sequence `bits`: the decoded value and the number of bits
    /// consumed, or, on exhaustion, the number of bits consumed before the
    /// read that failed.
    spec fn dec_unsigned(&self, width: nat, bits: Seq<bool>) -> Result<(nat, nat), nat>;

    /// What decoding a signed integer of width `width` reads from the bit
    /// sequence `bits`, as `dec_unsigned`.
    spec fn dec_signed(&self, width: nat, bits: Seq<bool>) -> Result<(int, nat), nat>;

    /// Decodes a u8 value from the bits coming from `source`.
    fn read_u8<S: BitSource>(&self, source: &mut S) -> (r: Result<u8, DecodeError>)
        ensures
            match self.dec_unsigned(8, old(source).bits()) {
                Ok((value, consumed)) => r == Ok::<u8, DecodeError>((value % pow2(8)) as u8)
                    && final(source).bits() == old(source).bits().skip(consumed as int),
                Err(before) => r == Err::<u8, DecodeError>(
                    DecodeError::Reading(
                        ReadError::ReachedEnd {
                            read_bools: (old(source).bits().len() - before) as usize,
                        },
                    ),
                ) && final(source).bits() == Seq::<bool>::empty(),
            },
    ;

    /// Decodes an i8 value from the bits coming from `source`.
    fn read_i8<S: BitSource>(&self, source: &mut S) -> (r: Result<i8, DecodeError>)
        ensures
            match self.dec_signed(8, old(source).bits()) {
                Ok((value, consumed)) => r == Ok::<i8, DecodeError>(signed_truncate(value, 8) as i8)
                    && final(source).bits() == old(source).bits().skip(consumed as int),
                Err(before) => r == Err::<i8, DecodeError>(
                    DecodeError::Reading(
                        ReadError::ReachedEnd {
                            read_bools: (old(source).bits().len() - before) as usize,
                        },
                    ),
                ) && final(source).bits() == Seq::<bool>::empty(),
            },
    ;

    /// Decodes a u16 value from the bits coming from `source`.
    fn read_u16<S: BitSource>(&self, source: &mut S) -> (r: Result<u16, DecodeError>)
        ensures
            match self.dec_unsigned(16, old(source).bits()) {
                Ok((value, consumed)) => r == Ok::<u16, DecodeError>((value % pow2(16)) as u16)
                    && final(source).bits() == old(source).bits().skip(consumed as int),
                Err(before) => r == Err::<u16, DecodeError>(
                    DecodeError::Reading(
                        ReadError::ReachedEnd {
                            read_bools: (old(source).bits().len() - before) as usize,
                        },
                    ),
                ) && final(source).bits() == Seq::<bool>::empty(),
            },
    ;

    /// Decodes an i16 value from the bits coming from `source`.
    fn read_i16<S: BitSource>(&self, source: &mut S) -> (r: Result<i16, DecodeError>)
        ensures
            match self.dec_signed(16, old(source).bits()) {
                Ok((value, consumed)) => r == Ok::<i16, DecodeError>(
                    signed_truncate(value, 16) as i16,
                ) && final(source).bits() == old(source).bits().skip(consumed as int),
                Err(before) => r == Err::<i16, DecodeError>(
                    DecodeError::Reading(
                        ReadError::ReachedEnd {
                            read_bools: (old(source).bits().len() - before) as usize,
                        },
                    ),
                ) && final(source).bits() == Seq::<bool>::empty(),
            },
    ;

    /// Decodes a u32 value from the bits coming from `source`.
    fn read_u32<S: BitSource>(&self, source: &mut S) -> (r: Result<u32, DecodeError>)
        ensures
            match self.dec_unsigned(32, old(source).bits()) {
                Ok((value, consumed)) => r == Ok::<u32, DecodeError>((value % pow2(32)) as u32)
                    && final(source).bits() == old(source).bits().skip(consumed as int),
                Err(before) => r == Err::<u32, DecodeError>(
                    DecodeError::Reading(
                        ReadError::ReachedEnd {
                            read_bools: (old(source).bits().len() - before) as usize,
                        },
                    ),
                ) && final(source).bits() == Seq::<bool>::empty(),
            },
    ;

    /// Decodes an i32 value from the bits coming from `source`.
    fn read_i32<S: BitSource>(&self, source: &mut S) -> (r: Result<i32, DecodeError>)
        ensures
            match self.dec_signed(32, old(source).bits()) {
                Ok((value, consumed)) => r == Ok::<i32, DecodeError>(
                    signed_truncate(value, 32) as i32,
                ) && final(source).bits() == old(source).bits().skip(consumed as int),
                Err(before) => r == Err::<i32, DecodeError>(
                    DecodeError::Reading(
                        ReadError::ReachedEnd {
                            read_bools: (old(source).bits().len() - before) as usize,
                        },
                    ),
                ) && final(source).bits() == Seq::<bool>::empty(),
            },
    ;

    /// Decodes a u64 value from the bits coming from `source`.
    fn read_u64<S: BitSource>(&self, source: &mut S) -> (r: Result<u64, DecodeError>)
        ensures
            match self.dec_unsigned(64, old(source).bits()) {
                Ok((value, consumed)) => r == Ok::<u64, DecodeError>((value % pow2(64)) as u64)
                    && final(source).bits() == old(source).bits().skip(consumed as int),
                Err(before) => r == Err::<u64, DecodeError>(
                    DecodeError::Reading(
                        ReadError::ReachedEnd {
                            read_bools: (old(source).bits().len() - before) as usize,
                        },
                    ),
                ) && final(source).bits() == Seq::<bool>::empty(),
            },
    ;

    /// Decodes an i64 value from the bits coming from `source`.
    fn read_i64<S: BitSource>(&self, source: &mut S) -> (r: Result<i64, DecodeError>)
        ensures
            match self.dec_signed(64, old(source).bits()) {
                Ok((value, consumed)) => r == Ok::<i64, DecodeError>(
                    signed_truncate(value, 64) as i64,
                ) && final(source).bits() == old(source).bits().skip(consumed as int),
                Err(before) => r == Err::<i64, DecodeError>(
                    DecodeError::Reading(
                        ReadError::ReachedEnd {
                            read_bools: (old(source).bits().len() - before) as usize,
                        },
                    ),
                ) && final(source).bits() == Seq::<bool>::empty(),
            },
    ;

    /// Decodes a u128 value from the bits coming from `source`.
    fn read_u128<S: BitSource>(&self, source: &mut S) -> (r: Result<u128, DecodeError>)
        ensures
            match self.dec_unsigned(128, old(source).bits()) {
                Ok((value, consumed)) => r == Ok::<u128, DecodeError>((value % pow2(128)) as u128)
                    && final(source).bits() == old(source).bits().skip(consumed as int),
                Err(before) => r == Err::<u128, DecodeError>(
                    DecodeError::Reading(
                        ReadError::ReachedEnd {
                            read_bools: (old(source).bits().len() - before) as usize,
                        },
                    ),
                ) && final(source).bits() == Seq::<bool>::empty(),
            },
    ;

    /// Decodes an i128 value from the bits coming from `source`.
    fn read_i128<S: BitSource>(&self, source: &mut S) -> (r: Result<i128, DecodeError>)
        ensures
            match self.dec_signed(128, old(source).bits()) {
                Ok((value, consumed)) => r == Ok::<i128, DecodeError>(
                    signed_truncate(value, 128) as i128,
                ) && final(source).bits() == old(source).bits().skip(consumed as int),
                Err(before) => r == Err::<i128, DecodeError>(
                    DecodeError::Reading(
                        ReadError::ReachedEnd {
                            read_bools: (old(source).bits().len() - before) as usize,
                        },
                    ),
                ) && final(source).bits() == Seq::<bool>::empty(),
            },
    ;
}

} // verus!
