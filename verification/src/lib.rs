//! A crate for compactly encoding raw data (booleans and integers) into
//! sequences of booleans or bytes, so that the encoded form can later be
//! stored or transmitted using as little space as possible.
//!
//! The crate is organised around two capabilities: a bit sink accepts an
//! ordered sequence of booleans, and a bit source yields one. Two codec
//! families are built on them: a fixed-width codec that writes each integer
//! in plain binary, and a variable-width digit codec that gives small values
//! short encodings.

use vstd::prelude::*;

pub mod bits;
pub mod decoding;
pub mod digits;
pub mod encoding;
pub mod laws;
pub mod sink;
pub mod source;

pub use decoding::DecodeError;
pub use decoding::IntDecodingProtocol;
pub use decoding::LengthExceeded;
pub use decoding::digit::DigitDecodingProtocol;
pub use decoding::simple::SimpleIntDecodingProtocol;
pub use encoding::EncodingProtocol;
pub use encoding::digit::DigitIntEncodingProtocol;
pub use encoding::simple::SimpleEncodingProtocol;
pub use sink::BitSink;
pub use sink::WriteError;
pub use sink::bool_vec::BoolVecBitSink;
pub use sink::u32_vec::U32VecBitSink;
pub use sink::u8_vec::U8VecBitSink;
pub use sink::void::VoidBitSink;
pub use source::BitSource;
pub use source::ReadError;
pub use source::bool_slice::BoolSliceBitSource;
pub use source::u8_slice::U8SliceBitSource;

use crate::bits::bits_of_bytes;
use crate::bits::bytes_of_bits;
use crate::bits::lemma_bits_of_bytes_push;
use crate::bits::lemma_bits_of_uint_len;
use crate::bits::lemma_uint_of_bits_bound;
use crate::bits::push_bits_of_u128;
use crate::bits::uint_from_bits;
use vstd::arithmetic::power2::lemma2_to64;
use vstd::slice::slice_subrange;

verus! {

/// The integer type used to carry lengths of collections and strings through
/// the codecs. It gives the length of the value in memory; the number of bits
/// spent on such a length in an encoded sequence is usually smaller, because
/// lengths are normally stored with a variable-width encoding.
pub type LengthType = u64;

/// Encodes a sequence of booleans (given as a bool slice) as a sequence of
/// bytes. The length of the byte vector is the ceiling of `bools.len() / 8`.
///
/// The boolean sequence is split into chunks of eight (except for the last
/// chunk when the length is not a multiple of eight). Each chunk becomes one
/// byte, read as a binary number whose first boolean is the least significant
/// bit; the missing booleans of a short last chunk count as `false`.
pub fn bools_to_bytes(bools: &[bool]) -> (bytes: Vec<u8>)
    ensures
        bytes@ == bytes_of_bits(bools@),
        bytes@.len() == (bools@.len() + 7) / 8,
{
    let mut bytes: Vec<u8> = Vec::new();
    let mut start: usize = 0;
    proof {
        assert(bools@.skip(0) =~= bools@);
        assert(Seq::<u8>::empty() + bytes_of_bits(bools@) =~= bytes_of_bits(bools@));
    }
    while start < bools.len()
        invariant
            start <= bools@.len(),
            bytes_of_bits(bools@) == bytes@ + bytes_of_bits(bools@.skip(start as int)),
            bytes@.len() == (start + 7) / 8,
            start % 8 == 0 || start == bools@.len(),
        decreases bools@.len() - start,
    {
        let chunk_len: usize = if bools.len() - start < 8 {
            bools.len() - start
        } else {
            8
        };
        let chunk: &[bool] = slice_subrange(bools, start, start + chunk_len);
        proof {
            lemma_uint_of_bits_bound(chunk@);
            lemma2_to64();
            if chunk@.len() < 8 {
                vstd::arithmetic::power2::lemma_pow2_strictly_increases(chunk@.len(), 8);
            }
        }
        let current_byte: u8 = uint_from_bits(chunk) as u8;
        proof {
            let rest = bools@.skip(start as int);
            if rest.len() < 8 {
                assert(chunk@ =~= rest);
                assert(bytes_of_bits(rest) =~= seq![current_byte]);
                assert(bools@.skip((start + chunk_len) as int) =~= Seq::<bool>::empty());
                assert(bytes@.push(current_byte) =~= bytes@ + seq![current_byte]);
                assert((bytes@ + seq![current_byte]) + bytes_of_bits(Seq::<bool>::empty())
                    =~= bytes@ + seq![current_byte]);
            } else {
                assert(chunk@ =~= rest.take(8));
                assert(rest.skip(8) =~= bools@.skip(start as int + 8));
                assert(bytes_of_bits(rest) == seq![current_byte] + bytes_of_bits(rest.skip(8)));
                assert(bytes@.push(current_byte) =~= bytes@ + seq![current_byte]);
                assert((bytes@ + seq![current_byte]) + bytes_of_bits(rest.skip(8)) =~= bytes@ + (
                seq![current_byte] + bytes_of_bits(rest.skip(8))));
            }
        }
        bytes.push(current_byte);
        start = start + chunk_len;
    }
    proof {
        assert(bools@.skip(start as int) =~= Seq::<bool>::empty());
        assert(bytes@ + bytes_of_bits(Seq::<bool>::empty()) =~= bytes@);
    }
    bytes
}

/// Converts a sequence of bytes to a sequence of booleans; every byte becomes
/// eight booleans, least significant bit first.
///
/// This function is close to the opposite of `bools_to_bytes`:
/// `bools_to_bytes(bytes_to_bools(some_bytes))` is always `some_bytes` again.
/// In the other direction the round trip is exact only when the original
/// boolean sequence had a length that is a multiple of eight, because the
/// padding bits of the last byte reappear as `false`.
pub fn bytes_to_bools(bytes: &[u8]) -> (bools: Vec<bool>)
    ensures
        bools@ == bits_of_bytes(bytes@),
        bools@.len() == 8 * bytes@.len(),
{
    let mut bools: Vec<bool> = Vec::new();
    let mut k: usize = 0;
    proof {
        vstd::arithmetic::power2::lemma_pow2_pos(8);
        assert(bits_of_bytes(bytes@.take(0)) =~= Seq::<bool>::empty());
        crate::bits::lemma_bits_of_bytes_len(bytes@);
    }
    while k < bytes.len()
        invariant
            k <= bytes@.len(),
            bools@ == bits_of_bytes(bytes@.take(k as int)),
            bools@.len() == 8 * k,
        decreases bytes@.len() - k,
    {
        proof {
            lemma_bits_of_uint_len(bytes@[k as int] as nat, 8);
            lemma_bits_of_bytes_push(bytes@.take(k as int), bytes@[k as int]);
            assert(bytes@.take(k as int).push(bytes@[k as int]) =~= bytes@.take(k + 1));
        }
        push_bits_of_u128(&mut bools, bytes[k] as u128, 8);
        k = k + 1;
    }
    proof {
        assert(bytes@.take(k as int) =~= bytes@);
    }
    bools
}

} // verus!
