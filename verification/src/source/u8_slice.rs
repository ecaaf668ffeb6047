//! A bit source that reads from a slice of bytes, eight booleans per byte.

use vstd::prelude::*;

use crate::bits::bits_of_bytes;
use crate::bits::lemma_bits_of_bytes_len;
use crate::bits::lemma_bits_of_uint_index;
use crate::bits::pow2_u128;
use crate::source::BitSource;
use crate::source::ReadError;
use vstd::arithmetic::power2::lemma_pow2_pos;
use vstd::slice::slice_subrange;

verus! {

/// An implementation of `BitSource` that reads its booleans from a slice of
/// bytes using their binary notation. The least significant bit of the first
/// byte is read first, then the second-least significant bit of the first
/// byte, and so on.
///
/// If the slice comes from `bools_to_bytes(x)`, this implementation reads the
/// booleans in the same order as they appeared in `x`.
///
/// This implementation is slower than `BoolSliceBitSource` because it has to
/// unpack bits from a byte each time it reads, but it consumes roughly eight
/// times less memory, since one byte of storage holds eight booleans.
pub struct U8SliceBitSource<'a> {
    slice: &'a [u8],
    bit_offset: u8,
    num_padding_bits: u8,
}

impl<'a> U8SliceBitSource<'a> {
    #[verifier::type_invariant]
    closed spec fn wf(self) -> bool {
        &&& self.bit_offset < 8
        &&& self.bit_offset as nat + self.num_padding_bits as nat <= 8 * self.slice@.len()
    }

    /// Constructs a new `U8SliceBitSource` that reads its data from `slice`
    /// and has the given number of padding bits: the last `num_padding_bits`
    /// bits of `slice` are ignored by `read`, which reports
    /// `ReadError::ReachedEnd` when an attempt is made to read them.
    ///
    /// Padding is useful because the number of booleans that were written is
    /// usually not a multiple of eight, while a slice of bytes can only store
    /// a multiple of eight booleans; the fake values at the end were never
    /// written and must not be read.
    pub fn new(slice: &'a [u8], num_padding_bits: u8) -> (r: Self)
        requires
            num_padding_bits as nat <= 8 * slice@.len(),
        ensures
            r.bits() == bits_of_bytes(slice@).take(
                8 * slice@.len() - num_padding_bits as int,
            ),
    {
        proof {
            lemma_bits_of_bytes_len(slice@);
        }
        let r = Self { slice, bit_offset: 0, num_padding_bits };
        proof {
            assert(r.bits() =~= bits_of_bytes(slice@).take(
                8 * slice@.len() - num_padding_bits as int,
            ));
        }
        r
    }
}

impl<'a> BitSource for U8SliceBitSource<'a> {
    closed spec fn bits(&self) -> Seq<bool> {
        let total = bits_of_bytes(self.slice@);
        let start = self.bit_offset as int;
        let end = total.len() - self.num_padding_bits as int;
        if 0 <= start <= end {
            total.subrange(start, end)
        } else {
            Seq::empty()
        }
    }

    #[verifier::rlimit(50)]
    fn read(&mut self, dest: &mut [bool]) -> (r: Result<(), ReadError>) {
        proof {
            use_type_invariant(&*self);
            lemma_bits_of_bytes_len(self.slice@);
        }
        let ghost orig = *self;
        let ghost full = bits_of_bytes(orig.slice@).skip(orig.bit_offset as int);
        let mut cur: &[u8] = self.slice;
        let mut off: u8 = self.bit_offset;
        let pad: u8 = self.num_padding_bits;
        let ghost remaining = 8 * orig.slice@.len() - orig.bit_offset as int
            - orig.num_padding_bits as int;
        let available: u128 = cur.len() as u128 * 8 - off as u128 - pad as u128;
        let num_to_write: usize = if dest.len() as u128 <= available {
            dest.len()
        } else {
            available as usize
        };
        let mut k: usize = 0;
        while k < num_to_write
            invariant
                k <= num_to_write,
                num_to_write <= dest@.len(),
                num_to_write as int <= remaining,
                dest@.len() == old(dest)@.len(),
                off < 8,
                8 * cur@.len() - off as int - pad as int == remaining - k,
                off as int + pad as int <= 8 * cur@.len(),
                bits_of_bytes(cur@).skip(off as int) == full.skip(k as int),
                forall|j: int| 0 <= j < k ==> dest@[j] == full[j],
                forall|j: int| k <= j < dest@.len() ==> dest@[j] == old(dest)@[j],
                full.len() == remaining + orig.num_padding_bits as int,
            decreases num_to_write - k,
        {
            proof {
                lemma_bits_of_bytes_len(cur@);
                assert(cur@.len() > 0);
                lemma_pow2_pos(off as nat);
                crate::bits::lemma_pow2_fits_u128(off as nat);
                crate::bits::lemma_bits_of_bytes_step(cur@, off as nat);
                lemma_bits_of_uint_index(cur@[0] as nat, 8, off as nat);
                assert(full.skip(k as int)[0] == full[k as int]);
                assert(full.skip(k as int).skip(1) =~= full.skip(k + 1));
            }
            let byte: u8 = cur[0];
            let weight: u128 = pow2_u128(off as usize);
            let bit: bool = (byte as u128 / weight) % 2 == 1;
            proof {
                assert(bit == full[k as int]);
            }
            dest[k] = bit;
            if off == 7 {
                cur = slice_subrange(cur, 1, cur.len());
                off = 0;
            } else {
                off = off + 1;
            }
            k = k + 1;
        }
        proof {
            lemma_bits_of_bytes_len(cur@);
        }
        *self = Self { slice: cur, bit_offset: off, num_padding_bits: pad };
        proof {
            let old_bits = orig.bits();
            assert(old_bits =~= full.take(remaining));
            assert(old_bits.len() == remaining);
            assert(self.bits() =~= full.skip(num_to_write as int).take(remaining - num_to_write));
        }
        if num_to_write < dest.len() {
            proof {
                assert(num_to_write as int == remaining);
                assert(self.bits() =~= Seq::<bool>::empty());
                assert(dest@ =~= orig.bits() + old(dest)@.skip(remaining));
            }
            Err(ReadError::ReachedEnd { read_bools: num_to_write })
        } else {
            proof {
                assert(dest@ =~= orig.bits().take(dest@.len() as int));
                assert(self.bits() =~= orig.bits().skip(num_to_write as int));
            }
            Ok(())
        }
    }
}

} // verus!
