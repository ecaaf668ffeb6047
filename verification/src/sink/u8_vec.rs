//! A bit sink backed by a byte vector, packing eight booleans per byte.

use vstd::prelude::*;

use crate::bits::bits_of_bytes;
use crate::bits::bits_of_byte;
use crate::bits::bits_of_uint;
use crate::bits::bytes_of_bits;
use crate::bits::lemma_bits_of_bytes_len;
use crate::bits::lemma_bits_of_bytes_push;
use crate::bits::lemma_bits_of_uint_len;
use crate::bits::lemma_bits_of_uint_snoc_bit;
use crate::bits::lemma_bytes_of_bits_concat;
use crate::bits::pow2_u128;
use crate::bits::push_bits_of_u128;
use crate::sink::shrink_vec;
use crate::sink::BitSink;
use crate::sink::WriteError;
use vstd::arithmetic::power2::lemma2_to64;
use vstd::arithmetic::power2::lemma_pow2_strictly_increases;
use vstd::arithmetic::power2::pow2;

verus! {

/// The booleans held by a packed byte store: every byte contributes eight
/// booleans, except the last one, which contributes only the `bit_index`
/// booleans written into it so far.
pub open spec fn packed_byte_bits(bytes: Seq<u8>, bit_index: nat) -> Seq<bool> {
    if bit_index == 0 || bytes.len() == 0 {
        bits_of_bytes(bytes)
    } else {
        bits_of_bytes(bytes.drop_last()) + bits_of_uint(bytes.last() as nat, bit_index)
    }
}

/// An implementation of `BitSink` that uses a `Vec<u8>` to store the booleans
/// written into it. Every byte represents eight booleans (except for the last
/// one when the number of booleans is not a multiple of eight).
///
/// Since one byte of memory stores eight booleans, this implementation is
/// very efficient in terms of memory usage. Packing the booleans into bytes
/// makes writing a bit slower than with `BoolVecBitSink`, but the time spent
/// writing into the sink is rarely the bottleneck of the encoding process.
pub struct U8VecBitSink {
    bytes: Vec<u8>,
    bit_index: u8,
}

impl U8VecBitSink {
    #[verifier::type_invariant]
    closed spec fn wf(self) -> bool {
        &&& self.bit_index < 8
        &&& self.bit_index > 0 ==> self.bytes@.len() > 0 && (self.bytes@.last() as nat) < pow2(
            self.bit_index as nat,
        )
    }

    /// Constructs a new and empty `U8VecBitSink`.
    pub fn new() -> (r: Self)
        ensures
            r.bits() == Seq::<bool>::empty(),
    {
        Self { bytes: Vec::new(), bit_index: 0 }
    }

    /// Constructs a new and empty `U8VecBitSink` with an initial capacity of
    /// `initial_capacity` bytes.
    pub fn with_capacity(initial_capacity: usize) -> (r: Self)
        ensures
            r.bits() == Seq::<bool>::empty(),
    {
        Self { bytes: Vec::with_capacity(initial_capacity), bit_index: 0 }
    }

    /// Gets a reference to the byte vector of this sink. The bytes are
    /// exactly the booleans written so far, packed eight per byte, with the
    /// unfilled high bits of the last byte still `false`.
    pub fn get_bytes(&self) -> (r: &Vec<u8>)
        ensures
            r@ == bytes_of_bits(self.bits()),
    {
        proof {
            use_type_invariant(&*self);
            self.lemma_bytes_pack_bits();
        }
        &self.bytes
    }

    /// Creates a `Vec` of booleans that shows exactly which booleans were
    /// written into this sink in which order: the first boolean of the `Vec`
    /// is the first boolean that was written into this sink.
    pub fn get_bools(&self) -> (r: Vec<bool>)
        ensures
            r@ == self.bits(),
    {
        proof {
            use_type_invariant(&*self);
        }
        let mut bools: Vec<bool> = Vec::new();
        let full_count: usize = if self.bit_index == 0 {
            self.bytes.len()
        } else {
            self.bytes.len() - 1
        };
        proof {
            assert(bits_of_bytes(self.bytes@.take(0)) =~= Seq::<bool>::empty());
        }
        let mut k: usize = 0;
        while k < full_count
            invariant
                k <= full_count,
                full_count <= self.bytes@.len(),
                after_borrow(bools)@ == bits_of_bytes(self.bytes@.take(k as int)),
            decreases full_count - k,
        {
            proof {
                lemma_bits_of_uint_len(self.bytes@[k as int] as nat, 8);
                lemma_bits_of_bytes_push(self.bytes@.take(k as int), self.bytes@[k as int]);
                assert(self.bytes@.take(k as int).push(self.bytes@[k as int]) =~= self.bytes@.take(
                    k + 1,
                ));
            }
            push_bits_of_u128(&mut bools, self.bytes[k] as u128, 8);
            k = k + 1;
        }
        if self.bit_index > 0 {
            proof {
                assert(self.bytes@.take(full_count as int) =~= self.bytes@.drop_last());
            }
            let last: u8 = self.bytes[self.bytes.len() - 1];
            push_bits_of_u128(&mut bools, last as u128, self.bit_index as usize);
        } else {
            proof {
                assert(self.bytes@.take(full_count as int) =~= self.bytes@);
            }
        }
        bools
    }

    /// The packed bytes spell out exactly the held booleans.
    proof fn lemma_bytes_pack_bits(self)
        requires
            self.wf(),
        ensures
            self.bytes@ == bytes_of_bits(self.bits()),
    {
        if self.bit_index == 0 || self.bytes@.len() == 0 {
            crate::bits::lemma_bytes_of_bits_of_bytes(self.bytes@);
        } else {
            let head = self.bytes@.drop_last();
            let last = self.bytes@.last();
            let tail = bits_of_uint(last as nat, self.bit_index as nat);
            lemma_bytes_of_bits_concat(head, tail);
            lemma_bits_of_uint_len(last as nat, self.bit_index as nat);
            crate::bits::lemma_uint_of_bits_of_uint(last as nat, self.bit_index as nat);
            vstd::arithmetic::div_mod::lemma_small_mod(last as nat, pow2(self.bit_index as nat));
            assert(bytes_of_bits(tail) =~= seq![last]);
            assert(head + seq![last] =~= self.bytes@);
        }
    }
}

impl BitSink for U8VecBitSink {
    closed spec fn bits(&self) -> Seq<bool> {
        packed_byte_bits(self.bytes@, self.bit_index as nat)
    }

    open spec fn retains(&self) -> bool {
        true
    }

    open spec fn never_fails(&self) -> bool {
        true
    }

    fn write(&mut self, bits: &[bool]) -> (r: Result<(), WriteError>) {
        proof {
            use_type_invariant(&*self);
        }
        let ghost previous = self.bits();
        let mut tmp = Self { bytes: Vec::new(), bit_index: 0 };
        core::mem::swap(&mut tmp, self);
        let Self { mut bytes, mut bit_index } = tmp;
        let mut i: usize = 0;
        proof {
            assert(bits@.take(0) =~= Seq::<bool>::empty());
            assert(previous + Seq::<bool>::empty() =~= previous);
        }
        while i < bits.len()
            invariant
                i <= bits@.len(),
                bit_index < 8,
                bit_index > 0 ==> bytes@.len() > 0 && (bytes@.last() as nat) < pow2(
                    bit_index as nat,
                ),
                packed_byte_bits(bytes@, bit_index as nat) == previous + bits@.take(i as int),
            decreases bits@.len() - i,
        {
            let bit = bits[i];
            proof {
                assert(bits@.take(i + 1) =~= bits@.take(i as int).push(bit));
            }
            if bit_index == 0 {
                let b: u8 = if bit {
                    1
                } else {
                    0
                };
                proof {
                    lemma2_to64();
                    let nb = bytes@.push(b);
                    assert(nb.drop_last() =~= bytes@);
                    assert(nb.last() == b);
                    assert(bits_of_uint(b as nat, 1) =~= bits_of_uint(0nat, 0).push(bit)) by {
                        lemma_bits_of_uint_snoc_bit(0nat, 0, bit);
                    }
                    assert(packed_byte_bits(nb, 1) == bits_of_bytes(bytes@) + bits_of_uint(
                        b as nat,
                        1,
                    ));
                    assert(packed_byte_bits(bytes@, 0) == bits_of_bytes(bytes@));
                    assert(bits_of_bytes(bytes@) + bits_of_uint(b as nat, 1) =~= (previous
                        + bits@.take(i as int)) + seq![bit]);
                    assert((previous + bits@.take(i as int)) + seq![bit] =~= previous + bits@.take(
                        i as int,
                    ).push(bit));
                }
                bytes.push(b);
                bit_index = 1;
            } else {
                let last_index: usize = bytes.len() - 1;
                let ghost old_bytes = bytes@;
                let ghost old_last = bytes@.last();
                if bit {
                    proof {
                        lemma_pow2_strictly_increases(bit_index as nat, 8);
                        lemma2_to64();
                    }
                    let weight: u8 = pow2_u128(bit_index as usize) as u8;
                    let updated: u8 = bytes[last_index] + weight;
                    bytes[last_index] = updated;
                    proof {
                        assert(bytes@ =~= old_bytes.update(
                            last_index as int,
                            (old_last + pow2(bit_index as nat)) as u8,
                        ));
                    }
                }
                proof {
                    lemma_bits_of_uint_snoc_bit(old_last as nat, bit_index as nat, bit);
                    assert(bytes@.drop_last() =~= old_bytes.drop_last());
                    assert(bytes@.last() as nat == old_last as nat + if bit {
                        pow2(bit_index as nat)
                    } else {
                        0nat
                    });
                    assert(bits_of_uint(bytes@.last() as nat, (bit_index + 1) as nat)
                        == bits_of_uint(old_last as nat, bit_index as nat).push(bit));
                    assert(bits_of_bytes(old_bytes.drop_last()) + bits_of_uint(
                        bytes@.last() as nat,
                        (bit_index + 1) as nat,
                    ) =~= (previous + bits@.take(i as int)) + seq![bit]);
                    assert((previous + bits@.take(i as int)) + seq![bit] =~= previous + bits@.take(
                        i as int,
                    ).push(bit));
                    if bit_index == 7 {
                        // the byte is now full: it joins the whole bytes
                        lemma_bits_of_uint_len(bytes@.last() as nat, 8);
                        lemma_bits_of_bytes_push(bytes@.drop_last(), bytes@.last());
                        assert(bytes@.drop_last().push(bytes@.last()) =~= bytes@);
                        assert(packed_byte_bits(bytes@, 0) == bits_of_bytes(bytes@));
                        assert(bits_of_bytes(bytes@) == bits_of_bytes(bytes@.drop_last())
                            + bits_of_byte(bytes@.last()));
                    } else {
                        lemma_pow2_strictly_increases(bit_index as nat, (bit_index + 1) as nat);
                    }
                }
                if bit_index == 7 {
                    bit_index = 0;
                } else {
                    bit_index = bit_index + 1;
                }
            }
            i = i + 1;
        }
        proof {
            assert(bits@.take(bits@.len() as int) =~= bits@);
        }
        *self = Self { bytes, bit_index };
        Ok(())
    }

    fn finish(&mut self) -> (r: Result<(), WriteError>) {
        proof {
            use_type_invariant(&*self);
        }
        let ghost previous = self.bits();
        let mut tmp = Self { bytes: Vec::new(), bit_index: 0 };
        core::mem::swap(&mut tmp, self);
        let Self { mut bytes, bit_index } = tmp;
        shrink_vec(&mut bytes);
        *self = Self { bytes, bit_index };
        Ok(())
    }

    fn get_num_bools(&self) -> (r: u64) {
        proof {
            use_type_invariant(&*self);
            lemma_bits_of_bytes_len(self.bytes@);
            if self.bit_index > 0 {
                lemma_bits_of_bytes_len(self.bytes@.drop_last());
                lemma_bits_of_uint_len(self.bytes@.last() as nat, self.bit_index as nat);
            }
        }
        if self.bit_index == 0 {
            self.bytes.len() as u64 * 8
        } else {
            (self.bytes.len() as u64 - 1) * 8 + self.bit_index as u64
        }
    }
}

} // verus!
