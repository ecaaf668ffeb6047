//! A bit sink backed by a vector of 32-bit words, packing thirty-two
//! booleans per word.

use vstd::prelude::*;

use crate::bits::bits_of_uint;
use crate::bits::bits_of_word;
use crate::bits::bits_of_words;
use crate::bits::lemma_bits_of_uint_len;
use crate::bits::lemma_bits_of_uint_snoc_bit;
use crate::bits::lemma_bits_of_words_len;
use crate::bits::lemma_bits_of_words_push;
use crate::bits::lemma_words_of_bits_concat;
use crate::bits::pow2_u128;
use crate::bits::push_bits_of_u128;
use crate::bits::words_of_bits;
use crate::sink::shrink_vec;
use crate::sink::BitSink;
use crate::sink::WriteError;
use vstd::arithmetic::power2::lemma2_to64;
use vstd::arithmetic::power2::lemma_pow2_strictly_increases;
use vstd::arithmetic::power2::pow2;

verus! {

/// The booleans held by a packed word store: every word contributes
/// thirty-two booleans, except the last one, which contributes only the
/// `bit_index` booleans written into it so far.
pub open spec fn packed_word_bits(ints: Seq<u32>, bit_index: nat) -> Seq<bool> {
    if bit_index == 0 || ints.len() == 0 {
        bits_of_words(ints)
    } else {
        bits_of_words(ints.drop_last()) + bits_of_uint(ints.last() as nat, bit_index)
    }
}

/// An implementation of `BitSink` that uses a `Vec<u32>` to store the
/// booleans written into it. Every word represents thirty-two booleans
/// (except for the last one when the number of booleans is not a multiple of
/// thirty-two).
///
/// This implementation was an attempt to create a `BitSink` that is just as
/// efficient with memory as `U8VecBitSink` but faster to write into, because
/// it commits a storage unit only once per thirty-two booleans.
pub struct U32VecBitSink {
    ints: Vec<u32>,
    bit_index: u8,
}

impl U32VecBitSink {
    #[verifier::type_invariant]
    closed spec fn wf(self) -> bool {
        &&& self.bit_index < 32
        &&& self.bit_index > 0 ==> self.ints@.len() > 0 && (self.ints@.last() as nat) < pow2(
            self.bit_index as nat,
        )
    }

    /// Constructs a new and empty `U32VecBitSink`.
    pub fn new() -> (r: Self)
        ensures
            r.bits() == Seq::<bool>::empty(),
    {
        Self { ints: Vec::new(), bit_index: 0 }
    }

    /// Constructs a new and empty `U32VecBitSink` with an initial capacity of
    /// `initial_capacity` words.
    pub fn with_capacity(initial_capacity: usize) -> (r: Self)
        ensures
            r.bits() == Seq::<bool>::empty(),
    {
        Self { ints: Vec::with_capacity(initial_capacity), bit_index: 0 }
    }

    /// Gets a reference to the word vector storing the data written into this
    /// sink. The words are exactly the booleans written so far, packed
    /// thirty-two per word, with the unfilled high bits of the last word
    /// still `false`.
    pub fn get_ints(&self) -> (r: &Vec<u32>)
        ensures
            r@ == words_of_bits(self.bits()),
    {
        proof {
            use_type_invariant(&*self);
            self.lemma_ints_pack_bits();
        }
        &self.ints
    }

    /// Creates a `Vec` of booleans that shows exactly which booleans were
    /// written into this sink in which order: the first boolean of the `Vec`
    /// is the first boolean that was written into this sink.
    pub fn get_bools(&self) -> (r: Vec<bool>)
        ensures
            r@ == self.bits(),
    {
        proof {
            use_type_invariant(&*self);
        }
        let mut bools: Vec<bool> = Vec::new();
        let full_count: usize = if self.bit_index == 0 {
            self.ints.len()
        } else {
            self.ints.len() - 1
        };
        proof {
            assert(bits_of_words(self.ints@.take(0)) =~= Seq::<bool>::empty());
        }
        let mut k: usize = 0;
        while k < full_count
            invariant
                k <= full_count,
                full_count <= self.ints@.len(),
                after_borrow(bools)@ == bits_of_words(self.ints@.take(k as int)),
            decreases full_count - k,
        {
            proof {
                lemma_bits_of_uint_len(self.ints@[k as int] as nat, 32);
                lemma_bits_of_words_push(self.ints@.take(k as int), self.ints@[k as int]);
                assert(self.ints@.take(k as int).push(self.ints@[k as int]) =~= self.ints@.take(
                    k + 1,
                ));
            }
            push_bits_of_u128(&mut bools, self.ints[k] as u128, 32);
            k = k + 1;
        }
        if self.bit_index > 0 {
            proof {
                assert(self.ints@.take(full_count as int) =~= self.ints@.drop_last());
            }
            let last: u32 = self.ints[self.ints.len() - 1];
            push_bits_of_u128(&mut bools, last as u128, self.bit_index as usize);
        } else {
            proof {
                assert(self.ints@.take(full_count as int) =~= self.ints@);
            }
        }
        bools
    }

    /// The packed words spell out exactly the held booleans.
    proof fn lemma_ints_pack_bits(self)
        requires
            self.wf(),
        ensures
            self.ints@ == words_of_bits(self.bits()),
    {
        if self.bit_index == 0 || self.ints@.len() == 0 {
            lemma_words_of_bits_concat(self.ints@, Seq::<bool>::empty());
            assert(bits_of_words(self.ints@) + Seq::<bool>::empty() =~= bits_of_words(self.ints@));
            assert(self.ints@ + words_of_bits(Seq::<bool>::empty()) =~= self.ints@);
        } else {
            let head = self.ints@.drop_last();
            let last = self.ints@.last();
            let tail = bits_of_uint(last as nat, self.bit_index as nat);
            lemma_words_of_bits_concat(head, tail);
            lemma_bits_of_uint_len(last as nat, self.bit_index as nat);
            crate::bits::lemma_uint_of_bits_of_uint(last as nat, self.bit_index as nat);
            vstd::arithmetic::div_mod::lemma_small_mod(last as nat, pow2(self.bit_index as nat));
            assert(words_of_bits(tail) =~= seq![last]);
            assert(head + seq![last] =~= self.ints@);
        }
    }
}

impl BitSink for U32VecBitSink {
    closed spec fn bits(&self) -> Seq<bool> {
        packed_word_bits(self.ints@, self.bit_index as nat)
    }

    open spec fn retains(&self) -> bool {
        true
    }

    open spec fn never_fails(&self) -> bool {
        true
    }

    fn write(&mut self, bits: &[bool]) -> (r: Result<(), WriteError>) {
        proof {
            use_type_invariant(&*self);
        }
        let ghost previous = self.bits();
        let mut tmp = Self { ints: Vec::new(), bit_index: 0 };
        core::mem::swap(&mut tmp, self);
        let Self { mut ints, mut bit_index } = tmp;
        let mut i: usize = 0;
        proof {
            assert(bits@.take(0) =~= Seq::<bool>::empty());
            assert(previous + Seq::<bool>::empty() =~= previous);
        }
        while i < bits.len()
            invariant
                i <= bits@.len(),
                bit_index < 32,
                bit_index > 0 ==> ints@.len() > 0 && (ints@.last() as nat) < pow2(bit_index as nat),
                packed_word_bits(ints@, bit_index as nat) == previous + bits@.take(i as int),
            decreases bits@.len() - i,
        {
            let bit = bits[i];
            proof {
                assert(bits@.take(i + 1) =~= bits@.take(i as int).push(bit));
            }
            if bit_index == 0 {
                let w: u32 = if bit {
                    1
                } else {
                    0
                };
                proof {
                    lemma2_to64();
                    let nw = ints@.push(w);
                    assert(nw.drop_last() =~= ints@);
                    assert(nw.last() == w);
                    assert(bits_of_uint(w as nat, 1) =~= bits_of_uint(0nat, 0).push(bit)) by {
                        lemma_bits_of_uint_snoc_bit(0nat, 0, bit);
                    }
                    assert(packed_word_bits(nw, 1) == bits_of_words(ints@) + bits_of_uint(
                        w as nat,
                        1,
                    ));
                    assert(packed_word_bits(ints@, 0) == bits_of_words(ints@));
                    assert(bits_of_words(ints@) + bits_of_uint(w as nat, 1) =~= (previous
                        + bits@.take(i as int)) + seq![bit]);
                    assert((previous + bits@.take(i as int)) + seq![bit] =~= previous + bits@.take(
                        i as int,
                    ).push(bit));
                }
                ints.push(w);
                bit_index = 1;
            } else {
                let last_index: usize = ints.len() - 1;
                let ghost old_ints = ints@;
                let ghost old_last = ints@.last();
                if bit {
                    proof {
                        lemma_pow2_strictly_increases(bit_index as nat, 32);
                        lemma2_to64();
                    }
                    let weight: u32 = pow2_u128(bit_index as usize) as u32;
                    let updated: u32 = ints[last_index] + weight;
                    ints[last_index] = updated;
                    proof {
                        assert(ints@ =~= old_ints.update(
                            last_index as int,
                            (old_last + pow2(bit_index as nat)) as u32,
                        ));
                    }
                }
                proof {
                    lemma_bits_of_uint_snoc_bit(old_last as nat, bit_index as nat, bit);
                    assert(ints@.drop_last() =~= old_ints.drop_last());
                    assert(ints@.last() as nat == old_last as nat + if bit {
                        pow2(bit_index as nat)
                    } else {
                        0nat
                    });
                    assert(bits_of_uint(ints@.last() as nat, (bit_index + 1) as nat)
                        == bits_of_uint(old_last as nat, bit_index as nat).push(bit));
                    assert(bits_of_words(old_ints.drop_last()) + bits_of_uint(
                        ints@.last() as nat,
                        (bit_index + 1) as nat,
                    ) =~= (previous + bits@.take(i as int)) + seq![bit]);
                    assert((previous + bits@.take(i as int)) + seq![bit] =~= previous + bits@.take(
                        i as int,
                    ).push(bit));
                    if bit_index == 31 {
                        // the word is now full: it joins the whole words
                        lemma_bits_of_uint_len(ints@.last() as nat, 32);
                        lemma_bits_of_words_push(ints@.drop_last(), ints@.last());
                        assert(ints@.drop_last().push(ints@.last()) =~= ints@);
                        assert(packed_word_bits(ints@, 0) == bits_of_words(ints@));
                        assert(bits_of_words(ints@) == bits_of_words(ints@.drop_last())
                            + bits_of_word(ints@.last()));
                    } else {
                        lemma_pow2_strictly_increases(bit_index as nat, (bit_index + 1) as nat);
                    }
                }
                if bit_index == 31 {
                    bit_index = 0;
                } else {
                    bit_index = bit_index + 1;
                }
            }
            i = i + 1;
        }
        proof {
            assert(bits@.take(bits@.len() as int) =~= bits@);
        }
        *self = Self { ints, bit_index };
        Ok(())
    }

    fn finish(&mut self) -> (r: Result<(), WriteError>) {
        proof {
            use_type_invariant(&*self);
        }
        let mut tmp = Self { ints: Vec::new(), bit_index: 0 };
        core::mem::swap(&mut tmp, self);
        let Self { mut ints, bit_index } = tmp;
        shrink_vec(&mut ints);
        *self = Self { ints, bit_index };
        Ok(())
    }

    fn get_num_bools(&self) -> (r: u64) {
        proof {
            use_type_invariant(&*self);
            lemma_bits_of_words_len(self.ints@);
            if self.bit_index > 0 {
                lemma_bits_of_words_len(self.ints@.drop_last());
                lemma_bits_of_uint_len(self.ints@.last() as nat, self.bit_index as nat);
            }
        }
        if self.bit_index == 0 {
            self.ints.len() as u64 * 32
        } else {
            (self.ints.len() as u64 - 1) * 32 + self.bit_index as u64
        }
    }
}

} // verus!
