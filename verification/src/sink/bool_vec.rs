//! The simplest backing store for a bit sink: one boolean of storage per
//! boolean written.

use vstd::prelude::*;

use crate::bits::bytes_of_bits;
use crate::bools_to_bytes;
use crate::sink::shrink_vec;
use crate::sink::BitSink;
use crate::sink::WriteError;

verus! {

/// One of the simplest implementations of `BitSink`: a struct with only a
/// `Vec<bool>`, which implements `write` by pushing each boolean onto that
/// vector.
///
/// The `write` and `finish` methods of this type never return `Err`, because
/// this implementation has no operation that can fail in normal
/// circumstances.
///
/// This implementation is not very efficient in terms of memory usage,
/// because a whole byte of storage holds a single boolean rather than eight.
pub struct BoolVecBitSink {
    vec: Vec<bool>,
}

impl BoolVecBitSink {
    /// Constructs a new `BoolVecBitSink` backed by an empty `Vec`.
    pub fn new() -> (r: Self)
        ensures
            r.bits() == Seq::<bool>::empty(),
    {
        Self { vec: Vec::new() }
    }

    /// Constructs a new `BoolVecBitSink` backed by an empty `Vec` with an
    /// initial capacity of `capacity` booleans.
    pub fn with_capacity(capacity: usize) -> (r: Self)
        ensures
            r.bits() == Seq::<bool>::empty(),
    {
        Self { vec: Vec::with_capacity(capacity) }
    }

    /// Gets a slice over the booleans that were written to this sink, in
    /// write order.
    pub fn get_bits(&self) -> (r: &[bool])
        ensures
            r@ == self.bits(),
    {
        self.vec.as_slice()
    }

    /// Encodes the booleans that were written to this sink as bytes, using
    /// the `bools_to_bytes` function of this crate.
    ///
    /// This creates a new `Vec<u8>` on each call, so avoid calling it
    /// repeatedly when the result can be kept.
    pub fn to_bytes(&self) -> (r: Vec<u8>)
        ensures
            r@ == bytes_of_bits(self.bits()),
    {
        bools_to_bytes(self.vec.as_slice())
    }
}

impl BitSink for BoolVecBitSink {
    closed spec fn bits(&self) -> Seq<bool> {
        self.vec@
    }

    open spec fn retains(&self) -> bool {
        true
    }

    open spec fn never_fails(&self) -> bool {
        true
    }

    fn write(&mut self, bits: &[bool]) -> (r: Result<(), WriteError>) {
        self.vec.extend_from_slice(bits);
        Ok(())
    }

    fn finish(&mut self) -> (r: Result<(), WriteError>) {
        // Release the spare capacity of the vector.
        shrink_vec(&mut self.vec);
        Ok(())
    }

    fn get_num_bools(&self) -> (r: u64) {
        self.vec.len() as u64
    }
}

} // verus!
