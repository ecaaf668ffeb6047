//! A bit sink that discards everything written to it.

use vstd::prelude::*;

use crate::sink::BitSink;
use crate::sink::WriteError;

verus! {

/// An implementation of `BitSink` that forgets all data written to it.
/// Calls to `write` and `finish` never return an error and never panic.
pub struct VoidBitSink {}

impl VoidBitSink {
    /// Creates a new instance of `VoidBitSink`. This is a no-op since this
    /// struct doesn't have any fields.
    pub fn new() -> (r: Self) {
        Self {  }
    }
}

impl BitSink for VoidBitSink {
    open spec fn bits(&self) -> Seq<bool> {
        Seq::empty()
    }

    open spec fn retains(&self) -> bool {
        false
    }

    open spec fn never_fails(&self) -> bool {
        true
    }

    fn write(&mut self, _bits: &[bool]) -> (r: Result<(), WriteError>) {
        Ok(())
    }

    fn finish(&mut self) -> (r: Result<(), WriteError>) {
        Ok(())
    }

    fn get_num_bools(&self) -> (r: u64) {
        0
    }
}

} // verus!
