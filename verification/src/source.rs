//! The bit source capability: an origin from which ordered sequences of
//! booleans can be read, together with the backing stores that implement it.

use vstd::prelude::*;

pub mod bool_slice;
pub mod u8_slice;

verus! {

/// An error that occurred while reading data from a `BitSource`.
#[derive(Debug)]
pub enum ReadError {
    /// The source ran out of booleans before the destination was filled.
    /// `read_bools` is the number of booleans that were still available and
    /// were delivered before the end was reached.
    ReachedEnd { read_bools: usize },
}

/// A type from which booleans can be read.
///
/// Typical implementations read booleans from a slice of booleans or of
/// packed integers, but other implementations might read them from a file or
/// a socket connection.
///
/// Every decoder reads the data that it decodes from a `BitSource`.
pub trait BitSource {
    /// The booleans this source still holds, in the order they will be read.
    spec fn bits(&self) -> Seq<bool>;

    /// Attempts to read booleans from this source and put them into `dest`.
    ///
    /// The first boolean read is put in `dest[0]`, the second in `dest[1]`,
    /// and so on, until `dest` has been filled completely.
    ///
    /// If enough booleans could be read to fill `dest` completely, this
    /// method returns `Ok`. If the source was exhausted before `dest` was
    /// filled, it returns `ReadError::ReachedEnd` carrying the number of
    /// booleans that were delivered; those booleans fill the front of `dest`
    /// and the rest of `dest` is left unchanged.
    fn read(&mut self, dest: &mut [bool]) -> (r: Result<(), ReadError>)
        ensures
            final(dest)@.len() == old(dest)@.len(),
            old(self).bits().len() >= old(dest)@.len() ==> r is Ok && final(dest)@ == old(
                self,
            ).bits().take(old(dest)@.len() as int) && final(self).bits() == old(self).bits().skip(
                old(dest)@.len() as int,
            ),
            old(self).bits().len() < old(dest)@.len() ==> r == Err::<(), ReadError>(
                ReadError::ReachedEnd { read_bools: old(self).bits().len() as usize },
            ) && final(dest)@ == old(self).bits() + old(dest)@.skip(old(self).bits().len() as int)
                && final(self).bits() == Seq::<bool>::empty(),
    ;
}

} // verus!
