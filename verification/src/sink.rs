//! The bit sink capability: a destination to which ordered sequences of
//! booleans can be appended, together with the backing stores that implement
//! it.

use vstd::prelude::*;

pub mod bool_vec;
pub mod u32_vec;
pub mod u8_vec;
pub mod void;

verus! {

/// An error that occurred while writing data to a `BitSink`.
///
/// The in-memory sinks of this crate never produce one; the variant exists
/// for future backing stores whose writes can fail, such as stores backed by
/// files or connections.
#[derive(Debug)]
pub struct WriteError {}

/// A type to which booleans can be written.
///
/// Typical implementations store the booleans written to them so that the
/// booleans can be retrieved and used later on. Other implementations may
/// discard the data, or send or store it right away.
///
/// Every encoder writes all its data to a `BitSink` after converting the data
/// to sequences of booleans.
pub trait BitSink {
    /// The booleans this sink holds, in the order they were written.
    spec fn bits(&self) -> Seq<bool>;

    /// Whether this sink keeps every boolean written to it. A sink that
    /// discards its input reports `false` and holds no booleans.
    spec fn retains(&self) -> bool;

    /// Whether writing to this sink always succeeds. It holds for every
    /// in-memory sink of this crate.
    spec fn never_fails(&self) -> bool;

    /// Writes the next slice of booleans to this `BitSink`, in slice order.
    /// Returns `Ok` if all booleans were written successfully, and a
    /// `WriteError` if some error occurred during writing (for instance an
    /// I/O fault in implementations that write directly to disk or to a
    /// connection).
    fn write(&mut self, bits: &[bool]) -> (r: Result<(), WriteError>)
        ensures
            old(self).never_fails() ==> r is Ok,
            r is Ok && old(self).retains() ==> final(self).bits() == old(self).bits() + bits@,
            r is Ok && !old(self).retains() ==> final(self).bits() == old(self).bits(),
            final(self).retains() == old(self).retains(),
            final(self).never_fails() == old(self).never_fails(),
    ;

    /// Marks this `BitSink` as finished; the sink may compact its storage.
    /// The booleans it holds are unchanged.
    ///
    /// This method should be called after the user is done with writing to
    /// this `BitSink`. Some implementations may rely on this method being
    /// called, while others ignore it completely.
    fn finish(&mut self) -> (r: Result<(), WriteError>)
        ensures
            old(self).never_fails() ==> r is Ok,
            final(self).bits() == old(self).bits(),
            final(self).retains() == old(self).retains(),
            final(self).never_fails() == old(self).never_fails(),
    ;

    /// Gets the total number of booleans this sink holds.
    fn get_num_bools(&self) -> (r: u64)
        requires
            self.bits().len() <= u64::MAX,
        ensures
            r as nat == self.bits().len(),
    ;
}

/// Relies on `Vec::shrink_to_fit`: it only reduces spare capacity and leaves
/// the contents of the vector unchanged.
#[verifier::external_body]
pub(crate) fn shrink_vec<T>(vec: &mut Vec<T>)
    ensures
        final(vec)@ == old(vec)@,
{
    vec.shrink_to_fit()
}

} // verus!
