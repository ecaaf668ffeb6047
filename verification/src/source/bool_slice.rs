//! A bit source that reads straight from a slice of booleans.

use vstd::prelude::*;

use crate::source::BitSource;
use crate::source::ReadError;
use vstd::slice::slice_subrange;

verus! {

/// An implementation of `BitSource` that reads booleans from a slice of
/// booleans. The booleans that occur first in the slice are read first.
///
/// This implementation has excellent performance because minimal work is
/// needed per call to `read`, but its memory usage is not so great because a
/// whole byte of the underlying storage holds a single boolean.
pub struct BoolSliceBitSource<'a> {
    slice: &'a [bool],
}

impl<'a> BoolSliceBitSource<'a> {
    /// Constructs a new `BoolSliceBitSource` that reads its values from the
    /// given slice of booleans.
    pub fn new(slice: &'a [bool]) -> (r: Self)
        ensures
            r.bits() == slice@,
    {
        Self { slice }
    }
}

impl<'a> BitSource for BoolSliceBitSource<'a> {
    closed spec fn bits(&self) -> Seq<bool> {
        self.slice@
    }

    fn read(&mut self, dest: &mut [bool]) -> (r: Result<(), ReadError>) {
        if dest.len() > self.slice.len() {
            let available: usize = self.slice.len();
            let mut index: usize = 0;
            while index < available
                invariant
                    index <= available,
                    available == self.slice@.len() < dest@.len(),
                    dest@.len() == old(dest)@.len(),
                    forall|j: int| 0 <= j < index ==> dest@[j] == self.slice@[j],
                    forall|j: int| index <= j < dest@.len() ==> dest@[j] == old(dest)@[j],
                decreases available - index,
            {
                dest[index] = self.slice[index];
                index = index + 1;
            }
            proof {
                assert(dest@ =~= self.slice@ + old(dest)@.skip(available as int));
            }
            self.slice = slice_subrange(self.slice, available, available);
            proof {
                assert(self.slice@ =~= Seq::<bool>::empty());
            }
            return Err(ReadError::ReachedEnd { read_bools: available });
        }
        let count: usize = dest.len();
        let mut index: usize = 0;
        while index < count
            invariant
                index <= count,
                count <= self.slice@.len(),
                count == dest@.len() == old(dest)@.len(),
                forall|j: int| 0 <= j < index ==> dest@[j] == self.slice@[j],
            decreases count - index,
        {
            dest[index] = self.slice[index];
            index = index + 1;
        }
        proof {
            assert(dest@ =~= self.slice@.take(count as int));
        }
        self.slice = slice_subrange(self.slice, count, self.slice.len());
        Ok(())
    }
}

} // verus!
