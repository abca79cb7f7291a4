//! Chunks: the columns of one record batch.

use crate::array::{array_views, Array, ArrayView};
use crate::error::{ArrowError, OutOfSpec};
use vstd::prelude::*;

verus! {

/// Whether every one of `arrays` has as many slots as the first.
pub open spec fn same_lengths(arrays: Seq<ArrayView>) -> bool {
    forall|i: int| 0 <= i < arrays.len() ==> (#[trigger] arrays[i]).len() == arrays[0].len()
}

/// The columns of one record batch: arrays of one length.
#[derive(Debug, PartialEq, Eq)]
pub struct Chunk {
    pub arrays: Vec<Array>,
}

impl View for Chunk {
    type V = Seq<ArrayView>;

    open spec fn view(&self) -> Seq<ArrayView> {
        array_views(self.arrays@)
    }
}

impl Chunk {
    /// Every column is a sound array, and all have one length.
    pub open spec fn wf(&self) -> bool {
        &&& forall|i: int| 0 <= i < self.arrays@.len() ==> (#[trigger] self.arrays@[i]).wf()
        &&& same_lengths(self@)
    }

    /// The chunk of the given columns, or an error where they differ in length.
    pub fn try_new(arrays: Vec<Array>) -> (out: Result<Chunk, ArrowError>)
        requires
            forall|i: int| 0 <= i < arrays@.len() ==> (#[trigger] arrays@[i]).wf(),
        ensures
            match out {
                Ok(chunk) => chunk.arrays == arrays && chunk.wf(),
                Err(e) => !same_lengths(array_views(arrays@)) && e == ArrowError::OutOfSpec(
                    OutOfSpec::RowCountMismatch,
                ),
            },
    {
        if arrays.len() > 0 {
            let length = arrays[0].len();
            let mut i: usize = 1;
            while i < arrays.len()
                invariant
                    1 <= i <= arrays.len(),
                    length == arrays@[0]@.len(),
                    forall|k: int| 0 <= k < arrays@.len() ==> (#[trigger] arrays@[k]).wf(),
                    forall|k: int| 0 <= k < i ==> (#[trigger] array_views(arrays@)[k]).len() == length,
                decreases arrays.len() - i,
            {
                if arrays[i].len() != length {
                    proof {
                        assert(array_views(arrays@)[i as int].len() != array_views(arrays@)[0].len());
                    }
                    return Err(ArrowError::OutOfSpec(OutOfSpec::RowCountMismatch));
                }
                i = i + 1;
            }
        }
        Ok(Chunk { arrays })
    }

    /// The number of rows: that of the first column, and none where there is no column.
    pub fn len(&self) -> (n: usize)
        requires
            self.wf(),
        ensures
            n == if self@.len() == 0 {
                0
            } else {
                self@[0].len()
            },
    {
        if self.arrays.len() == 0 {
            0
        } else {
            self.arrays[0].len()
        }
    }

    /// Whether the chunk is sound.
    pub fn validate(&self) -> (ok: bool)
        ensures
            ok == self.wf(),
    {
        let mut i: usize = 0;
        while i < self.arrays.len()
            invariant
                i <= self.arrays@.len(),
                forall|k: int| 0 <= k < i ==> (#[trigger] self.arrays@[k]).wf(),
            decreases self.arrays.len() - i,
        {
            if !crate::validate::validate(&self.arrays[i]) {
                return false;
            }
            i = i + 1;
        }
        if self.arrays.len() == 0 {
            return true;
        }
        let length = self.arrays[0].len();
        let mut i: usize = 1;
        while i < self.arrays.len()
            invariant
                1 <= i <= self.arrays@.len(),
                length == self.arrays@[0]@.len(),
                forall|k: int| 0 <= k < self.arrays@.len() ==> (#[trigger] self.arrays@[k]).wf(),
                forall|k: int| 0 <= k < i ==> (#[trigger] self@[k]).len() == length,
            decreases self.arrays.len() - i,
        {
            if self.arrays[i].len() != length {
                proof {
                    assert(self@[i as int].len() != self@[0].len());
                }
                return false;
            }
            i = i + 1;
        }
        true
    }

    /// Whether there is one column for each of `fields`, of its type.
    pub fn has_types(&self, fields: &Vec<crate::datatypes::Field>) -> (ok: bool)
        ensures
            ok == (self.arrays@.len() == fields@.len() && forall|i: int|
                0 <= i < self.arrays@.len() ==> (#[trigger] self.arrays@[i])@.conforms(fields@[i].data_type)),
    {
        if self.arrays.len() != fields.len() {
            return false;
        }
        let mut i: usize = 0;
        while i < self.arrays.len()
            invariant
                i <= self.arrays@.len(),
                self.arrays@.len() == fields@.len(),
                forall|k: int| 0 <= k < i ==> (#[trigger] self.arrays@[k])@.conforms(fields@[k].data_type),
            decreases self.arrays.len() - i,
        {
            if !crate::validate::has_type(&self.arrays[i], &fields[i].data_type) {
                return false;
            }
            i = i + 1;
        }
        true
    }

    /// The columns.
    pub fn arrays(&self) -> (out: &Vec<Array>)
        ensures
            *out == self.arrays,
    {
        &self.arrays
    }
}

} // verus!
