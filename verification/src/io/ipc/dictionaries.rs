//! The dictionary table of a reader: for each dictionary identifier the values
//! that dictionary-encoded arrays refer to.

use crate::array::{array_view, Array, ArrayView};
use crate::error::{ArrowError, OutOfSpec};
use std::collections::HashMap;
use std::sync::Arc;
use vstd::prelude::*;

verus! {

/// What each of `segments` holds.
pub open spec fn segment_views(segments: Seq<Arc<Array>>) -> Seq<ArrayView> {
    Seq::new(segments.len(), |i: int| array_view(*segments[i]))
}

/// Whether each of `segments` is a sound array.
pub open spec fn segments_sound(segments: Seq<Arc<Array>>) -> bool {
    forall|i: int| 0 <= i < segments.len() ==> (#[trigger] segments[i]).wf()
}

/// `Arc::clone`: another handle to the same array.
#[verifier::external_body]
fn share(array: &Arc<Array>) -> (out: Arc<Array>)
    ensures
        out == *array,
{
    Arc::clone(array)
}

/// Handles to the same arrays, in the same order.
pub fn share_all(segments: &Vec<Arc<Array>>) -> (out: Vec<Arc<Array>>)
    ensures
        out@ == segments@,
{
    let mut out: Vec<Arc<Array>> = Vec::with_capacity(segments.len());
    let mut i: usize = 0;
    while i < segments.len()
        invariant
            i <= segments.len(),
            out@ == segments@.take(i as int),
        decreases segments.len() - i,
    {
        out.push(share(&segments[i]));
        proof {
            assert(segments@.take(i + 1) =~= segments@.take(i as int).push(segments@[i as int]));
        }
        i = i + 1;
    }
    proof {
        assert(segments@.take(segments@.len() as int) =~= segments@);
    }
    out
}

/// One dictionary: how often it was replaced, and its values as the segments
/// they arrived in, which count as one array, each after the one before.
pub struct DictionaryEntry {
    pub version: u64,
    pub values: Vec<Arc<Array>>,
}

/// What one dictionary holds.
pub struct DictionaryView {
    pub version: nat,
    pub values: Seq<ArrayView>,
}

/// The dictionary table of one reader.
pub struct Dictionaries {
    pub entries: HashMap<i64, DictionaryEntry>,
}

impl View for Dictionaries {
    type V = Map<i64, DictionaryView>;

    open spec fn view(&self) -> Map<i64, DictionaryView> {
        Map::new(
            |id: i64| self.entries@.contains_key(id),
            |id: i64|
                DictionaryView {
                    version: self.entries@[id].version as nat,
                    values: segment_views(self.entries@[id].values@),
                },
        )
    }
}

/// The values of each dictionary of `table`.
pub open spec fn values_of(table: Map<i64, DictionaryView>) -> Map<i64, Seq<ArrayView>> {
    Map::new(|id: i64| table.contains_key(id), |id: i64| table[id].values)
}

impl Dictionaries {
    /// Every segment of every dictionary is a sound array.
    pub open spec fn wf(&self) -> bool {
        forall|id: i64| #[trigger]
            self.entries@.contains_key(id) ==> segments_sound(self.entries@[id].values@)
    }

    /// A table without dictionaries.
    pub fn new() -> (out: Dictionaries)
        ensures
            out@ == Map::<i64, DictionaryView>::empty(),
            out.wf(),
    {
        let out = Dictionaries { entries: HashMap::new() };
        proof {
            assert(out@ =~= Map::<i64, DictionaryView>::empty());
        }
        out
    }

    /// The version and the values of dictionary `id`, or `None` where the table
    /// has none of that identifier.
    pub fn lookup(&self, id: i64) -> (out: Option<(u64, Vec<Arc<Array>>)>)
        ensures
            out is Some <==> self@.contains_key(id),
            out matches Some(found) ==> {
                &&& found.0 == self@[id].version
                &&& found.1@ == self.entries@[id].values@
                &&& segment_views(found.1@) == self@[id].values
            },
    {
        broadcast use vstd::std_specs::hash::group_hash_axioms;

        match self.entries.get(&id) {
            None => None,
            Some(entry) => Some((entry.version, share_all(&entry.values))),
        }
    }

    /// Takes in the values of a dictionary batch. Values that are no delta
    /// replace what the table holds for `id` and give the dictionary its next
    /// version. A delta comes after the values that the table holds for `id`,
    /// which must be there, and leaves the version as it is.
    pub fn apply(&mut self, id: i64, values: Array, is_delta: bool) -> (out: Result<(), ArrowError>)
        requires
            old(self).wf(),
            values.wf(),
        ensures
            final(self).wf(),
            match out {
                Ok(_) => applied(old(self)@, id, values@, is_delta) == Ok::<
                    Map<i64, DictionaryView>,
                    ArrowError,
                >(final(self)@),
                Err(e) => final(self)@ == old(self)@ && applied(old(self)@, id, values@, is_delta) == Err::<
                    Map<i64, DictionaryView>,
                    ArrowError,
                >(e),
            },
    {
        broadcast use vstd::std_specs::hash::group_hash_axioms;

        let ghost before = self.entries@;
        let ghost view = values@;
        let previous = self.entries.remove(&id);
        let entry = match previous {
            Some(mut entry) => {
                if is_delta {
                    entry.values.push(Arc::new(values));
                    proof {
                        assert(segment_views(entry.values@) =~= segment_views(before[id].values@).push(view));
                    }
                    entry
                } else {
                    let version = if entry.version < u64::MAX {
                        entry.version + 1
                    } else {
                        entry.version
                    };
                    let mut segments: Vec<Arc<Array>> = Vec::new();
                    segments.push(Arc::new(values));
                    proof {
                        assert(segment_views(segments@) =~= seq![view]);
                    }
                    DictionaryEntry { version, values: segments }
                }
            },
            None => {
                if is_delta {
                    proof {
                        assert(self.entries@ =~= before);
                        assert(self@ =~= old(self)@);
                    }
                    return Err(ArrowError::OutOfSpec(OutOfSpec::DeltaWithoutDictionary));
                }
                let mut segments: Vec<Arc<Array>> = Vec::new();
                segments.push(Arc::new(values));
                proof {
                    assert(segment_views(segments@) =~= seq![view]);
                }
                DictionaryEntry { version: 1, values: segments }
            },
        };
        self.entries.insert(id, entry);
        proof {
            assert(self@ =~= applied(old(self)@, id, view, is_delta)->Ok_0);
        }
        Ok(())
    }
}

/// The next version of a dictionary. It does not go beyond what 64 bits hold.
pub open spec fn bumped(version: nat) -> nat {
    if version < u64::MAX {
        version + 1
    } else {
        version
    }
}

/// The table after the values of a dictionary batch were taken in.
pub open spec fn applied(
    table: Map<i64, DictionaryView>,
    id: i64,
    values: ArrayView,
    is_delta: bool,
) -> Result<Map<i64, DictionaryView>, ArrowError> {
    if is_delta {
        if table.contains_key(id) {
            Ok(
                table.insert(
                    id,
                    DictionaryView { version: table[id].version, values: table[id].values.push(values) },
                ),
            )
        } else {
            Err(ArrowError::OutOfSpec(OutOfSpec::DeltaWithoutDictionary))
        }
    } else {
        Ok(
            table.insert(
                id,
                DictionaryView {
                    version: if table.contains_key(id) {
                        bumped(table[id].version)
                    } else {
                        1
                    },
                    values: seq![values],
                },
            ),
        )
    }
}

} // verus!
