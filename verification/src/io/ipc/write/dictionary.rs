//! The dictionary batches that must go before a record batch: one for each
//! segment of each dictionary that the reader does not hold yet.

use crate::array::Array;
use crate::datatypes::{DataType, Field};
use crate::error::{ArrowError, OutOfSpec, Unsupported};
use crate::io::ipc::read::deserialize::{ipc_fits, ipcs_fit};
use crate::io::ipc::write::serialize;
use crate::io::ipc::write::serialize::{encoded_body, encoded_buffers, encoded_nodes, writable};
use crate::io::ipc::{BufferDescriptor, Compression, DictionaryBatch, IpcField, Node, RecordBatch};
use std::collections::HashMap;
use std::sync::Arc;
use vstd::prelude::*;

verus! {

/// What a writer remembers of the dictionaries it has sent: for each
/// identifier the version that went out last.
pub struct DictionaryTracker {
    pub emitted: HashMap<i64, u64>,
}

impl View for DictionaryTracker {
    type V = Map<i64, u64>;

    open spec fn view(&self) -> Map<i64, u64> {
        self.emitted@
    }
}

impl DictionaryTracker {
    /// A tracker that has sent nothing.
    pub fn new() -> (out: DictionaryTracker)
        ensures
            out@ == Map::<i64, u64>::empty(),
    {
        DictionaryTracker { emitted: HashMap::new() }
    }

    /// Whether dictionary `id` of version `version` must be sent before a
    /// record batch that refers to it: it must where no dictionary of that
    /// identifier went out yet, or one of another version did.
    pub fn needs_emit(&self, id: i64, version: u64) -> (needed: bool)
        ensures
            needed == !(self@.contains_key(id) && self@[id] == version),
    {
        broadcast use vstd::std_specs::hash::group_hash_axioms;

        match self.emitted.get(&id) {
            Some(sent) => *sent != version,
            None => true,
        }
    }

    /// Notes that dictionary `id` of version `version` went out.
    pub fn mark_emitted(&mut self, id: i64, version: u64)
        ensures
            final(self)@ == old(self)@.insert(id, version),
    {
        broadcast use vstd::std_specs::hash::group_hash_axioms;

        self.emitted.insert(id, version);
    }
}

/// One dictionary batch to be sent: for which dictionary, whether it extends
/// or replaces it, and the values.
pub struct Pending {
    pub id: i64,
    pub is_delta: bool,
    pub values: Array,
}

/// The dictionary batches that define dictionary `id` as `segments`: the
/// first replaces what there was, and each other extends it.
pub open spec fn defining(id: i64, segments: Seq<Arc<Array>>) -> Seq<Pending> {
    Seq::new(segments.len(), |j: int| Pending { id, is_delta: j > 0, values: *segments[j] })
}

/// Whether each of `segments` can be written as a body of its own.
pub open spec fn segments_writable(
    segments: Seq<Arc<Array>>,
    is_little_endian: bool,
    compression: Option<Compression>,
) -> bool {
    forall|j: int|
        0 <= j < segments.len() ==> writable(*#[trigger] segments[j], 0, is_little_endian, compression)
}

/// What is sent, and what is remembered after.
pub struct Plan {
    pub batches: Seq<Pending>,
    pub sent: Map<i64, u64>,
}

/// The dictionary batches that must go out before `array` can be read, and
/// what the writer remembers after: each dictionary within `array`, in
/// pre-order, that did not go out in its version yet, the dictionaries within
/// its own values before it.
pub open spec fn pending(
    array: Array,
    ipc_field: IpcField,
    sent: Map<i64, u64>,
    is_little_endian: bool,
    compression: Option<Compression>,
) -> Result<Plan, ArrowError>
    decreases array, 1nat,
{
    match array {
        Array::Dictionary(a) => match ipc_field.dictionary_id {
            None => Err(ArrowError::OutOfSpec(OutOfSpec::MissingDictionaryId)),
            Some(id) => match pending_in_segments(
                a.values,
                ipc_field,
                sent,
                is_little_endian,
                compression,
                a.values@.len(),
            ) {
                Err(e) => Err(e),
                Ok(inner) => if inner.sent.contains_key(id) && inner.sent[id] == a.version {
                    Ok(inner)
                } else if !segments_writable(a.values@, is_little_endian, compression) {
                    Err(ArrowError::NotYetImplemented(Unsupported::BodyTooLarge))
                } else {
                    Ok(
                        Plan {
                            batches: inner.batches + defining(id, a.values@),
                            sent: inner.sent.insert(id, a.version),
                        },
                    )
                },
            },
        },
        Array::List(a) => pending(*a.values, ipc_field.fields@[0], sent, is_little_endian, compression),
        Array::FixedSizeList(a) => pending(
            *a.values,
            ipc_field.fields@[0],
            sent,
            is_little_endian,
            compression,
        ),
        Array::Struct(a) => pending_in_arrays(
            a.values,
            ipc_field.fields@,
            sent,
            is_little_endian,
            compression,
            a.values@.len(),
        ),
        Array::Union(a) => pending_in_arrays(
            a.fields,
            ipc_field.fields@,
            sent,
            is_little_endian,
            compression,
            a.fields@.len(),
        ),
        _ => Ok(Plan { batches: Seq::empty(), sent }),
    }
}

/// The same for the first `upto` of `arrays`, one after the other.
pub open spec fn pending_in_arrays(
    arrays: Vec<Array>,
    ipc_fields: Seq<IpcField>,
    sent: Map<i64, u64>,
    is_little_endian: bool,
    compression: Option<Compression>,
    upto: nat,
) -> Result<Plan, ArrowError>
    decreases arrays, upto,
{
    if upto == 0 || upto > arrays@.len() {
        Ok(Plan { batches: Seq::empty(), sent })
    } else {
        match pending_in_arrays(
            arrays,
            ipc_fields,
            sent,
            is_little_endian,
            compression,
            (upto - 1) as nat,
        ) {
            Err(e) => Err(e),
            Ok(before) => match pending(
                arrays@[upto - 1],
                ipc_fields[upto - 1],
                before.sent,
                is_little_endian,
                compression,
            ) {
                Err(e) => Err(e),
                Ok(more) => Ok(Plan { batches: before.batches + more.batches, sent: more.sent }),
            },
        }
    }
}

/// The same for the first `upto` of the segments of one dictionary, which
/// share one wire twin.
pub open spec fn pending_in_segments(
    segments: Vec<Arc<Array>>,
    ipc_field: IpcField,
    sent: Map<i64, u64>,
    is_little_endian: bool,
    compression: Option<Compression>,
    upto: nat,
) -> Result<Plan, ArrowError>
    decreases segments, upto,
{
    if upto == 0 || upto > segments@.len() {
        Ok(Plan { batches: Seq::empty(), sent })
    } else {
        match pending_in_segments(
            segments,
            ipc_field,
            sent,
            is_little_endian,
            compression,
            (upto - 1) as nat,
        ) {
            Err(e) => Err(e),
            Ok(before) => match pending(
                *segments@[upto - 1],
                ipc_field,
                before.sent,
                is_little_endian,
                compression,
            ) {
                Err(e) => Err(e),
                Ok(more) => Ok(Plan { batches: before.batches + more.batches, sent: more.sent }),
            },
        }
    }
}

/// The plan for segment `j` of `segments`.
pub open spec fn segment_plan(
    segments: Vec<Arc<Array>>,
    j: int,
    ipc_field: IpcField,
    sent: Map<i64, u64>,
    is_little_endian: bool,
    compression: Option<Compression>,
) -> Result<Plan, ArrowError> {
    pending(*segments@[j], ipc_field, sent, is_little_endian, compression)
}

/// A dictionary batch as it is sent: its metadata and its body.
#[derive(Debug, PartialEq, Eq)]
pub struct EncodedDictionary {
    pub batch: DictionaryBatch,
    pub body: Vec<u8>,
}

/// Whether `encoded` is the dictionary batch `pending`, written.
pub open spec fn encodes(
    encoded: EncodedDictionary,
    pending: Pending,
    is_little_endian: bool,
    compression: Option<Compression>,
) -> bool {
    &&& encoded.batch.id == pending.id
    &&& encoded.batch.is_delta == pending.is_delta
    &&& encoded.batch.data.length == pending.values@.len()
    &&& encoded.batch.data.compression == compression
    &&& encoded.batch.data.nodes@ == encoded_nodes(pending.values)
    &&& encoded.batch.data.buffers@ == encoded_buffers(pending.values, 0, is_little_endian, compression)
    &&& encoded.body@ == encoded_body(pending.values, is_little_endian, compression)
}

/// Whether what was added to `after` since `before` is `batches`, written in
/// their order.
pub open spec fn extends(
    before: Seq<EncodedDictionary>,
    after: Seq<EncodedDictionary>,
    batches: Seq<Pending>,
    is_little_endian: bool,
    compression: Option<Compression>,
) -> bool {
    &&& after.len() == before.len() + batches.len()
    &&& forall|i: int| 0 <= i < before.len() ==> after[i] == before[i]
    &&& forall|i: int|
        0 <= i < batches.len() ==> encodes(
            #[trigger] after[before.len() + i],
            batches[i],
            is_little_endian,
            compression,
        )
}

/// Writes one segment of a dictionary as a dictionary batch.
pub fn encode_segment(
    values: &Array,
    id: i64,
    is_delta: bool,
    is_little_endian: bool,
    compression: Option<Compression>,
) -> (out: Result<EncodedDictionary, ArrowError>)
    requires
        values.wf(),
    ensures
        out is Ok <==> writable(*values, 0, is_little_endian, compression),
        out matches Ok(encoded) ==> encodes(
            encoded,
            Pending { id, is_delta, values: *values },
            is_little_endian,
            compression,
        ),
        out matches Err(e) ==> e == ArrowError::NotYetImplemented(Unsupported::BodyTooLarge),
{
    let mut nodes: Vec<Node> = Vec::new();
    let mut buffers: Vec<BufferDescriptor> = Vec::new();
    let mut body: Vec<u8> = Vec::new();
    serialize::write(values, &mut nodes, &mut buffers, &mut body, is_little_endian, compression)?;
    let length = values.len();
    proof {
        assert(nodes@ =~= encoded_nodes(*values));
        assert(buffers@ =~= encoded_buffers(*values, 0, is_little_endian, compression));
        assert(body@ =~= encoded_body(*values, is_little_endian, compression));
    }
    Ok(
        EncodedDictionary {
            batch: DictionaryBatch {
                id,
                is_delta,
                data: RecordBatch { length: length as i64, nodes, buffers, compression },
            },
            body,
        },
    )
}

/// Whether `result` and what became of the batches and of the tracker are
/// what `plan` says: where the plan fails, its error comes out; where it does
/// not, its batches were added, written, and the tracker remembers what it says.
pub open spec fn emitted(
    result: Result<(), ArrowError>,
    plan: Result<Plan, ArrowError>,
    before: Seq<EncodedDictionary>,
    after: Seq<EncodedDictionary>,
    remembered: Map<i64, u64>,
    is_little_endian: bool,
    compression: Option<Compression>,
) -> bool {
    match result {
        Ok(_) => plan is Ok && extends(before, after, plan->Ok_0.batches, is_little_endian, compression)
            && remembered == plan->Ok_0.sent,
        Err(e) => plan == Err::<Plan, ArrowError>(e),
    }
}

/// Batches added after batches that were added are added together.
pub proof fn lemma_extends_twice(
    before: Seq<EncodedDictionary>,
    middle: Seq<EncodedDictionary>,
    after: Seq<EncodedDictionary>,
    first: Seq<Pending>,
    second: Seq<Pending>,
    is_little_endian: bool,
    compression: Option<Compression>,
)
    requires
        extends(before, middle, first, is_little_endian, compression),
        extends(middle, after, second, is_little_endian, compression),
    ensures
        extends(before, after, first + second, is_little_endian, compression),
{
    let both = first + second;
    assert forall|i: int| 0 <= i < both.len() implies encodes(
        #[trigger] after[before.len() + i],
        both[i],
        is_little_endian,
        compression,
    ) by {
        if i < first.len() {
            assert(after[before.len() + i] == middle[before.len() + i]);
        } else {
            assert(after[before.len() + i] == after[middle.len() + (i - first.len())]);
        }
    }
}

/// Once the plan for some arrays fails, so does the plan for more of them.
pub proof fn lemma_arrays_plan_fails(
    arrays: Vec<Array>,
    ipc_fields: Seq<IpcField>,
    sent: Map<i64, u64>,
    is_little_endian: bool,
    compression: Option<Compression>,
    at: nat,
    upto: nat,
)
    requires
        at <= upto <= arrays@.len(),
        pending_in_arrays(arrays, ipc_fields, sent, is_little_endian, compression, at) is Err,
    ensures
        pending_in_arrays(arrays, ipc_fields, sent, is_little_endian, compression, upto)
            == pending_in_arrays(arrays, ipc_fields, sent, is_little_endian, compression, at),
    decreases upto,
{
    if at < upto {
        lemma_arrays_plan_fails(
            arrays,
            ipc_fields,
            sent,
            is_little_endian,
            compression,
            at,
            (upto - 1) as nat,
        );
    }
}

/// Once the plan for some segments fails, so does the plan for more of them.
pub proof fn lemma_segments_plan_fails(
    segments: Vec<Arc<Array>>,
    ipc_field: IpcField,
    sent: Map<i64, u64>,
    is_little_endian: bool,
    compression: Option<Compression>,
    at: nat,
    upto: nat,
)
    requires
        at <= upto <= segments@.len(),
        pending_in_segments(segments, ipc_field, sent, is_little_endian, compression, at) is Err,
    ensures
        pending_in_segments(segments, ipc_field, sent, is_little_endian, compression, upto)
            == pending_in_segments(segments, ipc_field, sent, is_little_endian, compression, at),
    decreases upto,
{
    if at < upto {
        lemma_segments_plan_fails(
            segments,
            ipc_field,
            sent,
            is_little_endian,
            compression,
            at,
            (upto - 1) as nat,
        );
    }
}

/// Writes the batches that define dictionary `id` as `segments`.
fn emit_segments(
    segments: &Vec<Arc<Array>>,
    id: i64,
    out: &mut Vec<EncodedDictionary>,
    is_little_endian: bool,
    compression: Option<Compression>,
) -> (ok: bool)
    requires
        forall|j: int| 0 <= j < segments@.len() ==> (#[trigger] segments@[j]).wf(),
    ensures
        ok == segments_writable(segments@, is_little_endian, compression),
        ok ==> extends(old(out)@, final(out)@, defining(id, segments@), is_little_endian, compression),
{
    let mut j: usize = 0;
    while j < segments.len()
        invariant
            j <= segments.len(),
            forall|k: int| 0 <= k < segments@.len() ==> (#[trigger] segments@[k]).wf(),
            forall|k: int|
                0 <= k < j ==> writable(*#[trigger] segments@[k], 0, is_little_endian, compression),
            out@.len() == old(out)@.len() + j,
            forall|i: int| 0 <= i < old(out)@.len() ==> out@[i] == old(out)@[i],
            forall|i: int|
                0 <= i < j ==> encodes(
                    #[trigger] out@[old(out)@.len() + i],
                    defining(id, segments@)[i],
                    is_little_endian,
                    compression,
                ),
        decreases segments.len() - j,
    {
        match encode_segment(&segments[j], id, j > 0, is_little_endian, compression) {
            Err(_) => {
                return false;
            },
            Ok(encoded) => {
                out.push(encoded);
            },
        }
        j = j + 1;
    }
    true
}

/// Writes the dictionary batches that must go out before each of the segments
/// of one dictionary can be read.
fn encode_in_segments(
    segments: &Vec<Arc<Array>>,
    value_type: &DataType,
    ipc_field: &IpcField,
    tracker: &mut DictionaryTracker,
    out: &mut Vec<EncodedDictionary>,
    is_little_endian: bool,
    compression: Option<Compression>,
) -> (result: Result<(), ArrowError>)
    requires
        ipc_fits(*ipc_field, *value_type),
        forall|j: int|
            0 <= j < segments@.len() ==> (#[trigger] segments@[j]).wf() && segments@[j]@.conforms(
                *value_type,
            ),
    ensures
        emitted(
            result,
            pending_in_segments(
                *segments,
                *ipc_field,
                old(tracker)@,
                is_little_endian,
                compression,
                segments@.len(),
            ),
            old(out)@,
            final(out)@,
            final(tracker)@,
            is_little_endian,
            compression,
        ),
    decreases segments, 0nat,
{
    let ghost sent = tracker@;
    let mut j: usize = 0;
    proof {
        assert(extends(old(out)@, out@, Seq::<Pending>::empty(), is_little_endian, compression));
    }
    while j < segments.len()
        invariant
            j <= segments.len(),
            sent == old(tracker)@,
            ipc_fits(*ipc_field, *value_type),
            forall|k: int|
                0 <= k < segments@.len() ==> (#[trigger] segments@[k]).wf() && segments@[k]@.conforms(
                    *value_type,
                ),
            pending_in_segments(*segments, *ipc_field, sent, is_little_endian, compression, j as nat)
                is Ok,
            extends(
                old(out)@,
                out@,
                pending_in_segments(*segments, *ipc_field, sent, is_little_endian, compression, j as nat)->Ok_0.batches,
                is_little_endian,
                compression,
            ),
            tracker@ == pending_in_segments(
                *segments,
                *ipc_field,
                sent,
                is_little_endian,
                compression,
                j as nat,
            )->Ok_0.sent,
        decreases segments.len() - j,
    {
        let ghost middle = out@;
        let ghost before = pending_in_segments(
            *segments,
            *ipc_field,
            sent,
            is_little_endian,
            compression,
            j as nat,
        )->Ok_0;
        match encode_dictionaries(
            &segments[j],
            value_type,
            ipc_field,
            tracker,
            out,
            is_little_endian,
            compression,
        ) {
            Err(e) => {
                proof {
                    lemma_segments_plan_fails(
                        *segments,
                        *ipc_field,
                        sent,
                        is_little_endian,
                        compression,
                        (j + 1) as nat,
                        segments@.len(),
                    );
                }
                return Err(e);
            },
            Ok(_) => {},
        }
        proof {
            let more = segment_plan(*segments, j as int, *ipc_field, before.sent, is_little_endian, compression)->Ok_0;
            lemma_extends_twice(
                old(out)@,
                middle,
                out@,
                before.batches,
                more.batches,
                is_little_endian,
                compression,
            );
        }
        j = j + 1;
    }
    Ok(())
}

/// Writes the dictionary batches that must go out before each of `arrays` can
/// be read.
pub fn encode_in_arrays(
    arrays: &Vec<Array>,
    fields: &Vec<Field>,
    ipc_fields: &Vec<IpcField>,
    tracker: &mut DictionaryTracker,
    out: &mut Vec<EncodedDictionary>,
    is_little_endian: bool,
    compression: Option<Compression>,
) -> (result: Result<(), ArrowError>)
    requires
        arrays@.len() == fields@.len(),
        ipcs_fit(ipc_fields@, *fields),
        forall|i: int|
            0 <= i < arrays@.len() ==> (#[trigger] arrays@[i]).wf() && arrays@[i]@.conforms(
                fields@[i].data_type,
            ),
    ensures
        emitted(
            result,
            pending_in_arrays(
                *arrays,
                ipc_fields@,
                old(tracker)@,
                is_little_endian,
                compression,
                arrays@.len(),
            ),
            old(out)@,
            final(out)@,
            final(tracker)@,
            is_little_endian,
            compression,
        ),
    decreases arrays, 0nat,
{
    let ghost sent = tracker@;
    let mut i: usize = 0;
    proof {
        assert(extends(old(out)@, out@, Seq::<Pending>::empty(), is_little_endian, compression));
    }
    while i < arrays.len()
        invariant
            i <= arrays.len(),
            sent == old(tracker)@,
            arrays@.len() == fields@.len(),
            ipcs_fit(ipc_fields@, *fields),
            forall|k: int|
                0 <= k < arrays@.len() ==> (#[trigger] arrays@[k]).wf() && arrays@[k]@.conforms(
                    fields@[k].data_type,
                ),
            pending_in_arrays(*arrays, ipc_fields@, sent, is_little_endian, compression, i as nat) is Ok,
            extends(
                old(out)@,
                out@,
                pending_in_arrays(*arrays, ipc_fields@, sent, is_little_endian, compression, i as nat)->Ok_0.batches,
                is_little_endian,
                compression,
            ),
            tracker@ == pending_in_arrays(
                *arrays,
                ipc_fields@,
                sent,
                is_little_endian,
                compression,
                i as nat,
            )->Ok_0.sent,
        decreases arrays.len() - i,
    {
        let ghost middle = out@;
        let ghost before = pending_in_arrays(
            *arrays,
            ipc_fields@,
            sent,
            is_little_endian,
            compression,
            i as nat,
        )->Ok_0;
        match encode_dictionaries(
            &arrays[i],
            &fields[i].data_type,
            &ipc_fields[i],
            tracker,
            out,
            is_little_endian,
            compression,
        ) {
            Err(e) => {
                proof {
                    lemma_arrays_plan_fails(
                        *arrays,
                        ipc_fields@,
                        sent,
                        is_little_endian,
                        compression,
                        (i + 1) as nat,
                        arrays@.len(),
                    );
                }
                return Err(e);
            },
            Ok(_) => {},
        }
        proof {
            let more = pending(arrays@[i as int], ipc_fields@[i as int], before.sent, is_little_endian, compression)->Ok_0;
            lemma_extends_twice(
                old(out)@,
                middle,
                out@,
                before.batches,
                more.batches,
                is_little_endian,
                compression,
            );
        }
        i = i + 1;
    }
    Ok(())
}

/// Writes the dictionary batches that must go out before `array` can be read,
/// onto the end of `out`, and lets `tracker` remember them. After an error
/// nothing is said of `out` and of `tracker`.
pub fn encode_dictionaries(
    array: &Array,
    data_type: &DataType,
    ipc_field: &IpcField,
    tracker: &mut DictionaryTracker,
    out: &mut Vec<EncodedDictionary>,
    is_little_endian: bool,
    compression: Option<Compression>,
) -> (result: Result<(), ArrowError>)
    requires
        array.wf(),
        array@.conforms(*data_type),
        ipc_fits(*ipc_field, *data_type),
    ensures
        emitted(
            result,
            pending(*array, *ipc_field, old(tracker)@, is_little_endian, compression),
            old(out)@,
            final(out)@,
            final(tracker)@,
            is_little_endian,
            compression,
        ),
    decreases array, 1nat,
{
    proof {
        assert(extends(old(out)@, out@, Seq::<Pending>::empty(), is_little_endian, compression));
    }
    match (array, data_type) {
        (Array::Dictionary(a), DataType::Dictionary(_, value_type)) => {
            let id = match ipc_field.dictionary_id {
                None => {
                    return Err(ArrowError::OutOfSpec(OutOfSpec::MissingDictionaryId));
                },
                Some(id) => id,
            };
            proof {
                assert forall|j: int| 0 <= j < a.values@.len() implies (#[trigger] a.values@[j]).wf()
                    && a.values@[j]@.conforms(**value_type) by {
                    assert(array@->Dictionary_values[j] == (*a.values@[j])@);
                }
            }
            encode_in_segments(
                &a.values,
                &**value_type,
                ipc_field,
                tracker,
                out,
                is_little_endian,
                compression,
            )?;
            if !tracker.needs_emit(id, a.version) {
                return Ok(());
            }
            let ghost middle = out@;
            let ghost inner = pending_in_segments(
                a.values,
                *ipc_field,
                old(tracker)@,
                is_little_endian,
                compression,
                a.values@.len(),
            )->Ok_0;
            if !emit_segments(&a.values, id, out, is_little_endian, compression) {
                return Err(ArrowError::NotYetImplemented(Unsupported::BodyTooLarge));
            }
            tracker.mark_emitted(id, a.version);
            proof {
                lemma_extends_twice(
                    old(out)@,
                    middle,
                    out@,
                    inner.batches,
                    defining(id, a.values@),
                    is_little_endian,
                    compression,
                );
            }
            Ok(())
        },
        (Array::List(a), DataType::List(inner)) => encode_dictionaries(
            &*a.values,
            &inner.data_type,
            &ipc_field.fields[0],
            tracker,
            out,
            is_little_endian,
            compression,
        ),
        (Array::FixedSizeList(a), DataType::FixedSizeList(inner, _)) => encode_dictionaries(
            &*a.values,
            &inner.data_type,
            &ipc_field.fields[0],
            tracker,
            out,
            is_little_endian,
            compression,
        ),
        (Array::Struct(a), DataType::Struct(fields)) => {
            proof {
                assert forall|i: int| 0 <= i < a.values@.len() implies (#[trigger] a.values@[i]).wf()
                    && a.values@[i]@.conforms(fields@[i].data_type) by {
                    assert(array@->Struct_values[i] == a.values@[i]@);
                }
            }
            encode_in_arrays(&a.values, fields, &ipc_field.fields, tracker, out, is_little_endian, compression)
        },
        (Array::Union(a), DataType::Union(fields, _)) => {
            proof {
                assert forall|i: int| 0 <= i < a.fields@.len() implies (#[trigger] a.fields@[i]).wf()
                    && a.fields@[i]@.conforms(fields@[i].data_type) by {
                    assert(array@->Union_fields[i] == a.fields@[i]@);
                }
            }
            encode_in_arrays(&a.fields, fields, &ipc_field.fields, tracker, out, is_little_endian, compression)
        },
        _ => Ok(()),
    }
}

} // verus!
