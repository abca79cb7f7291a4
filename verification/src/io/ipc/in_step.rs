//! How a writer and a reader stay in step over dictionaries: the dictionary
//! batches that the writer sends before a chunk leave the reader's table
//! holding the dictionaries that the chunk refers to.
//!
//! This is stated for chunks whose dictionary-encoded columns stand at the top
//! level and have values without dictionaries of their own.

use crate::array::{array_view, array_views, Array, ArrayView};
use crate::chunk::same_lengths;
use crate::datatypes::{DataType, Field};
use crate::error::ArrowError;
use crate::io::ipc::dictionaries::{segment_views, values_of, DictionaryView};
use crate::io::ipc::read::common::decode_batch;
use crate::io::ipc::read::deserialize::{ipc_fits, ipcs_fit, Source};
use crate::io::ipc::read::dictionary::find_in_fields;
use crate::io::ipc::round_trip::{
    after_batches, defined, dictionaries_hold, lemma_batch_round_trip, lemma_defined,
    lemma_dictionary_round_trip, lemma_no_dictionaries,
};
use crate::io::ipc::write::dictionary::{
    defining, pending, pending_in_arrays, pending_in_segments, segments_writable, Pending, Plan,
};
use crate::io::ipc::write::schema::dictionary_count;
use crate::io::ipc::write::serialize::{arrays_body, arrays_buffers, arrays_lengths_fit, arrays_nodes};
use crate::io::ipc::{Compression, IpcField};
use std::sync::Arc;
use vstd::prelude::*;

verus! {

/// A plan that sends nothing.
pub open spec fn nothing(sent: Map<i64, u64>) -> Result<Plan, ArrowError> {
    Ok(Plan { batches: Seq::empty(), sent })
}

/// An array of a type without dictionaries needs no dictionary batch.
pub proof fn lemma_plain_pending(
    array: Array,
    data_type: DataType,
    ipc_field: IpcField,
    sent: Map<i64, u64>,
    is_little_endian: bool,
    compression: Option<Compression>,
)
    requires
        array@.conforms(data_type),
        dictionary_count(data_type) == 0,
    ensures
        pending(array, ipc_field, sent, is_little_endian, compression) == nothing(sent),
    decreases array, 1nat,
{
    match array {
        Array::List(a) => {
            lemma_plain_pending(
                *a.values,
                data_type->List_0.data_type,
                ipc_field.fields@[0],
                sent,
                is_little_endian,
                compression,
            );
        },
        Array::FixedSizeList(a) => {
            lemma_plain_pending(
                *a.values,
                data_type->FixedSizeList_0.data_type,
                ipc_field.fields@[0],
                sent,
                is_little_endian,
                compression,
            );
        },
        Array::Struct(a) => {
            let fields = data_type->Struct_0;
            assert forall|i: int| 0 <= i < a.values@.len() implies (#[trigger] a.values@[i])@.conforms(
                fields@[i].data_type,
            ) by {
                assert(array@->Struct_values[i] == a.values@[i]@);
            }
            lemma_plain_arrays_pending(
                a.values,
                fields,
                ipc_field.fields@,
                sent,
                is_little_endian,
                compression,
                a.values@.len(),
            );
        },
        Array::Union(a) => {
            let fields = data_type->Union_0;
            assert forall|i: int| 0 <= i < a.fields@.len() implies (#[trigger] a.fields@[i])@.conforms(
                fields@[i].data_type,
            ) by {
                assert(array@->Union_fields[i] == a.fields@[i]@);
            }
            lemma_plain_arrays_pending(
                a.fields,
                fields,
                ipc_field.fields@,
                sent,
                is_little_endian,
                compression,
                a.fields@.len(),
            );
        },
        _ => {},
    }
}

/// Arrays of types without dictionaries need no dictionary batch.
pub proof fn lemma_plain_arrays_pending(
    arrays: Vec<Array>,
    fields: Vec<Field>,
    ipc_fields: Seq<IpcField>,
    sent: Map<i64, u64>,
    is_little_endian: bool,
    compression: Option<Compression>,
    upto: nat,
)
    requires
        upto <= arrays@.len(),
        arrays@.len() == fields@.len(),
        forall|i: int| 0 <= i < arrays@.len() ==> (#[trigger] arrays@[i])@.conforms(fields@[i].data_type),
        crate::io::ipc::write::schema::fields_dictionary_count(fields, fields@.len()) == 0,
    ensures
        pending_in_arrays(arrays, ipc_fields, sent, is_little_endian, compression, upto) == nothing(sent),
    decreases arrays, upto,
{
    if upto > 0 {
        lemma_plain_arrays_pending(
            arrays,
            fields,
            ipc_fields,
            sent,
            is_little_endian,
            compression,
            (upto - 1) as nat,
        );
        lemma_one_is_plain(fields, upto - 1, fields@.len());
        lemma_plain_pending(
            arrays@[upto - 1],
            fields@[upto - 1].data_type,
            ipc_fields[upto - 1],
            sent,
            is_little_endian,
            compression,
        );
        assert(Seq::<Pending>::empty() + Seq::<Pending>::empty() =~= Seq::<Pending>::empty());
    }
}

/// Where fields have no dictionaries, none of them has.
pub proof fn lemma_one_is_plain(fields: Vec<Field>, i: int, upto: nat)
    requires
        0 <= i < upto <= fields@.len(),
        crate::io::ipc::write::schema::fields_dictionary_count(fields, upto) == 0,
    ensures
        dictionary_count(fields@[i].data_type) == 0,
    decreases upto,
{
    if i < upto - 1 {
        lemma_one_is_plain(fields, i, (upto - 1) as nat);
    }
}

/// Segments of a type without dictionaries need no dictionary batch.
pub proof fn lemma_plain_segments_pending(
    segments: Vec<Arc<Array>>,
    value_type: DataType,
    ipc_field: IpcField,
    sent: Map<i64, u64>,
    is_little_endian: bool,
    compression: Option<Compression>,
    upto: nat,
)
    requires
        upto <= segments@.len(),
        forall|j: int| 0 <= j < segments@.len() ==> (#[trigger] segments@[j])@.conforms(value_type),
        dictionary_count(value_type) == 0,
    ensures
        pending_in_segments(segments, ipc_field, sent, is_little_endian, compression, upto) == nothing(
            sent,
        ),
    decreases segments, upto,
{
    if upto > 0 {
        lemma_plain_segments_pending(
            segments,
            value_type,
            ipc_field,
            sent,
            is_little_endian,
            compression,
            (upto - 1) as nat,
        );
        lemma_plain_pending(
            crate::io::ipc::round_trip::segment(segments, upto - 1),
            value_type,
            ipc_field,
            sent,
            is_little_endian,
            compression,
        );
        assert(Seq::<Pending>::empty() + Seq::<Pending>::empty() =~= Seq::<Pending>::empty());
    }
}

/// Reading batches and then more batches is reading them all in their order.
pub proof fn lemma_after_more(
    fields: Vec<Field>,
    ipc_fields: Seq<IpcField>,
    first: Seq<Pending>,
    second: Seq<Pending>,
    is_little_endian: bool,
    compression: Option<Compression>,
    table: Map<i64, DictionaryView>,
    upto: nat,
)
    requires
        upto <= second.len(),
        after_batches(fields, ipc_fields, first, is_little_endian, compression, table, first.len()) is Ok,
    ensures
        after_batches(
            fields,
            ipc_fields,
            first + second,
            is_little_endian,
            compression,
            table,
            first.len() + upto,
        ) == after_batches(
            fields,
            ipc_fields,
            second,
            is_little_endian,
            compression,
            after_batches(fields, ipc_fields, first, is_little_endian, compression, table, first.len())->Ok_0,
            upto,
        ),
    decreases upto,
{
    let both = first + second;
    if upto == 0 {
        lemma_after_prefix(fields, ipc_fields, both, first, is_little_endian, compression, table, first.len());
    } else {
        lemma_after_more(
            fields,
            ipc_fields,
            first,
            second,
            is_little_endian,
            compression,
            table,
            (upto - 1) as nat,
        );
        assert(both[first.len() + upto - 1] == second[upto - 1]);
    }
}

/// What reading the first batches leaves does not depend on the batches after them.
pub proof fn lemma_after_prefix(
    fields: Vec<Field>,
    ipc_fields: Seq<IpcField>,
    longer: Seq<Pending>,
    shorter: Seq<Pending>,
    is_little_endian: bool,
    compression: Option<Compression>,
    table: Map<i64, DictionaryView>,
    upto: nat,
)
    requires
        upto <= shorter.len() <= longer.len(),
        forall|i: int| 0 <= i < shorter.len() ==> shorter[i] == longer[i],
    ensures
        after_batches(fields, ipc_fields, longer, is_little_endian, compression, table, upto)
            == after_batches(fields, ipc_fields, shorter, is_little_endian, compression, table, upto),
    decreases upto,
{
    if upto > 0 {
        lemma_after_prefix(
            fields,
            ipc_fields,
            longer,
            shorter,
            is_little_endian,
            compression,
            table,
            (upto - 1) as nat,
        );
    }
}

/// Whether column `i` of `arrays` is dictionary-encoded.
pub open spec fn coded_at(arrays: Seq<Array>, i: int) -> bool {
    0 <= i < arrays.len() && arrays[i] is Dictionary
}

/// The version of the dictionary of column `i`.
pub open spec fn version_at(arrays: Seq<Array>, i: int) -> u64 {
    arrays[i]->Dictionary_0.version
}

/// The values of the dictionary of column `i`, segment by segment.
pub open spec fn values_at(arrays: Seq<Array>, i: int) -> Seq<ArrayView> {
    array_view(arrays[i])->Dictionary_values
}

/// The identifier of the dictionary of column `i`.
pub open spec fn id_at(ipc_fields: Seq<IpcField>, i: int) -> i64 {
    ipc_fields[i].dictionary_id->0
}

/// Whether the columns `arrays` are sound columns of `fields`, the
/// dictionary-encoded ones standing at the top level with an identifier that
/// the schema gives to them, with at least one segment of values, and with
/// values that hold no dictionaries and can be written.
pub open spec fn columns_ready(
    arrays: Vec<Array>,
    fields: Vec<Field>,
    ipc_fields: Seq<IpcField>,
    is_little_endian: bool,
    compression: Option<Compression>,
) -> bool {
    &&& arrays@.len() == fields@.len()
    &&& ipcs_fit(ipc_fields, fields)
    &&& forall|i: int|
        0 <= i < arrays@.len() ==> {
            &&& (#[trigger] arrays@[i]).wf()
            &&& arrays@[i]@.conforms(fields@[i].data_type)
            &&& match fields@[i].data_type {
                DataType::Dictionary(_, value_type) => {
                    &&& dictionary_count(*value_type) == 0
                    &&& ipc_fields[i].dictionary_id is Some
                    &&& arrays@[i]->Dictionary_0.values@.len() >= 1
                    &&& find_in_fields(fields, ipc_fields, id_at(ipc_fields, i), fields@.len()) == Some(
                        (*value_type, ipc_fields[i]),
                    )
                    &&& segments_writable(
                        arrays@[i]->Dictionary_0.values@,
                        is_little_endian,
                        compression,
                    )
                },
                other => dictionary_count(other) == 0,
            }
        }
}

/// Whether columns that refer to one dictionary agree on it: they have the
/// same version and the same values.
pub open spec fn agree(arrays: Seq<Array>, ipc_fields: Seq<IpcField>) -> bool {
    forall|i: int, j: int|
        #[trigger] coded_at(arrays, i) && #[trigger] coded_at(arrays, j) && id_at(ipc_fields, i) == id_at(
            ipc_fields,
            j,
        ) ==> version_at(arrays, i) == version_at(arrays, j) && values_at(arrays, i) == values_at(
            arrays,
            j,
        )
}

/// Whether the reader is in step with the writer for `arrays`: where the
/// writer remembers to have sent the dictionary of a column in the column's
/// version, the reader's table holds the values of the column under the
/// dictionary's identifier.
pub open spec fn in_step(
    arrays: Seq<Array>,
    ipc_fields: Seq<IpcField>,
    sent: Map<i64, u64>,
    table: Map<i64, DictionaryView>,
) -> bool {
    forall|i: int|
        #[trigger] coded_at(arrays, i) && sent.contains_key(id_at(ipc_fields, i)) && sent[id_at(
            ipc_fields,
            i,
        )] == version_at(arrays, i) ==> table.contains_key(id_at(ipc_fields, i)) && table[id_at(
            ipc_fields,
            i,
        )].values == values_at(arrays, i)
}

/// Whether the writer remembers the dictionary of each of the first `upto`
/// columns in the column's version.
pub open spec fn marked(arrays: Seq<Array>, ipc_fields: Seq<IpcField>, sent: Map<i64, u64>, upto: int) -> bool {
    forall|i: int|
        i < upto && #[trigger] coded_at(arrays, i) ==> sent.contains_key(id_at(ipc_fields, i)) && sent[id_at(
            ipc_fields,
            i,
        )] == version_at(arrays, i)
}

/// What the writer plans for column `k`, where it remembers `sent`.
pub open spec fn step(
    arrays: Vec<Array>,
    ipc_fields: Seq<IpcField>,
    k: int,
    sent: Map<i64, u64>,
    is_little_endian: bool,
    compression: Option<Compression>,
) -> Result<Plan, ArrowError> {
    pending(arrays@[k], ipc_fields[k], sent, is_little_endian, compression)
}

/// Whether, after the writer's plan for a column, the reader that was at
/// `table` is in step with the writer for the columns up to `upto`.
pub open spec fn stepped(
    arrays: Vec<Array>,
    fields: Vec<Field>,
    ipc_fields: Seq<IpcField>,
    plan: Result<Plan, ArrowError>,
    table: Map<i64, DictionaryView>,
    is_little_endian: bool,
    compression: Option<Compression>,
    upto: int,
) -> bool {
    &&& plan is Ok
    &&& after_batches(
        fields,
        ipc_fields,
        plan->Ok_0.batches,
        is_little_endian,
        compression,
        table,
        plan->Ok_0.batches.len(),
    ) is Ok
    &&& in_step(
        arrays@,
        ipc_fields,
        plan->Ok_0.sent,
        after_batches(
            fields,
            ipc_fields,
            plan->Ok_0.batches,
            is_little_endian,
            compression,
            table,
            plan->Ok_0.batches.len(),
        )->Ok_0,
    )
    &&& marked(arrays@, ipc_fields, plan->Ok_0.sent, upto)
}

/// A column without dictionaries changes nothing between writer and reader.
proof fn lemma_plain_step(
    arrays: Vec<Array>,
    fields: Vec<Field>,
    ipc_fields: Seq<IpcField>,
    k: int,
    sent: Map<i64, u64>,
    table: Map<i64, DictionaryView>,
    is_little_endian: bool,
    compression: Option<Compression>,
)
    requires
        0 <= k < arrays@.len(),
        columns_ready(arrays, fields, ipc_fields, is_little_endian, compression),
        !(fields@[k].data_type is Dictionary),
        in_step(arrays@, ipc_fields, sent, table),
        marked(arrays@, ipc_fields, sent, k),
    ensures
        stepped(
            arrays,
            fields,
            ipc_fields,
            step(arrays, ipc_fields, k, sent, is_little_endian, compression),
            table,
            is_little_endian,
            compression,
            k + 1,
        ),
        step(arrays, ipc_fields, k, sent, is_little_endian, compression) == nothing(sent),
{
    assert(arrays@[k].wf());
    lemma_plain_pending(
        arrays@[k],
        fields@[k].data_type,
        ipc_fields[k],
        sent,
        is_little_endian,
        compression,
    );
    assert(!coded_at(arrays@, k));
}

/// A dictionary-encoded column whose dictionary the writer sends, or has
/// sent, leaves the reader in step with the writer.
#[verifier::rlimit(100)]
proof fn lemma_coded_step(
    arrays: Vec<Array>,
    fields: Vec<Field>,
    ipc_fields: Seq<IpcField>,
    k: int,
    sent: Map<i64, u64>,
    table: Map<i64, DictionaryView>,
    is_little_endian: bool,
    compression: Option<Compression>,
)
    requires
        0 <= k < arrays@.len(),
        columns_ready(arrays, fields, ipc_fields, is_little_endian, compression),
        fields@[k].data_type is Dictionary,
        agree(arrays@, ipc_fields),
        in_step(arrays@, ipc_fields, sent, table),
        marked(arrays@, ipc_fields, sent, k),
    ensures
        stepped(
            arrays,
            fields,
            ipc_fields,
            step(arrays, ipc_fields, k, sent, is_little_endian, compression),
            table,
            is_little_endian,
            compression,
            k + 1,
        ),
{
    let value_type = *fields@[k].data_type->Dictionary_1;
    let id = id_at(ipc_fields, k);
    assert(arrays@[k].wf());
    assert(arrays@[k]@.conforms(fields@[k].data_type));
    assert(coded_at(arrays@, k));
    let a = arrays@[k]->Dictionary_0;
    assert forall|j: int| 0 <= j < a.values@.len() implies (#[trigger] a.values@[j]).wf()
        && a.values@[j]@.conforms(value_type) by {
        assert(arrays@[k]@->Dictionary_values[j] == (*a.values@[j])@);
    }
    lemma_plain_segments_pending(
        a.values,
        value_type,
        ipc_fields[k],
        sent,
        is_little_endian,
        compression,
        a.values@.len(),
    );
    let plan = step(arrays, ipc_fields, k, sent, is_little_endian, compression);
    if sent.contains_key(id) && sent[id] == a.version {
        assert(plan == nothing(sent));
    } else {
        let more = defining(id, a.values@);
        assert(Seq::<Pending>::empty() + more =~= more);
        assert(plan == Ok::<Plan, ArrowError>(Plan { batches: more, sent: sent.insert(id, a.version) }));
        lemma_dictionary_round_trip(
            fields,
            ipc_fields,
            id,
            value_type,
            ipc_fields[k],
            a.values,
            is_little_endian,
            compression,
            table,
            a.values@.len(),
        );
        lemma_defined(table, id, segment_views(a.values@), a.values@.len());
        let reached = defined(table, id, segment_views(a.values@), a.values@.len())->Ok_0;
        assert(segment_views(a.values@).take(a.values@.len() as int) =~= values_at(arrays@, k));
        assert(reached[id].values == values_at(arrays@, k));
        let now = sent.insert(id, a.version);
        assert forall|i: int|
            #[trigger] coded_at(arrays@, i) && now.contains_key(id_at(ipc_fields, i)) && now[id_at(
                ipc_fields,
                i,
            )] == version_at(arrays@, i) implies reached.contains_key(id_at(ipc_fields, i))
            && reached[id_at(ipc_fields, i)].values == values_at(arrays@, i) by {
            let other = id_at(ipc_fields, i);
            if other == id {
                assert(coded_at(arrays@, k));
                assert(values_at(arrays@, i) == values_at(arrays@, k));
                assert(reached.contains_key(id));
            } else {
                assert(sent.contains_key(other));
                assert(sent[other] == version_at(arrays@, i));
                assert(table.contains_key(other) && table[other].values == values_at(arrays@, i));
                assert(reached.contains_key(other));
                assert(reached[other] == table[other]);
            }
        }
        assert forall|i: int| i < k + 1 && #[trigger] coded_at(arrays@, i) implies now.contains_key(
            id_at(ipc_fields, i),
        ) && now[id_at(ipc_fields, i)] == version_at(arrays@, i) by {
            if id_at(ipc_fields, i) == id {
                assert(version_at(arrays@, i) == version_at(arrays@, k));
            }
        }
    }
}

/// Column by column, the dictionary batches that the writer plans leave the
/// reader in step with the writer.
#[verifier::rlimit(100)]
proof fn lemma_stay_in_step(
    arrays: Vec<Array>,
    fields: Vec<Field>,
    ipc_fields: Seq<IpcField>,
    sent: Map<i64, u64>,
    table: Map<i64, DictionaryView>,
    is_little_endian: bool,
    compression: Option<Compression>,
    upto: nat,
)
    requires
        upto <= arrays@.len(),
        columns_ready(arrays, fields, ipc_fields, is_little_endian, compression),
        agree(arrays@, ipc_fields),
        in_step(arrays@, ipc_fields, sent, table),
    ensures
        stepped(
            arrays,
            fields,
            ipc_fields,
            pending_in_arrays(arrays, ipc_fields, sent, is_little_endian, compression, upto),
            table,
            is_little_endian,
            compression,
            upto as int,
        ),
    decreases upto,
{
    if upto > 0 {
        let k = (upto - 1) as int;
        lemma_stay_in_step(
            arrays,
            fields,
            ipc_fields,
            sent,
            table,
            is_little_endian,
            compression,
            (upto - 1) as nat,
        );
        let before = pending_in_arrays(
            arrays,
            ipc_fields,
            sent,
            is_little_endian,
            compression,
            (upto - 1) as nat,
        )->Ok_0;
        let reached = after_batches(
            fields,
            ipc_fields,
            before.batches,
            is_little_endian,
            compression,
            table,
            before.batches.len(),
        )->Ok_0;
        if fields@[k].data_type is Dictionary {
            lemma_coded_step(
                arrays,
                fields,
                ipc_fields,
                k,
                before.sent,
                reached,
                is_little_endian,
                compression,
            );
        } else {
            lemma_plain_step(
                arrays,
                fields,
                ipc_fields,
                k,
                before.sent,
                reached,
                is_little_endian,
                compression,
            );
        }
        let more = step(arrays, ipc_fields, k, before.sent, is_little_endian, compression)->Ok_0;
        lemma_after_more(
            fields,
            ipc_fields,
            before.batches,
            more.batches,
            is_little_endian,
            compression,
            table,
            more.batches.len(),
        );
    }
}

/// A chunk is read back after the dictionary batches that the writer sends
/// before it were read: they leave the reader's table holding every
/// dictionary that the chunk refers to, whether it was sent now or before,
/// in one piece or in segments. The reader stays in step with the writer,
/// with either codec and with none.
pub proof fn lemma_chunk_round_trip(
    arrays: Vec<Array>,
    fields: Vec<Field>,
    ipc_fields: Seq<IpcField>,
    sent: Map<i64, u64>,
    table: Map<i64, DictionaryView>,
    is_little_endian: bool,
    compression: Option<Compression>,
)
    requires
        columns_ready(arrays, fields, ipc_fields, is_little_endian, compression),
        agree(arrays@, ipc_fields),
        in_step(arrays@, ipc_fields, sent, table),
        same_lengths(array_views(arrays@)),
    ensures
        ({
            &&& arrays_lengths_fit(arrays, arrays@.len())
            &&& arrays_body(arrays, arrays@.len(), is_little_endian, compression).len() <= i64::MAX
        }) ==> ({
            let plan = pending_in_arrays(
                arrays,
                ipc_fields,
                sent,
                is_little_endian,
                compression,
                arrays@.len(),
            );
            let after = after_batches(
                fields,
                ipc_fields,
                plan->Ok_0.batches,
                is_little_endian,
                compression,
                table,
                plan->Ok_0.batches.len(),
            );
            &&& plan is Ok
            &&& after is Ok
            &&& in_step(arrays@, ipc_fields, plan->Ok_0.sent, after->Ok_0)
            &&& decode_batch(
                fields,
                ipc_fields,
                None,
                arrays_nodes(arrays, arrays@.len()),
                arrays_buffers(arrays, arrays@.len(), 0, is_little_endian, compression),
                Source {
                    body: arrays_body(arrays, arrays@.len(), is_little_endian, compression),
                    is_little_endian,
                    compression,
                    dictionaries: values_of(after->Ok_0),
                },
            ) == Ok::<Seq<ArrayView>, ArrowError>(array_views(arrays@))
        }),
{
    if arrays_lengths_fit(arrays, arrays@.len()) && arrays_body(
        arrays,
        arrays@.len(),
        is_little_endian,
        compression,
    ).len() <= i64::MAX {
        lemma_stay_in_step(
            arrays,
            fields,
            ipc_fields,
            sent,
            table,
            is_little_endian,
            compression,
            arrays@.len(),
        );
        let plan = pending_in_arrays(
            arrays,
            ipc_fields,
            sent,
            is_little_endian,
            compression,
            arrays@.len(),
        )->Ok_0;
        assert(marked(arrays@, ipc_fields, plan.sent, arrays@.len() as int));
        let reached = after_batches(
            fields,
            ipc_fields,
            plan.batches,
            is_little_endian,
            compression,
            table,
            plan.batches.len(),
        )->Ok_0;
        assert forall|i: int| 0 <= i < arrays@.len() implies dictionaries_hold(
            #[trigger] arrays@[i],
            ipc_fields[i],
            values_of(reached),
        ) by {
            match fields@[i].data_type {
                DataType::Dictionary(_, _) => {
                    assert(coded_at(arrays@, i));
                },
                other => {
                    lemma_no_dictionaries(arrays@[i], other, ipc_fields[i], values_of(reached));
                },
            }
        }
        lemma_batch_round_trip(
            arrays,
            fields,
            ipc_fields,
            is_little_endian,
            compression,
            values_of(reached),
        );
    }
}

} // verus!
