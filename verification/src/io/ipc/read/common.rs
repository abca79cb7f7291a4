//! Reading one record batch into a chunk, all of its columns or a selection.

use crate::array::{array_views, Array, ArrayView};
use crate::chunk::{same_lengths, Chunk};
use crate::datatypes::Field;
use crate::error::{ArrowError, OutOfSpec};
use crate::io::ipc::dictionaries::Dictionaries;
use crate::io::ipc::read::deserialize::{
    all_in_read_form, buffer_count, decode, decode_fields, fields_buffer_count, fields_node_count,
    in_read_form, ipcs_fit, node_count, read, skip, skip_outcome, source_of, Source,
};
use crate::io::ipc::read::read_basic::yields;
use crate::io::ipc::{BufferDescriptor, IpcField, IpcSchema, Node, RecordBatch};
use std::collections::VecDeque;
use vstd::prelude::*;

verus! {

/// Whether each of `projection` is above the one before it.
pub open spec fn ascending(projection: Seq<usize>) -> bool {
    forall|i: int, j: int| 0 <= i < j < projection.len() ==> projection[i] < projection[j]
}

/// Whether `projection` names `column`.
pub open spec fn selects(projection: Seq<usize>, column: int) -> bool {
    exists|k: int| 0 <= k < projection.len() && projection[k] == column
}

/// The arrays of those of the first `upto` of `fields` that `projection`
/// names, as the queues describe them. The columns that it does not name are
/// passed over: they must be there, and need not be sound.
pub open spec fn decode_projected(
    fields: Vec<Field>,
    ipc_fields: Seq<IpcField>,
    projection: Seq<usize>,
    nodes: Seq<Node>,
    buffers: Seq<BufferDescriptor>,
    source: Source,
    upto: nat,
) -> Result<Seq<ArrayView>, ArrowError>
    decreases upto,
{
    if upto == 0 || upto > fields@.len() {
        Ok(Seq::empty())
    } else {
        let column = upto - 1;
        let nodes_before = fields_node_count(fields, column as nat) as int;
        let buffers_before = fields_buffer_count(fields, column as nat) as int;
        match decode_projected(fields, ipc_fields, projection, nodes, buffers, source, column as nat) {
            Err(e) => Err(e),
            Ok(before) => if selects(projection, column) {
                match decode(
                    fields@[column].data_type,
                    ipc_fields[column],
                    nodes.skip(nodes_before),
                    buffers.skip(buffers_before),
                    source,
                ) {
                    Err(e) => Err(e),
                    Ok(array) => Ok(before.push(array)),
                }
            } else {
                match skip_outcome(
                    fields@[column].data_type,
                    nodes.len() - nodes_before,
                    buffers.len() - buffers_before,
                ) {
                    Some(e) => Err(e),
                    None => Ok(before),
                }
            },
        }
    }
}

/// The columns of a record batch: all of them, or those that `projection`
/// names.
pub open spec fn decode_columns(
    fields: Vec<Field>,
    ipc_fields: Seq<IpcField>,
    projection: Option<Seq<usize>>,
    nodes: Seq<Node>,
    buffers: Seq<BufferDescriptor>,
    source: Source,
) -> Result<Seq<ArrayView>, ArrowError> {
    match projection {
        None => decode_fields(fields, ipc_fields, None, nodes, buffers, source, fields@.len()),
        Some(projection) => decode_projected(
            fields,
            ipc_fields,
            projection,
            nodes,
            buffers,
            source,
            fields@.len(),
        ),
    }
}

/// The chunk that a record batch holds: its columns, which must agree in
/// their number of rows.
pub open spec fn decode_batch(
    fields: Vec<Field>,
    ipc_fields: Seq<IpcField>,
    projection: Option<Seq<usize>>,
    nodes: Seq<Node>,
    buffers: Seq<BufferDescriptor>,
    source: Source,
) -> Result<Seq<ArrayView>, ArrowError> {
    match decode_columns(fields, ipc_fields, projection, nodes, buffers, source) {
        Err(e) => Err(e),
        Ok(columns) => if same_lengths(columns) {
            Ok(columns)
        } else {
            Err(ArrowError::OutOfSpec(OutOfSpec::RowCountMismatch))
        },
    }
}

/// The projection as a sequence.
pub open spec fn projection_of(projection: Option<&[usize]>) -> Option<Seq<usize>> {
    match projection {
        Some(projection) => Some(projection@),
        None => None,
    }
}

/// A queue of the items of `items`, in their order.
pub fn queue_of<T: Copy>(items: &Vec<T>) -> (out: VecDeque<T>)
    ensures
        out@ == items@,
{
    let mut out: VecDeque<T> = VecDeque::new();
    let mut i: usize = 0;
    while i < items.len()
        invariant
            i <= items.len(),
            out@ == items@.take(i as int),
        decreases items.len() - i,
    {
        out.push_back(items[i]);
        proof {
            assert(items@.take(i + 1) =~= items@.take(i as int).push(items@[i as int]));
        }
        i = i + 1;
    }
    proof {
        assert(items@.take(items@.len() as int) =~= items@);
    }
    out
}

/// Once one of the columns fails, so do all that take in more columns, with
/// the same error.
pub proof fn lemma_projected_error_persists(
    fields: Vec<Field>,
    ipc_fields: Seq<IpcField>,
    projection: Seq<usize>,
    nodes: Seq<Node>,
    buffers: Seq<BufferDescriptor>,
    source: Source,
    at: nat,
    upto: nat,
)
    requires
        at <= upto <= fields@.len(),
        decode_projected(fields, ipc_fields, projection, nodes, buffers, source, at) is Err,
    ensures
        decode_projected(fields, ipc_fields, projection, nodes, buffers, source, upto) == decode_projected(
            fields,
            ipc_fields,
            projection,
            nodes,
            buffers,
            source,
            at,
        ),
    decreases upto,
{
    if at < upto {
        lemma_projected_error_persists(
            fields,
            ipc_fields,
            projection,
            nodes,
            buffers,
            source,
            at,
            (upto - 1) as nat,
        );
    }
}

/// What the views of the columns that were read do not show: column `k` of
/// `arrays` is the array of the field that `projection` names at `k`, or of
/// field `k` where there is no projection, in the form that reading gives,
/// its field nodes standing after those of the fields before it.
pub open spec fn columns_in_read_form(
    arrays: Seq<Array>,
    fields: Vec<Field>,
    ipc_fields: Seq<IpcField>,
    projection: Option<Seq<usize>>,
    nodes: Seq<Node>,
    dictionaries: Map<i64, crate::io::ipc::dictionaries::DictionaryView>,
) -> bool {
    match projection {
        None => all_in_read_form(arrays, fields, ipc_fields, nodes, dictionaries),
        Some(projection) => {
            &&& arrays.len() <= projection.len()
            &&& forall|k: int|
                0 <= k < arrays.len() ==> projection[k] < fields@.len() && in_read_form(
                    #[trigger] arrays[k],
                    fields@[projection[k] as int].data_type,
                    ipc_fields[projection[k] as int],
                    nodes.skip(fields_node_count(fields, projection[k] as nat) as int),
                    dictionaries,
                )
        },
    }
}

/// Reads the columns that `projection` names and passes over the others.
fn read_projected(
    field_nodes: &mut VecDeque<Node>,
    fields: &Vec<Field>,
    ipc_fields: &Vec<IpcField>,
    projection: &[usize],
    buffers: &mut VecDeque<BufferDescriptor>,
    body: &[u8],
    dictionaries: &Dictionaries,
    is_little_endian: bool,
    compression: Option<crate::io::ipc::Compression>,
) -> (out: Result<Vec<Array>, ArrowError>)
    requires
        ipcs_fit(ipc_fields@, *fields),
        dictionaries.wf(),
        ascending(projection@),
    ensures
        match out {
            Ok(arrays) => {
                &&& decode_projected(
                    *fields,
                    ipc_fields@,
                    projection@,
                    old(field_nodes)@,
                    old(buffers)@,
                    source_of(body@, is_little_endian, compression, dictionaries@),
                    fields@.len(),
                ) == Ok::<Seq<ArrayView>, ArrowError>(array_views(arrays@))
                &&& forall|k: int| 0 <= k < arrays@.len() ==> (#[trigger] arrays@[k]).wf()
                &&& columns_in_read_form(
                    arrays@,
                    *fields,
                    ipc_fields@,
                    Some(projection@),
                    old(field_nodes)@,
                    dictionaries@,
                )
            },
            Err(e) => decode_projected(
                *fields,
                ipc_fields@,
                projection@,
                old(field_nodes)@,
                old(buffers)@,
                source_of(body@, is_little_endian, compression, dictionaries@),
                fields@.len(),
            ) == Err::<Seq<ArrayView>, ArrowError>(e),
        },
{
    let ghost nodes0 = field_nodes@;
    let ghost buffers0 = buffers@;
    let ghost source = source_of(body@, is_little_endian, compression, dictionaries@);
    let ghost total = fields@.len();
    let mut arrays: Vec<Array> = Vec::new();
    let mut next: usize = 0;
    let mut i: usize = 0;
    proof {
        assert(array_views(arrays@) =~= Seq::<ArrayView>::empty());
        assert(nodes0.skip(0) =~= nodes0);
        assert(buffers0.skip(0) =~= buffers0);
    }
    while i < fields.len()
        invariant
            i <= fields.len(),
            total == fields@.len(),
            nodes0 == old(field_nodes)@,
            buffers0 == old(buffers)@,
            ipcs_fit(ipc_fields@, *fields),
            dictionaries.wf(),
            ascending(projection@),
            source == source_of(body@, is_little_endian, compression, dictionaries@),
            next <= projection@.len(),
            arrays@.len() == next,
            forall|k: int|
                0 <= k < next ==> in_read_form(
                    #[trigger] arrays@[k],
                    fields@[projection@[k] as int].data_type,
                    ipc_fields@[projection@[k] as int],
                    nodes0.skip(fields_node_count(*fields, projection@[k] as nat) as int),
                    dictionaries@,
                ),
            forall|k: int| 0 <= k < next ==> projection@[k] < i,
            next < projection@.len() ==> projection@[next as int] >= i,
            decode_projected(*fields, ipc_fields@, projection@, nodes0, buffers0, source, i as nat) == Ok::<
                Seq<ArrayView>,
                ArrowError,
            >(array_views(arrays@)),
            forall|k: int| 0 <= k < arrays@.len() ==> (#[trigger] arrays@[k]).wf(),
            fields_node_count(*fields, i as nat) <= nodes0.len(),
            fields_buffer_count(*fields, i as nat) <= buffers0.len(),
            field_nodes@ == nodes0.skip(fields_node_count(*fields, i as nat) as int),
            buffers@ == buffers0.skip(fields_buffer_count(*fields, i as nat) as int),
        decreases fields.len() - i,
    {
        let selected = next < projection.len() && projection[next] == i;
        proof {
            if selected {
                assert(selects(projection@, i as int));
            } else {
                assert forall|k: int| 0 <= k < projection@.len() implies projection@[k] != i by {
                    if k > next {
                        assert(projection@[next as int] < projection@[k]);
                    }
                }
                assert(!selects(projection@, i as int));
            }
        }
        if selected {
            let result = read(
                field_nodes,
                &fields[i].data_type,
                &ipc_fields[i],
                buffers,
                body,
                dictionaries,
                is_little_endian,
                compression,
            );
            match result {
                Err(e) => {
                    proof {
                        assert(decode_projected(
                            *fields,
                            ipc_fields@,
                            projection@,
                            nodes0,
                            buffers0,
                            source,
                            (i + 1) as nat,
                        ) == Err::<Seq<ArrayView>, ArrowError>(e));
                        lemma_projected_error_persists(
                            *fields,
                            ipc_fields@,
                            projection@,
                            nodes0,
                            buffers0,
                            source,
                            (i + 1) as nat,
                            total,
                        );
                    }
                    return Err(e);
                },
                Ok(array) => {
                    proof {
                        assert(array_views(arrays@.push(array)) =~= array_views(arrays@).push(array@));
                    }
                    arrays.push(array);
                },
            }
            next = next + 1;
        } else {
            match skip(field_nodes, &fields[i].data_type, buffers) {
                Err(e) => {
                    proof {
                        assert(decode_projected(
                            *fields,
                            ipc_fields@,
                            projection@,
                            nodes0,
                            buffers0,
                            source,
                            (i + 1) as nat,
                        ) == Err::<Seq<ArrayView>, ArrowError>(e));
                        lemma_projected_error_persists(
                            *fields,
                            ipc_fields@,
                            projection@,
                            nodes0,
                            buffers0,
                            source,
                            (i + 1) as nat,
                            total,
                        );
                    }
                    return Err(e);
                },
                Ok(_) => {},
            }
        }
        proof {
            let nodes_before = fields_node_count(*fields, i as nat) as int;
            let buffers_before = fields_buffer_count(*fields, i as nat) as int;
            let data_type = fields@[i as int].data_type;
            assert(nodes0.skip(nodes_before).skip(node_count(data_type) as int) =~= nodes0.skip(
                nodes_before + node_count(data_type),
            ));
            assert(buffers0.skip(buffers_before).skip(buffer_count(data_type) as int) =~= buffers0.skip(
                buffers_before + buffer_count(data_type),
            ));
        }
        i = i + 1;
    }
    Ok(arrays)
}

/// Reads a record batch into a chunk: the columns that `projection` names, or
/// all where there is none. The columns not named are passed over, so that the
/// ones after them are read from the right places.
pub fn read_record_batch(
    batch: &RecordBatch,
    fields: &Vec<Field>,
    ipc_schema: &IpcSchema,
    projection: Option<&[usize]>,
    dictionaries: &Dictionaries,
    body: &[u8],
) -> (out: Result<Chunk, ArrowError>)
    requires
        ipcs_fit(ipc_schema.fields@, *fields),
        dictionaries.wf(),
        projection matches Some(p) ==> ascending(p@),
    ensures
        yields(
            out,
            decode_batch(
                *fields,
                ipc_schema.fields@,
                projection_of(projection),
                batch.nodes@,
                batch.buffers@,
                source_of(body@, ipc_schema.is_little_endian, batch.compression, dictionaries@),
            ),
        ),
        out matches Ok(chunk) ==> chunk.wf() && columns_in_read_form(
            chunk.arrays@,
            *fields,
            ipc_schema.fields@,
            projection_of(projection),
            batch.nodes@,
            dictionaries@,
        ),
{
    let mut field_nodes = queue_of(&batch.nodes);
    let mut buffers = queue_of(&batch.buffers);
    let arrays = match projection {
        None => crate::io::ipc::read::deserialize::read_fields(
            &mut field_nodes,
            fields,
            &ipc_schema.fields,
            None,
            &mut buffers,
            body,
            dictionaries,
            ipc_schema.is_little_endian,
            batch.compression,
        )?,
        Some(projection) => read_projected(
            &mut field_nodes,
            fields,
            &ipc_schema.fields,
            projection,
            &mut buffers,
            body,
            dictionaries,
            ipc_schema.is_little_endian,
            batch.compression,
        )?,
    };
    Chunk::try_new(arrays)
}

} // verus!
