//! Reading a dictionary batch into the dictionary table.

use crate::array::ArrayView;
use crate::datatypes::{DataType, Field};
use crate::error::{ArrowError, OutOfSpec};
use crate::io::ipc::dictionaries::{applied, Dictionaries, DictionaryView};
use crate::io::ipc::read::common::queue_of;
use crate::io::ipc::read::deserialize::{decode, decode_fields, ipc_fits, ipcs_fit, read, source_of, Source};
use crate::io::ipc::{BufferDescriptor, DictionaryBatch, IpcField, IpcSchema, Node};
use vstd::prelude::*;

verus! {

/// The type of the values of the first dictionary-encoded field within
/// `data_type`, in pre-order, that the wire twin gives the identifier `id`,
/// with that twin; `None` where there is no such field.
pub open spec fn find_in_type(data_type: DataType, ipc_field: IpcField, id: i64) -> Option<
    (DataType, IpcField),
>
    decreases data_type, 1nat,
{
    match data_type {
        DataType::Dictionary(_, value_type) => if ipc_field.dictionary_id == Some(id) {
            Some((*value_type, ipc_field))
        } else {
            find_in_type(*value_type, ipc_field, id)
        },
        DataType::List(field) => find_in_type(field.data_type, ipc_field.fields@[0], id),
        DataType::FixedSizeList(field, _) => find_in_type(field.data_type, ipc_field.fields@[0], id),
        DataType::Struct(fields) => find_in_fields(fields, ipc_field.fields@, id, fields@.len()),
        DataType::Union(fields, _) => find_in_fields(fields, ipc_field.fields@, id, fields@.len()),
        _ => None,
    }
}

/// The same within the first `upto` of `fields`, the earliest field first.
pub open spec fn find_in_fields(fields: Vec<Field>, ipc_fields: Seq<IpcField>, id: i64, upto: nat) -> Option<
    (DataType, IpcField),
>
    decreases fields, upto,
{
    if upto == 0 || upto > fields@.len() {
        None
    } else {
        match find_in_fields(fields, ipc_fields, id, (upto - 1) as nat) {
            Some(found) => Some(found),
            None => find_in_type(fields@[upto - 1].data_type, ipc_fields[upto - 1], id),
        }
    }
}

/// Once a field is found, taking in more fields finds the same.
pub proof fn lemma_found_persists(fields: Vec<Field>, ipc_fields: Seq<IpcField>, id: i64, at: nat, upto: nat)
    requires
        at <= upto <= fields@.len(),
        find_in_fields(fields, ipc_fields, id, at) is Some,
    ensures
        find_in_fields(fields, ipc_fields, id, upto) == find_in_fields(fields, ipc_fields, id, at),
    decreases upto,
{
    if at < upto {
        lemma_found_persists(fields, ipc_fields, id, at, (upto - 1) as nat);
    }
}

/// Finds the dictionary-encoded field of identifier `id` within `data_type`.
pub fn find_type<'a>(data_type: &'a DataType, ipc_field: &'a IpcField, id: i64) -> (out: Option<
    (&'a DataType, &'a IpcField),
>)
    requires
        ipc_fits(*ipc_field, *data_type),
    ensures
        match out {
            Some(found) => find_in_type(*data_type, *ipc_field, id) == Some((*found.0, *found.1))
                && ipc_fits(*found.1, *found.0),
            None => find_in_type(*data_type, *ipc_field, id) is None,
        },
    decreases data_type, 1nat,
{
    match data_type {
        DataType::Dictionary(_, value_type) => {
            let matches = match ipc_field.dictionary_id {
                Some(own) => own == id,
                None => false,
            };
            if matches {
                Some((&**value_type, ipc_field))
            } else {
                find_type(&**value_type, ipc_field, id)
            }
        },
        DataType::List(inner) => find_type(&inner.data_type, &ipc_field.fields[0], id),
        DataType::FixedSizeList(inner, _) => find_type(&inner.data_type, &ipc_field.fields[0], id),
        DataType::Struct(fields) => find_fields(fields, &ipc_field.fields, id),
        DataType::Union(fields, _) => find_fields(fields, &ipc_field.fields, id),
        _ => None,
    }
}

/// Finds the dictionary-encoded field of identifier `id` within `fields`.
pub fn find_fields<'a>(fields: &'a Vec<Field>, ipc_fields: &'a Vec<IpcField>, id: i64) -> (out: Option<
    (&'a DataType, &'a IpcField),
>)
    requires
        ipcs_fit(ipc_fields@, *fields),
    ensures
        match out {
            Some(found) => find_in_fields(*fields, ipc_fields@, id, fields@.len()) == Some(
                (*found.0, *found.1),
            ) && ipc_fits(*found.1, *found.0),
            None => find_in_fields(*fields, ipc_fields@, id, fields@.len()) is None,
        },
    decreases fields, 0nat,
{
    let mut i: usize = 0;
    while i < fields.len()
        invariant
            i <= fields.len(),
            ipcs_fit(ipc_fields@, *fields),
            find_in_fields(*fields, ipc_fields@, id, i as nat) is None,
        decreases fields.len() - i,
    {
        match find_type(&fields[i].data_type, &ipc_fields[i], id) {
            Some(found) => {
                proof {
                    assert(find_in_fields(*fields, ipc_fields@, id, (i + 1) as nat) == Some(
                        (*found.0, *found.1),
                    ));
                    lemma_found_persists(*fields, ipc_fields@, id, (i + 1) as nat, fields@.len());
                }
                return Some(found);
            },
            None => {},
        }
        i = i + 1;
    }
    None
}

/// The dictionary table after a dictionary batch was read: the values of the
/// batch are one array of the type of the values of the field that the batch
/// names, and are taken in as `applied` says.
pub open spec fn dictionary_outcome(
    fields: Vec<Field>,
    ipc_fields: Seq<IpcField>,
    id: i64,
    is_delta: bool,
    nodes: Seq<Node>,
    buffers: Seq<BufferDescriptor>,
    body: Seq<u8>,
    is_little_endian: bool,
    compression: Option<crate::io::ipc::Compression>,
    table: Map<i64, DictionaryView>,
) -> Result<Map<i64, DictionaryView>, ArrowError> {
    match find_in_fields(fields, ipc_fields, id, fields@.len()) {
        None => Err(ArrowError::OutOfSpec(OutOfSpec::UnknownDictionary)),
        Some(found) => match decode(
            found.0,
            found.1,
            nodes,
            buffers,
            source_of(body, is_little_endian, compression, table),
        ) {
            Err(e) => Err(e),
            Ok(values) => applied(table, id, values, is_delta),
        },
    }
}

/// Reads a dictionary batch and takes its values into `dictionaries`. After
/// an error the table is as it was.
pub fn read_dictionary(
    batch: &DictionaryBatch,
    fields: &Vec<Field>,
    ipc_schema: &IpcSchema,
    dictionaries: &mut Dictionaries,
    body: &[u8],
) -> (out: Result<(), ArrowError>)
    requires
        ipcs_fit(ipc_schema.fields@, *fields),
        old(dictionaries).wf(),
    ensures
        final(dictionaries).wf(),
        match out {
            Ok(_) => dictionary_outcome(
                *fields,
                ipc_schema.fields@,
                batch.id,
                batch.is_delta,
                batch.data.nodes@,
                batch.data.buffers@,
                body@,
                ipc_schema.is_little_endian,
                batch.data.compression,
                old(dictionaries)@,
            ) == Ok::<Map<i64, DictionaryView>, ArrowError>(final(dictionaries)@),
            Err(e) => final(dictionaries)@ == old(dictionaries)@ && dictionary_outcome(
                *fields,
                ipc_schema.fields@,
                batch.id,
                batch.is_delta,
                batch.data.nodes@,
                batch.data.buffers@,
                body@,
                ipc_schema.is_little_endian,
                batch.data.compression,
                old(dictionaries)@,
            ) == Err::<Map<i64, DictionaryView>, ArrowError>(e),
        },
{
    let found = match find_fields(fields, &ipc_schema.fields, batch.id) {
        None => {
            return Err(ArrowError::OutOfSpec(OutOfSpec::UnknownDictionary));
        },
        Some(found) => found,
    };
    let mut field_nodes = queue_of(&batch.data.nodes);
    let mut buffers = queue_of(&batch.data.buffers);
    let values = read(
        &mut field_nodes,
        found.0,
        found.1,
        &mut buffers,
        body,
        dictionaries,
        ipc_schema.is_little_endian,
        batch.data.compression,
    )?;
    dictionaries.apply(batch.id, values, batch.is_delta)
}

/// Whether `data_type` holds, at any depth, a dictionary-encoded field whose
/// dictionary `dictionaries` does not hold.
pub open spec fn lacks_dictionary(
    data_type: DataType,
    ipc_field: IpcField,
    dictionaries: Map<i64, Seq<ArrayView>>,
) -> bool
    decreases data_type, 1nat,
{
    match data_type {
        DataType::Dictionary(_, _) => match ipc_field.dictionary_id {
            Some(id) => !dictionaries.contains_key(id),
            None => true,
        },
        DataType::List(field) => lacks_dictionary(field.data_type, ipc_field.fields@[0], dictionaries),
        DataType::FixedSizeList(field, _) => lacks_dictionary(
            field.data_type,
            ipc_field.fields@[0],
            dictionaries,
        ),
        DataType::Struct(fields) => fields_lack_dictionary(
            fields,
            ipc_field.fields@,
            dictionaries,
            fields@.len(),
        ),
        DataType::Union(fields, _) => fields_lack_dictionary(
            fields,
            ipc_field.fields@,
            dictionaries,
            fields@.len(),
        ),
        _ => false,
    }
}

/// The same of any of the first `upto` of `fields`.
pub open spec fn fields_lack_dictionary(
    fields: Vec<Field>,
    ipc_fields: Seq<IpcField>,
    dictionaries: Map<i64, Seq<ArrayView>>,
    upto: nat,
) -> bool
    decreases fields, upto,
{
    if upto == 0 || upto > fields@.len() {
        false
    } else {
        fields_lack_dictionary(fields, ipc_fields, dictionaries, (upto - 1) as nat) || lacks_dictionary(
            fields@[upto - 1].data_type,
            ipc_fields[upto - 1],
            dictionaries,
        )
    }
}

/// An array that refers to a dictionary which is not yet defined cannot be
/// read: a dictionary-encoded array itself fails as lacking its dictionary,
/// and an array that holds one, at any depth, fails too.
pub proof fn lemma_undefined_dictionary(
    data_type: DataType,
    ipc_field: IpcField,
    nodes: Seq<Node>,
    buffers: Seq<BufferDescriptor>,
    source: Source,
)
    requires
        lacks_dictionary(data_type, ipc_field, source.dictionaries),
    ensures
        decode(data_type, ipc_field, nodes, buffers, source) is Err,
        data_type is Dictionary && ipc_field.dictionary_id is Some ==> decode(
            data_type,
            ipc_field,
            nodes,
            buffers,
            source,
        ) == Err::<ArrayView, ArrowError>(ArrowError::OutOfSpec(OutOfSpec::MissingDictionary)),
    decreases data_type, 1nat,
{
    match data_type {
        DataType::List(field) => {
            lemma_undefined_dictionary(field.data_type, ipc_field.fields@[0], nodes.skip(1), buffers.skip(2), source);
        },
        DataType::FixedSizeList(field, _) => {
            lemma_undefined_dictionary(field.data_type, ipc_field.fields@[0], nodes.skip(1), buffers.skip(1), source);
        },
        DataType::Struct(fields) => {
            if nodes.len() > 0 && crate::io::ipc::read::read_basic::slot_count(nodes[0]) is Ok {
                let length = crate::io::ipc::read::read_basic::slot_count(nodes[0])->Ok_0 as nat;
                lemma_undefined_in_fields(
                    fields,
                    ipc_field.fields@,
                    Some(length),
                    nodes.skip(1),
                    buffers.skip(1),
                    source,
                    fields@.len(),
                );
            }
        },
        DataType::Union(fields, mode) => {
            lemma_undefined_in_fields(
                fields,
                ipc_field.fields@,
                None,
                nodes.skip(1),
                buffers.skip(crate::io::ipc::read::deserialize::own_buffer_count(data_type) as int),
                source,
                fields@.len(),
            );
        },
        _ => {},
    }
}

/// Columns of which one refers to a dictionary that is not yet defined cannot
/// be read.
pub proof fn lemma_undefined_in_fields(
    fields: Vec<Field>,
    ipc_fields: Seq<IpcField>,
    length: Option<nat>,
    nodes: Seq<Node>,
    buffers: Seq<BufferDescriptor>,
    source: Source,
    upto: nat,
)
    requires
        upto <= fields@.len(),
        fields_lack_dictionary(fields, ipc_fields, source.dictionaries, upto),
    ensures
        decode_fields(fields, ipc_fields, length, nodes, buffers, source, upto) is Err,
    decreases fields, upto,
{
    if upto > 0 {
        let column = (upto - 1) as nat;
        if fields_lack_dictionary(fields, ipc_fields, source.dictionaries, column) {
            lemma_undefined_in_fields(fields, ipc_fields, length, nodes, buffers, source, column);
        } else {
            lemma_undefined_dictionary(
                fields@[column as int].data_type,
                ipc_fields[column as int],
                nodes.skip(crate::io::ipc::read::deserialize::fields_node_count(fields, column) as int),
                buffers.skip(crate::io::ipc::read::deserialize::fields_buffer_count(fields, column) as int),
                source,
            );
        }
    }
}

} // verus!
