//! The recursive array codec, reading side: what an array of any type is, given
//! the field nodes and buffer descriptors of a batch in pre-order.

use crate::array::{
    array_views, Array, ArrayView, DictionaryArray, FixedSizeListArray, ListArray, StructArray, UnionArray,
};
use crate::datatypes::{DataType, Field, UnionMode};
use crate::error::{ArrowError, OutOfSpec};
use crate::io::ipc::dictionaries::{segment_views, values_of, Dictionaries, DictionaryView};
use crate::io::ipc::read::array::binary::{decode_binary, lemma_ascending_last, read_binary};
use crate::io::ipc::read::array::boolean::{decode_boolean, read_boolean};
use crate::io::ipc::read::array::primitive::{decode_primitive, read_primitive};
use crate::io::ipc::read::read_basic::{
    decode_int32s, decode_offsets, decode_types, decode_validity, expect_buffer, expecting,
    lemma_without_twice, without, read_int32s, read_offsets, read_types,
    read_validity, slot_count, slots, yields,
};
use crate::io::ipc::{BufferDescriptor, Compression, IpcField, Node};
use std::collections::VecDeque;
use vstd::prelude::*;

verus! {

/// What arrays are read from: the body of a message, how its buffers were
/// written, and the dictionaries defined so far.
pub struct Source {
    pub body: Seq<u8>,
    pub is_little_endian: bool,
    pub compression: Option<Compression>,
    pub dictionaries: Map<i64, Seq<ArrayView>>,
}

/// The number of buffers that an array of type `data_type` has of its own,
/// those of its children not counted.
pub open spec fn own_buffer_count(data_type: DataType) -> nat {
    match data_type {
        DataType::Boolean => 2,
        DataType::Integer(_) => 2,
        DataType::Binary => 3,
        DataType::Utf8 => 3,
        DataType::List(_) => 2,
        DataType::FixedSizeList(_, _) => 1,
        DataType::Struct(_) => 1,
        DataType::Union(_, mode) => if mode is Dense {
            2
        } else {
            1
        },
        DataType::Dictionary(_, _) => 2,
    }
}

/// The number of field nodes of an array of type `data_type`: one for each
/// node of the type's tree. A dictionary-encoded array has the one of its keys.
pub open spec fn node_count(data_type: DataType) -> nat
    decreases data_type, 0nat,
{
    match data_type {
        DataType::List(field) => 1 + node_count(field.data_type),
        DataType::FixedSizeList(field, _) => 1 + node_count(field.data_type),
        DataType::Struct(fields) => 1 + fields_node_count(fields, fields@.len()),
        DataType::Union(fields, _) => 1 + fields_node_count(fields, fields@.len()),
        _ => 1,
    }
}

/// The number of field nodes of the first `upto` of `fields`.
pub open spec fn fields_node_count(fields: Vec<Field>, upto: nat) -> nat
    decreases fields, upto,
{
    if upto == 0 || upto > fields@.len() {
        0
    } else {
        fields_node_count(fields, (upto - 1) as nat) + node_count(fields@[upto - 1].data_type)
    }
}

/// The number of buffers of an array of type `data_type`, those of its
/// children counted.
pub open spec fn buffer_count(data_type: DataType) -> nat
    decreases data_type, 0nat,
{
    match data_type {
        DataType::List(field) => 2 + buffer_count(field.data_type),
        DataType::FixedSizeList(field, _) => 1 + buffer_count(field.data_type),
        DataType::Struct(fields) => 1 + fields_buffer_count(fields, fields@.len()),
        DataType::Union(fields, mode) => own_buffer_count(data_type) + fields_buffer_count(
            fields,
            fields@.len(),
        ),
        _ => own_buffer_count(data_type),
    }
}

/// The number of buffers of the first `upto` of `fields`.
pub open spec fn fields_buffer_count(fields: Vec<Field>, upto: nat) -> nat
    decreases fields, upto,
{
    if upto == 0 || upto > fields@.len() {
        0
    } else {
        fields_buffer_count(fields, (upto - 1) as nat) + buffer_count(fields@[upto - 1].data_type)
    }
}

/// Whether the wire twin `ipc_field` has the shape of `data_type`: a child for
/// each child of the type, at every level.
pub open spec fn ipc_fits(ipc_field: IpcField, data_type: DataType) -> bool
    decreases data_type,
{
    match data_type {
        DataType::List(field) => ipc_field.fields@.len() == 1 && ipc_fits(
            ipc_field.fields@[0],
            field.data_type,
        ),
        DataType::FixedSizeList(field, _) => ipc_field.fields@.len() == 1 && ipc_fits(
            ipc_field.fields@[0],
            field.data_type,
        ),
        DataType::Struct(fields) => ipcs_fit(ipc_field.fields@, fields),
        DataType::Union(fields, _) => ipcs_fit(ipc_field.fields@, fields),
        DataType::Dictionary(_, value_type) => ipc_fits(ipc_field, *value_type),
        _ => true,
    }
}

/// Whether there is one of `ipc_fields` for each of `fields`, of its shape.
pub open spec fn ipcs_fit(ipc_fields: Seq<IpcField>, fields: Vec<Field>) -> bool
    decreases fields,
{
    &&& ipc_fields.len() == fields@.len()
    &&& forall|i: int|
        0 <= i < fields@.len() ==> ipc_fits(#[trigger] ipc_fields[i], fields@[i].data_type)
}

/// Whether `validity` is there exactly where `node` counts nulls.
pub open spec fn as_counted(validity: Option<crate::bitmap::Bitmap>, node: Node) -> bool {
    validity is Some <==> node.null_count > 0
}

/// What the view of an array that was read does not show. Each array within
/// it, at every level, has a validity bitmap exactly where its field node
/// counts nulls, the nodes taken in pre-order from the front of `nodes`; and
/// each dictionary-encoded array has the version that `dictionaries` holds
/// its dictionary at.
pub open spec fn in_read_form(
    array: Array,
    data_type: DataType,
    ipc_field: IpcField,
    nodes: Seq<Node>,
    dictionaries: Map<i64, DictionaryView>,
) -> bool
    decreases data_type,
{
    match data_type {
        DataType::Boolean => array matches Array::Boolean(a) && as_counted(a.validity, nodes[0]),
        DataType::Integer(_) => array matches Array::Primitive(a) && as_counted(a.validity, nodes[0]),
        DataType::Binary => array matches Array::Binary(a) && as_counted(a.validity, nodes[0]),
        DataType::Utf8 => array matches Array::Binary(a) && as_counted(a.validity, nodes[0]),
        DataType::List(field) => array matches Array::List(a) && as_counted(a.validity, nodes[0])
            && in_read_form(*a.values, field.data_type, ipc_field.fields@[0], nodes.skip(1), dictionaries),
        DataType::FixedSizeList(field, _) => array matches Array::FixedSizeList(a) && as_counted(
            a.validity,
            nodes[0],
        ) && in_read_form(*a.values, field.data_type, ipc_field.fields@[0], nodes.skip(1), dictionaries),
        DataType::Struct(fields) => array matches Array::Struct(a) && as_counted(a.validity, nodes[0])
            && all_in_read_form(a.values@, fields, ipc_field.fields@, nodes.skip(1), dictionaries),
        DataType::Union(fields, _) => array matches Array::Union(a) && all_in_read_form(
            a.fields@,
            fields,
            ipc_field.fields@,
            nodes.skip(1),
            dictionaries,
        ),
        DataType::Dictionary(_, _) => array matches Array::Dictionary(a) && as_counted(
            a.keys.validity,
            nodes[0],
        ) && (ipc_field.dictionary_id matches Some(id) && dictionaries.contains_key(id) && a.version
            == dictionaries[id].version),
    }
}

/// Whether each of `arrays`, read as the array of one of `fields` one after
/// the other, is in the form that reading gives.
pub open spec fn all_in_read_form(
    arrays: Seq<Array>,
    fields: Vec<Field>,
    ipc_fields: Seq<IpcField>,
    nodes: Seq<Node>,
    dictionaries: Map<i64, DictionaryView>,
) -> bool
    decreases fields,
{
    &&& arrays.len() == fields@.len()
    &&& forall|i: int|
        0 <= i < fields@.len() ==> in_read_form(
            #[trigger] arrays[i],
            fields@[i].data_type,
            ipc_fields[i],
            nodes.skip(fields_node_count(fields, i as nat) as int),
            dictionaries,
        )
}

/// The array of type `data_type` that the queues `nodes` and `buffers`
/// describe, from their fronts on. Nodes and buffers come in pre-order: those
/// of an array before those of its children, the children in their order.
pub open spec fn decode(
    data_type: DataType,
    ipc_field: IpcField,
    nodes: Seq<Node>,
    buffers: Seq<BufferDescriptor>,
    source: Source,
) -> Result<ArrayView, ArrowError>
    decreases data_type, 1nat,
{
    match data_type {
        DataType::Boolean => match decode_boolean(nodes, buffers, source.body, source.compression) {
            Err(e) => Err(e),
            Ok(array) => Ok(ArrayView::Boolean(array)),
        },
        DataType::Integer(integer_type) => match decode_primitive(
            integer_type,
            nodes,
            buffers,
            source.body,
            source.is_little_endian,
            source.compression,
        ) {
            Err(e) => Err(e),
            Ok(array) => Ok(ArrayView::Primitive(array)),
        },
        DataType::Binary => match decode_binary(
            false,
            nodes,
            buffers,
            source.body,
            source.is_little_endian,
            source.compression,
        ) {
            Err(e) => Err(e),
            Ok(array) => Ok(ArrayView::Binary(array)),
        },
        DataType::Utf8 => match decode_binary(
            true,
            nodes,
            buffers,
            source.body,
            source.is_little_endian,
            source.compression,
        ) {
            Err(e) => Err(e),
            Ok(array) => Ok(ArrayView::Binary(array)),
        },
        DataType::Dictionary(key_type, _) => match ipc_field.dictionary_id {
            None => Err(ArrowError::OutOfSpec(OutOfSpec::MissingDictionaryId)),
            Some(id) => if !source.dictionaries.contains_key(id) {
                Err(ArrowError::OutOfSpec(OutOfSpec::MissingDictionary))
            } else {
                match decode_primitive(
                    key_type,
                    nodes,
                    buffers,
                    source.body,
                    source.is_little_endian,
                    source.compression,
                ) {
                    Err(e) => Err(e),
                    Ok(keys) => Ok(ArrayView::Dictionary { keys, values: source.dictionaries[id] }),
                }
            },
        },
        _ => if nodes.len() == 0 {
            Err(ArrowError::OutOfSpec(OutOfSpec::MissingFieldNode))
        } else {
            match slot_count(nodes[0]) {
                Err(e) => Err(e),
                Ok(length) => decode_nested(data_type, ipc_field, length as nat, nodes, buffers, source),
            }
        },
    }
}

/// The nested array of `length` slots of type `data_type` that the queues
/// describe: its own buffers, then its children.
pub open spec fn decode_nested(
    data_type: DataType,
    ipc_field: IpcField,
    length: nat,
    nodes: Seq<Node>,
    buffers: Seq<BufferDescriptor>,
    source: Source,
) -> Result<ArrayView, ArrowError>
    decreases data_type, 0nat,
{
    match data_type {
        DataType::List(field) => match decode_validity(buffers, nodes[0], source.body, source.compression) {
            Err(e) => Err(e),
            Ok(validity) => match expecting(
                buffers.skip(1),
                OutOfSpec::MissingOffsetsBuffer,
                decode_offsets(buffers.skip(1), length, source.body, source.is_little_endian, source.compression),
            ) {
                Err(e) => Err(e),
                Ok(offsets) => match decode(
                    field.data_type,
                    ipc_field.fields@[0],
                    nodes.skip(1),
                    buffers.skip(2),
                    source,
                ) {
                    Err(e) => Err(e),
                    Ok(values) => if offsets.last() > values.len() {
                        Err(ArrowError::OutOfSpec(OutOfSpec::InvalidOffsets))
                    } else {
                        Ok(ArrayView::List { validity, offsets, values: Box::new(values) })
                    },
                },
            },
        },
        DataType::FixedSizeList(field, size) => match decode_validity(
            buffers,
            nodes[0],
            source.body,
            source.compression,
        ) {
            Err(e) => Err(e),
            Ok(validity) => match decode(
                field.data_type,
                ipc_field.fields@[0],
                nodes.skip(1),
                buffers.skip(1),
                source,
            ) {
                Err(e) => Err(e),
                Ok(values) => if values.len() != length * size {
                    Err(ArrowError::OutOfSpec(OutOfSpec::ChildLengthMismatch))
                } else {
                    Ok(ArrayView::FixedSizeList { validity, size: size as nat, values: Box::new(values) })
                },
            },
        },
        DataType::Struct(fields) => match decode_validity(buffers, nodes[0], source.body, source.compression) {
            Err(e) => Err(e),
            Ok(validity) => match decode_fields(
                fields,
                ipc_field.fields@,
                Some(length),
                nodes.skip(1),
                buffers.skip(1),
                source,
                fields@.len(),
            ) {
                Err(e) => Err(e),
                Ok(values) => Ok(ArrayView::Struct { validity, values }),
            },
        },
        DataType::Union(fields, mode) => match expecting(
            buffers,
            OutOfSpec::MissingTypesBuffer,
            decode_types(buffers, length, source.body, source.compression),
        ) {
            Err(e) => Err(e),
            Ok(types) => match mode {
                UnionMode::Sparse => match decode_fields(
                    fields,
                    ipc_field.fields@,
                    None,
                    nodes.skip(1),
                    buffers.skip(1),
                    source,
                    fields@.len(),
                ) {
                    Err(e) => Err(e),
                    Ok(children) => Ok(ArrayView::Union { types, offsets: None, fields: children }),
                },
                UnionMode::Dense => match expecting(
                    buffers.skip(1),
                    OutOfSpec::MissingOffsetsBuffer,
                    decode_int32s(
                        buffers.skip(1),
                        length,
                        source.body,
                        source.is_little_endian,
                        source.compression,
                    ),
                ) {
                    Err(e) => Err(e),
                    Ok(offsets) => match decode_fields(
                        fields,
                        ipc_field.fields@,
                        None,
                        nodes.skip(1),
                        buffers.skip(2),
                        source,
                        fields@.len(),
                    ) {
                        Err(e) => Err(e),
                        Ok(children) => Ok(
                            ArrayView::Union { types, offsets: Some(offsets), fields: children },
                        ),
                    },
                },
            },
        },
        _ => arbitrary(),
    }
}

/// The arrays of the first `upto` of `fields` that the queues describe, one
/// after the other. Where `length` is given, an array of another length is an
/// error.
pub open spec fn decode_fields(
    fields: Vec<Field>,
    ipc_fields: Seq<IpcField>,
    length: Option<nat>,
    nodes: Seq<Node>,
    buffers: Seq<BufferDescriptor>,
    source: Source,
    upto: nat,
) -> Result<Seq<ArrayView>, ArrowError>
    decreases fields, upto,
{
    if upto == 0 || upto > fields@.len() {
        Ok(Seq::empty())
    } else {
        match decode_fields(fields, ipc_fields, length, nodes, buffers, source, (upto - 1) as nat) {
            Err(e) => Err(e),
            Ok(before) => match decode(
                fields@[upto - 1].data_type,
                ipc_fields[upto - 1],
                nodes.skip(fields_node_count(fields, (upto - 1) as nat) as int),
                buffers.skip(fields_buffer_count(fields, (upto - 1) as nat) as int),
                source,
            ) {
                Err(e) => Err(e),
                Ok(array) => if length matches Some(n) && array.len() != n {
                    Err(ArrowError::OutOfSpec(OutOfSpec::ChildLengthMismatch))
                } else {
                    Ok(before.push(array))
                },
            },
        }
    }
}

/// What a reader reads arrays from: the body of a message, how its buffers
/// were written, and the reader's dictionary table.
pub open spec fn source_of(
    body: Seq<u8>,
    is_little_endian: bool,
    compression: Option<Compression>,
    table: Map<i64, DictionaryView>,
) -> Source {
    Source { body, is_little_endian, compression, dictionaries: values_of(table) }
}

/// The length that children are held to, as a number.
pub open spec fn length_of(length: Option<usize>) -> Option<nat> {
    match length {
        Some(n) => Some(n as nat),
        None => None,
    }
}

/// Once one of the fields fails, so do all that take in more fields, with the
/// same error.
pub proof fn lemma_fields_error_persists(
    fields: Vec<Field>,
    ipc_fields: Seq<IpcField>,
    length: Option<nat>,
    nodes: Seq<Node>,
    buffers: Seq<BufferDescriptor>,
    source: Source,
    at: nat,
    upto: nat,
)
    requires
        at <= upto <= fields@.len(),
        decode_fields(fields, ipc_fields, length, nodes, buffers, source, at) is Err,
    ensures
        decode_fields(fields, ipc_fields, length, nodes, buffers, source, upto) == decode_fields(
            fields,
            ipc_fields,
            length,
            nodes,
            buffers,
            source,
            at,
        ),
    decreases upto,
{
    if at < upto {
        lemma_fields_error_persists(fields, ipc_fields, length, nodes, buffers, source, at, (upto - 1) as nat);
    }
}

/// Reads one array for each of `fields`, one after the other, off the fronts
/// of the queues. Where `length` is given, an array of another length is an
/// error. After an error nothing is said of the queues.
pub fn read_fields(
    field_nodes: &mut VecDeque<Node>,
    fields: &Vec<Field>,
    ipc_fields: &Vec<IpcField>,
    length: Option<usize>,
    buffers: &mut VecDeque<BufferDescriptor>,
    body: &[u8],
    dictionaries: &Dictionaries,
    is_little_endian: bool,
    compression: Option<Compression>,
) -> (out: Result<Vec<Array>, ArrowError>)
    requires
        ipcs_fit(ipc_fields@, *fields),
        dictionaries.wf(),
    ensures
        match out {
            Ok(arrays) => {
                &&& decode_fields(
                    *fields,
                    ipc_fields@,
                    length_of(length),
                    old(field_nodes)@,
                    old(buffers)@,
                    source_of(body@, is_little_endian, compression, dictionaries@),
                    fields@.len(),
                ) == Ok::<Seq<ArrayView>, ArrowError>(array_views(arrays@))
                &&& arrays@.len() == fields@.len()
                &&& all_in_read_form(arrays@, *fields, ipc_fields@, old(field_nodes)@, dictionaries@)
                &&& forall|k: int|
                    0 <= k < arrays@.len() ==> (#[trigger] arrays@[k]).wf() && (length matches Some(n)
                        ==> arrays@[k]@.len() == n)
                &&& fields_node_count(*fields, fields@.len()) <= old(field_nodes)@.len()
                &&& fields_buffer_count(*fields, fields@.len()) <= old(buffers)@.len()
                &&& final(field_nodes)@ == old(field_nodes)@.skip(
                    fields_node_count(*fields, fields@.len()) as int,
                )
                &&& final(buffers)@ == old(buffers)@.skip(fields_buffer_count(*fields, fields@.len()) as int)
            },
            Err(e) => decode_fields(
                *fields,
                ipc_fields@,
                length_of(length),
                old(field_nodes)@,
                old(buffers)@,
                source_of(body@, is_little_endian, compression, dictionaries@),
                fields@.len(),
            ) == Err::<Seq<ArrayView>, ArrowError>(e),
        },
    decreases fields, 0nat,
{
    let ghost nodes0 = field_nodes@;
    let ghost buffers0 = buffers@;
    let ghost source = source_of(body@, is_little_endian, compression, dictionaries@);
    let ghost total = fields@.len();
    let mut arrays: Vec<Array> = Vec::with_capacity(fields.len());
    let mut i: usize = 0;
    proof {
        assert(array_views(arrays@) =~= Seq::<ArrayView>::empty());
        assert(nodes0.skip(0) =~= nodes0);
        assert(buffers0.skip(0) =~= buffers0);
    }
    while i < fields.len()
        invariant
            i <= fields.len(),
            total == fields@.len(),
            nodes0 == old(field_nodes)@,
            buffers0 == old(buffers)@,
            ipcs_fit(ipc_fields@, *fields),
            dictionaries.wf(),
            source == source_of(body@, is_little_endian, compression, dictionaries@),
            arrays@.len() == i,
            forall|k: int|
                0 <= k < i ==> in_read_form(
                    #[trigger] arrays@[k],
                    fields@[k].data_type,
                    ipc_fields@[k],
                    nodes0.skip(fields_node_count(*fields, k as nat) as int),
                    dictionaries@,
                ),
            decode_fields(*fields, ipc_fields@, length_of(length), nodes0, buffers0, source, i as nat)
                == Ok::<Seq<ArrayView>, ArrowError>(array_views(arrays@)),
            forall|k: int|
                0 <= k < arrays@.len() ==> (#[trigger] arrays@[k]).wf() && (length matches Some(n)
                    ==> arrays@[k]@.len() == n),
            fields_node_count(*fields, i as nat) <= nodes0.len(),
            fields_buffer_count(*fields, i as nat) <= buffers0.len(),
            field_nodes@ == nodes0.skip(fields_node_count(*fields, i as nat) as int),
            buffers@ == buffers0.skip(fields_buffer_count(*fields, i as nat) as int),
        decreases fields.len() - i,
    {
        let result = read(
            field_nodes,
            &fields[i].data_type,
            &ipc_fields[i],
            buffers,
            body,
            dictionaries,
            is_little_endian,
            compression,
        );
        let array = match result {
            Err(e) => {
                proof {
                    assert(decode_fields(
                        *fields,
                        ipc_fields@,
                        length_of(length),
                        nodes0,
                        buffers0,
                        source,
                        (i + 1) as nat,
                    ) == Err::<Seq<ArrayView>, ArrowError>(e));
                    lemma_fields_error_persists(
                        *fields,
                        ipc_fields@,
                        length_of(length),
                        nodes0,
                        buffers0,
                        source,
                        (i + 1) as nat,
                        total,
                    );
                }
                return Err(e);
            },
            Ok(array) => array,
        };
        if let Some(n) = length {
            if array.len() != n {
                proof {
                    assert(decode_fields(
                        *fields,
                        ipc_fields@,
                        length_of(length),
                        nodes0,
                        buffers0,
                        source,
                        (i + 1) as nat,
                    ) == Err::<Seq<ArrayView>, ArrowError>(
                        ArrowError::OutOfSpec(OutOfSpec::ChildLengthMismatch),
                    ));
                    lemma_fields_error_persists(
                        *fields,
                        ipc_fields@,
                        length_of(length),
                        nodes0,
                        buffers0,
                        source,
                        (i + 1) as nat,
                        total,
                    );
                }
                return Err(ArrowError::OutOfSpec(OutOfSpec::ChildLengthMismatch));
            }
        }
        proof {
            let nodes_before = fields_node_count(*fields, i as nat) as int;
            let buffers_before = fields_buffer_count(*fields, i as nat) as int;
            let data_type = fields@[i as int].data_type;
            assert(nodes0.skip(nodes_before).skip(node_count(data_type) as int) =~= nodes0.skip(
                nodes_before + node_count(data_type),
            ));
            assert(buffers0.skip(buffers_before).skip(buffer_count(data_type) as int) =~= buffers0.skip(
                buffers_before + buffer_count(data_type),
            ));
            assert(array_views(arrays@.push(array)) =~= array_views(arrays@).push(array@));
        }
        arrays.push(array);
        i = i + 1;
    }
    Ok(arrays)
}

/// Reads an array of keys into the dictionary that `ipc_field` names, and
/// takes the dictionary's values from the table, with the version that the
/// table holds them at.
pub fn read_dictionary(
    field_nodes: &mut VecDeque<Node>,
    key_type: crate::datatypes::IntegerType,
    value_type: &DataType,
    ipc_field: &IpcField,
    buffers: &mut VecDeque<BufferDescriptor>,
    body: &[u8],
    dictionaries: &Dictionaries,
    is_little_endian: bool,
    compression: Option<Compression>,
) -> (out: Result<Array, ArrowError>)
    requires
        ipc_fits(*ipc_field, DataType::Dictionary(key_type, Box::new(*value_type))),
        dictionaries.wf(),
    ensures
        yields(
            out,
            decode(
                DataType::Dictionary(key_type, Box::new(*value_type)),
                *ipc_field,
                old(field_nodes)@,
                old(buffers)@,
                source_of(body@, is_little_endian, compression, dictionaries@),
            ),
        ),
        out matches Ok(array) ==> {
            &&& array.wf()
            &&& in_read_form(array, DataType::Dictionary(key_type, Box::new(*value_type)), *ipc_field, old(field_nodes)@, dictionaries@)
            &&& array matches Array::Dictionary(coded)
            &&& ipc_field.dictionary_id matches Some(id)
            &&& dictionaries@.contains_key(id)
            &&& coded.version == dictionaries@[id].version
            &&& coded.keys.data_type == key_type
            &&& coded.keys.validity is Some <==> old(field_nodes)@[0].null_count > 0
            &&& node_count(DataType::Dictionary(key_type, Box::new(*value_type))) <= old(field_nodes)@.len()
            &&& buffer_count(DataType::Dictionary(key_type, Box::new(*value_type))) <= old(buffers)@.len()
            &&& final(field_nodes)@ == old(field_nodes)@.skip(node_count(DataType::Dictionary(key_type, Box::new(*value_type))) as int)
            &&& final(buffers)@ == old(buffers)@.skip(buffer_count(DataType::Dictionary(key_type, Box::new(*value_type))) as int)
        },
    decreases 0nat,
{
    let id = match ipc_field.dictionary_id {
        None => {
            return Err(ArrowError::OutOfSpec(OutOfSpec::MissingDictionaryId));
        },
        Some(id) => id,
    };
    let (version, values) = match dictionaries.lookup(id) {
        None => {
            return Err(ArrowError::OutOfSpec(OutOfSpec::MissingDictionary));
        },
        Some(found) => found,
    };
    let keys = read_primitive(field_nodes, key_type, buffers, body, is_little_endian, compression)?;
    let array = Array::Dictionary(DictionaryArray { keys, values, version });
    proof {
        assert(array@->Dictionary_values =~= segment_views(values@));
    }
    Ok(array)
}

/// Reads an array of lists: a validity buffer and an offsets buffer, then the
/// one child that holds the items of all the lists.
pub fn read_list(
    field_nodes: &mut VecDeque<Node>,
    inner: &Field,
    ipc_field: &IpcField,
    buffers: &mut VecDeque<BufferDescriptor>,
    body: &[u8],
    dictionaries: &Dictionaries,
    is_little_endian: bool,
    compression: Option<Compression>,
) -> (out: Result<Array, ArrowError>)
    requires
        ipc_fits(*ipc_field, DataType::List(Box::new(*inner))),
        dictionaries.wf(),
    ensures
        yields(
            out,
            decode(
                DataType::List(Box::new(*inner)),
                *ipc_field,
                old(field_nodes)@,
                old(buffers)@,
                source_of(body@, is_little_endian, compression, dictionaries@),
            ),
        ),
        out matches Ok(array) ==> {
            &&& array.wf()
            &&& in_read_form(array, DataType::List(Box::new(*inner)), *ipc_field, old(field_nodes)@, dictionaries@)
            &&& node_count(DataType::List(Box::new(*inner))) <= old(field_nodes)@.len()
            &&& buffer_count(DataType::List(Box::new(*inner))) <= old(buffers)@.len()
            &&& final(field_nodes)@ == old(field_nodes)@.skip(node_count(DataType::List(Box::new(*inner))) as int)
            &&& final(buffers)@ == old(buffers)@.skip(buffer_count(DataType::List(Box::new(*inner))) as int)
        },
    decreases inner.data_type, 2nat,
{
    let field_node = match field_nodes.pop_front() {
        None => {
            return Err(ArrowError::OutOfSpec(OutOfSpec::MissingFieldNode));
        },
        Some(field_node) => field_node,
    };
    let length = slots(field_node)?;
    let validity = read_validity(buffers, field_node, body, is_little_endian, compression)?;
    expect_buffer(buffers, OutOfSpec::MissingOffsetsBuffer)?;
    let offsets = read_offsets(buffers, length, body, is_little_endian, compression)?;
    proof {
        assert(old(buffers)@.skip(1).skip(1) =~= old(buffers)@.skip(2));
        lemma_ascending_last(offsets@);
    }
    let values = read(field_nodes, &inner.data_type, &ipc_field.fields[0], buffers, body, dictionaries, is_little_endian, compression)?;
    let last: usize = offsets[offsets.len() - 1] as usize;
    if last > values.len() {
        return Err(ArrowError::OutOfSpec(OutOfSpec::InvalidOffsets));
    }
    proof {
        let child = inner.data_type;
        assert(old(field_nodes)@.skip(1).skip(node_count(child) as int) =~= old(field_nodes)@.skip(
            (1 + node_count(child)) as int,
        ));
        assert(old(buffers)@.skip(2).skip(buffer_count(child) as int) =~= old(buffers)@.skip(
            (2 + buffer_count(child)) as int,
        ));
    }
    Ok(Array::List(ListArray { offsets, values: Box::new(values), validity }))
}

/// Whether `total` is `count` times `size`.
fn is_product(total: usize, count: usize, size: usize) -> (ok: bool)
    ensures
        ok == (total == count * size),
{
    match count.checked_mul(size) {
        None => false,
        Some(product) => product == total,
    }
}

/// Reads an array of lists of `size` items each: a validity buffer, then the
/// one child, which must hold `size` items for each list.
pub fn read_fixed_size_list(
    field_nodes: &mut VecDeque<Node>,
    inner: &Field,
    size: usize,
    ipc_field: &IpcField,
    buffers: &mut VecDeque<BufferDescriptor>,
    body: &[u8],
    dictionaries: &Dictionaries,
    is_little_endian: bool,
    compression: Option<Compression>,
) -> (out: Result<Array, ArrowError>)
    requires
        ipc_fits(*ipc_field, DataType::FixedSizeList(Box::new(*inner), size)),
        dictionaries.wf(),
    ensures
        yields(
            out,
            decode(
                DataType::FixedSizeList(Box::new(*inner), size),
                *ipc_field,
                old(field_nodes)@,
                old(buffers)@,
                source_of(body@, is_little_endian, compression, dictionaries@),
            ),
        ),
        out matches Ok(array) ==> {
            &&& array.wf()
            &&& in_read_form(array, DataType::FixedSizeList(Box::new(*inner), size), *ipc_field, old(field_nodes)@, dictionaries@)
            &&& node_count(DataType::FixedSizeList(Box::new(*inner), size)) <= old(field_nodes)@.len()
            &&& buffer_count(DataType::FixedSizeList(Box::new(*inner), size)) <= old(buffers)@.len()
            &&& final(field_nodes)@ == old(field_nodes)@.skip(node_count(DataType::FixedSizeList(Box::new(*inner), size)) as int)
            &&& final(buffers)@ == old(buffers)@.skip(buffer_count(DataType::FixedSizeList(Box::new(*inner), size)) as int)
        },
    decreases inner.data_type, 2nat,
{
    let field_node = match field_nodes.pop_front() {
        None => {
            return Err(ArrowError::OutOfSpec(OutOfSpec::MissingFieldNode));
        },
        Some(field_node) => field_node,
    };
    let length = slots(field_node)?;
    let validity = read_validity(buffers, field_node, body, is_little_endian, compression)?;
    let values = read(field_nodes, &inner.data_type, &ipc_field.fields[0], buffers, body, dictionaries, is_little_endian, compression)?;
    if !is_product(values.len(), length, size) {
        return Err(ArrowError::OutOfSpec(OutOfSpec::ChildLengthMismatch));
    }
    proof {
        let child = inner.data_type;
        assert(old(field_nodes)@.skip(1).skip(node_count(child) as int) =~= old(field_nodes)@.skip(
            (1 + node_count(child)) as int,
        ));
        assert(old(buffers)@.skip(1).skip(buffer_count(child) as int) =~= old(buffers)@.skip(
            (1 + buffer_count(child)) as int,
        ));
    }
    Ok(Array::FixedSizeList(FixedSizeListArray { size, length, values: Box::new(values), validity }))
}

/// Reads an array of structs: a validity buffer, then one child for each
/// member, each as long as the array.
pub fn read_struct(
    field_nodes: &mut VecDeque<Node>,
    fields: &Vec<Field>,
    ipc_field: &IpcField,
    buffers: &mut VecDeque<BufferDescriptor>,
    body: &[u8],
    dictionaries: &Dictionaries,
    is_little_endian: bool,
    compression: Option<Compression>,
) -> (out: Result<Array, ArrowError>)
    requires
        ipc_fits(*ipc_field, DataType::Struct(*fields)),
        dictionaries.wf(),
    ensures
        yields(
            out,
            decode(
                DataType::Struct(*fields),
                *ipc_field,
                old(field_nodes)@,
                old(buffers)@,
                source_of(body@, is_little_endian, compression, dictionaries@),
            ),
        ),
        out matches Ok(array) ==> {
            &&& array.wf()
            &&& in_read_form(array, DataType::Struct(*fields), *ipc_field, old(field_nodes)@, dictionaries@)
            &&& node_count(DataType::Struct(*fields)) <= old(field_nodes)@.len()
            &&& buffer_count(DataType::Struct(*fields)) <= old(buffers)@.len()
            &&& final(field_nodes)@ == old(field_nodes)@.skip(node_count(DataType::Struct(*fields)) as int)
            &&& final(buffers)@ == old(buffers)@.skip(buffer_count(DataType::Struct(*fields)) as int)
        },
    decreases fields, 1nat,
{
    let field_node = match field_nodes.pop_front() {
        None => {
            return Err(ArrowError::OutOfSpec(OutOfSpec::MissingFieldNode));
        },
        Some(field_node) => field_node,
    };
    let length = slots(field_node)?;
    let validity = read_validity(buffers, field_node, body, is_little_endian, compression)?;
    let values = read_fields(field_nodes, fields, &ipc_field.fields, Some(length), buffers, body, dictionaries, is_little_endian, compression)?;
    let array = Array::Struct(StructArray { length, values, validity });
    proof {
        let count = fields_node_count(*fields, fields@.len()) as int;
        let buffer_total = fields_buffer_count(*fields, fields@.len()) as int;
        assert(old(field_nodes)@.skip(1).skip(count) =~= old(field_nodes)@.skip(1 + count));
        assert(old(buffers)@.skip(1).skip(buffer_total) =~= old(buffers)@.skip(1 + buffer_total));
        assert(array@->Struct_values =~= array_views(values@));
    }
    Ok(array)
}

/// Reads a union: a buffer of type identifiers and, where the union is dense,
/// a buffer of offsets, then one child for each member.
pub fn read_union(
    field_nodes: &mut VecDeque<Node>,
    fields: &Vec<Field>,
    mode: UnionMode,
    ipc_field: &IpcField,
    buffers: &mut VecDeque<BufferDescriptor>,
    body: &[u8],
    dictionaries: &Dictionaries,
    is_little_endian: bool,
    compression: Option<Compression>,
) -> (out: Result<Array, ArrowError>)
    requires
        ipc_fits(*ipc_field, DataType::Union(*fields, mode)),
        dictionaries.wf(),
    ensures
        yields(
            out,
            decode(
                DataType::Union(*fields, mode),
                *ipc_field,
                old(field_nodes)@,
                old(buffers)@,
                source_of(body@, is_little_endian, compression, dictionaries@),
            ),
        ),
        out matches Ok(array) ==> {
            &&& array.wf()
            &&& in_read_form(array, DataType::Union(*fields, mode), *ipc_field, old(field_nodes)@, dictionaries@)
            &&& node_count(DataType::Union(*fields, mode)) <= old(field_nodes)@.len()
            &&& buffer_count(DataType::Union(*fields, mode)) <= old(buffers)@.len()
            &&& final(field_nodes)@ == old(field_nodes)@.skip(node_count(DataType::Union(*fields, mode)) as int)
            &&& final(buffers)@ == old(buffers)@.skip(buffer_count(DataType::Union(*fields, mode)) as int)
        },
    decreases fields, 1nat,
{
    let field_node = match field_nodes.pop_front() {
        None => {
            return Err(ArrowError::OutOfSpec(OutOfSpec::MissingFieldNode));
        },
        Some(field_node) => field_node,
    };
    let length = slots(field_node)?;
    expect_buffer(buffers, OutOfSpec::MissingTypesBuffer)?;
    let types = read_types(buffers, length, body, compression)?;
    let offsets = match mode {
        UnionMode::Sparse => None,
        UnionMode::Dense => {
            expect_buffer(buffers, OutOfSpec::MissingOffsetsBuffer)?;
            let offsets = read_int32s(buffers, length, body, is_little_endian, compression)?;
            proof {
                assert(old(buffers)@.skip(1).skip(1) =~= old(buffers)@.skip(2));
            }
            Some(offsets)
        },
    };
    let ghost own = own_buffer_count(DataType::Union(*fields, mode)) as int;
    let children = read_fields(field_nodes, fields, &ipc_field.fields, None, buffers, body, dictionaries, is_little_endian, compression)?;
    let array = Array::Union(UnionArray { types, offsets, fields: children });
    proof {
        let count = fields_node_count(*fields, fields@.len()) as int;
        let buffer_total = fields_buffer_count(*fields, fields@.len()) as int;
        assert(old(field_nodes)@.skip(1).skip(count) =~= old(field_nodes)@.skip(1 + count));
        assert(old(buffers)@.skip(own).skip(buffer_total) =~= old(buffers)@.skip(own + buffer_total));
        assert(array@->Union_fields =~= array_views(children@));
    }
    Ok(array)
}

/// Reads an array of type `data_type` off the fronts of the queues: its field node and
/// its own buffers, then its children, in pre-order. After an error nothing is
/// said of the queues.
pub fn read(
    field_nodes: &mut VecDeque<Node>,
    data_type: &DataType,
    ipc_field: &IpcField,
    buffers: &mut VecDeque<BufferDescriptor>,
    body: &[u8],
    dictionaries: &Dictionaries,
    is_little_endian: bool,
    compression: Option<Compression>,
) -> (out: Result<Array, ArrowError>)
    requires
        ipc_fits(*ipc_field, *data_type),
        dictionaries.wf(),
    ensures
        yields(
            out,
            decode(
                *data_type,
                *ipc_field,
                old(field_nodes)@,
                old(buffers)@,
                source_of(body@, is_little_endian, compression, dictionaries@),
            ),
        ),
        out matches Ok(array) ==> {
            &&& array.wf()
            &&& in_read_form(array, *data_type, *ipc_field, old(field_nodes)@, dictionaries@)
            &&& node_count(*data_type) <= old(field_nodes)@.len()
            &&& buffer_count(*data_type) <= old(buffers)@.len()
            &&& final(field_nodes)@ == old(field_nodes)@.skip(node_count(*data_type) as int)
            &&& final(buffers)@ == old(buffers)@.skip(buffer_count(*data_type) as int)
        },
    decreases data_type, 1nat,
{
    match data_type {
        DataType::Boolean => {
            let array = read_boolean(
                field_nodes,
                DataType::Boolean,
                buffers,
                body,
                is_little_endian,
                compression,
            )?;
            Ok(Array::Boolean(array))
        },
        DataType::Integer(integer_type) => {
            let array = read_primitive(
                field_nodes,
                *integer_type,
                buffers,
                body,
                is_little_endian,
                compression,
            )?;
            Ok(Array::Primitive(array))
        },
        DataType::Binary => {
            let array = read_binary(field_nodes, false, buffers, body, is_little_endian, compression)?;
            Ok(Array::Binary(array))
        },
        DataType::Utf8 => {
            let array = read_binary(field_nodes, true, buffers, body, is_little_endian, compression)?;
            Ok(Array::Binary(array))
        },
        DataType::Dictionary(key_type, value_type) => read_dictionary(
            field_nodes,
            *key_type,
            &**value_type,
            ipc_field,
            buffers, body, dictionaries, is_little_endian, compression,
        ),
        DataType::List(inner) => read_list(field_nodes, &**inner, ipc_field, buffers, body, dictionaries, is_little_endian, compression),
        DataType::FixedSizeList(inner, size) => read_fixed_size_list(
            field_nodes,
            &**inner,
            *size,
            ipc_field,
            buffers, body, dictionaries, is_little_endian, compression,
        ),
        DataType::Struct(fields) => read_struct(field_nodes, fields, ipc_field, buffers, body, dictionaries, is_little_endian, compression),
        DataType::Union(fields, mode) => read_union(field_nodes, fields, *mode, ipc_field, buffers, body, dictionaries, is_little_endian, compression),
    }
}

/// Which of the buffers that an array of type `data_type` has of its own is
/// missing where the queue holds only `have` descriptors.
pub open spec fn missing_buffer(data_type: DataType, have: int) -> OutOfSpec {
    match data_type {
        DataType::Union(_, _) => if have <= 0 {
            OutOfSpec::MissingTypesBuffer
        } else {
            OutOfSpec::MissingOffsetsBuffer
        },
        DataType::Binary | DataType::Utf8 => if have <= 0 {
            OutOfSpec::MissingValidityBuffer
        } else if have == 1 {
            OutOfSpec::MissingOffsetsBuffer
        } else {
            OutOfSpec::MissingValuesBuffer
        },
        DataType::List(_) => if have <= 0 {
            OutOfSpec::MissingValidityBuffer
        } else {
            OutOfSpec::MissingOffsetsBuffer
        },
        _ => if have <= 0 {
            OutOfSpec::MissingValidityBuffer
        } else {
            OutOfSpec::MissingValuesBuffer
        },
    }
}

/// How skipping an array of type `data_type` ends where the queues hold
/// `nodes` field nodes and `buffers` buffer descriptors: `None` where it
/// succeeds, else the first thing found missing, in pre-order.
pub open spec fn skip_outcome(data_type: DataType, nodes: int, buffers: int) -> Option<ArrowError>
    decreases data_type, 1nat,
{
    if nodes <= 0 {
        Some(ArrowError::OutOfSpec(OutOfSpec::MissingFieldNode))
    } else if buffers < own_buffer_count(data_type) {
        Some(ArrowError::OutOfSpec(missing_buffer(data_type, buffers)))
    } else {
        match data_type {
            DataType::List(field) => skip_outcome(field.data_type, nodes - 1, buffers - 2),
            DataType::FixedSizeList(field, _) => skip_outcome(field.data_type, nodes - 1, buffers - 1),
            DataType::Struct(fields) => skip_fields_outcome(fields, nodes - 1, buffers - 1, fields@.len()),
            DataType::Union(fields, _) => skip_fields_outcome(
                fields,
                nodes - 1,
                buffers - own_buffer_count(data_type),
                fields@.len(),
            ),
            _ => None,
        }
    }
}

/// How skipping the first `upto` of `fields`, one after the other, ends.
pub open spec fn skip_fields_outcome(fields: Vec<Field>, nodes: int, buffers: int, upto: nat) -> Option<
    ArrowError,
>
    decreases fields, upto,
{
    if upto == 0 || upto > fields@.len() {
        None
    } else {
        match skip_fields_outcome(fields, nodes, buffers, (upto - 1) as nat) {
            Some(e) => Some(e),
            None => skip_outcome(
                fields@[upto - 1].data_type,
                nodes - fields_node_count(fields, (upto - 1) as nat),
                buffers - fields_buffer_count(fields, (upto - 1) as nat),
            ),
        }
    }
}

/// Skipping succeeds where, and only where, the queues hold as many field nodes
/// and buffer descriptors as the type has.
pub proof fn lemma_skip_outcome(data_type: DataType, nodes: int, buffers: int)
    ensures
        skip_outcome(data_type, nodes, buffers) is None <==> node_count(data_type) <= nodes
            && buffer_count(data_type) <= buffers,
    decreases data_type, 1nat,
{
    if nodes > 0 && buffers >= own_buffer_count(data_type) {
        match data_type {
            DataType::List(field) => lemma_skip_outcome(field.data_type, nodes - 1, buffers - 2),
            DataType::FixedSizeList(field, _) => lemma_skip_outcome(field.data_type, nodes - 1, buffers - 1),
            DataType::Struct(fields) => lemma_skip_fields_outcome(
                fields,
                nodes - 1,
                buffers - 1,
                fields@.len(),
            ),
            DataType::Union(fields, _) => lemma_skip_fields_outcome(
                fields,
                nodes - 1,
                buffers - own_buffer_count(data_type),
                fields@.len(),
            ),
            _ => {},
        }
    }
}

/// Skipping fields succeeds where, and only where, the queues hold as many
/// field nodes and buffer descriptors as the fields have.
pub proof fn lemma_skip_fields_outcome(fields: Vec<Field>, nodes: int, buffers: int, upto: nat)
    requires
        upto <= fields@.len(),
        0 <= nodes,
        0 <= buffers,
    ensures
        skip_fields_outcome(fields, nodes, buffers, upto) is None <==> fields_node_count(fields, upto)
            <= nodes && fields_buffer_count(fields, upto) <= buffers,
    decreases fields, upto,
{
    if upto > 0 {
        lemma_skip_fields_outcome(fields, nodes, buffers, (upto - 1) as nat);
        lemma_skip_outcome(
            fields@[upto - 1].data_type,
            nodes - fields_node_count(fields, (upto - 1) as nat),
            buffers - fields_buffer_count(fields, (upto - 1) as nat),
        );
    }
}

/// How many field nodes and buffer descriptors skipping an array of type
/// `data_type` takes off queues that hold `nodes` and `buffers` of them,
/// whether it succeeds or not: all that stands, in pre-order, before the
/// first thing found missing.
pub open spec fn skip_takes(data_type: DataType, nodes: int, buffers: int) -> (int, int)
    decreases data_type, 1nat,
{
    if nodes <= 0 {
        (0, 0)
    } else if buffers < own_buffer_count(data_type) {
        (
            1,
            if buffers < 0 {
                0
            } else {
                buffers
            },
        )
    } else {
        let own = own_buffer_count(data_type) as int;
        let below = match data_type {
            DataType::List(field) => skip_takes(field.data_type, nodes - 1, buffers - 2),
            DataType::FixedSizeList(field, _) => skip_takes(field.data_type, nodes - 1, buffers - 1),
            DataType::Struct(fields) => skip_fields_takes(fields, nodes - 1, buffers - 1, fields@.len()),
            DataType::Union(fields, _) => skip_fields_takes(fields, nodes - 1, buffers - own, fields@.len()),
            _ => (0int, 0int),
        };
        (1 + below.0, own + below.1)
    }
}

/// How many field nodes and buffer descriptors skipping the first `upto` of
/// `fields` takes, whether it succeeds or not.
pub open spec fn skip_fields_takes(fields: Vec<Field>, nodes: int, buffers: int, upto: nat) -> (int, int)
    decreases fields, upto,
{
    if upto == 0 || upto > fields@.len() {
        (0, 0)
    } else if skip_fields_outcome(fields, nodes, buffers, (upto - 1) as nat) is Some {
        skip_fields_takes(fields, nodes, buffers, (upto - 1) as nat)
    } else {
        let nodes_before = fields_node_count(fields, (upto - 1) as nat) as int;
        let buffers_before = fields_buffer_count(fields, (upto - 1) as nat) as int;
        let last = skip_takes(fields@[upto - 1].data_type, nodes - nodes_before, buffers - buffers_before);
        (nodes_before + last.0, buffers_before + last.1)
    }
}

/// Skipping that succeeds takes as many field nodes and buffer descriptors
/// as the type has.
pub proof fn lemma_skip_takes(data_type: DataType, nodes: int, buffers: int)
    requires
        skip_outcome(data_type, nodes, buffers) is None,
    ensures
        skip_takes(data_type, nodes, buffers) == (node_count(data_type) as int, buffer_count(data_type) as int),
    decreases data_type, 1nat,
{
    match data_type {
        DataType::List(field) => lemma_skip_takes(field.data_type, nodes - 1, buffers - 2),
        DataType::FixedSizeList(field, _) => lemma_skip_takes(field.data_type, nodes - 1, buffers - 1),
        DataType::Struct(fields) => lemma_skip_fields_takes(fields, nodes - 1, buffers - 1, fields@.len()),
        DataType::Union(fields, _) => lemma_skip_fields_takes(
            fields,
            nodes - 1,
            buffers - own_buffer_count(data_type),
            fields@.len(),
        ),
        _ => {},
    }
}

/// Skipping fields that succeeds takes as many field nodes and buffer
/// descriptors as the fields have.
pub proof fn lemma_skip_fields_takes(fields: Vec<Field>, nodes: int, buffers: int, upto: nat)
    requires
        upto <= fields@.len(),
        skip_fields_outcome(fields, nodes, buffers, upto) is None,
    ensures
        skip_fields_takes(fields, nodes, buffers, upto) == (
            fields_node_count(fields, upto) as int,
            fields_buffer_count(fields, upto) as int,
        ),
    decreases fields, upto,
{
    if upto > 0 {
        lemma_skip_takes(
            fields@[upto - 1].data_type,
            nodes - fields_node_count(fields, (upto - 1) as nat),
            buffers - fields_buffer_count(fields, (upto - 1) as nat),
        );
    }
}

/// Once skipping one of the fields fails, skipping more of them takes no more.
pub proof fn lemma_skip_fields_takes_persist(fields: Vec<Field>, nodes: int, buffers: int, at: nat, upto: nat)
    requires
        at <= upto <= fields@.len(),
        skip_fields_outcome(fields, nodes, buffers, at) is Some,
    ensures
        skip_fields_takes(fields, nodes, buffers, upto) == skip_fields_takes(fields, nodes, buffers, at),
    decreases upto,
{
    if at < upto {
        lemma_skip_fields_error_persists(fields, nodes, buffers, at, (upto - 1) as nat);
        lemma_skip_fields_takes_persist(fields, nodes, buffers, at, (upto - 1) as nat);
    }
}

/// Takes `count` descriptors off `buffers`, or all that there are where
/// they are fewer.
fn skip_buffers(buffers: &mut VecDeque<BufferDescriptor>, count: usize) -> (ok: bool)
    ensures
        ok == (count <= old(buffers)@.len()),
        ok ==> final(buffers)@ == old(buffers)@.skip(count as int),
        !ok ==> final(buffers)@.len() == 0,
{
    let mut taken: usize = 0;
    proof {
        assert(buffers@.skip(0) =~= buffers@);
    }
    while taken < count
        invariant
            taken <= count,
            taken <= old(buffers)@.len(),
            buffers@ == old(buffers)@.skip(taken as int),
        decreases count - taken,
    {
        if buffers.pop_front().is_none() {
            return false;
        }
        proof {
            assert(old(buffers)@.skip(taken as int).skip(1) =~= old(buffers)@.skip(taken + 1));
        }
        taken = taken + 1;
    }
    true
}

/// Which of the buffers that an array of type `data_type` has of its own is
/// missing where the queue holds only `have` descriptors.
fn missing(data_type: &DataType, have: usize) -> (out: OutOfSpec)
    ensures
        out == missing_buffer(*data_type, have as int),
{
    match data_type {
        DataType::Union(_, _) => if have == 0 {
            OutOfSpec::MissingTypesBuffer
        } else {
            OutOfSpec::MissingOffsetsBuffer
        },
        DataType::Binary | DataType::Utf8 => if have == 0 {
            OutOfSpec::MissingValidityBuffer
        } else if have == 1 {
            OutOfSpec::MissingOffsetsBuffer
        } else {
            OutOfSpec::MissingValuesBuffer
        },
        DataType::List(_) => if have == 0 {
            OutOfSpec::MissingValidityBuffer
        } else {
            OutOfSpec::MissingOffsetsBuffer
        },
        _ => if have == 0 {
            OutOfSpec::MissingValidityBuffer
        } else {
            OutOfSpec::MissingValuesBuffer
        },
    }
}

/// The number of buffers that an array of type `data_type` has of its own.
fn own_buffers(data_type: &DataType) -> (count: usize)
    ensures
        count == own_buffer_count(*data_type),
{
    match data_type {
        DataType::Boolean => 2,
        DataType::Integer(_) => 2,
        DataType::Binary => 3,
        DataType::Utf8 => 3,
        DataType::List(_) => 2,
        DataType::FixedSizeList(_, _) => 1,
        DataType::Struct(_) => 1,
        DataType::Union(_, mode) => match mode {
            UnionMode::Dense => 2,
            UnionMode::Sparse => 1,
        },
        DataType::Dictionary(_, _) => 2,
    }
}

/// Takes what the arrays of `fields` occupy off the queues without reading
/// them. Where something is missing, all that stands before it is taken.
pub fn skip_fields(
    field_nodes: &mut VecDeque<Node>,
    fields: &Vec<Field>,
    buffers: &mut VecDeque<BufferDescriptor>,
) -> (out: Result<(), ArrowError>)
    ensures
        match out {
            Ok(_) => {
                &&& skip_fields_outcome(
                    *fields,
                    old(field_nodes)@.len() as int,
                    old(buffers)@.len() as int,
                    fields@.len(),
                ) is None
                &&& fields_node_count(*fields, fields@.len()) <= old(field_nodes)@.len()
                &&& fields_buffer_count(*fields, fields@.len()) <= old(buffers)@.len()
                &&& final(field_nodes)@ == old(field_nodes)@.skip(
                    fields_node_count(*fields, fields@.len()) as int,
                )
                &&& final(buffers)@ == old(buffers)@.skip(fields_buffer_count(*fields, fields@.len()) as int)
            },
            Err(e) => skip_fields_outcome(
                *fields,
                old(field_nodes)@.len() as int,
                old(buffers)@.len() as int,
                fields@.len(),
            ) == Some(e),
        },
        final(field_nodes)@ == without(
            old(field_nodes)@,
            skip_fields_takes(
                *fields,
                old(field_nodes)@.len() as int,
                old(buffers)@.len() as int,
                fields@.len(),
            ).0 as nat,
        ),
        final(buffers)@ == without(
            old(buffers)@,
            skip_fields_takes(
                *fields,
                old(field_nodes)@.len() as int,
                old(buffers)@.len() as int,
                fields@.len(),
            ).1 as nat,
        ),
    decreases fields, 0nat,
{
    let ghost nodes0 = field_nodes@;
    let ghost buffers0 = buffers@;
    let mut i: usize = 0;
    proof {
        assert(nodes0.skip(0) =~= nodes0);
        assert(buffers0.skip(0) =~= buffers0);
    }
    while i < fields.len()
        invariant
            i <= fields.len(),
            nodes0 == old(field_nodes)@,
            buffers0 == old(buffers)@,
            skip_fields_outcome(*fields, nodes0.len() as int, buffers0.len() as int, i as nat) is None,
            fields_node_count(*fields, i as nat) <= nodes0.len(),
            fields_buffer_count(*fields, i as nat) <= buffers0.len(),
            field_nodes@ == nodes0.skip(fields_node_count(*fields, i as nat) as int),
            buffers@ == buffers0.skip(fields_buffer_count(*fields, i as nat) as int),
        decreases fields.len() - i,
    {
        match skip(field_nodes, &fields[i].data_type, buffers) {
            Err(e) => {
                proof {
                    assert(skip_fields_outcome(
                        *fields,
                        nodes0.len() as int,
                        buffers0.len() as int,
                        (i + 1) as nat,
                    ) == Some(e));
                    lemma_skip_fields_error_persists(
                        *fields,
                        nodes0.len() as int,
                        buffers0.len() as int,
                        (i + 1) as nat,
                        fields@.len(),
                    );
                    lemma_skip_fields_takes_persist(
                        *fields,
                        nodes0.len() as int,
                        buffers0.len() as int,
                        (i + 1) as nat,
                        fields@.len(),
                    );
                    let nodes_before = fields_node_count(*fields, i as nat);
                    let buffers_before = fields_buffer_count(*fields, i as nat);
                    let last = skip_takes(
                        fields@[i as int].data_type,
                        nodes0.len() - nodes_before,
                        buffers0.len() - buffers_before,
                    );
                    lemma_skip_takes_bounds(
                        fields@[i as int].data_type,
                        nodes0.len() - nodes_before,
                        buffers0.len() - buffers_before,
                    );
                    assert(nodes0.skip(nodes_before as int) =~= without(nodes0, nodes_before));
                    assert(buffers0.skip(buffers_before as int) =~= without(buffers0, buffers_before));
                    lemma_without_twice(nodes0, nodes_before, last.0 as nat);
                    lemma_without_twice(buffers0, buffers_before, last.1 as nat);
                }
                return Err(e);
            },
            Ok(_) => {},
        }
        proof {
            let nodes_before = fields_node_count(*fields, i as nat) as int;
            let buffers_before = fields_buffer_count(*fields, i as nat) as int;
            let data_type = fields@[i as int].data_type;
            assert(nodes0.skip(nodes_before).skip(node_count(data_type) as int) =~= nodes0.skip(
                nodes_before + node_count(data_type),
            ));
            assert(buffers0.skip(buffers_before).skip(buffer_count(data_type) as int) =~= buffers0.skip(
                buffers_before + buffer_count(data_type),
            ));
        }
        i = i + 1;
    }
    proof {
        let total = fields@.len();
        lemma_skip_fields_takes(*fields, nodes0.len() as int, buffers0.len() as int, total);
        assert(nodes0.skip(fields_node_count(*fields, total) as int) =~= without(
            nodes0,
            fields_node_count(*fields, total),
        ));
        assert(buffers0.skip(fields_buffer_count(*fields, total) as int) =~= without(
            buffers0,
            fields_buffer_count(*fields, total),
        ));
    }
    Ok(())
}

/// What skipping takes is no less than nothing.
pub proof fn lemma_skip_takes_bounds(data_type: DataType, nodes: int, buffers: int)
    ensures
        skip_takes(data_type, nodes, buffers).0 >= 0,
        skip_takes(data_type, nodes, buffers).1 >= 0,
    decreases data_type, 1nat,
{
    if nodes > 0 && buffers >= own_buffer_count(data_type) {
        match data_type {
            DataType::List(field) => lemma_skip_takes_bounds(field.data_type, nodes - 1, buffers - 2),
            DataType::FixedSizeList(field, _) => lemma_skip_takes_bounds(
                field.data_type,
                nodes - 1,
                buffers - 1,
            ),
            DataType::Struct(fields) => lemma_skip_fields_takes_bounds(
                fields,
                nodes - 1,
                buffers - 1,
                fields@.len(),
            ),
            DataType::Union(fields, _) => lemma_skip_fields_takes_bounds(
                fields,
                nodes - 1,
                buffers - own_buffer_count(data_type),
                fields@.len(),
            ),
            _ => {},
        }
    }
}

/// What skipping fields takes is no less than nothing.
pub proof fn lemma_skip_fields_takes_bounds(fields: Vec<Field>, nodes: int, buffers: int, upto: nat)
    ensures
        skip_fields_takes(fields, nodes, buffers, upto).0 >= 0,
        skip_fields_takes(fields, nodes, buffers, upto).1 >= 0,
    decreases fields, upto,
{
    if upto > 0 && upto <= fields@.len() {
        lemma_skip_fields_takes_bounds(fields, nodes, buffers, (upto - 1) as nat);
        lemma_skip_takes_bounds(
            fields@[upto - 1].data_type,
            nodes - fields_node_count(fields, (upto - 1) as nat),
            buffers - fields_buffer_count(fields, (upto - 1) as nat),
        );
    }
}

/// Once skipping one of the fields fails, so does skipping more of them, with
/// the same error.
pub proof fn lemma_skip_fields_error_persists(
    fields: Vec<Field>,
    nodes: int,
    buffers: int,
    at: nat,
    upto: nat,
)
    requires
        at <= upto <= fields@.len(),
        skip_fields_outcome(fields, nodes, buffers, at) is Some,
    ensures
        skip_fields_outcome(fields, nodes, buffers, upto) == skip_fields_outcome(fields, nodes, buffers, at),
    decreases upto,
{
    if at < upto {
        lemma_skip_fields_error_persists(fields, nodes, buffers, at, (upto - 1) as nat);
    }
}

/// Takes what an array of type `data_type` occupies off the queues without
/// reading it: its field node and its own buffers, then what its children
/// occupy, in pre-order. Where something is missing, all that stands before
/// it is taken.
pub fn skip(
    field_nodes: &mut VecDeque<Node>,
    data_type: &DataType,
    buffers: &mut VecDeque<BufferDescriptor>,
) -> (out: Result<(), ArrowError>)
    ensures
        match out {
            Ok(_) => {
                &&& skip_outcome(*data_type, old(field_nodes)@.len() as int, old(buffers)@.len() as int)
                    is None
                &&& node_count(*data_type) <= old(field_nodes)@.len()
                &&& buffer_count(*data_type) <= old(buffers)@.len()
                &&& final(field_nodes)@ == old(field_nodes)@.skip(node_count(*data_type) as int)
                &&& final(buffers)@ == old(buffers)@.skip(buffer_count(*data_type) as int)
            },
            Err(e) => skip_outcome(*data_type, old(field_nodes)@.len() as int, old(buffers)@.len() as int)
                == Some(e),
        },
        final(field_nodes)@ == without(
            old(field_nodes)@,
            skip_takes(*data_type, old(field_nodes)@.len() as int, old(buffers)@.len() as int).0 as nat,
        ),
        final(buffers)@ == without(
            old(buffers)@,
            skip_takes(*data_type, old(field_nodes)@.len() as int, old(buffers)@.len() as int).1 as nat,
        ),
    decreases data_type, 1nat,
{
    let ghost nodes0 = field_nodes@;
    let ghost buffers0 = buffers@;
    if field_nodes.pop_front().is_none() {
        return Err(ArrowError::OutOfSpec(OutOfSpec::MissingFieldNode));
    }
    let own = own_buffers(data_type);
    let have = buffers.len();
    if !skip_buffers(buffers, own) {
        proof {
            assert(field_nodes@ =~= without(nodes0, 1));
            assert(buffers@ =~= without(buffers0, have as nat));
        }
        return Err(ArrowError::OutOfSpec(missing(data_type, have)));
    }
    let below = match data_type {
        DataType::List(inner) => skip(field_nodes, &inner.data_type, buffers),
        DataType::FixedSizeList(inner, _) => skip(field_nodes, &inner.data_type, buffers),
        DataType::Struct(fields) => skip_fields(field_nodes, fields, buffers),
        DataType::Union(fields, _) => skip_fields(field_nodes, fields, buffers),
        _ => Ok(()),
    };
    proof {
        let took = skip_takes(*data_type, nodes0.len() as int, buffers0.len() as int);
        lemma_skip_takes_bounds(*data_type, nodes0.len() as int, buffers0.len() as int);
        assert(nodes0.skip(1) =~= without(nodes0, 1));
        assert(buffers0.skip(own as int) =~= without(buffers0, own as nat));
        lemma_without_twice(nodes0, 1, (took.0 - 1) as nat);
        lemma_without_twice(buffers0, own as nat, (took.1 - own) as nat);
        match data_type {
            DataType::List(inner) => lemma_skip_takes_bounds(
                inner.data_type,
                nodes0.len() - 1,
                buffers0.len() - 2,
            ),
            DataType::FixedSizeList(inner, _) => lemma_skip_takes_bounds(
                inner.data_type,
                nodes0.len() - 1,
                buffers0.len() - 1,
            ),
            DataType::Struct(fields) => lemma_skip_fields_takes_bounds(
                *fields,
                nodes0.len() - 1,
                buffers0.len() - 1,
                fields@.len(),
            ),
            DataType::Union(fields, _) => lemma_skip_fields_takes_bounds(
                *fields,
                nodes0.len() - 1,
                buffers0.len() - own,
                fields@.len(),
            ),
            _ => {
                assert(field_nodes@ =~= without(nodes0, 1));
                assert(buffers@ =~= without(buffers0, own as nat));
            },
        }
    }
    below?;
    match data_type {
        DataType::List(inner) => {
            proof {
                let child = inner.data_type;
                assert(old(field_nodes)@.skip(1).skip(node_count(child) as int) =~= old(field_nodes)@.skip(
                    (1 + node_count(child)) as int,
                ));
                assert(old(buffers)@.skip(2).skip(buffer_count(child) as int) =~= old(buffers)@.skip(
                    (2 + buffer_count(child)) as int,
                ));
            }
        },
        DataType::FixedSizeList(inner, _) => {
            proof {
                let child = inner.data_type;
                assert(old(field_nodes)@.skip(1).skip(node_count(child) as int) =~= old(field_nodes)@.skip(
                    (1 + node_count(child)) as int,
                ));
                assert(old(buffers)@.skip(1).skip(buffer_count(child) as int) =~= old(buffers)@.skip(
                    (1 + buffer_count(child)) as int,
                ));
            }
        },
        DataType::Struct(fields) => {
            proof {
                let count = fields_node_count(*fields, fields@.len()) as int;
                let buffer_total = fields_buffer_count(*fields, fields@.len()) as int;
                assert(old(field_nodes)@.skip(1).skip(count) =~= old(field_nodes)@.skip(1 + count));
                assert(old(buffers)@.skip(1).skip(buffer_total) =~= old(buffers)@.skip(1 + buffer_total));
            }
        },
        DataType::Union(fields, _) => {
            proof {
                let count = fields_node_count(*fields, fields@.len()) as int;
                let buffer_total = fields_buffer_count(*fields, fields@.len()) as int;
                assert(old(field_nodes)@.skip(1).skip(count) =~= old(field_nodes)@.skip(1 + count));
                assert(old(buffers)@.skip(own as int).skip(buffer_total) =~= old(buffers)@.skip(
                    own + buffer_total,
                ));
            }
        },
        _ => {},
    }
    proof {
        lemma_skip_takes(*data_type, nodes0.len() as int, buffers0.len() as int);
        assert(nodes0.skip(node_count(*data_type) as int) =~= without(nodes0, node_count(*data_type)));
        assert(buffers0.skip(buffer_count(*data_type) as int) =~= without(buffers0, buffer_count(*data_type)));
    }
    Ok(())
}

} // verus!
