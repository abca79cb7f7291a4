//! What the writing and the reading side of the array codec owe each other:
//! they walk the same tree in the same order, and what one writes the other
//! reads back.

use crate::array::{
    array_view, array_views, validity_fits, Array, ArrayView, BinaryArray, BooleanArray, PrimitiveArray,
};
use crate::io::ipc::read::array::binary::{decode_binary, lemma_ascending_last};
use crate::io::ipc::read::array::boolean::decode_boolean;
use crate::io::ipc::read::array::primitive::decode_primitive;
use crate::bitmap::{bits_of, lemma_count_unset_zero, validity_view, Bitmap};
use crate::chunk::same_lengths;
use crate::datatypes::{DataType, Field};
use crate::io::ipc::dictionaries::{applied, segment_views, values_of, DictionaryView};
use crate::io::ipc::read::dictionary::{dictionary_outcome, find_in_fields};
use crate::io::ipc::write::dictionary::{defining, segments_writable, Pending};
use std::sync::Arc;
use crate::io::ipc::read::common::{decode_batch, decode_projected, selects};
use crate::io::ipc::write::schema::{dictionary_count, fields_dictionary_count};
use crate::io::ipc::read::deserialize::lemma_skip_outcome;
use crate::error::ArrowError;
use crate::io::ipc::compression::{compressed, decompressed};
use crate::io::ipc::endianess::{lemma_ordered_twice, ordered};
use crate::io::ipc::framing::padded;
use crate::io::ipc::read::deserialize::{
    buffer_count, decode, decode_fields, fields_buffer_count, fields_node_count, ipc_fits, ipcs_fit,
    node_count, own_buffer_count, Source,
};
use crate::io::ipc::read::read_basic::{
    buffer_content, buffer_region, decode_bitmap, decode_int32s, decode_types, decode_validity,
    decode_values, int32s_of, slot_count, types_of,
};
use crate::io::ipc::write::serialize::{
    arrays_body, arrays_buffers, arrays_lengths_fit, arrays_nodes, bitmap_raw, buffer_body,
    buffer_descriptor, encoded_body, encoded_buffers, encoded_nodes, int32_bytes, laid_body, laid_buffers,
    lemma_laid, lengths_fit, null_count_of, own_node, own_raws, padding, type_bytes, validity_of,
    validity_raw, wire_bytes, writable, zeros,
};
use crate::io::ipc::{BufferDescriptor, Compression, IpcField, Node};
use vstd::bytes::{
    lemma_auto_spec_u32_to_from_le_bytes, lemma_auto_spec_u64_to_from_le_bytes, spec_u32_to_le_bytes,
    spec_u64_to_le_bytes,
};
use vstd::prelude::*;

verus! {

/// Whether `part` stands in `body` from position `base` on.
pub open spec fn body_holds(body: Seq<u8>, base: int, part: Seq<u8>) -> bool {
    &&& 0 <= base
    &&& base + part.len() <= body.len()
    &&& body.subrange(base, base + part.len()) == part
}

/// Where two parts stand in a body one after the other, each stands there.
proof fn lemma_body_holds_split(body: Seq<u8>, base: int, first: Seq<u8>, second: Seq<u8>)
    requires
        body_holds(body, base, first + second),
    ensures
        body_holds(body, base, first),
        body_holds(body, base + first.len(), second),
{
    let whole = first + second;
    assert(body.subrange(base, base + first.len()) =~= whole.subrange(0, first.len() as int));
    assert(whole.subrange(0, first.len() as int) =~= first);
    assert(body.subrange(base + first.len(), base + first.len() + second.len()) =~= whole.subrange(
        first.len() as int,
        whole.len() as int,
    ));
    assert(whole.subrange(first.len() as int, whole.len() as int) =~= second);
}

/// Where a sequence starts with two parts one after the other, it starts with
/// the first, and what follows the first starts with the second.
proof fn lemma_prefix_split<T>(whole: Seq<T>, first: Seq<T>, second: Seq<T>)
    requires
        (first + second).is_prefix_of(whole),
    ensures
        first.is_prefix_of(whole),
        second.is_prefix_of(whole.skip(first.len() as int)),
{
    let both = first + second;
    assert(both =~= whole.subrange(0, both.len() as int));
    assert(first =~= whole.subrange(0, first.len() as int)) by {
        assert forall|i: int| 0 <= i < first.len() implies first[i] == whole[i] by {
            assert(both[i] == whole.subrange(0, both.len() as int)[i]);
        }
    }
    assert(second =~= whole.skip(first.len() as int).subrange(0, second.len() as int)) by {
        assert forall|i: int| 0 <= i < second.len() implies second[i] == whole[first.len() + i] by {
            assert(both[first.len() + i] == whole.subrange(0, both.len() as int)[first.len() + i]);
        }
    }
}

/// The content of a buffer that was written into a body is what was written.
proof fn lemma_buffer_content(body: Seq<u8>, base: int, raw: Seq<u8>, compression: Option<Compression>)
    requires
        body_holds(body, base, buffer_body(raw, compression)),
        base + buffer_body(raw, compression).len() <= i64::MAX,
    ensures
        buffer_content(body, buffer_descriptor(raw, base, compression), compression) == Ok::<
            Seq<u8>,
            ArrowError,
        >(raw),
{
    let wire = wire_bytes(raw, compression);
    let descriptor = buffer_descriptor(raw, base, compression);
    lemma_body_holds_split(body, base, wire, zeros(padding(wire.len())));
    lemma_auto_spec_u64_to_from_le_bytes();
    assert(descriptor.offset == base);
    assert(descriptor.length == wire.len());
    assert(buffer_region(body, descriptor) == Ok::<Seq<u8>, ArrowError>(wire));
    match compression {
        None => {},
        Some(codec) => {
            if raw.len() > 0 {
                let packed = compressed(codec, raw);
                if packed is Some && packed->0.len() < raw.len() && raw.len() <= i64::MAX && decompressed(
                    codec,
                    packed->0,
                ) == Some(raw) {
                    let prefix = spec_u64_to_le_bytes(raw.len() as u64);
                    assert(wire.subrange(0, 8) =~= prefix);
                    assert(wire.subrange(8, wire.len() as int) =~= packed->0);
                } else {
                    let prefix = spec_u64_to_le_bytes(u64::MAX);
                    assert(wire.subrange(0, 8) =~= prefix);
                    assert(wire.subrange(8, wire.len() as int) =~= raw);
                }
            }
        },
    }
}

/// A bitmap is read back from the bytes of its bits.
proof fn lemma_bitmap_bits(bitmap: Bitmap)
    requires
        bitmap.wf(),
    ensures
        bitmap.length <= bitmap_raw(bitmap).len() * 8,
        bits_of(bitmap_raw(bitmap), bitmap.length as nat) == bitmap@,
{
    assert(bits_of(bitmap_raw(bitmap), bitmap.length as nat) =~= bitmap@);
}

/// The 32-bit integers read from the bytes of 32-bit integers are those.
proof fn lemma_int32_bytes(values: Seq<i32>)
    ensures
        int32_bytes(values).len() == 4 * values.len(),
        int32s_of(int32_bytes(values)) == values,
{
    lemma_auto_spec_u32_to_from_le_bytes();
    let bytes = int32_bytes(values);
    assert forall|k: int| 0 <= k < values.len() implies int32s_of(bytes)[k] == values[k] by {
        let word = values[k] as u32;
        assert(bytes.subrange(4 * k, 4 * k + 4) =~= spec_u32_to_le_bytes(word));
        let value = values[k];
        assert((value as u32) as i32 == value) by (bit_vector);
    }
    assert(int32s_of(bytes) =~= values);
}

/// The type identifiers read from the bytes of type identifiers are those.
proof fn lemma_type_bytes(types: Seq<i8>)
    ensures
        types_of(type_bytes(types)) == types,
{
    let bytes = type_bytes(types);
    assert forall|i: int| 0 <= i < types.len() implies bytes[i] as i8 == types[i] by {
        let value = types[i];
        assert((value as u8) as i8 == value) by (bit_vector);
    }
    assert(types_of(bytes) =~= types);
}

/// The validity of an array is read back from its field node and its
/// validity buffer.
proof fn lemma_validity(
    validity: Option<Bitmap>,
    length: nat,
    node: Node,
    buffers: Seq<BufferDescriptor>,
    body: Seq<u8>,
    base: int,
    compression: Option<Compression>,
)
    requires
        validity_fits(validity, length),
        node.length == length,
        node.null_count == null_count_of(validity),
        buffers.len() >= 1,
        buffers[0] == buffer_descriptor(validity_raw(validity), base, compression),
        body_holds(body, base, buffer_body(validity_raw(validity), compression)),
        base + buffer_body(validity_raw(validity), compression).len() <= i64::MAX,
    ensures
        decode_validity(buffers, node, body, compression) == Ok::<Seq<bool>, ArrowError>(
            validity_view(validity, length),
        ),
{
    lemma_buffer_content(body, base, validity_raw(validity), compression);
    match validity {
        Some(bitmap) => {
            lemma_bitmap_bits(bitmap);
            lemma_count_unset_zero(bitmap@);
        },
        None => {},
    }
}

/// A bitmap of values is read back from its buffer.
proof fn lemma_bitmap(
    bitmap: Bitmap,
    buffers: Seq<BufferDescriptor>,
    body: Seq<u8>,
    base: int,
    compression: Option<Compression>,
)
    requires
        bitmap.wf(),
        buffers.len() >= 1,
        buffers[0] == buffer_descriptor(bitmap_raw(bitmap), base, compression),
        body_holds(body, base, buffer_body(bitmap_raw(bitmap), compression)),
        base + buffer_body(bitmap_raw(bitmap), compression).len() <= i64::MAX,
    ensures
        decode_bitmap(buffers, bitmap.length as nat, body, compression) == Ok::<Seq<bool>, ArrowError>(
            bitmap@,
        ),
{
    lemma_buffer_content(body, base, bitmap_raw(bitmap), compression);
    lemma_bitmap_bits(bitmap);
}

/// Elements of fixed width are read back from their buffer, whatever the byte
/// order of the wire.
proof fn lemma_values(
    values: Seq<u8>,
    count: nat,
    width: nat,
    is_little_endian: bool,
    buffers: Seq<BufferDescriptor>,
    body: Seq<u8>,
    base: int,
    compression: Option<Compression>,
)
    requires
        width > 0,
        values.len() == count * width,
        buffers.len() >= 1,
        buffers[0] == buffer_descriptor(ordered(values, width, is_little_endian), base, compression),
        body_holds(body, base, buffer_body(ordered(values, width, is_little_endian), compression)),
        base + buffer_body(ordered(values, width, is_little_endian), compression).len() <= i64::MAX,
    ensures
        decode_values(buffers, count, width, body, is_little_endian, compression) == Ok::<
            Seq<u8>,
            ArrowError,
        >(values),
{
    let wire = ordered(values, width, is_little_endian);
    lemma_buffer_content(body, base, wire, compression);
    assert(values.len() % width == 0) by (nonlinear_arith)
        requires
            values.len() == count * width,
            width > 0,
    ;
    lemma_ordered_twice(values, width, is_little_endian);
    assert(wire.subrange(0, (count * width) as int) =~= wire);
}

/// Plain bytes are read back from their buffer.
proof fn lemma_bytes(
    values: Seq<u8>,
    buffers: Seq<BufferDescriptor>,
    body: Seq<u8>,
    base: int,
    compression: Option<Compression>,
)
    requires
        buffers.len() >= 1,
        buffers[0] == buffer_descriptor(values, base, compression),
        body_holds(body, base, buffer_body(values, compression)),
        base + buffer_body(values, compression).len() <= i64::MAX,
    ensures
        decode_values(buffers, values.len(), 1, body, true, compression) == Ok::<Seq<u8>, ArrowError>(
            values,
        ),
{
    lemma_values(values, values.len(), 1, true, buffers, body, base, compression);
}

/// 32-bit integers are read back from their buffer.
proof fn lemma_int32s(
    values: Seq<i32>,
    is_little_endian: bool,
    buffers: Seq<BufferDescriptor>,
    body: Seq<u8>,
    base: int,
    compression: Option<Compression>,
)
    requires
        buffers.len() >= 1,
        buffers[0] == buffer_descriptor(ordered(int32_bytes(values), 4, is_little_endian), base, compression),
        body_holds(body, base, buffer_body(ordered(int32_bytes(values), 4, is_little_endian), compression)),
        base + buffer_body(ordered(int32_bytes(values), 4, is_little_endian), compression).len() <= i64::MAX,
    ensures
        decode_int32s(buffers, values.len(), body, is_little_endian, compression) == Ok::<
            Seq<i32>,
            ArrowError,
        >(values),
{
    lemma_int32_bytes(values);
    lemma_values(
        int32_bytes(values),
        values.len(),
        4,
        is_little_endian,
        buffers,
        body,
        base,
        compression,
    );
}

/// The number of descriptors of buffers written one after the other is the
/// number of the buffers.
proof fn lemma_laid_len(raws: Seq<Seq<u8>>, base: int, compression: Option<Compression>)
    ensures
        laid_buffers(raws, base, compression).len() == raws.len(),
    decreases raws.len(),
{
    if raws.len() > 0 {
        lemma_laid_len(raws.drop_last(), base, compression);
    }
}

/// What buffers add to a body is a multiple of eight bytes long.
pub proof fn lemma_laid_aligned(raws: Seq<Seq<u8>>, compression: Option<Compression>)
    ensures
        laid_body(raws, compression).len() % 8 == 0,
    decreases raws.len(),
{
    if raws.len() > 0 {
        lemma_laid_aligned(raws.drop_last(), compression);
        let length = wire_bytes(raws.last(), compression).len();
        assert((length + padding(length)) % 8 == 0);
    }
}

/// What an array adds to a body is a multiple of eight bytes long, so that a
/// body of arrays stands in its frame as it is, without padding.
pub proof fn lemma_body_aligned(array: Array, is_little_endian: bool, compression: Option<Compression>)
    ensures
        encoded_body(array, is_little_endian, compression).len() % 8 == 0,
        padded(encoded_body(array, is_little_endian, compression)) == encoded_body(
            array,
            is_little_endian,
            compression,
        ),
    decreases array, 1nat,
{
    lemma_laid_aligned(own_raws(array, is_little_endian), compression);
    match array {
        Array::List(a) => lemma_body_aligned(*a.values, is_little_endian, compression),
        Array::FixedSizeList(a) => lemma_body_aligned(*a.values, is_little_endian, compression),
        Array::Struct(a) => lemma_bodies_aligned(a.values, a.values@.len(), is_little_endian, compression),
        Array::Union(a) => lemma_bodies_aligned(a.fields, a.fields@.len(), is_little_endian, compression),
        _ => {},
    }
    let body = encoded_body(array, is_little_endian, compression);
    assert(padded(body) =~= body);
}

/// What arrays add to a body, one after the other, is a multiple of eight
/// bytes long: the body of a record batch stands in its frame as it is.
pub proof fn lemma_bodies_aligned(
    arrays: Vec<Array>,
    upto: nat,
    is_little_endian: bool,
    compression: Option<Compression>,
)
    ensures
        arrays_body(arrays, upto, is_little_endian, compression).len() % 8 == 0,
        padded(arrays_body(arrays, upto, is_little_endian, compression)) == arrays_body(
            arrays,
            upto,
            is_little_endian,
            compression,
        ),
    decreases arrays, upto,
{
    if upto > 0 && upto <= arrays@.len() {
        lemma_bodies_aligned(arrays, (upto - 1) as nat, is_little_endian, compression);
        lemma_body_aligned(arrays@[upto - 1], is_little_endian, compression);
    }
    let body = arrays_body(arrays, upto, is_little_endian, compression);
    assert(padded(body) =~= body);
}

/// An array is written as one field node for each node of its type's tree,
/// and as many buffer descriptors as the tree has buffers: as many as
/// reading it and skipping it take off the queues.
pub proof fn lemma_encoded_counts(
    array: Array,
    data_type: DataType,
    base: int,
    is_little_endian: bool,
    compression: Option<Compression>,
)
    requires
        array@.conforms(data_type),
    ensures
        encoded_nodes(array).len() == node_count(data_type),
        encoded_buffers(array, base, is_little_endian, compression).len() == buffer_count(data_type),
    decreases array, 1nat,
{
    let own = own_raws(array, is_little_endian);
    let next = base + laid_body(own, compression).len();
    lemma_laid_len(own, base, compression);
    match array {
        Array::List(a) => {
            lemma_encoded_counts(*a.values, data_type->List_0.data_type, next, is_little_endian, compression);
        },
        Array::FixedSizeList(a) => {
            lemma_encoded_counts(
                *a.values,
                data_type->FixedSizeList_0.data_type,
                next,
                is_little_endian,
                compression,
            );
        },
        Array::Struct(a) => {
            let fields = data_type->Struct_0;
            assert forall|i: int| 0 <= i < a.values@.len() implies (#[trigger] a.values@[i])@.conforms(
                fields@[i].data_type,
            ) by {
                assert(array@->Struct_values[i] == a.values@[i]@);
            }
            lemma_arrays_counts(a.values, fields, a.values@.len(), next, is_little_endian, compression);
        },
        Array::Union(a) => {
            let fields = data_type->Union_0;
            assert forall|i: int| 0 <= i < a.fields@.len() implies (#[trigger] a.fields@[i])@.conforms(
                fields@[i].data_type,
            ) by {
                assert(array@->Union_fields[i] == a.fields@[i]@);
            }
            lemma_arrays_counts(a.fields, fields, a.fields@.len(), next, is_little_endian, compression);
        },
        _ => {},
    }
}

/// Arrays written one after the other have the field nodes and buffer
/// descriptors of their types, added up.
pub proof fn lemma_arrays_counts(
    arrays: Vec<Array>,
    fields: Vec<Field>,
    upto: nat,
    base: int,
    is_little_endian: bool,
    compression: Option<Compression>,
)
    requires
        upto <= arrays@.len(),
        arrays@.len() == fields@.len(),
        forall|i: int| 0 <= i < arrays@.len() ==> (#[trigger] arrays@[i])@.conforms(fields@[i].data_type),
    ensures
        arrays_nodes(arrays, upto).len() == fields_node_count(fields, upto),
        arrays_buffers(arrays, upto, base, is_little_endian, compression).len() == fields_buffer_count(
            fields,
            upto,
        ),
    decreases arrays, upto,
{
    if upto > 0 {
        lemma_arrays_counts(arrays, fields, (upto - 1) as nat, base, is_little_endian, compression);
        lemma_encoded_counts(
            arrays@[upto - 1],
            fields@[upto - 1].data_type,
            base + arrays_body(arrays, (upto - 1) as nat, is_little_endian, compression).len(),
            is_little_endian,
            compression,
        );
    }
}

/// Whether the table `dictionaries` holds, for each dictionary-encoded array
/// within `array`, under the identifier that the wire twin gives it, the
/// values of that array.
pub open spec fn dictionaries_hold(
    array: Array,
    ipc_field: IpcField,
    dictionaries: Map<i64, Seq<ArrayView>>,
) -> bool
    decreases array,
{
    match array {
        Array::Dictionary(a) => ipc_field.dictionary_id matches Some(id) && dictionaries.contains_key(id)
            && dictionaries[id] == array_view(array)->Dictionary_values,
        Array::List(a) => dictionaries_hold(*a.values, ipc_field.fields@[0], dictionaries),
        Array::FixedSizeList(a) => dictionaries_hold(*a.values, ipc_field.fields@[0], dictionaries),
        Array::Struct(a) => forall|i: int|
            0 <= i < a.values@.len() ==> dictionaries_hold(
                #[trigger] a.values@[i],
                ipc_field.fields@[i],
                dictionaries,
            ),
        Array::Union(a) => forall|i: int|
            0 <= i < a.fields@.len() ==> dictionaries_hold(
                #[trigger] a.fields@[i],
                ipc_field.fields@[i],
                dictionaries,
            ),
        _ => true,
    }
}

/// Where a sequence starts with `part`, it has the items of `part` at their places.
proof fn lemma_prefix_index<T>(whole: Seq<T>, part: Seq<T>, i: int)
    requires
        part.is_prefix_of(whole),
        0 <= i < part.len(),
    ensures
        i < whole.len(),
        whole[i] == part[i],
{
    assert(part[i] == whole.subrange(0, part.len() as int)[i]);
}

/// The number of slots of an array in memory can be addressed.
pub proof fn lemma_len_addressable(array: &Array)
    requires
        array.wf(),
    ensures
        array@.len() <= usize::MAX,
{
    match *array {
        Array::Boolean(a) => {},
        Array::Primitive(a) => {
            assert(a.values@.len() == a.values.len());
        },
        Array::Binary(a) => {
            assert(a.offsets@.len() == a.offsets.len());
        },
        Array::List(a) => {
            assert(a.offsets@.len() == a.offsets.len());
        },
        Array::FixedSizeList(a) => {},
        Array::Struct(a) => {},
        Array::Union(a) => {
            assert(a.types@.len() == a.types.len());
        },
        Array::Dictionary(a) => {
            assert(a.keys.values@.len() == a.keys.values.len());
        },
    }
}

/// What was written for an array starts with its field node and its own
/// buffers, which stand at the start of what it added to the body.
#[verifier::rlimit(100)]
proof fn lemma_own_parts(
    array: Array,
    nodes: Seq<Node>,
    buffers: Seq<BufferDescriptor>,
    body: Seq<u8>,
    base: int,
    is_little_endian: bool,
    compression: Option<Compression>,
)
    requires
        array.wf(),
        lengths_fit(array),
        encoded_nodes(array).is_prefix_of(nodes),
        encoded_buffers(array, base, is_little_endian, compression).is_prefix_of(buffers),
        body_holds(body, base, encoded_body(array, is_little_endian, compression)),
        base + encoded_body(array, is_little_endian, compression).len() <= i64::MAX,
    ensures
        nodes.len() >= 1,
        nodes[0].length == array@.len(),
        nodes[0].null_count == null_count_of(validity_of(array)),
        slot_count(nodes[0]) == Ok::<usize, ArrowError>(array@.len() as usize),
        array@.len() <= usize::MAX,
        laid_buffers(own_raws(array, is_little_endian), base, compression).is_prefix_of(buffers),
        body_holds(body, base, laid_body(own_raws(array, is_little_endian), compression)),
        base + laid_body(own_raws(array, is_little_endian), compression).len() <= i64::MAX,
{
    let own = own_raws(array, is_little_endian);
    let rest_nodes = encoded_nodes(array).skip(1);
    assert(encoded_nodes(array) =~= seq![own_node(array)] + rest_nodes);
    lemma_prefix_split(nodes, seq![own_node(array)], rest_nodes);
    lemma_prefix_index(nodes, seq![own_node(array)], 0);
    let laid = laid_buffers(own, base, compression);
    let rest_buffers = encoded_buffers(array, base, is_little_endian, compression).skip(laid.len() as int);
    assert(encoded_buffers(array, base, is_little_endian, compression) =~= laid + rest_buffers);
    lemma_prefix_split(buffers, laid, rest_buffers);
    let laid_bytes = laid_body(own, compression);
    let rest_body = encoded_body(array, is_little_endian, compression).skip(laid_bytes.len() as int);
    assert(encoded_body(array, is_little_endian, compression) =~= laid_bytes + rest_body);
    lemma_body_holds_split(body, base, laid_bytes, rest_body);
    lemma_len_addressable(&array);
    match validity_of(array) {
        Some(bitmap) => {
            lemma_count_unset_zero(bitmap@);
        },
        None => {},
    }
}

/// A boolean array is read back from what was written for it.
#[verifier::rlimit(100)]
proof fn lemma_boolean_read_back(
    a: BooleanArray,
    nodes: Seq<Node>,
    buffers: Seq<BufferDescriptor>,
    body: Seq<u8>,
    base: int,
    is_little_endian: bool,
    compression: Option<Compression>,
)
    requires
        ({
            let array = Array::Boolean(a);
            &&& array.wf()
            &&& lengths_fit(array)
            &&& encoded_nodes(array).is_prefix_of(nodes)
            &&& encoded_buffers(array, base, is_little_endian, compression).is_prefix_of(buffers)
            &&& body_holds(body, base, encoded_body(array, is_little_endian, compression))
            &&& base + encoded_body(array, is_little_endian, compression).len() <= i64::MAX
        }),
    ensures
        decode_boolean(nodes, buffers, body, compression) == Ok::<crate::array::BooleanArrayView, ArrowError>(
            a@,
        ),
{
    let array = Array::Boolean(a);
    let validity = validity_raw(a.validity);
    let values = bitmap_raw(a.values);
    lemma_own_parts(array, nodes, buffers, body, base, is_little_endian, compression);
    lemma_laid(validity, values, Seq::empty(), base, compression);
    let laid = laid_buffers(own_raws(array, is_little_endian), base, compression);
    lemma_prefix_index(buffers, laid, 0);
    lemma_prefix_index(buffers, laid, 1);
    lemma_body_holds_split(body, base, buffer_body(validity, compression), buffer_body(values, compression));
    lemma_validity(a.validity, a.values.length as nat, nodes[0], buffers, body, base, compression);
    lemma_bitmap(
        a.values,
        buffers.skip(1),
        body,
        base + buffer_body(validity, compression).len(),
        compression,
    );
}

/// An array of integers is read back from what was written for it.
#[verifier::rlimit(100)]
proof fn lemma_primitive_read_back(
    a: PrimitiveArray,
    nodes: Seq<Node>,
    buffers: Seq<BufferDescriptor>,
    body: Seq<u8>,
    base: int,
    is_little_endian: bool,
    compression: Option<Compression>,
)
    requires
        ({
            let array = Array::Primitive(a);
            &&& array.wf()
            &&& lengths_fit(array)
            &&& encoded_nodes(array).is_prefix_of(nodes)
            &&& encoded_buffers(array, base, is_little_endian, compression).is_prefix_of(buffers)
            &&& body_holds(body, base, encoded_body(array, is_little_endian, compression))
            &&& base + encoded_body(array, is_little_endian, compression).len() <= i64::MAX
        }),
    ensures
        decode_primitive(a.data_type, nodes, buffers, body, is_little_endian, compression) == Ok::<
            crate::array::PrimitiveArrayView,
            ArrowError,
        >(a@),
{
    let array = Array::Primitive(a);
    let width = a.data_type.byte_width() as nat;
    let validity = validity_raw(a.validity);
    let values = ordered(a.values@, width, is_little_endian);
    lemma_own_parts(array, nodes, buffers, body, base, is_little_endian, compression);
    lemma_laid(validity, values, Seq::empty(), base, compression);
    let laid = laid_buffers(own_raws(array, is_little_endian), base, compression);
    lemma_prefix_index(buffers, laid, 0);
    lemma_prefix_index(buffers, laid, 1);
    lemma_body_holds_split(body, base, buffer_body(validity, compression), buffer_body(values, compression));
    lemma_validity(a.validity, a.spec_len(), nodes[0], buffers, body, base, compression);
    lemma_values(
        a.values@,
        a.spec_len(),
        width,
        is_little_endian,
        buffers.skip(1),
        body,
        base + buffer_body(validity, compression).len(),
        compression,
    );
}

/// An array of byte strings is read back from what was written for it.
#[verifier::rlimit(100)]
proof fn lemma_binary_read_back(
    a: BinaryArray,
    nodes: Seq<Node>,
    buffers: Seq<BufferDescriptor>,
    body: Seq<u8>,
    base: int,
    is_little_endian: bool,
    compression: Option<Compression>,
)
    requires
        ({
            let array = Array::Binary(a);
            &&& array.wf()
            &&& lengths_fit(array)
            &&& encoded_nodes(array).is_prefix_of(nodes)
            &&& encoded_buffers(array, base, is_little_endian, compression).is_prefix_of(buffers)
            &&& body_holds(body, base, encoded_body(array, is_little_endian, compression))
            &&& base + encoded_body(array, is_little_endian, compression).len() <= i64::MAX
        }),
    ensures
        decode_binary(a.is_utf8, nodes, buffers, body, is_little_endian, compression) == Ok::<
            crate::array::BinaryArrayView,
            ArrowError,
        >(a@),
{
    let array = Array::Binary(a);
    let length = (a.offsets@.len() - 1) as nat;
    let validity = validity_raw(a.validity);
    let offsets = ordered(int32_bytes(a.offsets@), 4, is_little_endian);
    let values = a.values@;
    lemma_own_parts(array, nodes, buffers, body, base, is_little_endian, compression);
    lemma_laid(validity, offsets, values, base, compression);
    let laid = laid_buffers(own_raws(array, is_little_endian), base, compression);
    lemma_prefix_index(buffers, laid, 0);
    lemma_prefix_index(buffers, laid, 1);
    lemma_prefix_index(buffers, laid, 2);
    lemma_body_holds_split(
        body,
        base,
        buffer_body(validity, compression) + buffer_body(offsets, compression),
        buffer_body(values, compression),
    );
    lemma_body_holds_split(body, base, buffer_body(validity, compression), buffer_body(offsets, compression));
    lemma_validity(a.validity, length, nodes[0], buffers, body, base, compression);
    lemma_int32s(
        a.offsets@,
        is_little_endian,
        buffers.skip(1),
        body,
        base + buffer_body(validity, compression).len(),
        compression,
    );
    lemma_ascending_last(a.offsets@);
    lemma_bytes(
        values,
        buffers.skip(2),
        body,
        base + buffer_body(validity, compression).len() + buffer_body(offsets, compression).len(),
        compression,
    );
}

/// An array of lists is read back from what was written for it.
#[verifier::rlimit(100)]
proof fn lemma_list_read_back(
    array: Array,
    data_type: DataType,
    ipc_field: IpcField,
    nodes: Seq<Node>,
    buffers: Seq<BufferDescriptor>,
    source: Source,
    base: int,
)
    requires
        array is List,
        array.wf(),
        array@.conforms(data_type),
        ipc_fits(ipc_field, data_type),
        lengths_fit(array),
        dictionaries_hold(array, ipc_field, source.dictionaries),
        encoded_nodes(array).is_prefix_of(nodes),
        encoded_buffers(array, base, source.is_little_endian, source.compression).is_prefix_of(buffers),
        body_holds(source.body, base, encoded_body(array, source.is_little_endian, source.compression)),
        base + encoded_body(array, source.is_little_endian, source.compression).len() <= i64::MAX,
    ensures
        decode(data_type, ipc_field, nodes, buffers, source) == Ok::<ArrayView, ArrowError>(array@),
    decreases array, 1nat,
{
    let a = array->List_0;
    let child = *a.values;
    let field = data_type->List_0;
    let is_little_endian = source.is_little_endian;
    let compression = source.compression;
    let body = source.body;
    let own = own_raws(array, is_little_endian);
    let laid = laid_buffers(own, base, compression);
    let next = base + laid_body(own, compression).len();
    lemma_own_parts(array, nodes, buffers, body, base, is_little_endian, compression);
    let length = (a.offsets@.len() - 1) as nat;
    let validity = validity_raw(a.validity);
    let offsets = ordered(int32_bytes(a.offsets@), 4, is_little_endian);
    lemma_laid(validity, offsets, Seq::empty(), base, compression);
    lemma_prefix_index(buffers, laid, 0);
    lemma_prefix_index(buffers, laid, 1);
    lemma_body_holds_split(body, base, buffer_body(validity, compression), buffer_body(offsets, compression));
    lemma_validity(a.validity, length, nodes[0], buffers, body, base, compression);
    lemma_int32s(
        a.offsets@,
        is_little_endian,
        buffers.skip(1),
        body,
        base + buffer_body(validity, compression).len(),
        compression,
    );
    assert(encoded_nodes(array) =~= seq![own_node(array)] + encoded_nodes(child));
    lemma_prefix_split(nodes, seq![own_node(array)], encoded_nodes(child));
    assert(encoded_buffers(array, base, is_little_endian, compression) =~= laid + encoded_buffers(child, next, is_little_endian, compression));
    lemma_prefix_split(buffers, laid, encoded_buffers(child, next, is_little_endian, compression));
    lemma_laid_len(own, base, compression);
    lemma_body_holds_split(body, base, laid_body(own, compression), encoded_body(child, is_little_endian, compression));
    lemma_read_back(child, field.data_type, ipc_field.fields@[0], nodes.skip(1), buffers.skip(2), source, next);
}

/// An array of lists of one length is read back from what was written for it.
#[verifier::rlimit(100)]
proof fn lemma_fixed_size_list_read_back(
    array: Array,
    data_type: DataType,
    ipc_field: IpcField,
    nodes: Seq<Node>,
    buffers: Seq<BufferDescriptor>,
    source: Source,
    base: int,
)
    requires
        array is FixedSizeList,
        array.wf(),
        array@.conforms(data_type),
        ipc_fits(ipc_field, data_type),
        lengths_fit(array),
        dictionaries_hold(array, ipc_field, source.dictionaries),
        encoded_nodes(array).is_prefix_of(nodes),
        encoded_buffers(array, base, source.is_little_endian, source.compression).is_prefix_of(buffers),
        body_holds(source.body, base, encoded_body(array, source.is_little_endian, source.compression)),
        base + encoded_body(array, source.is_little_endian, source.compression).len() <= i64::MAX,
    ensures
        decode(data_type, ipc_field, nodes, buffers, source) == Ok::<ArrayView, ArrowError>(array@),
    decreases array, 1nat,
{
    let a = array->FixedSizeList_0;
    let child = *a.values;
    let field = data_type->FixedSizeList_0;
    let is_little_endian = source.is_little_endian;
    let compression = source.compression;
    let body = source.body;
    let own = own_raws(array, is_little_endian);
    let laid = laid_buffers(own, base, compression);
    let next = base + laid_body(own, compression).len();
    lemma_own_parts(array, nodes, buffers, body, base, is_little_endian, compression);
    let validity = validity_raw(a.validity);
    lemma_laid(validity, Seq::empty(), Seq::empty(), base, compression);
    lemma_prefix_index(buffers, laid, 0);
    lemma_validity(a.validity, a.length as nat, nodes[0], buffers, body, base, compression);
    assert(encoded_nodes(array) =~= seq![own_node(array)] + encoded_nodes(child));
    lemma_prefix_split(nodes, seq![own_node(array)], encoded_nodes(child));
    assert(encoded_buffers(array, base, is_little_endian, compression) =~= laid + encoded_buffers(child, next, is_little_endian, compression));
    lemma_prefix_split(buffers, laid, encoded_buffers(child, next, is_little_endian, compression));
    lemma_laid_len(own, base, compression);
    lemma_body_holds_split(body, base, laid_body(own, compression), encoded_body(child, is_little_endian, compression));
    lemma_read_back(child, field.data_type, ipc_field.fields@[0], nodes.skip(1), buffers.skip(1), source, next);
}

/// An array of structs is read back from what was written for it.
#[verifier::rlimit(100)]
proof fn lemma_struct_read_back(
    array: Array,
    data_type: DataType,
    ipc_field: IpcField,
    nodes: Seq<Node>,
    buffers: Seq<BufferDescriptor>,
    source: Source,
    base: int,
)
    requires
        array is Struct,
        array.wf(),
        array@.conforms(data_type),
        ipc_fits(ipc_field, data_type),
        lengths_fit(array),
        dictionaries_hold(array, ipc_field, source.dictionaries),
        encoded_nodes(array).is_prefix_of(nodes),
        encoded_buffers(array, base, source.is_little_endian, source.compression).is_prefix_of(buffers),
        body_holds(source.body, base, encoded_body(array, source.is_little_endian, source.compression)),
        base + encoded_body(array, source.is_little_endian, source.compression).len() <= i64::MAX,
    ensures
        decode(data_type, ipc_field, nodes, buffers, source) == Ok::<ArrayView, ArrowError>(array@),
    decreases array, 1nat,
{
    let a = array->Struct_0;
    let fields = data_type->Struct_0;
    let total = a.values@.len();
    let is_little_endian = source.is_little_endian;
    let compression = source.compression;
    let body = source.body;
    let own = own_raws(array, is_little_endian);
    let laid = laid_buffers(own, base, compression);
    let next = base + laid_body(own, compression).len();
    lemma_own_parts(array, nodes, buffers, body, base, is_little_endian, compression);
    let validity = validity_raw(a.validity);
    lemma_laid(validity, Seq::empty(), Seq::empty(), base, compression);
    lemma_prefix_index(buffers, laid, 0);
    lemma_validity(a.validity, a.length as nat, nodes[0], buffers, body, base, compression);
    assert(encoded_nodes(array) =~= seq![own_node(array)] + arrays_nodes(a.values, total));
    lemma_prefix_split(nodes, seq![own_node(array)], arrays_nodes(a.values, total));
    assert(encoded_buffers(array, base, is_little_endian, compression) =~= laid + arrays_buffers(a.values, total, next, is_little_endian, compression));
    lemma_prefix_split(buffers, laid, arrays_buffers(a.values, total, next, is_little_endian, compression));
    lemma_laid_len(own, base, compression);
    lemma_body_holds_split(body, base, laid_body(own, compression), arrays_body(a.values, total, is_little_endian, compression));
    assert forall|i: int| 0 <= i < total implies {
        &&& (#[trigger] a.values@[i]).wf()
        &&& a.values@[i]@.conforms(fields@[i].data_type)
        &&& a.values@[i]@.len() == a.length
    } by {
        assert(array@->Struct_values[i] == a.values@[i]@);
    }
    lemma_arrays_read_back(
        a.values,
        fields,
        ipc_field.fields@,
        Some(a.length as nat),
        nodes.skip(1),
        buffers.skip(1),
        source,
        next,
        total,
    );
    assert(a.values@.take(total as int) =~= a.values@);
    assert(array@->Struct_values =~= array_views(a.values@));
}

/// The type identifiers of a union, and the offsets of a dense one, are read
/// back from what was written for them.
#[verifier::rlimit(100)]
proof fn lemma_union_own(
    array: Array,
    nodes: Seq<Node>,
    buffers: Seq<BufferDescriptor>,
    body: Seq<u8>,
    base: int,
    is_little_endian: bool,
    compression: Option<Compression>,
)
    requires
        array is Union,
        array.wf(),
        lengths_fit(array),
        encoded_nodes(array).is_prefix_of(nodes),
        encoded_buffers(array, base, is_little_endian, compression).is_prefix_of(buffers),
        body_holds(body, base, encoded_body(array, is_little_endian, compression)),
        base + encoded_body(array, is_little_endian, compression).len() <= i64::MAX,
    ensures
        decode_types(buffers, array->Union_0.types@.len(), body, compression) == Ok::<Seq<i8>, ArrowError>(
            array->Union_0.types@,
        ),
        array->Union_0.offsets matches Some(dense) ==> decode_int32s(
            buffers.skip(1),
            dense@.len(),
            body,
            is_little_endian,
            compression,
        ) == Ok::<Seq<i32>, ArrowError>(dense@),
{
    let a = array->Union_0;
    let own = own_raws(array, is_little_endian);
    let laid = laid_buffers(own, base, compression);
    let types = type_bytes(a.types@);
    lemma_own_parts(array, nodes, buffers, body, base, is_little_endian, compression);
    lemma_type_bytes(a.types@);
    match a.offsets {
        Some(dense) => {
            let offsets = ordered(int32_bytes(dense@), 4, is_little_endian);
            lemma_laid(types, offsets, Seq::empty(), base, compression);
            lemma_prefix_index(buffers, laid, 0);
            lemma_prefix_index(buffers, laid, 1);
            lemma_body_holds_split(
                body,
                base,
                buffer_body(types, compression),
                buffer_body(offsets, compression),
            );
            lemma_bytes(types, buffers, body, base, compression);
            lemma_int32s(
                dense@,
                is_little_endian,
                buffers.skip(1),
                body,
                base + buffer_body(types, compression).len(),
                compression,
            );
        },
        None => {
            lemma_laid(types, Seq::empty(), Seq::empty(), base, compression);
            lemma_prefix_index(buffers, laid, 0);
            lemma_bytes(types, buffers, body, base, compression);
        },
    }
}

/// A union is read back from what was written for it.
#[verifier::rlimit(100)]
proof fn lemma_union_read_back(
    array: Array,
    data_type: DataType,
    ipc_field: IpcField,
    nodes: Seq<Node>,
    buffers: Seq<BufferDescriptor>,
    source: Source,
    base: int,
)
    requires
        array is Union,
        array.wf(),
        array@.conforms(data_type),
        ipc_fits(ipc_field, data_type),
        lengths_fit(array),
        dictionaries_hold(array, ipc_field, source.dictionaries),
        encoded_nodes(array).is_prefix_of(nodes),
        encoded_buffers(array, base, source.is_little_endian, source.compression).is_prefix_of(buffers),
        body_holds(source.body, base, encoded_body(array, source.is_little_endian, source.compression)),
        base + encoded_body(array, source.is_little_endian, source.compression).len() <= i64::MAX,
    ensures
        decode(data_type, ipc_field, nodes, buffers, source) == Ok::<ArrayView, ArrowError>(array@),
    decreases array, 1nat,
{
    let a = array->Union_0;
    let fields = data_type->Union_0;
    let total = a.fields@.len();
    let is_little_endian = source.is_little_endian;
    let compression = source.compression;
    let body = source.body;
    let own = own_raws(array, is_little_endian);
    let laid = laid_buffers(own, base, compression);
    let next = base + laid_body(own, compression).len();
    lemma_own_parts(array, nodes, buffers, body, base, is_little_endian, compression);
    lemma_union_own(array, nodes, buffers, source.body, base, is_little_endian, compression);
    assert(encoded_nodes(array) =~= seq![own_node(array)] + arrays_nodes(a.fields, total));
    lemma_prefix_split(nodes, seq![own_node(array)], arrays_nodes(a.fields, total));
    assert(encoded_buffers(array, base, is_little_endian, compression) =~= laid + arrays_buffers(a.fields, total, next, is_little_endian, compression));
    lemma_prefix_split(buffers, laid, arrays_buffers(a.fields, total, next, is_little_endian, compression));
    lemma_laid_len(own, base, compression);
    lemma_body_holds_split(body, base, laid_body(own, compression), arrays_body(a.fields, total, is_little_endian, compression));
    assert forall|i: int| 0 <= i < total implies {
        &&& (#[trigger] a.fields@[i]).wf()
        &&& a.fields@[i]@.conforms(fields@[i].data_type)
    } by {
        assert(array@->Union_fields[i] == a.fields@[i]@);
    }
    lemma_arrays_read_back(
        a.fields,
        fields,
        ipc_field.fields@,
        None,
        nodes.skip(1),
        buffers.skip(own.len() as int),
        source,
        next,
        total,
    );
    assert(a.fields@.take(total as int) =~= a.fields@);
    assert(array@->Union_fields =~= array_views(a.fields@));
}

/// Arrays written one after the other are read back one after the other.
#[verifier::rlimit(100)]
proof fn lemma_arrays_read_back(
    arrays: Vec<Array>,
    fields: Vec<Field>,
    ipc_fields: Seq<IpcField>,
    length: Option<nat>,
    nodes: Seq<Node>,
    buffers: Seq<BufferDescriptor>,
    source: Source,
    base: int,
    upto: nat,
)
    requires
        upto <= arrays@.len(),
        arrays@.len() == fields@.len(),
        ipcs_fit(ipc_fields, fields),
        forall|i: int|
            0 <= i < arrays@.len() ==> {
                &&& (#[trigger] arrays@[i]).wf()
                &&& arrays@[i]@.conforms(fields@[i].data_type)
                &&& dictionaries_hold(arrays@[i], ipc_fields[i], source.dictionaries)
                &&& length matches Some(n) ==> arrays@[i]@.len() == n
            },
        arrays_lengths_fit(arrays, upto),
        arrays_nodes(arrays, upto).is_prefix_of(nodes),
        arrays_buffers(arrays, upto, base, source.is_little_endian, source.compression).is_prefix_of(buffers),
        body_holds(source.body, base, arrays_body(arrays, upto, source.is_little_endian, source.compression)),
        base + arrays_body(arrays, upto, source.is_little_endian, source.compression).len() <= i64::MAX,
    ensures
        decode_fields(fields, ipc_fields, length, nodes, buffers, source, upto) == Ok::<
            Seq<ArrayView>,
            ArrowError,
        >(array_views(arrays@.take(upto as int))),
    decreases arrays, upto,
{
    let is_little_endian = source.is_little_endian;
    let compression = source.compression;
    if upto == 0 {
        assert(array_views(arrays@.take(0)) =~= Seq::<ArrayView>::empty());
    } else {
        let k = (upto - 1) as nat;
        let child = arrays@[k as int];
        let start = base + arrays_body(arrays, k, is_little_endian, compression).len();
        lemma_prefix_split(nodes, arrays_nodes(arrays, k), encoded_nodes(child));
        lemma_prefix_split(
            buffers,
            arrays_buffers(arrays, k, base, is_little_endian, compression),
            encoded_buffers(child, start, is_little_endian, compression),
        );
        lemma_body_holds_split(
            source.body,
            base,
            arrays_body(arrays, k, is_little_endian, compression),
            encoded_body(child, is_little_endian, compression),
        );
        lemma_arrays_read_back(arrays, fields, ipc_fields, length, nodes, buffers, source, base, k);
        lemma_arrays_counts(arrays, fields, k, base, is_little_endian, compression);
        lemma_read_back(
            child,
            fields@[k as int].data_type,
            ipc_fields[k as int],
            nodes.skip(fields_node_count(fields, k) as int),
            buffers.skip(fields_buffer_count(fields, k) as int),
            source,
            start,
        );
        assert(array_views(arrays@.take(upto as int)) =~= array_views(arrays@.take(k as int)).push(child@));
    }
}

/// An array is read back from what was written for it, wherever in the queues
/// and in the body that stands.
#[verifier::rlimit(100)]
proof fn lemma_read_back(
    array: Array,
    data_type: DataType,
    ipc_field: IpcField,
    nodes: Seq<Node>,
    buffers: Seq<BufferDescriptor>,
    source: Source,
    base: int,
)
    requires
        array.wf(),
        array@.conforms(data_type),
        ipc_fits(ipc_field, data_type),
        lengths_fit(array),
        dictionaries_hold(array, ipc_field, source.dictionaries),
        encoded_nodes(array).is_prefix_of(nodes),
        encoded_buffers(array, base, source.is_little_endian, source.compression).is_prefix_of(buffers),
        body_holds(source.body, base, encoded_body(array, source.is_little_endian, source.compression)),
        base + encoded_body(array, source.is_little_endian, source.compression).len() <= i64::MAX,
    ensures
        decode(data_type, ipc_field, nodes, buffers, source) == Ok::<ArrayView, ArrowError>(array@),
    decreases array, 2nat,
{
    let is_little_endian = source.is_little_endian;
    let compression = source.compression;
    match array {
        Array::Boolean(a) => {
            lemma_boolean_read_back(a, nodes, buffers, source.body, base, is_little_endian, compression);
        },
        Array::Primitive(a) => {
            lemma_primitive_read_back(a, nodes, buffers, source.body, base, is_little_endian, compression);
        },
        Array::Binary(a) => {
            lemma_binary_read_back(a, nodes, buffers, source.body, base, is_little_endian, compression);
        },
        Array::Dictionary(a) => {
            let keys = Array::Primitive(a.keys);
            assert(encoded_nodes(keys) =~= encoded_nodes(array));
            assert(encoded_buffers(keys, base, is_little_endian, compression) =~= encoded_buffers(
                array,
                base,
                is_little_endian,
                compression,
            ));
            assert(encoded_body(keys, is_little_endian, compression) =~= encoded_body(
                array,
                is_little_endian,
                compression,
            ));
            lemma_primitive_read_back(
                a.keys,
                nodes,
                buffers,
                source.body,
                base,
                is_little_endian,
                compression,
            );
        },
        Array::List(_) => lemma_list_read_back(array, data_type, ipc_field, nodes, buffers, source, base),
        Array::FixedSizeList(_) => lemma_fixed_size_list_read_back(
            array,
            data_type,
            ipc_field,
            nodes,
            buffers,
            source,
            base,
        ),
        Array::Struct(_) => lemma_struct_read_back(array, data_type, ipc_field, nodes, buffers, source, base),
        Array::Union(_) => lemma_union_read_back(array, data_type, ipc_field, nodes, buffers, source, base),
    }
}

/// Reading what was written gives the array back: for an array of any type,
/// however deeply nested, in either byte order, wherever in a body and in the
/// queues it was written, and whatever follows it there, with either codec
/// and with none: a writer keeps compressed bytes only where decoding them
/// gave the buffer back.
pub proof fn lemma_round_trip(
    array: Array,
    data_type: DataType,
    ipc_field: IpcField,
    before: Seq<u8>,
    after: Seq<u8>,
    nodes_after: Seq<Node>,
    buffers_after: Seq<BufferDescriptor>,
    is_little_endian: bool,
    compression: Option<Compression>,
    dictionaries: Map<i64, Seq<ArrayView>>,
)
    requires
        array.wf(),
        array@.conforms(data_type),
        ipc_fits(ipc_field, data_type),
    ensures
        writable(array, before.len() as int, is_little_endian, compression) && dictionaries_hold(
            array,
            ipc_field,
            dictionaries,
        ) ==> decode(
            data_type,
            ipc_field,
            encoded_nodes(array) + nodes_after,
            encoded_buffers(array, before.len() as int, is_little_endian, compression) + buffers_after,
            Source {
                body: before + encoded_body(array, is_little_endian, compression) + after,
                is_little_endian,
                compression,
                dictionaries,
            },
        ) == Ok::<ArrayView, ArrowError>(array@),
{
    if writable(array, before.len() as int, is_little_endian, compression) && dictionaries_hold(
        array,
        ipc_field,
        dictionaries,
    ) {
        let nodes = encoded_nodes(array) + nodes_after;
        let buffers = encoded_buffers(array, before.len() as int, is_little_endian, compression)
            + buffers_after;
        let part = encoded_body(array, is_little_endian, compression);
        let body = before + part + after;
        assert(nodes.subrange(0, encoded_nodes(array).len() as int) =~= encoded_nodes(array));
        assert(buffers.subrange(
            0,
            encoded_buffers(array, before.len() as int, is_little_endian, compression).len() as int,
        ) =~= encoded_buffers(array, before.len() as int, is_little_endian, compression));
        assert(body.subrange(before.len() as int, (before.len() + part.len()) as int) =~= part);
        lemma_read_back(
            array,
            data_type,
            ipc_field,
            nodes,
            buffers,
            Source { body, is_little_endian, compression, dictionaries },
            before.len() as int,
        );
    }
}

/// Reading all columns of what was written for a chunk gives the chunk back,
/// in either byte order, with either codec and with none.
pub proof fn lemma_batch_round_trip(
    arrays: Vec<Array>,
    fields: Vec<Field>,
    ipc_fields: Seq<IpcField>,
    is_little_endian: bool,
    compression: Option<Compression>,
    dictionaries: Map<i64, Seq<ArrayView>>,
)
    requires
        arrays@.len() == fields@.len(),
        ipcs_fit(ipc_fields, fields),
        forall|i: int|
            0 <= i < arrays@.len() ==> (#[trigger] arrays@[i]).wf() && arrays@[i]@.conforms(
                fields@[i].data_type,
            ),
        same_lengths(array_views(arrays@)),
    ensures
        ({
            &&& arrays_lengths_fit(arrays, arrays@.len())
            &&& arrays_body(arrays, arrays@.len(), is_little_endian, compression).len() <= i64::MAX
            &&& forall|i: int|
                0 <= i < arrays@.len() ==> dictionaries_hold(#[trigger] arrays@[i], ipc_fields[i], dictionaries)
        }) ==> decode_batch(
            fields,
            ipc_fields,
            None,
            arrays_nodes(arrays, arrays@.len()),
            arrays_buffers(arrays, arrays@.len(), 0, is_little_endian, compression),
            Source {
                body: arrays_body(arrays, arrays@.len(), is_little_endian, compression),
                is_little_endian,
                compression,
                dictionaries,
            },
        ) == Ok::<Seq<ArrayView>, ArrowError>(array_views(arrays@)),
{
    let total = arrays@.len();
    let body = arrays_body(arrays, total, is_little_endian, compression);
    if arrays_lengths_fit(arrays, total) && body.len() <= i64::MAX && (forall|i: int|
        0 <= i < arrays@.len() ==> dictionaries_hold(#[trigger] arrays@[i], ipc_fields[i], dictionaries)) {
        let nodes = arrays_nodes(arrays, total);
        let buffers = arrays_buffers(arrays, total, 0, is_little_endian, compression);
        assert(nodes.subrange(0, nodes.len() as int) =~= nodes);
        assert(buffers.subrange(0, buffers.len() as int) =~= buffers);
        assert(body.subrange(0, body.len() as int) =~= body);
        lemma_arrays_read_back(
            arrays,
            fields,
            ipc_fields,
            None,
            nodes,
            buffers,
            Source { body, is_little_endian, compression, dictionaries },
            0,
            total,
        );
        assert(arrays@.take(total as int) =~= arrays@);
    }
}

/// An array that can be read takes no more field nodes and buffer descriptors
/// than the queues hold.
pub proof fn lemma_decode_consumes(
    data_type: DataType,
    ipc_field: IpcField,
    nodes: Seq<Node>,
    buffers: Seq<BufferDescriptor>,
    source: Source,
)
    requires
        decode(data_type, ipc_field, nodes, buffers, source) is Ok,
    ensures
        node_count(data_type) <= nodes.len(),
        buffer_count(data_type) <= buffers.len(),
    decreases data_type, 1nat,
{
    match data_type {
        DataType::List(field) => {
            lemma_decode_consumes(field.data_type, ipc_field.fields@[0], nodes.skip(1), buffers.skip(2), source);
        },
        DataType::FixedSizeList(field, _) => {
            lemma_decode_consumes(field.data_type, ipc_field.fields@[0], nodes.skip(1), buffers.skip(1), source);
        },
        DataType::Struct(fields) => {
            let length = slot_count(nodes[0])->Ok_0 as nat;
            lemma_fields_consume(
                fields,
                ipc_field.fields@,
                Some(length),
                nodes.skip(1),
                buffers.skip(1),
                source,
                fields@.len(),
            );
        },
        DataType::Union(fields, mode) => {
            lemma_fields_consume(
                fields,
                ipc_field.fields@,
                None,
                nodes.skip(1),
                buffers.skip(own_buffer_count(data_type) as int),
                source,
                fields@.len(),
            );
        },
        _ => {},
    }
}

/// Arrays that can be read one after the other take no more field nodes and
/// buffer descriptors than the queues hold, and are one for each field.
pub proof fn lemma_fields_consume(
    fields: Vec<Field>,
    ipc_fields: Seq<IpcField>,
    length: Option<nat>,
    nodes: Seq<Node>,
    buffers: Seq<BufferDescriptor>,
    source: Source,
    upto: nat,
)
    requires
        upto <= fields@.len(),
        decode_fields(fields, ipc_fields, length, nodes, buffers, source, upto) is Ok,
    ensures
        fields_node_count(fields, upto) <= nodes.len(),
        fields_buffer_count(fields, upto) <= buffers.len(),
        decode_fields(fields, ipc_fields, length, nodes, buffers, source, upto)->Ok_0.len() == upto,
    decreases fields, upto,
{
    if upto > 0 {
        let column = (upto - 1) as nat;
        lemma_fields_consume(fields, ipc_fields, length, nodes, buffers, source, column);
        lemma_decode_consumes(
            fields@[column as int].data_type,
            ipc_fields[column as int],
            nodes.skip(fields_node_count(fields, column) as int),
            buffers.skip(fields_buffer_count(fields, column) as int),
            source,
        );
    }
}

/// Those of the first `upto` of `columns` that `projection` names, in their order.
pub open spec fn projected(columns: Seq<ArrayView>, projection: Seq<usize>, upto: nat) -> Seq<ArrayView>
    decreases upto,
{
    if upto == 0 || upto > columns.len() {
        Seq::empty()
    } else if selects(projection, upto - 1) {
        projected(columns, projection, (upto - 1) as nat).push(columns[upto - 1])
    } else {
        projected(columns, projection, (upto - 1) as nat)
    }
}

/// Whether `item` is one of the first `upto` of `columns`.
pub open spec fn among(columns: Seq<ArrayView>, upto: nat, item: ArrayView) -> bool {
    exists|i: int| 0 <= i < upto && #[trigger] columns[i] == item
}

/// Which columns are picked among the first `upto` does not depend on the
/// columns after them, and every one picked is one of them.
proof fn lemma_projected_prefix(
    longer: Seq<ArrayView>,
    shorter: Seq<ArrayView>,
    projection: Seq<usize>,
    upto: nat,
)
    requires
        upto <= shorter.len() <= longer.len(),
        forall|i: int| 0 <= i < shorter.len() ==> shorter[i] == longer[i],
    ensures
        projected(longer, projection, upto) == projected(shorter, projection, upto),
        forall|k: int|
            0 <= k < projected(longer, projection, upto).len() ==> among(
                longer,
                upto,
                #[trigger] projected(longer, projection, upto)[k],
            ),
    decreases upto,
{
    if upto > 0 {
        lemma_projected_prefix(longer, shorter, projection, (upto - 1) as nat);
        let before = projected(longer, projection, (upto - 1) as nat);
        let now = projected(longer, projection, upto);
        assert forall|k: int| 0 <= k < now.len() implies among(longer, upto, #[trigger] now[k]) by {
            if k < before.len() {
                assert(among(longer, (upto - 1) as nat, before[k]));
                let i = choose|i: int| 0 <= i < upto - 1 && #[trigger] longer[i] == before[k];
                assert(longer[i] == now[k]);
            } else {
                assert(longer[upto - 1] == now[k]);
            }
        }
    }
}

/// Reading some columns and passing over the others gives, for the columns
/// read, the arrays that reading all columns gives: whichever columns are
/// named.
pub proof fn lemma_projection(
    fields: Vec<Field>,
    ipc_fields: Seq<IpcField>,
    projection: Seq<usize>,
    nodes: Seq<Node>,
    buffers: Seq<BufferDescriptor>,
    source: Source,
    upto: nat,
)
    requires
        upto <= fields@.len(),
        decode_fields(fields, ipc_fields, None, nodes, buffers, source, upto) is Ok,
    ensures
        decode_projected(fields, ipc_fields, projection, nodes, buffers, source, upto) == Ok::<
            Seq<ArrayView>,
            ArrowError,
        >(
            projected(
                decode_fields(fields, ipc_fields, None, nodes, buffers, source, upto)->Ok_0,
                projection,
                upto,
            ),
        ),
    decreases upto,
{
    if upto > 0 {
        let column = (upto - 1) as nat;
        let all = decode_fields(fields, ipc_fields, None, nodes, buffers, source, upto)->Ok_0;
        let before = decode_fields(fields, ipc_fields, None, nodes, buffers, source, column)->Ok_0;
        let data_type = fields@[column as int].data_type;
        let nodes_before = fields_node_count(fields, column) as int;
        let buffers_before = fields_buffer_count(fields, column) as int;
        lemma_projection(fields, ipc_fields, projection, nodes, buffers, source, column);
        lemma_fields_consume(fields, ipc_fields, None, nodes, buffers, source, column);
        lemma_fields_consume(fields, ipc_fields, None, nodes, buffers, source, upto);
        lemma_projected_prefix(all, before, projection, column);
        lemma_decode_consumes(
            data_type,
            ipc_fields[column as int],
            nodes.skip(nodes_before),
            buffers.skip(buffers_before),
            source,
        );
        lemma_skip_outcome(data_type, nodes.len() - nodes_before, buffers.len() - buffers_before);
    }
}

/// Reading some columns of a record batch and passing over the others gives,
/// for the columns read, the arrays that reading the whole batch gives.
pub proof fn lemma_projected_batch(
    fields: Vec<Field>,
    ipc_fields: Seq<IpcField>,
    projection: Seq<usize>,
    nodes: Seq<Node>,
    buffers: Seq<BufferDescriptor>,
    source: Source,
)
    ensures
        decode_batch(fields, ipc_fields, None, nodes, buffers, source) matches Ok(all) ==> decode_batch(
            fields,
            ipc_fields,
            Some(projection),
            nodes,
            buffers,
            source,
        ) == Ok::<Seq<ArrayView>, ArrowError>(projected(all, projection, fields@.len())),
{
    let total = fields@.len();
    if decode_batch(fields, ipc_fields, None, nodes, buffers, source) is Ok {
        let all = decode_fields(fields, ipc_fields, None, nodes, buffers, source, total)->Ok_0;
        lemma_projection(fields, ipc_fields, projection, nodes, buffers, source, total);
        lemma_fields_consume(fields, ipc_fields, None, nodes, buffers, source, total);
        lemma_projected_prefix(all, all, projection, total);
        let picked = projected(all, projection, total);
        assert forall|k: int| 0 <= k < picked.len() implies (#[trigger] picked[k]).len()
            == picked[0].len() by {
            assert(among(all, total, picked[k]));
            assert(among(all, total, picked[0]));
            let i = choose|i: int| 0 <= i < total && #[trigger] all[i] == picked[k];
            let j = choose|j: int| 0 <= j < total && #[trigger] all[j] == picked[0];
            assert(all[i].len() == all[0].len());
            assert(all[j].len() == all[0].len());
        }
    }
}

/// An array of a type without dictionary-encoded fields asks nothing of the
/// dictionary table.
pub proof fn lemma_no_dictionaries(
    array: Array,
    data_type: DataType,
    ipc_field: IpcField,
    dictionaries: Map<i64, Seq<ArrayView>>,
)
    requires
        array@.conforms(data_type),
        dictionary_count(data_type) == 0,
    ensures
        dictionaries_hold(array, ipc_field, dictionaries),
    decreases array,
{
    match array {
        Array::List(a) => {
            lemma_no_dictionaries(
                *a.values,
                data_type->List_0.data_type,
                ipc_field.fields@[0],
                dictionaries,
            );
        },
        Array::FixedSizeList(a) => {
            lemma_no_dictionaries(
                *a.values,
                data_type->FixedSizeList_0.data_type,
                ipc_field.fields@[0],
                dictionaries,
            );
        },
        Array::Struct(a) => {
            let fields = data_type->Struct_0;
            assert forall|i: int| 0 <= i < a.values@.len() implies dictionaries_hold(
                #[trigger] a.values@[i],
                ipc_field.fields@[i],
                dictionaries,
            ) by {
                assert(array@->Struct_values[i] == a.values@[i]@);
                lemma_count_of_one(fields, i, fields@.len());
                lemma_no_dictionaries(a.values@[i], fields@[i].data_type, ipc_field.fields@[i], dictionaries);
            }
        },
        Array::Union(a) => {
            let fields = data_type->Union_0;
            assert forall|i: int| 0 <= i < a.fields@.len() implies dictionaries_hold(
                #[trigger] a.fields@[i],
                ipc_field.fields@[i],
                dictionaries,
            ) by {
                assert(array@->Union_fields[i] == a.fields@[i]@);
                lemma_count_of_one(fields, i, fields@.len());
                lemma_no_dictionaries(a.fields@[i], fields@[i].data_type, ipc_field.fields@[i], dictionaries);
            }
        },
        _ => {},
    }
}

/// Fields have at least the dictionaries of each one of them.
proof fn lemma_count_of_one(fields: Vec<Field>, i: int, upto: nat)
    requires
        0 <= i < upto <= fields@.len(),
    ensures
        dictionary_count(fields@[i].data_type) <= fields_dictionary_count(fields, upto),
    decreases upto,
{
    if i < upto - 1 {
        lemma_count_of_one(fields, i, (upto - 1) as nat);
    }
}

/// A chunk of a schema without dictionary-encoded fields is read back from
/// what was written for it, whatever the reader's dictionary table holds.
pub proof fn lemma_plain_batch_round_trip(
    arrays: Vec<Array>,
    fields: Vec<Field>,
    ipc_fields: Seq<IpcField>,
    is_little_endian: bool,
    compression: Option<Compression>,
    dictionaries: Map<i64, Seq<ArrayView>>,
)
    requires
        arrays@.len() == fields@.len(),
        ipcs_fit(ipc_fields, fields),
        forall|i: int|
            0 <= i < arrays@.len() ==> (#[trigger] arrays@[i]).wf() && arrays@[i]@.conforms(
                fields@[i].data_type,
            ),
        same_lengths(array_views(arrays@)),
        fields_dictionary_count(fields, fields@.len()) == 0,
    ensures
        ({
            &&& arrays_lengths_fit(arrays, arrays@.len())
            &&& arrays_body(arrays, arrays@.len(), is_little_endian, compression).len() <= i64::MAX
        }) ==> decode_batch(
            fields,
            ipc_fields,
            None,
            arrays_nodes(arrays, arrays@.len()),
            arrays_buffers(arrays, arrays@.len(), 0, is_little_endian, compression),
            Source {
                body: arrays_body(arrays, arrays@.len(), is_little_endian, compression),
                is_little_endian,
                compression,
                dictionaries,
            },
        ) == Ok::<Seq<ArrayView>, ArrowError>(array_views(arrays@)),
{
    assert forall|i: int| 0 <= i < arrays@.len() implies dictionaries_hold(
        #[trigger] arrays@[i],
        ipc_fields[i],
        dictionaries,
    ) by {
        lemma_count_of_one(fields, i, fields@.len());
        lemma_no_dictionaries(arrays@[i], fields@[i].data_type, ipc_fields[i], dictionaries);
    }
    lemma_batch_round_trip(arrays, fields, ipc_fields, is_little_endian, compression, dictionaries);
}

/// The table after the first `upto` of `segments` were taken in as the
/// dictionary batches that define dictionary `id`: the first as values that
/// replace, each other as a delta.
pub open spec fn defined(
    table: Map<i64, DictionaryView>,
    id: i64,
    segments: Seq<ArrayView>,
    upto: nat,
) -> Result<Map<i64, DictionaryView>, ArrowError>
    decreases upto,
{
    if upto == 0 || upto > segments.len() {
        Ok(table)
    } else {
        match defined(table, id, segments, (upto - 1) as nat) {
            Err(e) => Err(e),
            Ok(before) => applied(before, id, segments[upto - 1], upto > 1),
        }
    }
}

/// Values that replace and deltas that follow them leave a dictionary that
/// holds them all, in their order: a delta extends and does not replace. The
/// other dictionaries of the table stay as they are.
pub proof fn lemma_defined(table: Map<i64, DictionaryView>, id: i64, segments: Seq<ArrayView>, upto: nat)
    requires
        1 <= upto <= segments.len(),
    ensures
        defined(table, id, segments, upto) is Ok,
        defined(table, id, segments, upto)->Ok_0.contains_key(id),
        defined(table, id, segments, upto)->Ok_0[id].values == segments.take(upto as int),
        forall|other: i64|
            other != id ==> (#[trigger] defined(table, id, segments, upto)->Ok_0.contains_key(other)
                <==> table.contains_key(other)) && (table.contains_key(other) ==> defined(
                table,
                id,
                segments,
                upto,
            )->Ok_0[other] == table[other]),
    decreases upto,
{
    if upto == 1 {
        assert(defined(table, id, segments, 0) == Ok::<Map<i64, DictionaryView>, ArrowError>(table));
        assert(segments.take(1) =~= seq![segments[0]]);
    } else {
        lemma_defined(table, id, segments, (upto - 1) as nat);
        assert(segments.take(upto as int) =~= segments.take(upto - 1).push(segments[upto - 1]));
    }
}

/// The table after the first `upto` of `batches`, written as dictionary
/// batches, were read in their order.
pub open spec fn after_batches(
    fields: Vec<Field>,
    ipc_fields: Seq<IpcField>,
    batches: Seq<Pending>,
    is_little_endian: bool,
    compression: Option<Compression>,
    table: Map<i64, DictionaryView>,
    upto: nat,
) -> Result<Map<i64, DictionaryView>, ArrowError>
    decreases upto,
{
    if upto == 0 || upto > batches.len() {
        Ok(table)
    } else {
        match after_batches(
            fields,
            ipc_fields,
            batches,
            is_little_endian,
            compression,
            table,
            (upto - 1) as nat,
        ) {
            Err(e) => Err(e),
            Ok(before) => dictionary_outcome(
                fields,
                ipc_fields,
                batches[upto - 1].id,
                batches[upto - 1].is_delta,
                encoded_nodes(batches[upto - 1].values),
                encoded_buffers(batches[upto - 1].values, 0, is_little_endian, compression),
                encoded_body(batches[upto - 1].values, is_little_endian, compression),
                is_little_endian,
                compression,
                before,
            ),
        }
    }
}

/// Reading the dictionary batches that a writer sends for a dictionary leaves
/// the reader's table holding the dictionary's values, segment by segment:
/// the arrays that refer to it can then be read. This is stated for values
/// that hold no dictionaries themselves.
pub proof fn lemma_dictionary_round_trip(
    fields: Vec<Field>,
    ipc_fields: Seq<IpcField>,
    id: i64,
    value_type: DataType,
    ipc_field: IpcField,
    segments: Vec<Arc<Array>>,
    is_little_endian: bool,
    compression: Option<Compression>,
    table: Map<i64, DictionaryView>,
    upto: nat,
)
    requires
        upto <= segments@.len(),
        find_in_fields(fields, ipc_fields, id, fields@.len()) == Some((value_type, ipc_field)),
        ipc_fits(ipc_field, value_type),
        dictionary_count(value_type) == 0,
        forall|j: int|
            0 <= j < segments@.len() ==> (#[trigger] segments@[j]).wf() && segments@[j]@.conforms(
                value_type,
            ),
    ensures
        segments_writable(segments@, is_little_endian, compression) ==> after_batches(
            fields,
            ipc_fields,
            defining(id, segments@),
            is_little_endian,
            compression,
            table,
            upto,
        ) == defined(table, id, segment_views(segments@), upto),
    decreases upto,
{
    if upto > 0 && segments_writable(segments@, is_little_endian, compression) {
        let j = (upto - 1) as int;
        lemma_dictionary_round_trip(
            fields,
            ipc_fields,
            id,
            value_type,
            ipc_field,
            segments,
            is_little_endian,
            compression,
            table,
            (upto - 1) as nat,
        );
        if upto > 1 {
            lemma_defined(table, id, segment_views(segments@), (upto - 1) as nat);
        }
        let before = defined(table, id, segment_views(segments@), (upto - 1) as nat)->Ok_0;
        lemma_segment_read_back(
            segments,
            j,
            value_type,
            ipc_field,
            is_little_endian,
            compression,
            values_of(before),
        );
    }
}

/// Segment `j` of `segments`.
pub open spec fn segment(segments: Vec<Arc<Array>>, j: int) -> Array {
    *segments@[j]
}

/// One segment of a dictionary, of a type without dictionaries, is read back
/// from what was written for it as a body of its own.
proof fn lemma_segment_read_back(
    segments: Vec<Arc<Array>>,
    j: int,
    value_type: DataType,
    ipc_field: IpcField,
    is_little_endian: bool,
    compression: Option<Compression>,
    dictionaries: Map<i64, Seq<ArrayView>>,
)
    requires
        0 <= j < segments@.len(),
        segments@[j].wf(),
        segments@[j]@.conforms(value_type),
        ipc_fits(ipc_field, value_type),
        dictionary_count(value_type) == 0,
        writable(segment(segments, j), 0, is_little_endian, compression),
    ensures
        decode(
            value_type,
            ipc_field,
            encoded_nodes(segment(segments, j)),
            encoded_buffers(segment(segments, j), 0, is_little_endian, compression),
            Source {
                body: encoded_body(segment(segments, j), is_little_endian, compression),
                is_little_endian,
                compression,
                dictionaries,
            },
        ) == Ok::<ArrayView, ArrowError>(segments@[j]@),
{
    let array = segment(segments, j);
    let none = Seq::<u8>::empty();
    let nodes = encoded_nodes(array);
    let buffers = encoded_buffers(array, 0, is_little_endian, compression);
    let body = encoded_body(array, is_little_endian, compression);
    lemma_no_dictionaries(array, value_type, ipc_field, dictionaries);
    lemma_round_trip(
        array,
        value_type,
        ipc_field,
        none,
        none,
        Seq::<Node>::empty(),
        Seq::<BufferDescriptor>::empty(),
        is_little_endian,
        compression,
        dictionaries,
    );
    assert(nodes + Seq::<Node>::empty() =~= nodes);
    assert(buffers + Seq::<BufferDescriptor>::empty() =~= buffers);
    assert(none + body + none =~= body);
}

} // verus!
