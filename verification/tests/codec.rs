use arrow2::array::{
    Array, BinaryArray, BooleanArray, DictionaryArray, FixedSizeListArray, ListArray, PrimitiveArray,
    StructArray, UnionArray,
};
use arrow2::bitmap::Bitmap;
use arrow2::chunk::Chunk;
use arrow2::datatypes::{DataType, Field, IntegerType, UnionMode};
use arrow2::error::{ArrowError, OutOfSpec};
use arrow2::io::ipc::dictionaries::Dictionaries;
use arrow2::io::ipc::read::common::read_record_batch;
use arrow2::io::ipc::read::deserialize::{read, skip};
use arrow2::io::ipc::write::common::write_batch;
use arrow2::io::ipc::write::schema::default_ipc_fields;
use arrow2::io::ipc::write::serialize;
use arrow2::io::ipc::{BufferDescriptor, Compression, IpcField, IpcSchema, Node};
use std::collections::VecDeque;
use std::sync::Arc;

fn field(name: &str, data_type: DataType) -> Field {
    Field { name: name.to_string(), data_type, is_nullable: true }
}

fn int32(values: &[i32], validity: Option<Bitmap>) -> Array {
    let mut bytes = Vec::new();
    for value in values {
        bytes.extend_from_slice(&value.to_le_bytes());
    }
    Array::Primitive(PrimitiveArray { data_type: IntegerType::Int32, values: bytes, validity })
}

fn int64(values: &[i64]) -> Array {
    let mut bytes = Vec::new();
    for value in values {
        bytes.extend_from_slice(&value.to_le_bytes());
    }
    Array::Primitive(PrimitiveArray { data_type: IntegerType::Int64, values: bytes, validity: None })
}

fn boolean(values: &[bool], validity: Option<Bitmap>) -> Array {
    Array::Boolean(BooleanArray { data_type: DataType::Boolean, values: bits(values), validity })
}

fn bits(values: &[bool]) -> Bitmap {
    let mut bytes = vec![0u8; (values.len() + 7) / 8];
    for (i, value) in values.iter().enumerate() {
        if *value {
            bytes[i / 8] |= 1 << (i % 8);
        }
    }
    Bitmap { bytes, length: values.len() }
}

fn utf8(values: &[&str], validity: Option<Bitmap>) -> Array {
    let mut offsets = vec![0i32];
    let mut bytes = Vec::new();
    for value in values {
        bytes.extend_from_slice(value.as_bytes());
        offsets.push(bytes.len() as i32);
    }
    Array::Binary(BinaryArray { is_utf8: true, offsets, values: bytes, validity })
}

/// A struct of a list of int32, a fixed-size list of booleans, a dense union and a text.
fn nested() -> (DataType, Array) {
    let data_type = DataType::Struct(vec![
        field("list", DataType::List(Box::new(field("item", DataType::Integer(IntegerType::Int32))))),
        field("pairs", DataType::FixedSizeList(Box::new(field("item", DataType::Boolean)), 2)),
        field(
            "either",
            DataType::Union(
                vec![field("n", DataType::Integer(IntegerType::Int64)), field("s", DataType::Utf8)],
                UnionMode::Dense,
            ),
        ),
        field("text", DataType::Utf8),
    ]);
    let list = Array::List(ListArray {
        offsets: vec![0, 2, 2, 5],
        values: Box::new(int32(&[1, -2, 3, i32::MIN, i32::MAX], Some(bits(&[true, false, true, true, true])))),
        validity: Some(bits(&[true, false, true])),
    });
    let pairs = Array::FixedSizeList(FixedSizeListArray {
        size: 2,
        length: 3,
        values: Box::new(boolean(&[true, false, false, false, true, true], None)),
        validity: None,
    });
    let either = Array::Union(UnionArray {
        types: vec![0, 1, 0],
        offsets: Some(vec![0, 0, 1]),
        fields: vec![int64(&[7, -7]), utf8(&["seven"], None)],
    });
    let text = utf8(&["", "b", "cde"], Some(bits(&[false, true, true])));
    let array = Array::Struct(StructArray {
        length: 3,
        values: vec![list, pairs, either, text],
        validity: Some(bits(&[true, true, false])),
    });
    (data_type, array)
}

fn ipc_of(data_type: &DataType) -> IpcField {
    let fields = vec![field("", same(data_type))];
    default_ipc_fields(&fields).pop().unwrap()
}

/// The types have no clone: this copies one.
fn same(data_type: &DataType) -> DataType {
    match data_type {
        DataType::Boolean => DataType::Boolean,
        DataType::Integer(t) => DataType::Integer(*t),
        DataType::Binary => DataType::Binary,
        DataType::Utf8 => DataType::Utf8,
        DataType::List(f) => DataType::List(Box::new(field(&f.name, same(&f.data_type)))),
        DataType::FixedSizeList(f, n) => DataType::FixedSizeList(Box::new(field(&f.name, same(&f.data_type))), *n),
        DataType::Struct(fs) => DataType::Struct(fs.iter().map(|f| field(&f.name, same(&f.data_type))).collect()),
        DataType::Union(fs, m) => {
            DataType::Union(fs.iter().map(|f| field(&f.name, same(&f.data_type))).collect(), *m)
        }
        DataType::Dictionary(k, v) => DataType::Dictionary(*k, Box::new(same(v))),
    }
}

struct Written {
    nodes: Vec<Node>,
    buffers: Vec<BufferDescriptor>,
    body: Vec<u8>,
}

fn written(array: &Array, is_little_endian: bool, compression: Option<Compression>) -> Written {
    let mut nodes = vec![];
    let mut buffers = vec![];
    let mut body = vec![];
    serialize::write(array, &mut nodes, &mut buffers, &mut body, is_little_endian, compression).unwrap();
    Written { nodes, buffers, body }
}

fn read_back(
    data_type: &DataType,
    w: &Written,
    is_little_endian: bool,
    compression: Option<Compression>,
) -> Result<Array, ArrowError> {
    let mut nodes: VecDeque<Node> = w.nodes.iter().copied().collect();
    let mut buffers: VecDeque<BufferDescriptor> = w.buffers.iter().copied().collect();
    let out = read(
        &mut nodes,
        data_type,
        &ipc_of(data_type),
        &mut buffers,
        &w.body,
        &Dictionaries::new(),
        is_little_endian,
        compression,
    );
    if out.is_ok() {
        assert!(nodes.is_empty());
        assert!(buffers.is_empty());
    }
    out
}

/// What was read is what was written but for validity bitmaps without a null,
/// which come back as no bitmap: the arrays of these tests have nulls wherever
/// they have a bitmap.
#[test]
fn nested_array_round_trips_in_both_byte_orders() {
    let (data_type, array) = nested();
    for is_little_endian in [true, false] {
        let w = written(&array, is_little_endian, None);
        assert_eq!(w.body.len() % 8, 0);
        assert_eq!(read_back(&data_type, &w, is_little_endian, None), Ok(nested().1));
    }
}

#[test]
fn nested_array_round_trips_compressed() {
    let (data_type, array) = nested();
    for compression in [Compression::LZ4, Compression::ZSTD] {
        for is_little_endian in [true, false] {
            let w = written(&array, is_little_endian, Some(compression));
            assert_eq!(read_back(&data_type, &w, is_little_endian, Some(compression)), Ok(nested().1));
        }
    }
}

#[test]
fn compression_shrinks_a_repetitive_buffer_and_is_undone_on_reading() {
    let values: Vec<i64> = vec![42; 1000];
    let array = int64(&values);
    let plain = written(&array, true, None);
    for compression in [Compression::LZ4, Compression::ZSTD] {
        let packed = written(&array, true, Some(compression));
        assert!(packed.body.len() < plain.body.len() / 4);
        // the values buffer starts with the length of its content
        let start = packed.buffers[1].offset as usize;
        assert_eq!(&packed.body[start..start + 8], &8000i64.to_le_bytes()[..]);
        let data_type = DataType::Integer(IntegerType::Int64);
        assert_eq!(read_back(&data_type, &packed, true, Some(compression)), Ok(int64(&values)));
    }
}

#[test]
fn a_buffer_that_compression_does_not_shrink_is_stored_as_it_is() {
    let array = int32(&[1], None);
    let w = written(&array, true, Some(Compression::ZSTD));
    let start = w.buffers[1].offset as usize;
    assert_eq!(w.buffers[1].length, 12);
    assert_eq!(&w.body[start..start + 8], &(-1i64).to_le_bytes()[..]);
    assert_eq!(&w.body[start + 8..start + 12], &1i32.to_le_bytes()[..]);
    let data_type = DataType::Integer(IntegerType::Int32);
    assert_eq!(read_back(&data_type, &w, true, Some(Compression::ZSTD)), Ok(int32(&[1], None)));
}

#[test]
fn big_endian_swaps_each_element() {
    let array = int32(&[0x01020304], None);
    let w = written(&array, false, None);
    assert_eq!(&w.body[..4], &[1, 2, 3, 4]);
    let w = written(&array, true, None);
    assert_eq!(&w.body[..4], &[4, 3, 2, 1]);
}

#[test]
fn written_layout_of_a_primitive_array() {
    let array = int32(&[5, 6, 7], Some(bits(&[true, false, true])));
    let w = written(&array, true, None);
    assert_eq!(w.nodes, vec![Node { length: 3, null_count: 1 }]);
    assert_eq!(
        w.buffers,
        vec![BufferDescriptor { offset: 0, length: 1 }, BufferDescriptor { offset: 8, length: 12 }]
    );
    assert_eq!(w.body.len(), 24);
    assert_eq!(w.body[0], 0b101);
    assert_eq!(&w.body[1..8], &[0; 7]);
    assert_eq!(&w.body[20..24], &[0; 4]);
}

#[test]
fn counts_of_nodes_and_buffers_agree_between_writing_reading_and_skipping() {
    let (data_type, array) = nested();
    let w = written(&array, true, None);
    // struct 1 + list 2 + fixed-size list 2 + union 3 + text 1
    assert_eq!(w.nodes.len(), 9);
    // struct 1 + list 2+2 + fixed-size list 1+2 + union 2+2+3 + text 3
    assert_eq!(w.buffers.len(), 18);
    let mut nodes: VecDeque<Node> = w.nodes.iter().copied().collect();
    let mut buffers: VecDeque<BufferDescriptor> = w.buffers.iter().copied().collect();
    nodes.push_back(Node { length: 1, null_count: 0 });
    buffers.push_back(BufferDescriptor { offset: 0, length: 0 });
    assert_eq!(skip(&mut nodes, &data_type, &mut buffers), Ok(()));
    assert_eq!(nodes.len(), 1);
    assert_eq!(buffers.len(), 1);
}

#[test]
fn skip_reports_what_is_missing_first() {
    let (data_type, array) = nested();
    let w = written(&array, true, None);
    let mut nodes: VecDeque<Node> = w.nodes.iter().copied().take(8).collect();
    let mut buffers: VecDeque<BufferDescriptor> = w.buffers.iter().copied().collect();
    assert_eq!(
        skip(&mut nodes, &data_type, &mut buffers),
        Err(ArrowError::OutOfSpec(OutOfSpec::MissingFieldNode))
    );
    let mut nodes: VecDeque<Node> = w.nodes.iter().copied().collect();
    let mut buffers: VecDeque<BufferDescriptor> = w.buffers.iter().copied().take(17).collect();
    assert_eq!(
        skip(&mut nodes, &data_type, &mut buffers),
        Err(ArrowError::OutOfSpec(OutOfSpec::MissingValuesBuffer))
    );
    let missing_with = |count: usize| {
        let mut nodes: VecDeque<Node> = w.nodes.iter().copied().collect();
        let mut buffers: VecDeque<BufferDescriptor> = w.buffers.iter().copied().take(count).collect();
        skip(&mut nodes, &data_type, &mut buffers)
    };
    assert_eq!(missing_with(0), Err(ArrowError::OutOfSpec(OutOfSpec::MissingValidityBuffer)));
    assert_eq!(missing_with(2), Err(ArrowError::OutOfSpec(OutOfSpec::MissingOffsetsBuffer)));
    assert_eq!(missing_with(4), Err(ArrowError::OutOfSpec(OutOfSpec::MissingValuesBuffer)));
    assert_eq!(missing_with(8), Err(ArrowError::OutOfSpec(OutOfSpec::MissingTypesBuffer)));
    assert_eq!(missing_with(9), Err(ArrowError::OutOfSpec(OutOfSpec::MissingOffsetsBuffer)));
    assert_eq!(missing_with(15), Err(ArrowError::OutOfSpec(OutOfSpec::MissingValidityBuffer)));
    assert_eq!(missing_with(16), Err(ArrowError::OutOfSpec(OutOfSpec::MissingOffsetsBuffer)));
    assert_eq!(missing_with(18), Ok(()));
}

fn three_columns() -> (Vec<Field>, Chunk) {
    let (nested_type, nested_array) = nested();
    let fields = vec![
        field("a", DataType::Integer(IntegerType::Int32)),
        field("b", nested_type),
        field("c", DataType::Utf8),
    ];
    let chunk = Chunk {
        arrays: vec![int32(&[1, 2, 3], None), nested_array, utf8(&["x", "y", "z"], None)],
    };
    (fields, chunk)
}

#[test]
fn projection_gives_the_columns_of_the_full_read() {
    let (fields, chunk) = three_columns();
    let (batch, body) = write_batch(&chunk, true, None).unwrap();
    assert_eq!(batch.length, 3);
    let ipc_schema = IpcSchema { fields: default_ipc_fields(&fields), is_little_endian: true };
    let dictionaries = Dictionaries::new();
    let all = read_record_batch(&batch, &fields, &ipc_schema, None, &dictionaries, &body).unwrap();
    assert_eq!(all, three_columns().1);
    let subsets: Vec<Vec<usize>> = vec![vec![], vec![0], vec![1], vec![2], vec![0, 1], vec![0, 2], vec![1, 2], vec![0, 1, 2]];
    for subset in subsets {
        let some = read_record_batch(&batch, &fields, &ipc_schema, Some(&subset), &dictionaries, &body).unwrap();
        assert_eq!(some.arrays.len(), subset.len());
        for (k, column) in subset.iter().enumerate() {
            assert_eq!(some.arrays[k], all.arrays[*column]);
        }
    }
}

#[test]
fn a_column_passed_over_need_not_be_sound() {
    let (fields, chunk) = three_columns();
    let (mut batch, body) = write_batch(&chunk, true, None).unwrap();
    // the values buffer of the first column points outside the body
    batch.buffers[1].offset = 1 << 40;
    let ipc_schema = IpcSchema { fields: default_ipc_fields(&fields), is_little_endian: true };
    let dictionaries = Dictionaries::new();
    assert_eq!(
        read_record_batch(&batch, &fields, &ipc_schema, None, &dictionaries, &body),
        Err(ArrowError::OutOfSpec(OutOfSpec::BufferOutOfBounds))
    );
    let last = read_record_batch(&batch, &fields, &ipc_schema, Some(&[2]), &dictionaries, &body).unwrap();
    assert_eq!(last.arrays, vec![utf8(&["x", "y", "z"], None)]);
}

#[test]
fn columns_of_different_lengths_are_refused() {
    let fields = vec![field("a", DataType::Integer(IntegerType::Int32)), field("b", DataType::Boolean)];
    let a = written(&int32(&[1, 2], None), true, None);
    let mut nodes = a.nodes.clone();
    let mut buffers = a.buffers.clone();
    let mut body = a.body.clone();
    serialize::write(&boolean(&[true], None), &mut nodes, &mut buffers, &mut body, true, None).unwrap();
    let batch = arrow2::io::ipc::RecordBatch { length: 2, nodes, buffers, compression: None };
    let ipc_schema = IpcSchema { fields: default_ipc_fields(&fields), is_little_endian: true };
    assert_eq!(
        read_record_batch(&batch, &fields, &ipc_schema, None, &Dictionaries::new(), &body),
        Err(ArrowError::OutOfSpec(OutOfSpec::RowCountMismatch))
    );
}

#[test]
fn boundaries_round_trip() {
    // no rows
    let data_type = DataType::Utf8;
    let empty = utf8(&[], None);
    let w = written(&empty, true, None);
    assert_eq!(w.nodes, vec![Node { length: 0, null_count: 0 }]);
    assert_eq!(read_back(&data_type, &w, true, None), Ok(utf8(&[], None)));
    // no fields
    let chunk = Chunk { arrays: vec![] };
    let (batch, body) = write_batch(&chunk, true, None).unwrap();
    assert_eq!((batch.length, batch.nodes.len(), batch.buffers.len(), body.len()), (0, 0, 0, 0));
    let ipc_schema = IpcSchema { fields: vec![], is_little_endian: true };
    let read = read_record_batch(&batch, &vec![], &ipc_schema, None, &Dictionaries::new(), &body).unwrap();
    assert_eq!(read.arrays.len(), 0);
    // all null
    let data_type = DataType::Integer(IntegerType::Int32);
    let nulls = int32(&[0, 0, 0], Some(bits(&[false, false, false])));
    let w = written(&nulls, true, None);
    assert_eq!(w.nodes, vec![Node { length: 3, null_count: 3 }]);
    assert_eq!(read_back(&data_type, &w, true, None), Ok(int32(&[0, 0, 0], Some(bits(&[false, false, false])))));
    // no null: the validity comes back as absent, whether or not it was written
    let full = int32(&[1, 2, 3], Some(bits(&[true, true, true])));
    let w = written(&full, true, None);
    assert_eq!(w.nodes, vec![Node { length: 3, null_count: 0 }]);
    assert_eq!(read_back(&data_type, &w, true, None), Ok(int32(&[1, 2, 3], None)));
    let w = written(&int32(&[1, 2, 3], None), true, None);
    assert_eq!(w.buffers[0].length, 0);
    assert_eq!(read_back(&data_type, &w, true, None), Ok(int32(&[1, 2, 3], None)));
}

#[test]
fn read_errors_of_nested_arrays() {
    let list_type = DataType::List(Box::new(field("item", DataType::Integer(IntegerType::Int32))));
    let list = Array::List(ListArray { offsets: vec![0, 1, 3], values: Box::new(int32(&[1, 2, 3], None)), validity: None });
    let good = written(&list, true, None);
    // offsets that decrease
    let mut w = Written { nodes: good.nodes.clone(), buffers: good.buffers.clone(), body: good.body.clone() };
    let at = w.buffers[1].offset as usize;
    w.body[at + 4..at + 8].copy_from_slice(&5i32.to_le_bytes());
    assert_eq!(read_back(&list_type, &w, true, None), Err(ArrowError::OutOfSpec(OutOfSpec::InvalidOffsets)));
    // offsets beyond the child
    let mut w = Written { nodes: good.nodes.clone(), buffers: good.buffers.clone(), body: good.body.clone() };
    w.body[at + 8..at + 12].copy_from_slice(&4i32.to_le_bytes());
    assert_eq!(read_back(&list_type, &w, true, None), Err(ArrowError::OutOfSpec(OutOfSpec::InvalidOffsets)));
    // a child of the wrong length
    let fixed_type = DataType::FixedSizeList(Box::new(field("item", DataType::Boolean)), 2);
    let fixed = Array::FixedSizeList(FixedSizeListArray {
        size: 2,
        length: 1,
        values: Box::new(boolean(&[true, false], None)),
        validity: None,
    });
    let mut w = written(&fixed, true, None);
    w.nodes[0].length = 2;
    assert_eq!(read_back(&fixed_type, &w, true, None), Err(ArrowError::OutOfSpec(OutOfSpec::ChildLengthMismatch)));
    // corrupt compressed data
    let values: Vec<i64> = vec![42; 100];
    let data_type = DataType::Integer(IntegerType::Int64);
    let mut w = written(&int64(&values), true, Some(Compression::ZSTD));
    let at = w.buffers[1].offset as usize;
    w.body[at + 8] ^= 0xff;
    assert_eq!(
        read_back(&data_type, &w, true, Some(Compression::ZSTD)),
        Err(ArrowError::OutOfSpec(OutOfSpec::CorruptCompressedData))
    );
    // a length prefix that does not say what the content is long
    let mut w = written(&int64(&values), true, Some(Compression::ZSTD));
    w.body[at..at + 8].copy_from_slice(&801i64.to_le_bytes());
    assert_eq!(
        read_back(&data_type, &w, true, Some(Compression::ZSTD)),
        Err(ArrowError::OutOfSpec(OutOfSpec::DecompressedLengthMismatch))
    );
    w.body[at..at + 8].copy_from_slice(&(-2i64).to_le_bytes());
    assert_eq!(
        read_back(&data_type, &w, true, Some(Compression::ZSTD)),
        Err(ArrowError::OutOfSpec(OutOfSpec::InvalidLengthPrefix))
    );
}

#[test]
fn dictionary_ordering() {
    let data_type = DataType::Dictionary(IntegerType::Int32, Box::new(DataType::Utf8));
    let ipc_field = IpcField { fields: vec![], dictionary_id: Some(7) };
    let keys = PrimitiveArray {
        data_type: IntegerType::Int32,
        values: [1i32, 0, 2].iter().flat_map(|k| k.to_le_bytes()).collect(),
        validity: None,
    };
    let first = Arc::new(utf8(&["a", "b"], None));
    let array =
        Array::Dictionary(DictionaryArray { keys, values: vec![first.clone()], version: 1 });
    let w = written(&array, true, None);
    let read_with = |dictionaries: &Dictionaries| {
        let mut nodes: VecDeque<Node> = w.nodes.iter().copied().collect();
        let mut buffers: VecDeque<BufferDescriptor> = w.buffers.iter().copied().collect();
        read(&mut nodes, &data_type, &ipc_field, &mut buffers, &w.body, dictionaries, true, None)
    };
    let mut dictionaries = Dictionaries::new();
    // before any dictionary batch
    assert_eq!(read_with(&dictionaries), Err(ArrowError::OutOfSpec(OutOfSpec::MissingDictionary)));
    // a delta cannot define a dictionary
    assert_eq!(
        dictionaries.apply(7, utf8(&["c"], None), true),
        Err(ArrowError::OutOfSpec(OutOfSpec::DeltaWithoutDictionary))
    );
    assert_eq!(dictionaries.apply(7, utf8(&["a", "b"], None), false), Ok(()));
    match read_with(&dictionaries).unwrap() {
        Array::Dictionary(read) => {
            assert_eq!(read.version, 1);
            assert_eq!(read.values, vec![first.clone()]);
        }
        _ => unreachable!(),
    }
    // a delta extends
    assert_eq!(dictionaries.apply(7, utf8(&["c"], None), true), Ok(()));
    match read_with(&dictionaries).unwrap() {
        Array::Dictionary(read) => {
            assert_eq!(read.version, 1);
            assert_eq!(read.values, vec![first.clone(), Arc::new(utf8(&["c"], None))]);
        }
        _ => unreachable!(),
    }
    // values that are no delta replace, and give the next version
    assert_eq!(dictionaries.apply(7, utf8(&["z"], None), false), Ok(()));
    assert_eq!(dictionaries.lookup(7), Some((2, vec![Arc::new(utf8(&["z"], None))])));
    assert_eq!(dictionaries.lookup(8), None);
    // a dictionary-encoded field without an identifier
    let mut nodes: VecDeque<Node> = w.nodes.iter().copied().collect();
    let mut buffers: VecDeque<BufferDescriptor> = w.buffers.iter().copied().collect();
    let anonymous = IpcField { fields: vec![], dictionary_id: None };
    assert_eq!(
        read(&mut nodes, &data_type, &anonymous, &mut buffers, &w.body, &dictionaries, true, None),
        Err(ArrowError::OutOfSpec(OutOfSpec::MissingDictionaryId))
    );
}

#[test]
fn nested_arrays_without_nulls_come_back_without_validity() {
    let list_type = DataType::List(Box::new(field("item", DataType::Integer(IntegerType::Int32))));
    let data_type = DataType::Struct(vec![field("list", same(&list_type)), field("flag", DataType::Boolean)]);
    let make = |all_valid: fn(usize) -> Option<Bitmap>| {
        let list = Array::List(ListArray {
            offsets: vec![0, 1, 3],
            values: Box::new(int32(&[1, 2, 3], all_valid(3))),
            validity: all_valid(2),
        });
        Array::Struct(StructArray {
            length: 2,
            values: vec![list, boolean(&[true, false], all_valid(2))],
            validity: all_valid(2),
        })
    };
    let with_bitmaps = make(|length| Some(bits(&vec![true; length])));
    let without = make(|_| None);
    for is_little_endian in [true, false] {
        let w = written(&with_bitmaps, is_little_endian, None);
        assert!(w.nodes.iter().all(|node| node.null_count == 0));
        assert_eq!(read_back(&data_type, &w, is_little_endian, None), Ok(make(|_| None)));
        let w = written(&without, is_little_endian, None);
        assert_eq!(read_back(&data_type, &w, is_little_endian, None), Ok(make(|_| None)));
    }
}

#[test]
fn nested_readers_say_which_buffer_is_missing() {
    let (data_type, array) = nested();
    let w = written(&array, true, None);
    let missing_with = |count: usize| {
        let mut nodes: VecDeque<Node> = w.nodes.iter().copied().collect();
        let mut buffers: VecDeque<BufferDescriptor> = w.buffers.iter().copied().take(count).collect();
        read(&mut nodes, &data_type, &ipc_of(&data_type), &mut buffers, &w.body, &Dictionaries::new(), true, None)
            .err()
    };
    assert_eq!(missing_with(0), Some(ArrowError::OutOfSpec(OutOfSpec::MissingValidityBuffer)));
    assert_eq!(missing_with(2), Some(ArrowError::OutOfSpec(OutOfSpec::MissingOffsetsBuffer)));
    assert_eq!(missing_with(4), Some(ArrowError::OutOfSpec(OutOfSpec::MissingValuesBuffer)));
    assert_eq!(missing_with(8), Some(ArrowError::OutOfSpec(OutOfSpec::MissingTypesBuffer)));
    assert_eq!(missing_with(9), Some(ArrowError::OutOfSpec(OutOfSpec::MissingOffsetsBuffer)));
    assert_eq!(missing_with(16), Some(ArrowError::OutOfSpec(OutOfSpec::MissingOffsetsBuffer)));
    assert_eq!(missing_with(17), Some(ArrowError::OutOfSpec(OutOfSpec::MissingValuesBuffer)));
    assert_eq!(missing_with(18), None);
}

#[test]
fn a_failed_skip_takes_all_that_stands_before_what_is_missing() {
    let (data_type, array) = nested();
    let w = written(&array, true, None);
    assert_eq!((w.nodes.len(), w.buffers.len()), (9, 18));
    let left_with = |node_count: usize, buffer_count: usize| {
        let mut nodes: VecDeque<Node> = w.nodes.iter().copied().take(node_count).collect();
        let mut buffers: VecDeque<BufferDescriptor> = w.buffers.iter().copied().take(buffer_count).collect();
        let out = skip(&mut nodes, &data_type, &mut buffers);
        (out.is_ok(), nodes.len(), buffers.len())
    };
    // nothing missing
    assert_eq!(left_with(9, 18), (true, 0, 0));
    // no field node at all: no buffer is taken
    assert_eq!(left_with(0, 18), (false, 0, 18));
    // the node of the last column is missing: the buffers of the columns before it are taken
    assert_eq!(left_with(8, 18), (false, 0, 3));
    // the values of the integers within the list are missing: three nodes are taken
    assert_eq!(left_with(9, 4), (false, 6, 0));
    // the values of the last column are missing
    assert_eq!(left_with(9, 17), (false, 0, 0));
    // the node of the booleans within the fixed-size list is missing
    assert_eq!(left_with(4, 18), (false, 0, 12));
}
