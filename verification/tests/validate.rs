use arrow2::array::{
    Array, BinaryArray, BooleanArray, DictionaryArray, FixedSizeListArray, ListArray, PrimitiveArray,
    StructArray, UnionArray,
};
use arrow2::bitmap::Bitmap;
use arrow2::chunk::Chunk;
use arrow2::datatypes::{DataType, Field, IntegerType, UnionMode};
use arrow2::error::{ArrowError, OutOfSpec, Unsupported};
use arrow2::io::ipc::write::common::write_batch;
use arrow2::io::ipc::write::serialize;
use arrow2::io::ipc::{IpcField, IpcSchema};
use arrow2::validate::{has_type, validate};
use std::sync::Arc;

fn field(name: &str, data_type: DataType) -> Field {
    Field { name: name.to_string(), data_type, is_nullable: true }
}

fn int32(values: &[i32]) -> Array {
    Array::Primitive(PrimitiveArray {
        data_type: IntegerType::Int32,
        values: values.iter().flat_map(|value| value.to_le_bytes()).collect(),
        validity: None,
    })
}

fn boolean(length: usize) -> Array {
    Array::Boolean(BooleanArray {
        data_type: DataType::Boolean,
        values: Bitmap { bytes: vec![0; (length + 7) / 8], length },
        validity: None,
    })
}

#[test]
fn bitmap_needs_enough_bytes() {
    assert!(Bitmap::try_new(vec![0], 8).is_some());
    assert!(Bitmap::try_new(vec![0], 9).is_none());
    assert!(Bitmap::try_new(vec![], 0).is_some());
    let bitmap = Bitmap::try_new(vec![0b0110_1001, 0xff], 10).unwrap();
    assert_eq!(bitmap.len(), 10);
    assert_eq!(bitmap.unset_bits(), 4);
    assert!(bitmap.get(0) && !bitmap.get(1) && bitmap.get(9));
}

#[test]
fn sound_and_unsound_arrays() {
    assert!(validate(&int32(&[1, 2])));
    // bytes that are no whole values
    assert!(!validate(&Array::Primitive(PrimitiveArray {
        data_type: IntegerType::Int32,
        values: vec![0; 7],
        validity: None,
    })));
    // a validity of another length
    assert!(!validate(&Array::Primitive(PrimitiveArray {
        data_type: IntegerType::Int32,
        values: vec![0; 8],
        validity: Some(Bitmap { bytes: vec![0], length: 3 }),
    })));
    // a bitmap with too few bytes
    assert!(!validate(&Array::Boolean(BooleanArray {
        data_type: DataType::Boolean,
        values: Bitmap { bytes: vec![0], length: 9 },
        validity: None,
    })));
    // a boolean array of another type
    assert!(!validate(&Array::Boolean(BooleanArray {
        data_type: DataType::Utf8,
        values: Bitmap { bytes: vec![0], length: 1 },
        validity: None,
    })));
    let binary = |offsets: Vec<i32>, values: Vec<u8>| {
        Array::Binary(BinaryArray { is_utf8: false, offsets, values, validity: None })
    };
    assert!(validate(&binary(vec![1, 1, 3], vec![0; 3])));
    assert!(!validate(&binary(vec![], vec![])));
    assert!(!validate(&binary(vec![-1, 2], vec![0; 2])));
    assert!(!validate(&binary(vec![0, 2, 1], vec![0; 1])));
    assert!(!validate(&binary(vec![0, 2], vec![0; 3])));
    let list = |offsets: Vec<i32>, values: Array| {
        Array::List(ListArray { offsets, values: Box::new(values), validity: None })
    };
    assert!(validate(&list(vec![0, 1], int32(&[1, 2]))));
    assert!(!validate(&list(vec![0, 3], int32(&[1, 2]))));
    assert!(!validate(&list(vec![0, 1], binary(vec![], vec![]))));
    let fixed = |size: usize, length: usize, values: Array| {
        Array::FixedSizeList(FixedSizeListArray { size, length, values: Box::new(values), validity: None })
    };
    assert!(validate(&fixed(2, 1, int32(&[1, 2]))));
    assert!(validate(&fixed(0, 5, int32(&[]))));
    assert!(!validate(&fixed(2, 2, int32(&[1, 2]))));
    assert!(!validate(&fixed(usize::MAX, 2, int32(&[1, 2]))));
    let record = |length: usize, values: Vec<Array>| {
        Array::Struct(StructArray { length, values, validity: None })
    };
    assert!(validate(&record(2, vec![int32(&[1, 2]), boolean(2)])));
    assert!(!validate(&record(2, vec![int32(&[1, 2]), boolean(3)])));
    assert!(!validate(&record(2, vec![binary(vec![], vec![]), boolean(2)])));
    let union = |types: Vec<i8>, offsets: Option<Vec<i32>>| {
        Array::Union(UnionArray { types, offsets, fields: vec![int32(&[1])] })
    };
    assert!(validate(&union(vec![0, 0], None)));
    assert!(validate(&union(vec![0, 0], Some(vec![0, 0]))));
    assert!(!validate(&union(vec![0, 0], Some(vec![0]))));
    let coded = |values: Vec<Arc<Array>>| {
        Array::Dictionary(DictionaryArray {
            keys: PrimitiveArray { data_type: IntegerType::UInt8, values: vec![0, 1], validity: None },
            values,
            version: 0,
        })
    };
    assert!(validate(&coded(vec![])));
    assert!(validate(&coded(vec![Arc::new(int32(&[1]))])));
    assert!(!validate(&coded(vec![Arc::new(binary(vec![], vec![]))])));
}

#[test]
fn arrays_and_their_types() {
    let int = DataType::Integer(IntegerType::Int32);
    assert!(has_type(&int32(&[1]), &int));
    assert!(!has_type(&int32(&[1]), &DataType::Integer(IntegerType::UInt32)));
    assert!(!has_type(&int32(&[1]), &DataType::Boolean));
    assert!(has_type(&boolean(1), &DataType::Boolean));
    let text = Array::Binary(BinaryArray { is_utf8: true, offsets: vec![0], values: vec![], validity: None });
    assert!(has_type(&text, &DataType::Utf8));
    assert!(!has_type(&text, &DataType::Binary));
    let list = Array::List(ListArray { offsets: vec![0], values: Box::new(int32(&[])), validity: None });
    assert!(has_type(&list, &DataType::List(Box::new(field("item", DataType::Integer(IntegerType::Int32))))));
    assert!(!has_type(&list, &DataType::List(Box::new(field("item", DataType::Utf8)))));
    let fixed = Array::FixedSizeList(FixedSizeListArray { size: 2, length: 0, values: Box::new(int32(&[])), validity: None });
    assert!(has_type(&fixed, &DataType::FixedSizeList(Box::new(field("item", DataType::Integer(IntegerType::Int32))), 2)));
    assert!(!has_type(&fixed, &DataType::FixedSizeList(Box::new(field("item", DataType::Integer(IntegerType::Int32))), 3)));
    let record = Array::Struct(StructArray { length: 1, values: vec![int32(&[1]), boolean(1)], validity: None });
    let pair = |second: DataType| DataType::Struct(vec![field("a", DataType::Integer(IntegerType::Int32)), field("b", second)]);
    assert!(has_type(&record, &pair(DataType::Boolean)));
    assert!(!has_type(&record, &pair(DataType::Utf8)));
    assert!(!has_type(&record, &DataType::Struct(vec![field("a", DataType::Integer(IntegerType::Int32))])));
    let union = Array::Union(UnionArray { types: vec![], offsets: None, fields: vec![int32(&[])] });
    let members = || vec![field("a", DataType::Integer(IntegerType::Int32))];
    assert!(has_type(&union, &DataType::Union(members(), UnionMode::Sparse)));
    assert!(!has_type(&union, &DataType::Union(members(), UnionMode::Dense)));
    let coded = Array::Dictionary(DictionaryArray {
        keys: PrimitiveArray { data_type: IntegerType::UInt8, values: vec![], validity: None },
        values: vec![Arc::new(int32(&[1]))],
        version: 0,
    });
    assert!(has_type(&coded, &DataType::Dictionary(IntegerType::UInt8, Box::new(DataType::Integer(IntegerType::Int32)))));
    assert!(!has_type(&coded, &DataType::Dictionary(IntegerType::Int8, Box::new(DataType::Integer(IntegerType::Int32)))));
    assert!(!has_type(&coded, &DataType::Dictionary(IntegerType::UInt8, Box::new(DataType::Utf8))));
}

#[test]
fn chunks_need_columns_of_one_length() {
    assert_eq!(Chunk::try_new(vec![int32(&[1, 2]), boolean(2)]).unwrap().len(), 2);
    assert_eq!(Chunk::try_new(vec![]).unwrap().len(), 0);
    assert_eq!(
        Chunk::try_new(vec![int32(&[1, 2]), boolean(3)]),
        Err(ArrowError::OutOfSpec(OutOfSpec::RowCountMismatch))
    );
    assert!(Chunk { arrays: vec![int32(&[1, 2]), boolean(2)] }.validate());
    assert!(!Chunk { arrays: vec![int32(&[1, 2]), boolean(3)] }.validate());
    let fields = vec![field("a", DataType::Integer(IntegerType::Int32))];
    assert!(Chunk { arrays: vec![int32(&[1])] }.has_types(&fields));
    assert!(!Chunk { arrays: vec![boolean(1)] }.has_types(&fields));
    assert!(!Chunk { arrays: vec![] }.has_types(&fields));
}

#[test]
fn a_length_beyond_what_the_format_can_say_is_refused() {
    let huge = Array::Struct(StructArray { length: usize::MAX, values: vec![], validity: None });
    assert!(validate(&huge));
    let (mut nodes, mut buffers, mut body) = (vec![], vec![], vec![]);
    assert_eq!(
        serialize::write(&huge, &mut nodes, &mut buffers, &mut body, true, None),
        Err(ArrowError::NotYetImplemented(Unsupported::BodyTooLarge))
    );
    let chunk = Chunk { arrays: vec![Array::Struct(StructArray { length: usize::MAX, values: vec![], validity: None })] };
    assert_eq!(
        write_batch(&chunk, true, None).err(),
        Some(ArrowError::NotYetImplemented(Unsupported::BodyTooLarge))
    );
}

#[test]
fn wire_twins_are_copied_with_their_children() {
    let twin = IpcField {
        fields: vec![IpcField { fields: vec![], dictionary_id: Some(3) }, IpcField::default()],
        dictionary_id: None,
    };
    assert_eq!(twin.clone(), twin);
    let schema = IpcSchema { fields: vec![twin], is_little_endian: false };
    assert_eq!(schema.clone(), schema);
}
