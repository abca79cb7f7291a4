use arrow2::array::{
    Array, BinaryArray, BooleanArray, DictionaryArray, FixedSizeListArray, ListArray, PrimitiveArray,
    StructArray, UnionArray,
};
use arrow2::bitmap::Bitmap;
use arrow2::chunk::Chunk;
use arrow2::datatypes::{DataType, IntegerType};
use arrow2::display::{push_digits, read_le, write_cell};
use arrow2::io::print;
use std::sync::Arc;

fn bits(values: &[bool]) -> Bitmap {
    let mut bytes = vec![0u8; (values.len() + 7) / 8];
    for (i, value) in values.iter().enumerate() {
        if *value {
            bytes[i / 8] |= 1 << (i % 8);
        }
    }
    Bitmap { bytes, length: values.len() }
}

fn integers(data_type: IntegerType, bytes: Vec<u8>) -> Array {
    Array::Primitive(PrimitiveArray { data_type, values: bytes, validity: None })
}

fn int32(values: &[i32]) -> Array {
    integers(IntegerType::Int32, values.iter().flat_map(|value| value.to_le_bytes()).collect())
}

fn utf8(values: &[&str]) -> Array {
    let mut offsets = vec![0i32];
    let mut bytes = Vec::new();
    for value in values {
        bytes.extend_from_slice(value.as_bytes());
        offsets.push(bytes.len() as i32);
    }
    Array::Binary(BinaryArray { is_utf8: true, offsets, values: bytes, validity: None })
}

fn cells(array: &Array) -> Vec<String> {
    assert!(arrow2::validate::validate(array));
    (0..array.len())
        .map(|row| {
            let mut out = vec![];
            write_cell(array, row, &mut out);
            String::from_utf8(out).unwrap()
        })
        .collect()
}

#[test]
fn integers_of_every_type_in_decimal() {
    assert_eq!(
        cells(&integers(IntegerType::Int8, vec![0, 1, 0x7f, 0x80, 0xff])),
        vec!["0", "1", "127", "-128", "-1"]
    );
    assert_eq!(cells(&integers(IntegerType::UInt8, vec![0, 0x7f, 0x80, 0xff])), vec!["0", "127", "128", "255"]);
    assert_eq!(
        cells(&integers(IntegerType::Int16, [i16::MIN, -1, 0, 258, i16::MAX].iter().flat_map(|v| v.to_le_bytes()).collect())),
        vec!["-32768", "-1", "0", "258", "32767"]
    );
    assert_eq!(
        cells(&integers(IntegerType::UInt16, [0u16, 65535].iter().flat_map(|v| v.to_le_bytes()).collect())),
        vec!["0", "65535"]
    );
    assert_eq!(cells(&int32(&[i32::MIN, -10, 9, 10, i32::MAX])), vec!["-2147483648", "-10", "9", "10", "2147483647"]);
    assert_eq!(
        cells(&integers(IntegerType::UInt32, [u32::MAX].iter().flat_map(|v| v.to_le_bytes()).collect())),
        vec!["4294967295"]
    );
    assert_eq!(
        cells(&integers(IntegerType::Int64, [i64::MIN, i64::MAX].iter().flat_map(|v| v.to_le_bytes()).collect())),
        vec!["-9223372036854775808", "9223372036854775807"]
    );
    assert_eq!(
        cells(&integers(IntegerType::UInt64, [u64::MAX, 1 << 63].iter().flat_map(|v| v.to_le_bytes()).collect())),
        vec!["18446744073709551615", "9223372036854775808"]
    );
}

#[test]
fn digits_and_little_endian_numbers() {
    let mut out = vec![b'x'];
    push_digits(0, &mut out);
    push_digits(1230, &mut out);
    assert_eq!(out, b"x01230");
    assert_eq!(read_le(&[]), 0);
    assert_eq!(read_le(&[0x34, 0x12]), 0x1234);
    assert_eq!(read_le(&[0xff; 8]), u64::MAX);
}

#[test]
fn nested_cells() {
    let list = Array::List(ListArray {
        offsets: vec![0, 2, 2, 3],
        values: Box::new(Array::Primitive(PrimitiveArray {
            data_type: IntegerType::Int32,
            values: [1i32, -2, 3].iter().flat_map(|v| v.to_le_bytes()).collect(),
            validity: Some(bits(&[true, false, true])),
        })),
        validity: Some(bits(&[true, true, false])),
    });
    assert_eq!(cells(&list), vec!["[1, ]", "[]", ""]);
    let fixed = Array::FixedSizeList(FixedSizeListArray {
        size: 2,
        length: 2,
        values: Box::new(utf8(&["a", "b", "c", "d"])),
        validity: None,
    });
    assert_eq!(cells(&fixed), vec!["[a, b]", "[c, d]"]);
    let record = Array::Struct(StructArray {
        length: 2,
        values: vec![
            int32(&[1, 2]),
            Array::Boolean(BooleanArray { data_type: DataType::Boolean, values: bits(&[true, false]), validity: None }),
            utf8(&["x", "y"]),
        ],
        validity: None,
    });
    assert_eq!(cells(&record), vec!["{1, true, x}", "{2, false, y}"]);
    let empty = Array::Struct(StructArray { length: 1, values: vec![], validity: None });
    assert_eq!(cells(&empty), vec!["{}"]);
}

#[test]
fn union_cells_show_the_child_that_is_selected() {
    let dense = Array::Union(UnionArray {
        types: vec![1, 0, 1, 2, -1, 0],
        offsets: Some(vec![0, 0, 1, 0, 0, 5]),
        fields: vec![int32(&[10]), utf8(&["a", "b"])],
    });
    // a type identifier or an offset that selects nothing shows nothing
    assert_eq!(cells(&dense), vec!["a", "10", "b", "", "", ""]);
    let sparse = Array::Union(UnionArray {
        types: vec![0, 1],
        offsets: None,
        fields: vec![int32(&[10, 20]), utf8(&["a", "b"])],
    });
    assert_eq!(cells(&sparse), vec!["10", "b"]);
}

#[test]
fn dictionary_cells_show_the_value_that_the_key_selects() {
    let keys = PrimitiveArray {
        data_type: IntegerType::Int8,
        values: vec![0, 2, 3, 4, 0xff, 1],
        validity: Some(bits(&[true, true, true, true, true, false])),
    };
    let array = Array::Dictionary(DictionaryArray {
        keys,
        values: vec![Arc::new(utf8(&["a", "b"])), Arc::new(utf8(&[])), Arc::new(utf8(&["c", "d"]))],
        version: 1,
    });
    // keys beyond the dictionary, and negative ones, select nothing
    assert_eq!(cells(&array), vec!["a", "c", "d", "", "", ""]);
}

#[test]
fn bytes_that_are_no_text_are_replaced() {
    let raw = Array::Binary(BinaryArray { is_utf8: false, offsets: vec![0, 2, 3], values: vec![b'o', b'k', 0xff], validity: None });
    let names = vec!["b".to_string()];
    let expected = vec!["+----+", "| b  |", "+----+", "| ok |", "| \u{fffd}  |", "+----+"];
    assert_eq!(print::write(&[Chunk { arrays: vec![raw] }], &names), expected.join("\n"));
}
