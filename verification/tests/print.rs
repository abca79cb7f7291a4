use arrow2::array::{Array, BinaryArray, BooleanArray, PrimitiveArray};
use arrow2::bitmap::Bitmap;
use arrow2::chunk::Chunk;
use arrow2::datatypes::{DataType, IntegerType};
use arrow2::io::print;
use arrow2::io::print::{is_printable, try_write};

fn int32(values: &[i32], validity: Option<Bitmap>) -> Array {
    let mut bytes = Vec::new();
    for value in values {
        bytes.extend_from_slice(&value.to_le_bytes());
    }
    Array::Primitive(PrimitiveArray { data_type: IntegerType::Int32, values: bytes, validity })
}

fn utf8(values: &[&str]) -> Array {
    let mut offsets = vec![0i32];
    let mut bytes = Vec::new();
    for value in values {
        bytes.extend_from_slice(value.as_bytes());
        offsets.push(bytes.len() as i32);
    }
    Array::Binary(BinaryArray { is_utf8: true, offsets, values: bytes, validity: None })
}

#[test]
fn write_two_integer_columns() {
    let chunk = Chunk { arrays: vec![int32(&[-1, 1], None), int32(&[1, -1], None)] };
    let names = vec!["x".to_string(), "y".to_string()];
    let expected = vec![
        "+----+----+",
        "| x  | y  |",
        "+----+----+",
        "| -1 | 1  |",
        "| 1  | -1 |",
        "+----+----+",
    ];
    assert_eq!(print::write(&[chunk], &names), expected.join("\n"));
}

#[test]
fn write_no_batches_has_no_header() {
    let names = vec!["x".to_string()];
    let batches: Vec<Chunk> = vec![];
    assert_eq!(print::write(&batches, &names), "++\n++");
}

#[test]
fn write_nulls_show_nothing() {
    let validity = Bitmap { bytes: vec![0b0000_0101], length: 3 };
    let values = Bitmap { bytes: vec![0b0000_0001], length: 3 };
    let chunk = Chunk {
        arrays: vec![
            Array::Boolean(BooleanArray { data_type: DataType::Boolean, values, validity: Some(validity) }),
            utf8(&["a", "bc", ""]),
        ],
    };
    let names = vec!["flag".to_string(), "text".to_string()];
    let expected = vec![
        "+-------+------+",
        "| flag  | text |",
        "+-------+------+",
        "| true  | a    |",
        "|       | bc   |",
        "| false |      |",
        "+-------+------+",
    ];
    assert_eq!(print::write(&[chunk], &names), expected.join("\n"));
}

#[test]
fn write_several_batches_fill_one_table() {
    let first = Chunk { arrays: vec![int32(&[10], None)] };
    let second = Chunk { arrays: vec![int32(&[-2147483648, 2147483647], None)] };
    let names = vec!["n".to_string()];
    let expected = vec![
        "+-------------+",
        "| n           |",
        "+-------------+",
        "| 10          |",
        "| -2147483648 |",
        "| 2147483647  |",
        "+-------------+",
    ];
    assert_eq!(print::write(&[first, second], &names), expected.join("\n"));
}

#[test]
fn try_write_refuses_a_cell_that_is_too_long() {
    let long = "a".repeat(21845);
    let chunk = Chunk { arrays: vec![utf8(&[long.as_str()])] };
    let names = vec!["text".to_string()];
    assert!(!is_printable(&[chunk], &names));
    let chunk = Chunk { arrays: vec![utf8(&[long.as_str()])] };
    assert_eq!(try_write(&[chunk], &names), None);
    let fits = "a".repeat(21844);
    let chunk = Chunk { arrays: vec![utf8(&[fits.as_str()])] };
    assert!(try_write(&[chunk], &names).is_some());
}

#[test]
fn write_batches_without_rows_give_the_header_alone() {
    let empty = || Chunk { arrays: vec![int32(&[], None), utf8(&[])] };
    let names = vec!["x".to_string(), "y".to_string()];
    let expected = vec!["+---+---+", "| x | y |", "+---+---+", "+---+---+"];
    assert_eq!(print::write(&[empty()], &names), expected.join("\n"));
    assert_eq!(print::write(&[empty(), empty(), empty()], &names), print::write(&[empty()], &names));
}

#[test]
fn write_depends_on_what_the_columns_hold_alone() {
    // a validity without a null shows as no validity does
    let with_bitmap = Chunk {
        arrays: vec![int32(&[5, 6, 7], Some(Bitmap { bytes: vec![0b0000_0111], length: 3 })), utf8(&["a", "", "c"])],
    };
    let without = Chunk { arrays: vec![int32(&[5, 6, 7], None), utf8(&["a", "", "c"])] };
    let names = vec!["n".to_string(), "s".to_string()];
    let again = vec![String::from("n"), String::from("s")];
    assert_eq!(print::write(&[with_bitmap], &names), print::write(&[without], &again));
}
