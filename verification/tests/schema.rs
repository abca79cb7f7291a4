use arrow2::datatypes::{DataType, Field, IntegerType, Schema, UnionMode};
use arrow2::io::ipc::read::reader::{all_fit, fits};
use arrow2::io::ipc::write::schema::{default_ipc_field, default_ipc_fields};
use arrow2::io::ipc::{IpcField, IpcSchema};

fn field(name: &str, data_type: DataType) -> Field {
    Field { name: name.to_string(), data_type, is_nullable: true }
}

fn leaf(dictionary_id: Option<i64>) -> IpcField {
    IpcField { fields: vec![], dictionary_id }
}

fn coded(values: DataType) -> DataType {
    DataType::Dictionary(IntegerType::Int8, Box::new(values))
}

#[test]
fn default_ipc_field_is_empty() {
    assert_eq!(IpcField::default(), leaf(None));
}

#[test]
fn dictionary_identifiers_are_given_out_in_pre_order() {
    let fields = vec![
        field("a", DataType::Boolean),
        field("b", coded(DataType::Utf8)),
        field(
            "c",
            DataType::Struct(vec![
                field("c0", DataType::List(Box::new(field("item", coded(DataType::Binary))))),
                field("c1", DataType::Integer(IntegerType::UInt16)),
                field("c2", coded(DataType::Struct(vec![field("inner", coded(DataType::Utf8))]))),
            ]),
        ),
        field(
            "d",
            DataType::Union(vec![field("d0", coded(DataType::Utf8)), field("d1", DataType::Utf8)], UnionMode::Sparse),
        ),
        field("e", DataType::FixedSizeList(Box::new(field("item", coded(DataType::Utf8))), 3)),
    ];
    let expected = vec![
        leaf(None),
        leaf(Some(0)),
        IpcField {
            fields: vec![
                IpcField { fields: vec![leaf(Some(1))], dictionary_id: None },
                leaf(None),
                IpcField { fields: vec![leaf(Some(3))], dictionary_id: Some(2) },
            ],
            dictionary_id: None,
        },
        IpcField { fields: vec![leaf(Some(4)), leaf(None)], dictionary_id: None },
        IpcField { fields: vec![leaf(Some(5))], dictionary_id: None },
    ];
    let ipc_fields = default_ipc_fields(&fields);
    assert_eq!(ipc_fields, expected);
    assert!(all_fit(&ipc_fields, &fields));
    let schema = IpcSchema { fields: ipc_fields, is_little_endian: true };
    assert_eq!(schema.fields.len(), fields.len());
}

#[test]
fn default_ipc_field_goes_on_from_the_current_identifier() {
    let mut current = 40;
    let data_type = DataType::List(Box::new(field("item", coded(DataType::Utf8))));
    let twin = default_ipc_field(&data_type, &mut current);
    assert_eq!(twin, IpcField { fields: vec![leaf(Some(40))], dictionary_id: None });
    assert_eq!(current, 41);
    let twin = default_ipc_field(&DataType::Utf8, &mut current);
    assert_eq!(twin, leaf(None));
    assert_eq!(current, 41);
}

#[test]
fn a_wire_twin_must_have_the_shape_of_its_type() {
    let list = DataType::List(Box::new(field("item", DataType::Boolean)));
    assert!(fits(&IpcField { fields: vec![leaf(None)], dictionary_id: None }, &list));
    assert!(!fits(&leaf(None), &list));
    assert!(!fits(&IpcField { fields: vec![leaf(None), leaf(None)], dictionary_id: None }, &list));
    let pair = DataType::Struct(vec![field("a", DataType::Boolean), field("b", DataType::Boolean)]);
    assert!(fits(&IpcField { fields: vec![leaf(None), leaf(None)], dictionary_id: None }, &pair));
    assert!(!fits(&IpcField { fields: vec![leaf(None)], dictionary_id: None }, &pair));
    let nested = DataType::Struct(vec![field("list", DataType::List(Box::new(field("item", DataType::Boolean))))]);
    assert!(!fits(&IpcField { fields: vec![leaf(None)], dictionary_id: None }, &nested));
    assert!(fits(&leaf(Some(3)), &coded(DataType::Utf8)));
    assert!(fits(&leaf(None), &DataType::Utf8));
}

#[test]
fn types_are_copied_with_their_fields() {
    let data_type = DataType::Struct(vec![
        field("list", DataType::List(Box::new(field("item", coded(DataType::Utf8))))),
        field("fixed", DataType::FixedSizeList(Box::new(field("item", DataType::Boolean)), 4)),
        field("either", DataType::Union(vec![field("a", DataType::Binary)], UnionMode::Dense)),
        field("n", DataType::Integer(IntegerType::UInt64)),
    ]);
    assert_eq!(data_type.clone(), data_type);
    let one = Field { name: "one".to_string(), data_type, is_nullable: false };
    assert_eq!(one.clone(), one);
    let schema = Schema { fields: vec![one, field("two", DataType::Utf8)] };
    assert_eq!(schema.clone(), schema);
    assert_eq!(IntegerType::Int16.byte_width(), 2);
    assert!(IntegerType::Int16.is_signed());
    assert!(!IntegerType::UInt64.is_signed());
}
