//! Logical types, fields and schemas.

use vstd::prelude::*;

verus! {

/// The integer types: those of dictionary keys and of fixed-width columns.
#[derive(Debug, Clone, Copy, PartialEq, Eq, Structural)]
pub enum IntegerType {
    Int8,
    Int16,
    Int32,
    Int64,
    UInt8,
    UInt16,
    UInt32,
    UInt64,
}

impl IntegerType {
    /// The number of bytes of one value.
    pub open spec fn spec_byte_width(self) -> usize {
        match self {
            IntegerType::Int8 | IntegerType::UInt8 => 1,
            IntegerType::Int16 | IntegerType::UInt16 => 2,
            IntegerType::Int32 | IntegerType::UInt32 => 4,
            IntegerType::Int64 | IntegerType::UInt64 => 8,
        }
    }

    /// The number of bytes of one value.
    #[verifier::when_used_as_spec(spec_byte_width)]
    pub fn byte_width(self) -> (w: usize)
        ensures
            w == self.spec_byte_width(),
            1 <= w <= 8,
    {
        match self {
            IntegerType::Int8 | IntegerType::UInt8 => 1,
            IntegerType::Int16 | IntegerType::UInt16 => 2,
            IntegerType::Int32 | IntegerType::UInt32 => 4,
            IntegerType::Int64 | IntegerType::UInt64 => 8,
        }
    }

    /// Whether the type has negative values.
    pub open spec fn spec_is_signed(self) -> bool {
        self is Int8 || self is Int16 || self is Int32 || self is Int64
    }

    /// Whether the type has negative values.
    #[verifier::when_used_as_spec(spec_is_signed)]
    pub fn is_signed(self) -> (b: bool)
        ensures
            b == self.spec_is_signed(),
    {
        match self {
            IntegerType::Int8 | IntegerType::Int16 | IntegerType::Int32 | IntegerType::Int64 => true,
            _ => false,
        }
    }
}

/// Whether a union keeps an offsets buffer beside its type identifiers.
#[derive(Debug, Clone, Copy, PartialEq, Eq, Structural)]
pub enum UnionMode {
    /// Every child has one slot per slot of the union; there are no offsets.
    Sparse,
    /// A child holds only the slots that select it; an offsets buffer says where.
    Dense,
}

/// The logical type of an array.
#[derive(Debug, PartialEq, Eq)]
pub enum DataType {
    Boolean,
    Integer(IntegerType),
    Binary,
    Utf8,
    List(Box<Field>),
    FixedSizeList(Box<Field>, usize),
    Struct(Vec<Field>),
    Union(Vec<Field>, UnionMode),
    Dictionary(IntegerType, Box<DataType>),
}

/// A named, typed column or child of a nested type.
#[derive(Debug, PartialEq, Eq)]
pub struct Field {
    pub name: String,
    pub data_type: DataType,
    pub is_nullable: bool,
}

/// An ordered sequence of fields.
#[derive(Debug, PartialEq, Eq)]
pub struct Schema {
    pub fields: Vec<Field>,
}

/// Whether two types say the same: the same kind, sizes and modes, and
/// fields that say the same, one by one.
pub open spec fn same_type(a: DataType, b: DataType) -> bool
    decreases a,
{
    match (a, b) {
        (DataType::Boolean, DataType::Boolean) => true,
        (DataType::Integer(x), DataType::Integer(y)) => x == y,
        (DataType::Binary, DataType::Binary) => true,
        (DataType::Utf8, DataType::Utf8) => true,
        (DataType::List(x), DataType::List(y)) => same_field(*x, *y),
        (DataType::FixedSizeList(x, n), DataType::FixedSizeList(y, m)) => n == m && same_field(*x, *y),
        (DataType::Struct(x), DataType::Struct(y)) => same_fields(x@, y@),
        (DataType::Union(x, p), DataType::Union(y, q)) => p == q && same_fields(x@, y@),
        (DataType::Dictionary(k, x), DataType::Dictionary(l, y)) => k == l && same_type(*x, *y),
        _ => false,
    }
}

/// Whether two fields say the same: the same name and nullability, and types
/// that say the same.
pub open spec fn same_field(a: Field, b: Field) -> bool
    decreases a,
{
    &&& a.name@ == b.name@
    &&& a.is_nullable == b.is_nullable
    &&& same_type(a.data_type, b.data_type)
}

/// Whether two sequences of fields say the same, one by one.
pub open spec fn same_fields(a: Seq<Field>, b: Seq<Field>) -> bool
    decreases a,
{
    &&& a.len() == b.len()
    &&& forall|i: int| 0 <= i < a.len() ==> same_field(#[trigger] a[i], b[i])
}

/// Copies of `fields`.
fn clone_fields(fields: &Vec<Field>) -> (out: Vec<Field>)
    ensures
        same_fields(fields@, out@),
    decreases fields,
{
    let mut out: Vec<Field> = Vec::with_capacity(fields.len());
    let mut i: usize = 0;
    while i < fields.len()
        invariant
            i <= fields.len(),
            out@.len() == i,
            forall|k: int| 0 <= k < i ==> same_field(#[trigger] fields@[k], out@[k]),
        decreases fields.len() - i,
    {
        let copy = fields[i].clone();
        out.push(copy);
        i = i + 1;
    }
    out
}

impl Clone for DataType {
    fn clone(&self) -> (out: DataType)
        ensures
            same_type(*self, out),
        decreases self,
    {
        match self {
            DataType::Boolean => DataType::Boolean,
            DataType::Integer(integer) => DataType::Integer(*integer),
            DataType::Binary => DataType::Binary,
            DataType::Utf8 => DataType::Utf8,
            DataType::List(field) => {
                let copy = (**field).clone();
                DataType::List(Box::new(copy))
            },
            DataType::FixedSizeList(field, size) => {
                let copy = (**field).clone();
                DataType::FixedSizeList(Box::new(copy), *size)
            },
            DataType::Struct(fields) => DataType::Struct(clone_fields(fields)),
            DataType::Union(fields, mode) => DataType::Union(clone_fields(fields), *mode),
            DataType::Dictionary(key_type, value_type) => {
                let copy = (**value_type).clone();
                DataType::Dictionary(*key_type, Box::new(copy))
            },
        }
    }
}

impl Clone for Field {
    fn clone(&self) -> (out: Field)
        ensures
            same_field(*self, out),
        decreases self,
    {
        Field {
            name: self.name.clone(),
            data_type: self.data_type.clone(),
            is_nullable: self.is_nullable,
        }
    }
}

impl Clone for Schema {
    fn clone(&self) -> (out: Schema)
        ensures
            same_fields(self.fields@, out.fields@),
    {
        Schema { fields: clone_fields(&self.fields) }
    }
}

} // verus!
