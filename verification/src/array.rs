//! Arrays in memory: what the wire format is read into and written from.
//!
//! Every array has a view, which says what it holds slot by slot and buffer by
//! buffer, with the validity spelled out: an array without a validity bitmap
//! has the same view as one whose bitmap has every bit set.

use crate::bitmap::{all_set, count_unset, lemma_count_unset_zero, validity_view, Bitmap};
use crate::datatypes::{DataType, IntegerType};
use std::sync::Arc;
use vstd::prelude::*;

verus! {

/// Whether `offsets` start at or above zero and never decrease.
pub open spec fn offsets_ascend(offsets: Seq<i32>) -> bool {
    &&& offsets.len() >= 1
    &&& offsets[0] >= 0
    &&& forall|i: int| 0 <= i < offsets.len() - 1 ==> offsets[i] <= #[trigger] offsets[i + 1]
}

/// What a boolean array holds: for each slot whether it is valid, and its value.
pub struct BooleanArrayView {
    pub validity: Seq<bool>,
    pub values: Seq<bool>,
}

/// What an array of integers holds: the bytes of its values, each value least
/// significant byte first.
pub struct PrimitiveArrayView {
    pub data_type: IntegerType,
    pub validity: Seq<bool>,
    pub values: Seq<u8>,
}

/// What an array of byte strings holds: slot `i` is the bytes of `values`
/// from `offsets[i]` up to `offsets[i + 1]`.
pub struct BinaryArrayView {
    pub is_utf8: bool,
    pub validity: Seq<bool>,
    pub offsets: Seq<i32>,
    pub values: Seq<u8>,
}

/// What an array holds.
#[allow(inconsistent_fields)]
pub enum ArrayView {
    Boolean(BooleanArrayView),
    Primitive(PrimitiveArrayView),
    Binary(BinaryArrayView),
    /// Slot `i` is the slots of `values` from `offsets[i]` up to `offsets[i + 1]`.
    List { validity: Seq<bool>, offsets: Seq<i32>, values: Box<ArrayView> },
    /// Slot `i` is the `size` slots of `values` from `i * size` on.
    FixedSizeList { validity: Seq<bool>, size: nat, values: Box<ArrayView> },
    /// Slot `i` is slot `i` of each of `values`.
    Struct { validity: Seq<bool>, values: Seq<ArrayView> },
    /// Slot `i` is a slot of the child that `types[i]` selects.
    Union { types: Seq<i8>, offsets: Option<Seq<i32>>, fields: Seq<ArrayView> },
    /// Slot `i` is the slot of the dictionary that key `i` selects; the
    /// dictionary is its segments one after the other.
    Dictionary { keys: PrimitiveArrayView, values: Seq<ArrayView> },
}

impl BooleanArrayView {
    pub open spec fn wf(self) -> bool {
        self.validity.len() == self.values.len()
    }
}

impl PrimitiveArrayView {
    pub open spec fn wf(self) -> bool {
        self.values.len() == self.validity.len() * self.data_type.byte_width()
    }
}

impl BinaryArrayView {
    pub open spec fn wf(self) -> bool {
        &&& self.offsets.len() == self.validity.len() + 1
        &&& offsets_ascend(self.offsets)
        &&& self.offsets.last() == self.values.len()
    }
}

impl ArrayView {
    /// The number of slots.
    pub open spec fn len(self) -> nat {
        match self {
            ArrayView::Boolean(a) => a.validity.len(),
            ArrayView::Primitive(a) => a.validity.len(),
            ArrayView::Binary(a) => a.validity.len(),
            ArrayView::List { validity, .. } => validity.len(),
            ArrayView::FixedSizeList { validity, .. } => validity.len(),
            ArrayView::Struct { validity, .. } => validity.len(),
            ArrayView::Union { types, .. } => types.len(),
            ArrayView::Dictionary { keys, .. } => keys.validity.len(),
        }
    }

    /// The buffers and children agree in their lengths, at every level.
    pub open spec fn wf(self) -> bool
        decreases self,
    {
        match self {
            ArrayView::Boolean(a) => a.wf(),
            ArrayView::Primitive(a) => a.wf(),
            ArrayView::Binary(a) => a.wf(),
            ArrayView::List { validity, offsets, values } => {
                &&& offsets.len() == validity.len() + 1
                &&& offsets_ascend(offsets)
                &&& offsets.last() <= values.len()
                &&& values.wf()
            },
            ArrayView::FixedSizeList { validity, size, values } => {
                &&& values.len() == validity.len() * size
                &&& values.wf()
            },
            ArrayView::Struct { validity, values } => forall|i: int|
                0 <= i < values.len() ==> (#[trigger] values[i]).wf() && values[i].len() == validity.len(),
            ArrayView::Union { types, offsets, fields } => {
                &&& offsets matches Some(o) ==> o.len() == types.len()
                &&& forall|i: int| 0 <= i < fields.len() ==> (#[trigger] fields[i]).wf()
            },
            ArrayView::Dictionary { keys, values } => {
                &&& keys.wf()
                &&& forall|i: int| 0 <= i < values.len() ==> (#[trigger] values[i]).wf()
            },
        }
    }

    /// The array is one of type `data_type`.
    pub open spec fn conforms(self, data_type: DataType) -> bool
        decreases self,
    {
        match self {
            ArrayView::Boolean(_) => data_type is Boolean,
            ArrayView::Primitive(a) => data_type == DataType::Integer(a.data_type),
            ArrayView::Binary(a) => if a.is_utf8 {
                data_type is Utf8
            } else {
                data_type is Binary
            },
            ArrayView::List { values, .. } => data_type matches DataType::List(field) && values.conforms(
                field.data_type,
            ),
            ArrayView::FixedSizeList { size, values, .. } => data_type matches DataType::FixedSizeList(
                field,
                n,
            ) && n == size && values.conforms(field.data_type),
            ArrayView::Struct { values, .. } => data_type matches DataType::Struct(fields)
                && fields@.len() == values.len() && forall|i: int|
                0 <= i < values.len() ==> (#[trigger] values[i]).conforms(fields@[i].data_type),
            ArrayView::Union { offsets, fields: children, .. } => data_type matches DataType::Union(
                fields,
                mode,
            ) && (offsets is Some <==> mode is Dense) && fields@.len() == children.len() && forall|i: int|
                0 <= i < children.len() ==> (#[trigger] children[i]).conforms(fields@[i].data_type),
            ArrayView::Dictionary { keys, values } => data_type matches DataType::Dictionary(
                key_type,
                value_type,
            ) && key_type == keys.data_type && forall|i: int|
                0 <= i < values.len() ==> (#[trigger] values[i]).conforms(*value_type),
        }
    }
}

/// An array of booleans, bit-packed, with an optional validity bitmap.
#[derive(Debug, PartialEq, Eq)]
pub struct BooleanArray {
    pub data_type: DataType,
    pub values: Bitmap,
    pub validity: Option<Bitmap>,
}

/// An array of integers of one type, held as the bytes of its values, each
/// value least significant byte first.
#[derive(Debug, PartialEq, Eq)]
pub struct PrimitiveArray {
    pub data_type: IntegerType,
    pub values: Vec<u8>,
    pub validity: Option<Bitmap>,
}

/// An array of byte strings or of texts.
#[derive(Debug, PartialEq, Eq)]
pub struct BinaryArray {
    pub is_utf8: bool,
    pub offsets: Vec<i32>,
    pub values: Vec<u8>,
    pub validity: Option<Bitmap>,
}

/// An array of lists of any length.
#[derive(Debug, PartialEq, Eq)]
pub struct ListArray {
    pub offsets: Vec<i32>,
    pub values: Box<Array>,
    pub validity: Option<Bitmap>,
}

/// An array of lists of one length.
#[derive(Debug, PartialEq, Eq)]
pub struct FixedSizeListArray {
    pub size: usize,
    pub length: usize,
    pub values: Box<Array>,
    pub validity: Option<Bitmap>,
}

/// An array of structs, held as one array for each member.
#[derive(Debug, PartialEq, Eq)]
pub struct StructArray {
    pub length: usize,
    pub values: Vec<Array>,
    pub validity: Option<Bitmap>,
}

/// An array of which each slot is of one of several types.
#[derive(Debug, PartialEq, Eq)]
pub struct UnionArray {
    pub types: Vec<i8>,
    pub offsets: Option<Vec<i32>>,
    pub fields: Vec<Array>,
}

/// An array of keys into a dictionary of values. The dictionary is held as its
/// segments: the values it was defined with, then each extension in turn. The
/// version tells dictionaries of one identifier apart: whoever replaces the
/// values gives them another version. It is no part of what the array holds.
#[derive(Debug, PartialEq, Eq)]
pub struct DictionaryArray {
    pub keys: PrimitiveArray,
    pub values: Vec<Arc<Array>>,
    pub version: u64,
}

/// An array of any type.
#[derive(Debug, PartialEq, Eq)]
pub enum Array {
    Boolean(BooleanArray),
    Primitive(PrimitiveArray),
    Binary(BinaryArray),
    List(ListArray),
    FixedSizeList(FixedSizeListArray),
    Struct(StructArray),
    Union(UnionArray),
    Dictionary(DictionaryArray),
}

/// Whether `validity`, where present, is a sound bitmap of `length` bits.
pub open spec fn validity_fits(validity: Option<Bitmap>, length: nat) -> bool {
    validity matches Some(bitmap) ==> bitmap.wf() && bitmap.length == length
}

impl View for BooleanArray {
    type V = BooleanArrayView;

    open spec fn view(&self) -> BooleanArrayView {
        BooleanArrayView {
            validity: validity_view(self.validity, self.values.length as nat),
            values: self.values@,
        }
    }
}

impl View for PrimitiveArray {
    type V = PrimitiveArrayView;

    open spec fn view(&self) -> PrimitiveArrayView {
        PrimitiveArrayView {
            data_type: self.data_type,
            validity: validity_view(self.validity, self.spec_len()),
            values: self.values@,
        }
    }
}

impl View for BinaryArray {
    type V = BinaryArrayView;

    open spec fn view(&self) -> BinaryArrayView {
        BinaryArrayView {
            is_utf8: self.is_utf8,
            validity: validity_view(self.validity, (self.offsets@.len() - 1) as nat),
            offsets: self.offsets@,
            values: self.values@,
        }
    }
}

/// What `array` holds.
pub open spec fn array_view(array: Array) -> ArrayView
    decreases array,
{
    match array {
        Array::Boolean(a) => ArrayView::Boolean(a@),
        Array::Primitive(a) => ArrayView::Primitive(a@),
        Array::Binary(a) => ArrayView::Binary(a@),
        Array::List(a) => ArrayView::List {
            validity: validity_view(a.validity, (a.offsets@.len() - 1) as nat),
            offsets: a.offsets@,
            values: Box::new(array_view(*a.values)),
        },
        Array::FixedSizeList(a) => ArrayView::FixedSizeList {
            validity: validity_view(a.validity, a.length as nat),
            size: a.size as nat,
            values: Box::new(array_view(*a.values)),
        },
        Array::Struct(a) => ArrayView::Struct {
            validity: validity_view(a.validity, a.length as nat),
            values: Seq::new(
                a.values@.len(),
                |i: int|
                    if 0 <= i < a.values@.len() {
                        array_view(a.values@[i])
                    } else {
                        arbitrary()
                    },
            ),
        },
        Array::Union(a) => ArrayView::Union {
            types: a.types@,
            offsets: match a.offsets {
                Some(o) => Some(o@),
                None => None,
            },
            fields: Seq::new(
                a.fields@.len(),
                |i: int|
                    if 0 <= i < a.fields@.len() {
                        array_view(a.fields@[i])
                    } else {
                        arbitrary()
                    },
            ),
        },
        Array::Dictionary(a) => ArrayView::Dictionary {
            keys: a.keys@,
            values: Seq::new(
                a.values@.len(),
                |i: int|
                    if 0 <= i < a.values@.len() {
                        array_view(*a.values@[i])
                    } else {
                        arbitrary()
                    },
            ),
        },
    }
}

/// Whether every validity bitmap of `array`, at every level, is sound and as
/// long as its array.
pub open spec fn bitmaps_fit(array: Array) -> bool
    decreases array,
{
    match array {
        Array::Boolean(a) => a.wf(),
        Array::Primitive(a) => a.wf(),
        Array::Binary(a) => a.wf(),
        Array::List(a) => validity_fits(a.validity, (a.offsets@.len() - 1) as nat) && bitmaps_fit(
            *a.values,
        ),
        Array::FixedSizeList(a) => validity_fits(a.validity, a.length as nat) && bitmaps_fit(*a.values),
        Array::Struct(a) => validity_fits(a.validity, a.length as nat) && forall|i: int|
            0 <= i < a.values@.len() ==> bitmaps_fit(#[trigger] a.values@[i]),
        Array::Union(a) => forall|i: int| 0 <= i < a.fields@.len() ==> bitmaps_fit(#[trigger] a.fields@[i]),
        Array::Dictionary(a) => a.keys.wf() && forall|i: int|
            0 <= i < a.values@.len() ==> bitmaps_fit(*#[trigger] a.values@[i]),
    }
}

impl View for Array {
    type V = ArrayView;

    open spec fn view(&self) -> ArrayView {
        array_view(*self)
    }
}

impl Array {
    /// The array is sound: its bitmaps fit and its view is well formed.
    pub open spec fn wf(&self) -> bool {
        bitmaps_fit(*self) && self@.wf()
    }

    /// The number of slots.
    pub fn len(&self) -> (n: usize)
        requires
            self.wf(),
        ensures
            n == self@.len(),
    {
        match self {
            Array::Boolean(a) => a.len(),
            Array::Primitive(a) => a.len(),
            Array::Binary(a) => a.len(),
            Array::List(a) => a.offsets.len() - 1,
            Array::FixedSizeList(a) => a.length,
            Array::Struct(a) => a.length,
            Array::Union(a) => a.types.len(),
            Array::Dictionary(a) => a.keys.len(),
        }
    }
}

/// What each of `arrays` holds.
pub open spec fn array_views(arrays: Seq<Array>) -> Seq<ArrayView> {
    Seq::new(arrays.len(), |i: int| array_view(arrays[i]))
}

impl BooleanArray {
    /// The type is boolean and the validity, where present, has one bit for each value.
    pub open spec fn wf(&self) -> bool {
        &&& self.data_type is Boolean
        &&& self.values.wf()
        &&& validity_fits(self.validity, self.values.length as nat)
    }

    /// The array of the given values and validity.
    pub fn from_data(data_type: DataType, values: Bitmap, validity: Option<Bitmap>) -> (out: BooleanArray)
        requires
            data_type is Boolean,
            values.wf(),
            validity_fits(validity, values.length as nat),
        ensures
            out.wf(),
            out@.wf(),
            out.data_type == data_type,
            out.values == values,
            out.validity == validity,
    {
        BooleanArray { data_type, values, validity }
    }

    /// The number of slots.
    pub fn len(&self) -> (n: usize)
        ensures
            n == self@.values.len(),
    {
        self.values.length
    }

    /// The number of slots that are null.
    pub fn null_count(&self) -> (n: usize)
        requires
            self.wf(),
        ensures
            n == count_unset(self@.validity),
    {
        match &self.validity {
            Some(bitmap) => bitmap.unset_bits(),
            None => {
                proof {
                    lemma_count_unset_zero(all_set(self.values.length as nat));
                }
                0
            },
        }
    }

    /// Whether slot `i` holds a value.
    pub fn is_valid(&self, i: usize) -> (b: bool)
        requires
            self.wf(),
            i < self.values.length,
        ensures
            b == self@.validity[i as int],
    {
        match &self.validity {
            Some(bitmap) => bitmap.get(i),
            None => true,
        }
    }

    /// The value of slot `i`, whatever its validity.
    pub fn value(&self, i: usize) -> (b: bool)
        requires
            self.wf(),
            i < self.values.length,
        ensures
            b == self@.values[i as int],
    {
        self.values.get(i)
    }
}

impl PrimitiveArray {
    /// The number of slots: as many as there are whole values.
    pub open spec fn spec_len(&self) -> nat {
        self.values@.len() / (self.data_type.byte_width() as nat)
    }

    /// The bytes are whole values and the validity, where present, has one bit for each.
    pub open spec fn wf(&self) -> bool {
        &&& self.values@.len() % (self.data_type.byte_width() as nat) == 0
        &&& validity_fits(self.validity, self.spec_len())
    }

    /// The number of slots.
    pub fn len(&self) -> (n: usize)
        requires
            self.wf(),
        ensures
            n == self.spec_len(),
            n == self@.validity.len(),
    {
        self.values.len() / self.data_type.byte_width()
    }
}

impl BinaryArray {
    /// The validity, where present, has one bit for each slot.
    pub open spec fn wf(&self) -> bool {
        validity_fits(self.validity, (self.offsets@.len() - 1) as nat)
    }

    /// The number of slots.
    pub fn len(&self) -> (n: usize)
        requires
            self@.wf(),
        ensures
            n == self@.validity.len(),
    {
        self.offsets.len() - 1
    }
}

} // verus!
