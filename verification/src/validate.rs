//! Checking arrays that come from outside: whether an array is sound, and
//! whether it is of a type.

use crate::array::{
    array_views, offsets_ascend, validity_fits, Array, BinaryArray, BooleanArray, PrimitiveArray,
};
use crate::bitmap::Bitmap;
use crate::datatypes::{DataType, Field, UnionMode};
use crate::io::ipc::read::read_basic::check_offsets;
use std::sync::Arc;
use vstd::prelude::*;

verus! {

/// Whether the bytes of `bitmap` hold its bits.
pub fn bitmap_is_sound(bitmap: &Bitmap) -> (ok: bool)
    ensures
        ok == bitmap.wf(),
{
    bitmap.length / 8 < bitmap.bytes.len() || (bitmap.length / 8 == bitmap.bytes.len() && bitmap.length % 8
        == 0)
}

/// Whether `validity`, where present, is a sound bitmap of `length` bits.
pub fn validity_is_sound(validity: &Option<Bitmap>, length: usize) -> (ok: bool)
    ensures
        ok == validity_fits(*validity, length as nat),
{
    match validity {
        Some(bitmap) => bitmap_is_sound(bitmap) && bitmap.length == length,
        None => true,
    }
}

/// Whether a boolean array is sound.
pub fn boolean_is_sound(a: &BooleanArray) -> (ok: bool)
    ensures
        ok == Array::Boolean(*a).wf(),
{
    let typed = match a.data_type {
        DataType::Boolean => true,
        _ => false,
    };
    typed && bitmap_is_sound(&a.values) && validity_is_sound(&a.validity, a.values.length)
}

/// Whether an array of integers is sound.
pub fn primitive_is_sound(a: &PrimitiveArray) -> (ok: bool)
    ensures
        ok == (a.wf() && a@.wf()),
{
    let width = a.data_type.byte_width();
    if a.values.len() % width != 0 {
        proof {
            if a@.wf() {
                assert(a.values@.len() % (width as nat) == 0) by (nonlinear_arith)
                    requires
                        a.values@.len() == a@.validity.len() * width,
                        width > 0,
                ;
            }
        }
        return false;
    }
    let length = a.values.len() / width;
    let ok = validity_is_sound(&a.validity, length);
    proof {
        assert(a.values@.len() == length * width) by (nonlinear_arith)
            requires
                a.values@.len() % (width as nat) == 0,
                length == a.values@.len() / (width as nat),
                width > 0,
        ;
    }
    ok
}

/// Whether `offsets` are those of an array of `slots` slots: one more than
/// slots, never decreasing from zero or above. Gives the last offset.
fn offsets_are_sound(offsets: &Vec<i32>) -> (last: Option<usize>)
    ensures
        last is Some <==> offsets_ascend(offsets@),
        last matches Some(end) ==> end == offsets@.last(),
{
    if !check_offsets(offsets) {
        return None;
    }
    proof {
        crate::io::ipc::read::array::binary::lemma_ascending_last(offsets@);
    }
    Some(offsets[offsets.len() - 1] as usize)
}

/// Whether an array of byte strings is sound.
pub fn binary_is_sound(a: &BinaryArray) -> (ok: bool)
    ensures
        ok == (a.wf() && a@.wf()),
{
    match offsets_are_sound(&a.offsets) {
        None => false,
        Some(last) => last == a.values.len() && validity_is_sound(&a.validity, a.offsets.len() - 1),
    }
}

/// Whether each of `arrays` is sound.
pub fn all_sound(arrays: &Vec<Array>) -> (ok: bool)
    ensures
        ok == (forall|i: int| 0 <= i < arrays@.len() ==> (#[trigger] arrays@[i]).wf()),
    decreases arrays, 0nat,
{
    let mut i: usize = 0;
    while i < arrays.len()
        invariant
            i <= arrays@.len(),
            forall|k: int| 0 <= k < i ==> (#[trigger] arrays@[k]).wf(),
        decreases arrays.len() - i,
    {
        if !validate(&arrays[i]) {
            return false;
        }
        i = i + 1;
    }
    true
}

/// Whether each of `segments` is sound.
pub fn segments_sound(segments: &Vec<Arc<Array>>) -> (ok: bool)
    ensures
        ok == (forall|i: int| 0 <= i < segments@.len() ==> (#[trigger] segments@[i]).wf()),
    decreases segments, 0nat,
{
    let mut i: usize = 0;
    while i < segments.len()
        invariant
            i <= segments@.len(),
            forall|k: int| 0 <= k < i ==> (#[trigger] segments@[k]).wf(),
        decreases segments.len() - i,
    {
        if !validate(&segments[i]) {
            return false;
        }
        i = i + 1;
    }
    true
}

/// Whether each of `arrays`, all sound, has `length` slots.
fn all_of_length(arrays: &Vec<Array>, length: usize) -> (ok: bool)
    requires
        forall|i: int| 0 <= i < arrays@.len() ==> (#[trigger] arrays@[i]).wf(),
    ensures
        ok == (forall|i: int| 0 <= i < arrays@.len() ==> (#[trigger] arrays@[i])@.len() == length),
{
    let mut i: usize = 0;
    while i < arrays.len()
        invariant
            i <= arrays@.len(),
            forall|k: int| 0 <= k < arrays@.len() ==> (#[trigger] arrays@[k]).wf(),
            forall|k: int| 0 <= k < i ==> (#[trigger] arrays@[k])@.len() == length,
        decreases arrays.len() - i,
    {
        if arrays[i].len() != length {
            return false;
        }
        i = i + 1;
    }
    true
}

/// Whether `array` is sound: its bitmaps hold their bits and are as long as
/// their arrays, and its buffers and children agree in their lengths, at
/// every level.
pub fn validate(array: &Array) -> (ok: bool)
    ensures
        ok == array.wf(),
    decreases array, 1nat,
{
    match array {
        Array::Boolean(a) => boolean_is_sound(a),
        Array::Primitive(a) => primitive_is_sound(a),
        Array::Binary(a) => binary_is_sound(a),
        Array::List(a) => {
            let last = match offsets_are_sound(&a.offsets) {
                None => {
                    return false;
                },
                Some(last) => last,
            };
            if !validity_is_sound(&a.validity, a.offsets.len() - 1) {
                return false;
            }
            if !validate(&*a.values) {
                return false;
            }
            last <= a.values.len()
        },
        Array::FixedSizeList(a) => {
            if !validity_is_sound(&a.validity, a.length) {
                return false;
            }
            if !validate(&*a.values) {
                return false;
            }
            match a.length.checked_mul(a.size) {
                Some(slots) => slots == a.values.len(),
                None => {
                    proof {
                        crate::io::ipc::round_trip::lemma_len_addressable(&*a.values);
                    }
                    false
                },
            }
        },
        Array::Struct(a) => {
            if !validity_is_sound(&a.validity, a.length) {
                return false;
            }
            proof {
                assert(array@->Struct_values =~= array_views(a.values@));
            }
            if !all_sound(&a.values) {
                proof {
                    let i = choose|i: int| 0 <= i < a.values@.len() && !(#[trigger] a.values@[i]).wf();
                    assert(array@->Struct_values[i] == a.values@[i]@);
                }
                return false;
            }
            let ok = all_of_length(&a.values, a.length);
            proof {
                if ok {
                    assert forall|i: int| 0 <= i < a.values@.len() implies (
                    #[trigger] array@->Struct_values[i]).wf() && array@->Struct_values[i].len()
                        == a.length by {
                        assert(array@->Struct_values[i] == a.values@[i]@);
                    }
                } else {
                    let i = choose|i: int|
                        0 <= i < a.values@.len() && (#[trigger] a.values@[i])@.len() != a.length;
                    assert(array@->Struct_values[i] == a.values@[i]@);
                }
            }
            ok
        },
        Array::Union(a) => {
            let offsets_ok = match &a.offsets {
                Some(offsets) => offsets.len() == a.types.len(),
                None => true,
            };
            if !offsets_ok {
                return false;
            }
            proof {
                assert(array@->Union_fields =~= array_views(a.fields@));
            }
            let ok = all_sound(&a.fields);
            proof {
                if ok {
                    assert forall|i: int| 0 <= i < a.fields@.len() implies (
                    #[trigger] array@->Union_fields[i]).wf() by {
                        assert(array@->Union_fields[i] == a.fields@[i]@);
                    }
                } else {
                    let i = choose|i: int| 0 <= i < a.fields@.len() && !(#[trigger] a.fields@[i]).wf();
                    assert(array@->Union_fields[i] == a.fields@[i]@);
                }
            }
            ok
        },
        Array::Dictionary(a) => {
            if !primitive_is_sound(&a.keys) {
                return false;
            }
            let ok = segments_sound(&a.values);
            proof {
                if ok {
                    assert forall|i: int| 0 <= i < a.values@.len() implies (
                    #[trigger] array@->Dictionary_values[i]).wf() by {
                        assert(array@->Dictionary_values[i] == (*a.values@[i])@);
                    }
                } else {
                    let i = choose|i: int| 0 <= i < a.values@.len() && !(#[trigger] a.values@[i]).wf();
                    assert(array@->Dictionary_values[i] == (*a.values@[i])@);
                }
            }
            ok
        },
    }
}

/// Whether each of `arrays` is of the type of the field at its place.
pub fn have_types(arrays: &Vec<Array>, fields: &Vec<Field>) -> (ok: bool)
    ensures
        ok == (arrays@.len() == fields@.len() && forall|i: int|
            0 <= i < arrays@.len() ==> (#[trigger] arrays@[i])@.conforms(fields@[i].data_type)),
    decreases arrays, 0nat,
{
    if arrays.len() != fields.len() {
        return false;
    }
    let mut i: usize = 0;
    while i < arrays.len()
        invariant
            i <= arrays@.len(),
            arrays@.len() == fields@.len(),
            forall|k: int| 0 <= k < i ==> (#[trigger] arrays@[k])@.conforms(fields@[k].data_type),
        decreases arrays.len() - i,
    {
        if !has_type(&arrays[i], &fields[i].data_type) {
            return false;
        }
        i = i + 1;
    }
    true
}

/// Whether each of `segments` is of type `data_type`.
pub fn segments_have_type(segments: &Vec<Arc<Array>>, data_type: &DataType) -> (ok: bool)
    ensures
        ok == (forall|i: int| 0 <= i < segments@.len() ==> (#[trigger] segments@[i])@.conforms(*data_type)),
    decreases segments, 0nat,
{
    let mut i: usize = 0;
    while i < segments.len()
        invariant
            i <= segments@.len(),
            forall|k: int| 0 <= k < i ==> (#[trigger] segments@[k])@.conforms(*data_type),
        decreases segments.len() - i,
    {
        if !has_type(&segments[i], data_type) {
            return false;
        }
        i = i + 1;
    }
    true
}

/// Whether `array` is one of type `data_type`, at every level.
pub fn has_type(array: &Array, data_type: &DataType) -> (ok: bool)
    ensures
        ok == array@.conforms(*data_type),
    decreases array, 1nat,
{
    match (array, data_type) {
        (Array::Boolean(_), DataType::Boolean) => true,
        (Array::Primitive(a), DataType::Integer(integer)) => a.data_type == *integer,
        (Array::Binary(a), DataType::Binary) => !a.is_utf8,
        (Array::Binary(a), DataType::Utf8) => a.is_utf8,
        (Array::List(a), DataType::List(inner)) => has_type(&*a.values, &inner.data_type),
        (Array::FixedSizeList(a), DataType::FixedSizeList(inner, size)) => a.size == *size && has_type(
            &*a.values,
            &inner.data_type,
        ),
        (Array::Struct(a), DataType::Struct(fields)) => {
            let ok = have_types(&a.values, fields);
            proof {
                assert(array@->Struct_values =~= array_views(a.values@));
                if ok {
                    assert forall|i: int| 0 <= i < a.values@.len() implies (
                    #[trigger] array@->Struct_values[i]).conforms(fields@[i].data_type) by {
                        assert(array@->Struct_values[i] == a.values@[i]@);
                    }
                } else if a.values@.len() == fields@.len() {
                    let i = choose|i: int|
                        0 <= i < a.values@.len() && !(#[trigger] a.values@[i])@.conforms(
                            fields@[i].data_type,
                        );
                    assert(array@->Struct_values[i] == a.values@[i]@);
                }
            }
            ok
        },
        (Array::Union(a), DataType::Union(fields, mode)) => {
            let dense = match mode {
                UnionMode::Dense => true,
                UnionMode::Sparse => false,
            };
            if a.offsets.is_some() != dense {
                return false;
            }
            let ok = have_types(&a.fields, fields);
            proof {
                assert(array@->Union_fields =~= array_views(a.fields@));
                if ok {
                    assert forall|i: int| 0 <= i < a.fields@.len() implies (
                    #[trigger] array@->Union_fields[i]).conforms(fields@[i].data_type) by {
                        assert(array@->Union_fields[i] == a.fields@[i]@);
                    }
                } else if a.fields@.len() == fields@.len() {
                    let i = choose|i: int|
                        0 <= i < a.fields@.len() && !(#[trigger] a.fields@[i])@.conforms(
                            fields@[i].data_type,
                        );
                    assert(array@->Union_fields[i] == a.fields@[i]@);
                }
            }
            ok
        },
        (Array::Dictionary(a), DataType::Dictionary(key_type, value_type)) => {
            if a.keys.data_type != *key_type {
                return false;
            }
            let ok = segments_have_type(&a.values, &**value_type);
            proof {
                if ok {
                    assert forall|i: int| 0 <= i < a.values@.len() implies (
                    #[trigger] array@->Dictionary_values[i]).conforms(**value_type) by {
                        assert(array@->Dictionary_values[i] == (*a.values@[i])@);
                    }
                } else {
                    let i = choose|i: int|
                        0 <= i < a.values@.len() && !(#[trigger] a.values@[i])@.conforms(**value_type);
                    assert(array@->Dictionary_values[i] == (*a.values@[i])@);
                }
            }
            ok
        },
        _ => false,
    }
}

} // verus!
