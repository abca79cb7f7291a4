//! The text of one slot of an array, as bytes: what a table shows in a cell.
//!
//! A null slot shows nothing. A boolean shows `true` or `false`, an integer
//! its decimal digits, a byte string its bytes. A list shows its items between
//! square brackets and a struct its members between braces, separated by a
//! comma and a space. A union shows the slot of the child it selects, and a
//! dictionary-encoded slot the value that its key selects; where the type
//! identifier, the offset or the key selects nothing, nothing is shown.

use crate::array::{Array, ArrayView, PrimitiveArray, PrimitiveArrayView};
use crate::io::ipc::read::array::binary::lemma_ascending_last;
use crate::io::ipc::write::serialize::append;
use std::sync::Arc;
use vstd::prelude::*;
use vstd::slice::slice_subrange;

verus! {

/// The value of the place after `width` bytes: 256 to the power of `width`.
pub open spec fn place(width: nat) -> nat
    decreases width,
{
    if width == 0 {
        1
    } else {
        256 * place((width - 1) as nat)
    }
}

/// The number that `bytes` hold, least significant byte first.
pub open spec fn le_value(bytes: Seq<u8>) -> nat
    decreases bytes.len(),
{
    if bytes.len() == 0 {
        0
    } else {
        bytes[0] as nat + 256 * le_value(bytes.skip(1))
    }
}

/// The integer in slot `row` of an array of integers: the number that the
/// bytes of the slot hold, in two's complement where the type is signed.
pub open spec fn integer_at(array: PrimitiveArrayView, row: int) -> int {
    let width = array.data_type.byte_width() as int;
    let raw = le_value(array.values.subrange(row * width, row * width + width)) as int;
    if array.data_type.is_signed() && 2 * raw >= place(width as nat) {
        raw - place(width as nat)
    } else {
        raw
    }
}

/// The decimal digits of `n`, as characters.
pub open spec fn digits(n: nat) -> Seq<u8>
    decreases n,
{
    if n < 10 {
        seq![(48 + n) as u8]
    } else {
        digits(n / 10).push((48 + n % 10) as u8)
    }
}

/// `value` in decimal, with a minus sign where it is negative.
pub open spec fn decimal(value: int) -> Seq<u8> {
    if value < 0 {
        seq![45u8] + digits((-value) as nat)
    } else {
        digits(value as nat)
    }
}

/// Whether slot `row` of `array` holds a value.
pub open spec fn valid_at(array: ArrayView, row: int) -> bool {
    match array {
        ArrayView::Boolean(a) => a.validity[row],
        ArrayView::Primitive(a) => a.validity[row],
        ArrayView::Binary(a) => a.validity[row],
        ArrayView::List { validity, .. } => validity[row],
        ArrayView::FixedSizeList { validity, .. } => validity[row],
        ArrayView::Struct { validity, .. } => validity[row],
        ArrayView::Union { .. } => true,
        ArrayView::Dictionary { keys, .. } => keys.validity[row],
    }
}

/// A comma and a space.
pub open spec fn separator() -> Seq<u8> {
    seq![44u8, 32u8]
}

/// The text of slot `row` of `array`.
pub open spec fn cell_bytes(array: ArrayView, row: int) -> Seq<u8>
    decreases array, 0nat, 0nat,
{
    if !valid_at(array, row) {
        Seq::empty()
    } else {
        match array {
            ArrayView::Boolean(a) => if a.values[row] {
                seq![116u8, 114u8, 117u8, 101u8]
            } else {
                seq![102u8, 97u8, 108u8, 115u8, 101u8]
            },
            ArrayView::Primitive(a) => decimal(integer_at(a, row)),
            ArrayView::Binary(a) => a.values.subrange(a.offsets[row] as int, a.offsets[row + 1] as int),
            ArrayView::List { offsets, values, .. } => seq![91u8] + items(
                *values,
                offsets[row] as int,
                offsets[row + 1] as int,
            ) + seq![93u8],
            ArrayView::FixedSizeList { size, values, .. } => seq![91u8] + items(
                *values,
                row * size,
                row * size + size,
            ) + seq![93u8],
            ArrayView::Struct { values, .. } => seq![123u8] + members(values, row, values.len()) + seq![
                125u8,
            ],
            ArrayView::Union { types, offsets, fields } => {
                let child = types[row] as int;
                let slot = match offsets {
                    Some(offsets) => offsets[row] as int,
                    None => row,
                };
                if 0 <= child < fields.len() && 0 <= slot < fields[child].len() {
                    cell_bytes(fields[child], slot)
                } else {
                    Seq::empty()
                }
            },
            ArrayView::Dictionary { keys, values } => entry(values, integer_at(keys, row), values.len()),
        }
    }
}

/// The texts of the slots of `array` from `start` up to `end`, separated.
pub open spec fn items(array: ArrayView, start: int, end: int) -> Seq<u8>
    decreases array, 1nat, end - start,
{
    if end <= start {
        Seq::empty()
    } else if end - 1 == start {
        cell_bytes(array, start)
    } else {
        items(array, start, end - 1) + separator() + cell_bytes(array, end - 1)
    }
}

/// The texts of slot `row` of the first `upto` of `arrays`, separated.
pub open spec fn members(arrays: Seq<ArrayView>, row: int, upto: nat) -> Seq<u8>
    decreases arrays, 1nat, upto,
{
    if upto == 0 || upto > arrays.len() {
        Seq::empty()
    } else if upto == 1 {
        cell_bytes(arrays[0], row)
    } else {
        members(arrays, row, (upto - 1) as nat) + separator() + cell_bytes(arrays[upto - 1], row)
    }
}

/// The number of slots of the first `upto` of `segments` together.
pub open spec fn slots_before(segments: Seq<ArrayView>, upto: nat) -> nat
    decreases upto,
{
    if upto == 0 || upto > segments.len() {
        0
    } else {
        slots_before(segments, (upto - 1) as nat) + segments[upto - 1].len()
    }
}

/// The text of slot `key` of the first `upto` of `segments` taken as one
/// array; nothing where there is no such slot.
pub open spec fn entry(segments: Seq<ArrayView>, key: int, upto: nat) -> Seq<u8>
    decreases segments, 1nat, upto,
{
    if upto == 0 || upto > segments.len() {
        Seq::empty()
    } else {
        let before = slots_before(segments, (upto - 1) as nat);
        if before <= key < before + segments[upto - 1].len() {
            cell_bytes(segments[upto - 1], key - before)
        } else {
            entry(segments, key, (upto - 1) as nat)
        }
    }
}

/// The number that some bytes hold is below the place after them.
pub proof fn lemma_le_value_bound(bytes: Seq<u8>)
    ensures
        le_value(bytes) < place(bytes.len()),
    decreases bytes.len(),
{
    if bytes.len() > 0 {
        lemma_le_value_bound(bytes.skip(1));
    }
}

/// The places after one to eight bytes.
pub proof fn lemma_places()
    ensures
        place(0) == 1,
        place(1) == 0x100,
        place(2) == 0x1_0000,
        place(3) == 0x100_0000,
        place(4) == 0x1_0000_0000,
        place(5) == 0x100_0000_0000,
        place(6) == 0x1_0000_0000_0000,
        place(7) == 0x100_0000_0000_0000,
        place(8) == 0x1_0000_0000_0000_0000,
{
    reveal_with_fuel(place, 10);
}

/// The number that at most eight bytes hold, least significant byte first.
pub fn read_le(bytes: &[u8]) -> (value: u64)
    requires
        bytes@.len() <= 8,
    ensures
        value == le_value(bytes@),
{
    let mut value: u64 = 0;
    let mut i: usize = bytes.len();
    proof {
        assert(bytes@.subrange(i as int, bytes@.len() as int) =~= Seq::<u8>::empty());
    }
    while i > 0
        invariant
            i <= bytes@.len() <= 8,
            value == le_value(bytes@.subrange(i as int, bytes@.len() as int)),
        decreases i,
    {
        proof {
            let rest = bytes@.subrange(i as int, bytes@.len() as int);
            let more = bytes@.subrange(i - 1, bytes@.len() as int);
            lemma_le_value_bound(rest);
            lemma_places();
            assert(more.skip(1) =~= rest);
            assert(rest.len() <= 7);
            assert(place(rest.len()) <= place(7)) by {
                reveal_with_fuel(place, 10);
            }
        }
        i = i - 1;
        value = value * 256 + bytes[i] as u64;
    }
    proof {
        assert(bytes@.subrange(0, bytes@.len() as int) =~= bytes@);
    }
    value
}

/// Appends the decimal digits of `n` to `out`.
pub fn push_digits(n: u64, out: &mut Vec<u8>)
    ensures
        final(out)@ == old(out)@ + digits(n as nat),
    decreases n,
{
    if n >= 10 {
        push_digits(n / 10, out);
    }
    out.push(48 + (n % 10) as u8);
    proof {
        assert(out@ =~= old(out)@ + digits(n as nat));
    }
}

/// The largest number that `width` bytes hold.
fn largest(width: usize) -> (out: u64)
    requires
        width == 1 || width == 2 || width == 4 || width == 8,
    ensures
        out == place(width as nat) - 1,
{
    proof {
        lemma_places();
    }
    if width == 1 {
        0xff
    } else if width == 2 {
        0xffff
    } else if width == 4 {
        0xffff_ffff
    } else {
        0xffff_ffff_ffff_ffff
    }
}

/// The number that the bytes of slot `row` of `array` hold, before any sign
/// is read into it.
pub fn raw_at(array: &PrimitiveArray, row: usize) -> (raw: u64)
    requires
        array.wf(),
        row < array.spec_len(),
    ensures
        raw == le_value(
            array.values@.subrange(
                row * array.data_type.byte_width(),
                row * array.data_type.byte_width() + array.data_type.byte_width(),
            ),
        ),
        raw < place(array.data_type.byte_width() as nat),
{
    let width = array.data_type.byte_width();
    proof {
        assert(array.values@.len() == array.values.len());
        assert(0 <= row * width && row * width + width <= array.values@.len()) by (nonlinear_arith)
            requires
                0 <= row < array.values@.len() / (width as nat),
                width > 0,
        ;
        lemma_le_value_bound(array.values@.subrange(row * width, row * width + width));
    }
    read_le(slice_subrange(array.values.as_slice(), row * width, row * width + width))
}

/// Appends the integer in slot `row` of `array`, in decimal, to `out`.
pub fn push_integer(array: &PrimitiveArray, row: usize, out: &mut Vec<u8>)
    requires
        array.wf(),
        row < array.spec_len(),
    ensures
        final(out)@ == old(out)@ + decimal(integer_at(array@, row as int)),
{
    let width = array.data_type.byte_width();
    let raw = raw_at(array, row);
    let top = largest(width);
    if array.data_type.is_signed() && raw > top / 2 {
        let magnitude: u64 = (top - raw) + 1;
        out.push(45u8);
        push_digits(magnitude, out);
        proof {
            assert(out@ =~= old(out)@ + (seq![45u8] + digits(magnitude as nat)));
        }
    } else {
        push_digits(raw, out);
    }
}

/// Whether slot `row` of `array` holds a value.
pub fn is_valid(array: &Array, row: usize) -> (b: bool)
    requires
        array.wf(),
        row < array@.len(),
    ensures
        b == valid_at(array@, row as int),
{
    let validity = match array {
        Array::Boolean(a) => &a.validity,
        Array::Primitive(a) => &a.validity,
        Array::Binary(a) => &a.validity,
        Array::List(a) => &a.validity,
        Array::FixedSizeList(a) => &a.validity,
        Array::Struct(a) => &a.validity,
        Array::Union(_) => {
            return true;
        },
        Array::Dictionary(a) => &a.keys.validity,
    };
    match validity {
        Some(bitmap) => bitmap.get(row),
        None => true,
    }
}

/// The slot of a dictionary that `key` selects lies in segment `at`, where
/// that segment holds it.
pub proof fn lemma_entry_found(segments: Seq<ArrayView>, key: int, at: nat, upto: nat)
    requires
        at < upto <= segments.len(),
        slots_before(segments, at) <= key < slots_before(segments, at) + segments[at as int].len(),
    ensures
        entry(segments, key, upto) == cell_bytes(segments[at as int], key - slots_before(segments, at)),
    decreases upto,
{
    if upto > at + 1 {
        lemma_entry_found(segments, key, at, (upto - 1) as nat);
        lemma_slots_grow(segments, at + 1, (upto - 1) as nat);
    }
}

/// The more segments, the more slots.
pub proof fn lemma_slots_grow(segments: Seq<ArrayView>, at: nat, upto: nat)
    requires
        at <= upto <= segments.len(),
    ensures
        slots_before(segments, at) <= slots_before(segments, upto),
    decreases upto,
{
    if at < upto {
        lemma_slots_grow(segments, at, (upto - 1) as nat);
    }
}

/// A key at or beyond the number of slots of a dictionary selects nothing.
pub proof fn lemma_entry_missing(segments: Seq<ArrayView>, key: int, upto: nat)
    requires
        upto <= segments.len(),
        key < 0 || slots_before(segments, upto) <= key,
    ensures
        entry(segments, key, upto) == Seq::<u8>::empty(),
    decreases upto,
{
    if upto > 0 {
        lemma_entry_missing(segments, key, (upto - 1) as nat);
    }
}

/// Appends the text of the slot of a dictionary that `key` selects to `out`.
pub fn write_entry(segments: &Vec<Arc<Array>>, key: u64, out: &mut Vec<u8>)
    requires
        forall|i: int| 0 <= i < segments@.len() ==> (#[trigger] segments@[i]).wf(),
    ensures
        final(out)@ == old(out)@ + entry(
            crate::io::ipc::dictionaries::segment_views(segments@),
            key as int,
            segments@.len(),
        ),
    decreases segments, 1nat, 0nat,
{
    let ghost views = crate::io::ipc::dictionaries::segment_views(segments@);
    let mut before: u64 = 0;
    let mut at: usize = 0;
    while at < segments.len()
        invariant
            at <= segments.len(),
            views == crate::io::ipc::dictionaries::segment_views(segments@),
            forall|i: int| 0 <= i < segments@.len() ==> (#[trigger] segments@[i]).wf(),
            before == slots_before(views, at as nat),
            before <= key,
            out@ == old(out)@,
        decreases segments.len() - at,
    {
        let length = segments[at].len();
        proof {
            crate::io::ipc::round_trip::lemma_len_addressable(&*segments@[at as int]);
        }
        if key - before < length as u64 {
            proof {
                lemma_entry_found(views, key as int, at as nat, segments@.len());
            }
            write_cell(&segments[at], (key - before) as usize, out);
            return;
        }
        before = before + length as u64;
        at = at + 1;
    }
    proof {
        lemma_entry_missing(views, key as int, segments@.len());
        assert(out@ =~= old(out)@ + Seq::<u8>::empty());
    }
}

/// Appends the texts of the slots of `array` from `start` up to `end`,
/// separated, to `out`.
pub fn write_items(array: &Array, start: usize, end: usize, out: &mut Vec<u8>)
    requires
        array.wf(),
        start <= end <= array@.len(),
    ensures
        final(out)@ == old(out)@ + items(array@, start as int, end as int),
    decreases array, 1nat, 0nat,
{
    let mut i: usize = start;
    proof {
        assert(out@ =~= old(out)@ + items(array@, start as int, start as int));
    }
    while i < end
        invariant
            array.wf(),
            start <= i <= end <= array@.len(),
            out@ == old(out)@ + items(array@, start as int, i as int),
        decreases end - i,
    {
        if i > start {
            out.push(44u8);
            out.push(32u8);
        }
        write_cell(array, i, out);
        proof {
            assert(out@ =~= old(out)@ + items(array@, start as int, i + 1));
        }
        i = i + 1;
    }
}

/// Appends the texts of slot `row` of each of `arrays`, separated, to `out`.
pub fn write_members(arrays: &Vec<Array>, row: usize, out: &mut Vec<u8>)
    requires
        forall|i: int| 0 <= i < arrays@.len() ==> (#[trigger] arrays@[i]).wf() && row < arrays@[i]@.len(),
    ensures
        final(out)@ == old(out)@ + members(crate::array::array_views(arrays@), row as int, arrays@.len()),
    decreases arrays, 1nat, 0nat,
{
    let ghost views = crate::array::array_views(arrays@);
    let mut i: usize = 0;
    proof {
        assert(out@ =~= old(out)@ + members(views, row as int, 0));
    }
    while i < arrays.len()
        invariant
            i <= arrays.len(),
            views == crate::array::array_views(arrays@),
            forall|k: int|
                0 <= k < arrays@.len() ==> (#[trigger] arrays@[k]).wf() && row < arrays@[k]@.len(),
            out@ == old(out)@ + members(views, row as int, i as nat),
        decreases arrays.len() - i,
    {
        if i > 0 {
            out.push(44u8);
            out.push(32u8);
        }
        write_cell(&arrays[i], row, out);
        proof {
            assert(views[i as int] == arrays@[i as int]@);
            assert(out@ =~= old(out)@ + members(views, row as int, (i + 1) as nat));
        }
        i = i + 1;
    }
}

/// Appends the text of slot `row` of `array` to `out`.
pub fn write_cell(array: &Array, row: usize, out: &mut Vec<u8>)
    requires
        array.wf(),
        row < array@.len(),
    ensures
        final(out)@ == old(out)@ + cell_bytes(array@, row as int),
    decreases array, 0nat, 0nat,
{
    if !is_valid(array, row) {
        proof {
            assert(out@ =~= old(out)@ + Seq::<u8>::empty());
        }
        return;
    }
    match array {
        Array::Boolean(a) => {
            if a.value(row) {
                out.push(116u8);
                out.push(114u8);
                out.push(117u8);
                out.push(101u8);
            } else {
                out.push(102u8);
                out.push(97u8);
                out.push(108u8);
                out.push(115u8);
                out.push(101u8);
            }
            proof {
                assert(out@ =~= old(out)@ + cell_bytes(array@, row as int));
            }
        },
        Array::Primitive(a) => {
            push_integer(a, row, out);
        },
        Array::Binary(a) => {
            proof {
                lemma_ascending_last(a.offsets@);
                assert(a.offsets@.len() == a.offsets.len());
                assert(a.offsets@[row as int] <= a.offsets@[row + 1]);
            }
            let start: usize = a.offsets[row] as usize;
            let end: usize = a.offsets[row + 1] as usize;
            append(out, slice_subrange(a.values.as_slice(), start, end));
        },
        Array::List(a) => {
            proof {
                lemma_ascending_last(a.offsets@);
                assert(a.offsets@.len() == a.offsets.len());
                assert(a.offsets@[row as int] <= a.offsets@[row + 1]);
            }
            let start: usize = a.offsets[row] as usize;
            let end: usize = a.offsets[row + 1] as usize;
            out.push(91u8);
            write_items(&*a.values, start, end, out);
            out.push(93u8);
            proof {
                assert(out@ =~= old(out)@ + cell_bytes(array@, row as int));
            }
        },
        Array::FixedSizeList(a) => {
            proof {
                assert(row * a.size + a.size <= a.length * a.size) by (nonlinear_arith)
                    requires
                        row < a.length,
                ;
                crate::io::ipc::round_trip::lemma_len_addressable(&*a.values);
            }
            let start: usize = row * a.size;
            out.push(91u8);
            write_items(&*a.values, start, start + a.size, out);
            out.push(93u8);
            proof {
                assert(out@ =~= old(out)@ + cell_bytes(array@, row as int));
            }
        },
        Array::Struct(a) => {
            proof {
                assert forall|i: int| 0 <= i < a.values@.len() implies (#[trigger] a.values@[i]).wf() && row
                    < a.values@[i]@.len() by {
                    assert(array@->Struct_values[i] == a.values@[i]@);
                }
                assert(array@->Struct_values =~= crate::array::array_views(a.values@));
            }
            out.push(123u8);
            write_members(&a.values, row, out);
            out.push(125u8);
            proof {
                assert(out@ =~= old(out)@ + cell_bytes(array@, row as int));
            }
        },
        Array::Union(a) => {
            let child = a.types[row];
            let slot: Option<usize> = match &a.offsets {
                Some(offsets) => if offsets[row] >= 0 {
                    Some(offsets[row] as usize)
                } else {
                    None
                },
                None => Some(row),
            };
            proof {
                assert(out@ =~= old(out)@ + Seq::<u8>::empty());
            }
            if child >= 0 && (child as usize) < a.fields.len() {
                proof {
                    assert(array@->Union_fields[child as int] == a.fields@[child as int]@);
                }
                if let Some(slot) = slot {
                    if slot < a.fields[child as usize].len() {
                        write_cell(&a.fields[child as usize], slot, out);
                    }
                }
            }
        },
        Array::Dictionary(a) => {
            let width = a.keys.data_type.byte_width();
            proof {
                assert(array@->Dictionary_values =~= crate::io::ipc::dictionaries::segment_views(
                    a.values@,
                ));
                assert forall|i: int| 0 <= i < a.values@.len() implies (#[trigger] a.values@[i]).wf() by {
                    assert(array@->Dictionary_values[i] == (*a.values@[i])@);
                }
            }
            let raw = raw_at(&a.keys, row);
            let top = largest(width);
            if a.keys.data_type.is_signed() && raw > top / 2 {
                proof {
                    lemma_entry_missing(array@->Dictionary_values, integer_at(a.keys@, row as int), a.values@.len());
                    assert(out@ =~= old(out)@ + Seq::<u8>::empty());
                }
            } else {
                write_entry(&a.values, raw, out);
            }
        },
    }
}

} // verus!
