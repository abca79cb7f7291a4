//! The recursive array codec, writing side: an array is flattened into field
//! nodes, buffer descriptors and the bytes of a message body, in pre-order.

use crate::array::Array;
use crate::bitmap::{count_unset, lemma_count_unset_zero, Bitmap};
use crate::error::{ArrowError, Unsupported};
use crate::io::ipc::compression::{compress, compressed, decompress, decompressed};
use crate::io::ipc::endianess::ordered;
use crate::io::ipc::{BufferDescriptor, Compression, Node};
use vstd::bytes::{
    lemma_auto_spec_u32_to_from_le_bytes, spec_u32_to_le_bytes, spec_u64_to_le_bytes, u32_to_le_bytes,
    u64_to_le_bytes,
};
use vstd::prelude::*;
use vstd::slice::{slice_subrange, slice_to_vec};

verus! {

/// Whether `packed` stands for `raw` on the wire: it is shorter, the length
/// of `raw` can be said in 64 signed bits, and decoding `packed` gives `raw`
/// back.
pub open spec fn stands_for(codec: Compression, packed: Seq<u8>, raw: Seq<u8>) -> bool {
    packed.len() < raw.len() && raw.len() <= i64::MAX && decompressed(codec, packed) == Some(raw)
}

/// The bytes of a buffer as they stand on the wire, padding not counted.
/// Without compression, and where the buffer is empty, they are the buffer's
/// own. With compression they start with eight bytes, the little-endian length
/// of the buffer, and the compressed bytes follow; where compressing fails,
/// gains nothing or does not decode to the buffer again, the length is -1 and
/// the buffer's own bytes follow.
pub open spec fn wire_bytes(raw: Seq<u8>, compression: Option<Compression>) -> Seq<u8> {
    match compression {
        None => raw,
        Some(codec) => if raw.len() == 0 {
            raw
        } else {
            match compressed(codec, raw) {
                Some(packed) => if stands_for(codec, packed, raw) {
                    spec_u64_to_le_bytes(raw.len() as u64) + packed
                } else {
                    spec_u64_to_le_bytes(u64::MAX) + raw
                },
                None => spec_u64_to_le_bytes(u64::MAX) + raw,
            }
        },
    }
}

/// The number of zero bytes that bring `len` bytes to a multiple of eight.
pub open spec fn padding(len: nat) -> nat {
    ((8 - len % 8) % 8) as nat
}

/// `count` zero bytes.
pub open spec fn zeros(count: nat) -> Seq<u8> {
    Seq::new(count, |i: int| 0u8)
}

/// What a buffer adds to a message body: its bytes on the wire, padded with
/// zeros to a multiple of eight.
pub open spec fn buffer_body(raw: Seq<u8>, compression: Option<Compression>) -> Seq<u8> {
    wire_bytes(raw, compression) + zeros(padding(wire_bytes(raw, compression).len()))
}

/// The descriptor of a buffer written where the body is `base` bytes long.
pub open spec fn buffer_descriptor(raw: Seq<u8>, base: int, compression: Option<Compression>) -> BufferDescriptor {
    BufferDescriptor { offset: base as i64, length: wire_bytes(raw, compression).len() as i64 }
}

/// What `raws`, written one after the other, add to a message body.
pub open spec fn laid_body(raws: Seq<Seq<u8>>, compression: Option<Compression>) -> Seq<u8>
    decreases raws.len(),
{
    if raws.len() == 0 {
        Seq::empty()
    } else {
        laid_body(raws.drop_last(), compression) + buffer_body(raws.last(), compression)
    }
}

/// The descriptors of `raws`, written one after the other where the body is
/// `base` bytes long.
pub open spec fn laid_buffers(raws: Seq<Seq<u8>>, base: int, compression: Option<Compression>) -> Seq<
    BufferDescriptor,
>
    decreases raws.len(),
{
    if raws.len() == 0 {
        Seq::empty()
    } else {
        laid_buffers(raws.drop_last(), base, compression).push(
            buffer_descriptor(
                raws.last(),
                base + laid_body(raws.drop_last(), compression).len(),
                compression,
            ),
        )
    }
}

/// The bytes of the first `length` bits of a bitmap.
pub open spec fn bitmap_raw(bitmap: Bitmap) -> Seq<u8> {
    bitmap.bytes@.subrange(0, (bitmap.length + 7) / 8)
}

/// The bytes of a validity buffer: none where there is no bitmap.
pub open spec fn validity_raw(validity: Option<Bitmap>) -> Seq<u8> {
    match validity {
        Some(bitmap) => bitmap_raw(bitmap),
        None => Seq::empty(),
    }
}

/// The bytes of 32-bit integers, four each, least significant first.
pub open spec fn int32_bytes(values: Seq<i32>) -> Seq<u8> {
    Seq::new(4 * values.len(), |i: int| spec_u32_to_le_bytes(values[i / 4] as u32)[i % 4])
}

/// The bytes of type identifiers, one each.
pub open spec fn type_bytes(types: Seq<i8>) -> Seq<u8> {
    Seq::new(types.len(), |i: int| types[i] as u8)
}

/// The number of nulls that the field node of an array counts.
pub open spec fn null_count_of(validity: Option<Bitmap>) -> nat {
    match validity {
        Some(bitmap) => count_unset(bitmap@),
        None => 0,
    }
}

/// The validity bitmap of `array`, where it has one. A union has none; a
/// dictionary-encoded array has that of its keys.
pub open spec fn validity_of(array: Array) -> Option<Bitmap> {
    match array {
        Array::Boolean(a) => a.validity,
        Array::Primitive(a) => a.validity,
        Array::Binary(a) => a.validity,
        Array::List(a) => a.validity,
        Array::FixedSizeList(a) => a.validity,
        Array::Struct(a) => a.validity,
        Array::Union(_) => None,
        Array::Dictionary(a) => a.keys.validity,
    }
}

/// The field node of `array`.
pub open spec fn own_node(array: Array) -> Node {
    Node { length: array@.len() as i64, null_count: null_count_of(validity_of(array)) as i64 }
}

/// The buffers that `array` has of its own, those of its children not among
/// them, as they are before compression.
pub open spec fn own_raws(array: Array, is_little_endian: bool) -> Seq<Seq<u8>> {
    match array {
        Array::Boolean(a) => seq![validity_raw(a.validity), bitmap_raw(a.values)],
        Array::Primitive(a) => seq![
            validity_raw(a.validity),
            ordered(a.values@, a.data_type.byte_width() as nat, is_little_endian),
        ],
        Array::Binary(a) => seq![
            validity_raw(a.validity),
            ordered(int32_bytes(a.offsets@), 4, is_little_endian),
            a.values@,
        ],
        Array::List(a) => seq![
            validity_raw(a.validity),
            ordered(int32_bytes(a.offsets@), 4, is_little_endian),
        ],
        Array::FixedSizeList(a) => seq![validity_raw(a.validity)],
        Array::Struct(a) => seq![validity_raw(a.validity)],
        Array::Union(a) => match a.offsets {
            Some(offsets) => seq![
                type_bytes(a.types@),
                ordered(int32_bytes(offsets@), 4, is_little_endian),
            ],
            None => seq![type_bytes(a.types@)],
        },
        Array::Dictionary(a) => seq![
            validity_raw(a.keys.validity),
            ordered(a.keys.values@, a.keys.data_type.byte_width() as nat, is_little_endian),
        ],
    }
}

/// The field nodes of `array`, in pre-order.
pub open spec fn encoded_nodes(array: Array) -> Seq<Node>
    decreases array, 1nat,
{
    seq![own_node(array)] + match array {
        Array::List(a) => encoded_nodes(*a.values),
        Array::FixedSizeList(a) => encoded_nodes(*a.values),
        Array::Struct(a) => arrays_nodes(a.values, a.values@.len()),
        Array::Union(a) => arrays_nodes(a.fields, a.fields@.len()),
        _ => Seq::empty(),
    }
}

/// The field nodes of the first `upto` of `arrays`.
pub open spec fn arrays_nodes(arrays: Vec<Array>, upto: nat) -> Seq<Node>
    decreases arrays, upto,
{
    if upto == 0 || upto > arrays@.len() {
        Seq::empty()
    } else {
        arrays_nodes(arrays, (upto - 1) as nat) + encoded_nodes(arrays@[upto - 1])
    }
}

/// What `array` adds to a message body: its own buffers, then its children.
pub open spec fn encoded_body(array: Array, is_little_endian: bool, compression: Option<Compression>) -> Seq<
    u8,
>
    decreases array, 1nat,
{
    laid_body(own_raws(array, is_little_endian), compression) + match array {
        Array::List(a) => encoded_body(*a.values, is_little_endian, compression),
        Array::FixedSizeList(a) => encoded_body(*a.values, is_little_endian, compression),
        Array::Struct(a) => arrays_body(a.values, a.values@.len(), is_little_endian, compression),
        Array::Union(a) => arrays_body(a.fields, a.fields@.len(), is_little_endian, compression),
        _ => Seq::empty(),
    }
}

/// What the first `upto` of `arrays` add to a message body.
pub open spec fn arrays_body(
    arrays: Vec<Array>,
    upto: nat,
    is_little_endian: bool,
    compression: Option<Compression>,
) -> Seq<u8>
    decreases arrays, upto,
{
    if upto == 0 || upto > arrays@.len() {
        Seq::empty()
    } else {
        arrays_body(arrays, (upto - 1) as nat, is_little_endian, compression) + encoded_body(
            arrays@[upto - 1],
            is_little_endian,
            compression,
        )
    }
}

/// The buffer descriptors of `array`, written where the body is `base` bytes
/// long, in pre-order.
pub open spec fn encoded_buffers(
    array: Array,
    base: int,
    is_little_endian: bool,
    compression: Option<Compression>,
) -> Seq<BufferDescriptor>
    decreases array, 1nat,
{
    let own = own_raws(array, is_little_endian);
    let next = base + laid_body(own, compression).len();
    laid_buffers(own, base, compression) + match array {
        Array::List(a) => encoded_buffers(*a.values, next, is_little_endian, compression),
        Array::FixedSizeList(a) => encoded_buffers(*a.values, next, is_little_endian, compression),
        Array::Struct(a) => arrays_buffers(a.values, a.values@.len(), next, is_little_endian, compression),
        Array::Union(a) => arrays_buffers(a.fields, a.fields@.len(), next, is_little_endian, compression),
        _ => Seq::empty(),
    }
}

/// The buffer descriptors of the first `upto` of `arrays`, written one after
/// the other where the body is `base` bytes long.
pub open spec fn arrays_buffers(
    arrays: Vec<Array>,
    upto: nat,
    base: int,
    is_little_endian: bool,
    compression: Option<Compression>,
) -> Seq<BufferDescriptor>
    decreases arrays, upto,
{
    if upto == 0 || upto > arrays@.len() {
        Seq::empty()
    } else {
        arrays_buffers(arrays, (upto - 1) as nat, base, is_little_endian, compression) + encoded_buffers(
            arrays@[upto - 1],
            base + arrays_body(arrays, (upto - 1) as nat, is_little_endian, compression).len(),
            is_little_endian,
            compression,
        )
    }
}

/// Whether the length of `array` and of each array below it can stand in a
/// field node.
pub open spec fn lengths_fit(array: Array) -> bool
    decreases array, 1nat,
{
    &&& array@.len() <= i64::MAX
    &&& match array {
        Array::List(a) => lengths_fit(*a.values),
        Array::FixedSizeList(a) => lengths_fit(*a.values),
        Array::Struct(a) => arrays_lengths_fit(a.values, a.values@.len()),
        Array::Union(a) => arrays_lengths_fit(a.fields, a.fields@.len()),
        _ => true,
    }
}

/// Whether the lengths of the first `upto` of `arrays` can stand in field nodes.
pub open spec fn arrays_lengths_fit(arrays: Vec<Array>, upto: nat) -> bool
    decreases arrays, upto,
{
    if upto == 0 || upto > arrays@.len() {
        true
    } else {
        arrays_lengths_fit(arrays, (upto - 1) as nat) && lengths_fit(arrays@[upto - 1])
    }
}

/// Whether `array` can be written where the body is `base` bytes long: the
/// format says every length and offset in 64 signed bits.
pub open spec fn writable(array: Array, base: int, is_little_endian: bool, compression: Option<Compression>) -> bool {
    lengths_fit(array) && base + encoded_body(array, is_little_endian, compression).len() <= i64::MAX
}

/// Appends `src` to `dst`.
pub fn append(dst: &mut Vec<u8>, src: &[u8])
    ensures
        final(dst)@ == old(dst)@ + src@,
{
    let mut i: usize = 0;
    proof {
        assert(dst@ =~= old(dst)@ + src@.take(0));
    }
    while i < src.len()
        invariant
            i <= src.len(),
            dst@ == old(dst)@ + src@.take(i as int),
        decreases src.len() - i,
    {
        dst.push(src[i]);
        proof {
            assert(src@.take(i + 1) =~= src@.take(i as int).push(src@[i as int]));
            assert(dst@ =~= old(dst)@ + src@.take(i + 1));
        }
        i = i + 1;
    }
    proof {
        assert(src@.take(src@.len() as int) =~= src@);
    }
}

/// Whether two runs of bytes are the same.
pub fn same_bytes(left: &[u8], right: &[u8]) -> (out: bool)
    ensures
        out == (left@ == right@),
{
    if left.len() != right.len() {
        return false;
    }
    let mut i: usize = 0;
    while i < left.len()
        invariant
            i <= left.len(),
            left.len() == right.len(),
            left@.take(i as int) == right@.take(i as int),
        decreases left.len() - i,
    {
        if left[i] != right[i] {
            return false;
        }
        proof {
            assert(left@.take(i + 1) =~= left@.take(i as int).push(left@[i as int]));
            assert(right@.take(i + 1) =~= right@.take(i as int).push(right@[i as int]));
        }
        i = i + 1;
    }
    proof {
        assert(left@.take(i as int) =~= left@);
        assert(right@.take(i as int) =~= right@);
    }
    true
}

/// Whether `packed` may stand for `raw` on the wire: decoding it is tried.
pub fn check_packed(codec: Compression, packed: &[u8], raw: &[u8]) -> (out: bool)
    ensures
        out == stands_for(codec, packed@, raw@),
{
    if packed.len() < raw.len() && raw.len() as u64 <= i64::MAX as u64 {
        match decompress(codec, packed) {
            Some(back) => same_bytes(back.as_slice(), raw),
            None => false,
        }
    } else {
        false
    }
}

/// The bytes of a buffer as they stand on the wire. What was compressed is
/// decoded again before it is used, and the buffer is stored as it is where
/// that does not give it back.
pub fn encode_wire(raw: &[u8], compression: Option<Compression>) -> (wire: Vec<u8>)
    ensures
        wire@ == wire_bytes(raw@, compression),
{
    let codec = match compression {
        None => {
            return slice_to_vec(raw);
        },
        Some(codec) => codec,
    };
    if raw.len() == 0 {
        return slice_to_vec(raw);
    }
    let packed = match compress(codec, raw) {
        Some(packed) => if check_packed(codec, packed.as_slice(), raw) {
            Some(packed)
        } else {
            None
        },
        None => None,
    };
    match packed {
        Some(packed) => {
            let mut wire = u64_to_le_bytes(raw.len() as u64);
            append(&mut wire, packed.as_slice());
            wire
        },
        None => {
            let mut wire = u64_to_le_bytes(u64::MAX);
            append(&mut wire, raw);
            wire
        },
    }
}

/// Writes one buffer at the end of `arrow_data`, pads it, and notes where it
/// lies. Returns whether the body is still within what the format can say;
/// where it is not, nothing is said of what was written.
pub fn write_buffer(
    raw: &[u8],
    buffers: &mut Vec<BufferDescriptor>,
    arrow_data: &mut Vec<u8>,
    compression: Option<Compression>,
) -> (ok: bool)
    ensures
        ok == (old(arrow_data)@.len() + buffer_body(raw@, compression).len() <= i64::MAX),
        ok ==> final(arrow_data)@ == old(arrow_data)@ + buffer_body(raw@, compression),
        ok ==> final(buffers)@ == old(buffers)@.push(
            buffer_descriptor(raw@, old(arrow_data)@.len() as int, compression),
        ),
{
    let wire = encode_wire(raw, compression);
    let limit: u64 = i64::MAX as u64;
    let start: u64 = arrow_data.len() as u64;
    let length: u64 = wire.len() as u64;
    if start > limit || length > limit - start {
        return false;
    }
    let pad: u64 = (8 - length % 8) % 8;
    if pad > limit - start - length {
        return false;
    }
    append(arrow_data, wire.as_slice());
    let ghost written = arrow_data@;
    let mut i: u64 = 0;
    while i < pad
        invariant
            i <= pad,
            arrow_data@ == written + zeros(i as nat),
        decreases pad - i,
    {
        arrow_data.push(0u8);
        proof {
            assert(arrow_data@ =~= written + zeros((i + 1) as nat));
        }
        i = i + 1;
    }
    proof {
        assert(arrow_data@ =~= old(arrow_data)@ + buffer_body(raw@, compression));
    }
    buffers.push(BufferDescriptor { offset: start as i64, length: length as i64 });
    true
}

/// What one, two and three buffers add to a body, and their descriptors,
/// written out.
pub proof fn lemma_laid(a: Seq<u8>, b: Seq<u8>, c: Seq<u8>, base: int, compression: Option<Compression>)
    ensures
        laid_body(seq![a], compression) == buffer_body(a, compression),
        laid_buffers(seq![a], base, compression) == seq![buffer_descriptor(a, base, compression)],
        laid_body(seq![a, b], compression) == buffer_body(a, compression) + buffer_body(b, compression),
        laid_buffers(seq![a, b], base, compression) == seq![
            buffer_descriptor(a, base, compression),
            buffer_descriptor(b, base + buffer_body(a, compression).len(), compression),
        ],
        laid_body(seq![a, b, c], compression) == buffer_body(a, compression) + buffer_body(b, compression)
            + buffer_body(c, compression),
        laid_buffers(seq![a, b, c], base, compression) == seq![
            buffer_descriptor(a, base, compression),
            buffer_descriptor(b, base + buffer_body(a, compression).len(), compression),
            buffer_descriptor(
                c,
                base + buffer_body(a, compression).len() + buffer_body(b, compression).len(),
                compression,
            ),
        ],
{
    let none = Seq::<Seq<u8>>::empty();
    assert(seq![a].drop_last() =~= none);
    assert(seq![a, b].drop_last() =~= seq![a]);
    assert(seq![a, b, c].drop_last() =~= seq![a, b]);
    assert(laid_body(none, compression) =~= Seq::<u8>::empty());
    assert(laid_buffers(none, base, compression) =~= Seq::<BufferDescriptor>::empty());
    assert(laid_body(seq![a], compression) =~= buffer_body(a, compression));
    assert(laid_buffers(seq![a], base, compression) =~= seq![buffer_descriptor(a, base, compression)]);
    assert(laid_body(seq![a, b], compression) =~= buffer_body(a, compression) + buffer_body(
        b,
        compression,
    ));
    assert(laid_buffers(seq![a, b], base, compression) =~= seq![
        buffer_descriptor(a, base, compression),
        buffer_descriptor(b, base + buffer_body(a, compression).len(), compression),
    ]);
    assert(laid_body(seq![a, b, c], compression) =~= buffer_body(a, compression) + buffer_body(
        b,
        compression,
    ) + buffer_body(c, compression));
    assert(laid_buffers(seq![a, b, c], base, compression) =~= seq![
        buffer_descriptor(a, base, compression),
        buffer_descriptor(b, base + buffer_body(a, compression).len(), compression),
        buffer_descriptor(
            c,
            base + buffer_body(a, compression).len() + buffer_body(b, compression).len(),
            compression,
        ),
    ]);
}

/// The bytes of the first `length` bits of `bitmap`.
pub fn bitmap_bytes(bitmap: &Bitmap) -> (out: &[u8])
    requires
        bitmap.wf(),
    ensures
        out@ == bitmap_raw(*bitmap),
{
    let whole: usize = bitmap.length / 8;
    let count: usize = if bitmap.length % 8 == 0 {
        whole
    } else {
        whole + 1
    };
    slice_subrange(bitmap.bytes.as_slice(), 0, count)
}

/// The bytes of 32-bit integers, four each, least significant first.
pub fn int32s_to_bytes(values: &Vec<i32>) -> (out: Vec<u8>)
    ensures
        out@ == int32_bytes(values@),
{
    let mut out: Vec<u8> = Vec::new();
    let mut k: usize = 0;
    while k < values.len()
        invariant
            k <= values.len(),
            out@.len() == 4 * k,
            forall|i: int|
                0 <= i < 4 * k ==> out@[i] == spec_u32_to_le_bytes(values@[i / 4] as u32)[i % 4],
        decreases values.len() - k,
    {
        let word: u32 = #[verifier::truncate] (values[k] as u32);
        let bytes = u32_to_le_bytes(word);
        proof {
            lemma_auto_spec_u32_to_from_le_bytes();
        }
        append(&mut out, bytes.as_slice());
        k = k + 1;
    }
    proof {
        assert(out@ =~= int32_bytes(values@));
    }
    out
}

/// The bytes of type identifiers, one each.
pub fn types_to_bytes(types: &Vec<i8>) -> (out: Vec<u8>)
    ensures
        out@ == type_bytes(types@),
{
    let mut out: Vec<u8> = Vec::with_capacity(types.len());
    let mut i: usize = 0;
    while i < types.len()
        invariant
            i <= types.len(),
            out@.len() == i,
            forall|j: int| 0 <= j < i ==> out@[j] == types@[j] as u8,
        decreases types.len() - i,
    {
        out.push(#[verifier::truncate] (types[i] as u8));
        i = i + 1;
    }
    proof {
        assert(out@ =~= type_bytes(types@));
    }
    out
}

/// Writes a validity buffer: the bitmap where there is one, else nothing.
pub fn write_validity(
    validity: &Option<Bitmap>,
    buffers: &mut Vec<BufferDescriptor>,
    arrow_data: &mut Vec<u8>,
    compression: Option<Compression>,
) -> (ok: bool)
    requires
        validity matches Some(bitmap) ==> bitmap.wf(),
    ensures
        ok == (old(arrow_data)@.len() + buffer_body(validity_raw(*validity), compression).len()
            <= i64::MAX),
        ok ==> final(arrow_data)@ == old(arrow_data)@ + buffer_body(validity_raw(*validity), compression),
        ok ==> final(buffers)@ == old(buffers)@.push(
            buffer_descriptor(validity_raw(*validity), old(arrow_data)@.len() as int, compression),
        ),
{
    match validity {
        Some(bitmap) => write_buffer(bitmap_bytes(bitmap), buffers, arrow_data, compression),
        None => {
            let nothing: Vec<u8> = Vec::new();
            write_buffer(nothing.as_slice(), buffers, arrow_data, compression)
        },
    }
}

/// Writes a buffer of elements of `width` bytes in the byte order of the wire.
pub fn write_ordered(
    bytes: &[u8],
    width: usize,
    buffers: &mut Vec<BufferDescriptor>,
    arrow_data: &mut Vec<u8>,
    is_little_endian: bool,
    compression: Option<Compression>,
) -> (ok: bool)
    requires
        width > 0,
        bytes@.len() % (width as nat) == 0,
    ensures
        ok == (old(arrow_data)@.len() + buffer_body(
            ordered(bytes@, width as nat, is_little_endian),
            compression,
        ).len() <= i64::MAX),
        ok ==> final(arrow_data)@ == old(arrow_data)@ + buffer_body(
            ordered(bytes@, width as nat, is_little_endian),
            compression,
        ),
        ok ==> final(buffers)@ == old(buffers)@.push(
            buffer_descriptor(
                ordered(bytes@, width as nat, is_little_endian),
                old(arrow_data)@.len() as int,
                compression,
            ),
        ),
{
    if is_little_endian {
        write_buffer(bytes, buffers, arrow_data, compression)
    } else {
        let swapped = crate::io::ipc::endianess::swap_bytes(bytes, width);
        write_buffer(swapped.as_slice(), buffers, arrow_data, compression)
    }
}

/// Writes the buffers of an array that has a validity buffer and one more.
fn write_own_two(
    validity: &Option<Bitmap>,
    second: &[u8],
    width: usize,
    buffers: &mut Vec<BufferDescriptor>,
    arrow_data: &mut Vec<u8>,
    is_little_endian: bool,
    compression: Option<Compression>,
) -> (ok: bool)
    requires
        validity matches Some(bitmap) ==> bitmap.wf(),
        width > 0,
        second@.len() % (width as nat) == 0,
    ensures
        ok == (old(arrow_data)@.len() + laid_body(seq![validity_raw(*validity), ordered(second@, width as nat, is_little_endian)], compression).len() <= i64::MAX),
        ok ==> final(arrow_data)@ == old(arrow_data)@ + laid_body(seq![validity_raw(*validity), ordered(second@, width as nat, is_little_endian)], compression),
        ok ==> final(buffers)@ == old(buffers)@ + laid_buffers(
            seq![validity_raw(*validity), ordered(second@, width as nat, is_little_endian)],
            old(arrow_data)@.len() as int,
            compression,
        ),
{
    proof {
        lemma_laid(
            validity_raw(*validity),
            ordered(second@, width as nat, is_little_endian),
            Seq::empty(),
            arrow_data@.len() as int,
            compression,
        );
    }
    if !write_validity(validity, buffers, arrow_data, compression) {
        return false;
    }
    if !write_ordered(second, width, buffers, arrow_data, is_little_endian, compression) {
        return false;
    }
    proof {
        let a = validity_raw(*validity);
        let b = ordered(second@, width as nat, is_little_endian);
        let base = old(arrow_data)@.len() as int;
        assert(arrow_data@ =~= old(arrow_data)@ + (buffer_body(a, compression) + buffer_body(b, compression)));
        assert(buffers@ =~= old(buffers)@ + seq![
            buffer_descriptor(a, base, compression),
            buffer_descriptor(b, base + buffer_body(a, compression).len(), compression),
        ]);
    }
    true
}

/// Writes the buffers of an array of byte strings: validity, offsets, values.
fn write_own_three(
    validity: &Option<Bitmap>,
    offsets: &[u8],
    values: &[u8],
    buffers: &mut Vec<BufferDescriptor>,
    arrow_data: &mut Vec<u8>,
    is_little_endian: bool,
    compression: Option<Compression>,
) -> (ok: bool)
    requires
        validity matches Some(bitmap) ==> bitmap.wf(),
        offsets@.len() % 4 == 0,
    ensures
        ok == (old(arrow_data)@.len() + laid_body(seq![validity_raw(*validity), ordered(offsets@, 4, is_little_endian), values@], compression).len() <= i64::MAX),
        ok ==> final(arrow_data)@ == old(arrow_data)@ + laid_body(seq![validity_raw(*validity), ordered(offsets@, 4, is_little_endian), values@], compression),
        ok ==> final(buffers)@ == old(buffers)@ + laid_buffers(
            seq![validity_raw(*validity), ordered(offsets@, 4, is_little_endian), values@],
            old(arrow_data)@.len() as int,
            compression,
        ),
{
    proof {
        lemma_laid(
            validity_raw(*validity),
            ordered(offsets@, 4, is_little_endian),
            values@,
            arrow_data@.len() as int,
            compression,
        );
    }
    if !write_validity(validity, buffers, arrow_data, compression) {
        return false;
    }
    if !write_ordered(offsets, 4, buffers, arrow_data, is_little_endian, compression) {
        return false;
    }
    if !write_buffer(values, buffers, arrow_data, compression) {
        return false;
    }
    proof {
        let a = validity_raw(*validity);
        let b = ordered(offsets@, 4, is_little_endian);
        let c = values@;
        let base = old(arrow_data)@.len() as int;
        assert(arrow_data@ =~= old(arrow_data)@ + (buffer_body(a, compression) + buffer_body(b, compression)
            + buffer_body(c, compression)));
        assert(buffers@ =~= old(buffers)@ + seq![
            buffer_descriptor(a, base, compression),
            buffer_descriptor(b, base + buffer_body(a, compression).len(), compression),
            buffer_descriptor(
                c,
                base + buffer_body(a, compression).len() + buffer_body(b, compression).len(),
                compression,
            ),
        ]);
    }
    true
}

/// Writes the buffers of a union: its type identifiers and, where it is
/// dense, its offsets.
fn write_own_union(
    types: &[u8],
    offsets: &Option<Vec<u8>>,
    buffers: &mut Vec<BufferDescriptor>,
    arrow_data: &mut Vec<u8>,
    is_little_endian: bool,
    compression: Option<Compression>,
) -> (ok: bool)
    requires
        offsets matches Some(bytes) ==> bytes@.len() % 4 == 0,
    ensures
        ok == (old(arrow_data)@.len() + laid_body(match *offsets {
            Some(bytes) => seq![types@, ordered(bytes@, 4, is_little_endian)],
            None => seq![types@],
        }, compression).len() <= i64::MAX),
        ok ==> final(arrow_data)@ == old(arrow_data)@ + laid_body(match *offsets {
            Some(bytes) => seq![types@, ordered(bytes@, 4, is_little_endian)],
            None => seq![types@],
        }, compression),
        ok ==> final(buffers)@ == old(buffers)@ + laid_buffers(
            match *offsets {
            Some(bytes) => seq![types@, ordered(bytes@, 4, is_little_endian)],
            None => seq![types@],
        },
            old(arrow_data)@.len() as int,
            compression,
        ),
{
    proof {
        let second = match offsets {
            Some(bytes) => ordered(bytes@, 4, is_little_endian),
            None => Seq::empty(),
        };
        lemma_laid(types@, second, Seq::empty(), arrow_data@.len() as int, compression);
    }
    if !write_buffer(types, buffers, arrow_data, compression) {
        return false;
    }
    match offsets {
        None => {
            proof {
                assert(buffers@ =~= old(buffers)@ + seq![
                    buffer_descriptor(types@, old(arrow_data)@.len() as int, compression),
                ]);
            }
            true
        },
        Some(bytes) => {
            if !write_ordered(bytes.as_slice(), 4, buffers, arrow_data, is_little_endian, compression) {
                return false;
            }
            proof {
                let a = types@;
                let b = ordered(bytes@, 4, is_little_endian);
                let base = old(arrow_data)@.len() as int;
                assert(arrow_data@ =~= old(arrow_data)@ + (buffer_body(a, compression) + buffer_body(
                    b,
                    compression,
                )));
                assert(buffers@ =~= old(buffers)@ + seq![
                    buffer_descriptor(a, base, compression),
                    buffer_descriptor(b, base + buffer_body(a, compression).len(), compression),
                ]);
            }
            true
        },
    }
}

/// Writes the buffers that `array` has of its own.
pub fn write_own(
    array: &Array,
    buffers: &mut Vec<BufferDescriptor>,
    arrow_data: &mut Vec<u8>,
    is_little_endian: bool,
    compression: Option<Compression>,
) -> (ok: bool)
    requires
        array.wf(),
    ensures
        ok == (old(arrow_data)@.len() + laid_body(own_raws(*array, is_little_endian), compression).len() <= i64::MAX),
        ok ==> final(arrow_data)@ == old(arrow_data)@ + laid_body(own_raws(*array, is_little_endian), compression),
        ok ==> final(buffers)@ == old(buffers)@ + laid_buffers(
            own_raws(*array, is_little_endian),
            old(arrow_data)@.len() as int,
            compression,
        ),
{
    match array {
        Array::Boolean(a) => {
            proof {
                assert(ordered(bitmap_raw(a.values), 1, is_little_endian) =~= bitmap_raw(a.values)) by {
                    assert(crate::io::ipc::endianess::swapped(bitmap_raw(a.values), 1) =~= bitmap_raw(
                        a.values,
                    ));
                }
            }
            write_own_two(
                &a.validity,
                bitmap_bytes(&a.values),
                1,
                buffers,
                arrow_data,
                is_little_endian,
                compression,
            )
        },
        Array::Primitive(a) => write_own_two(
            &a.validity,
            a.values.as_slice(),
            a.data_type.byte_width(),
            buffers,
            arrow_data,
            is_little_endian,
            compression,
        ),
        Array::Binary(a) => {
            let offsets = int32s_to_bytes(&a.offsets);
            write_own_three(
                &a.validity,
                offsets.as_slice(),
                a.values.as_slice(),
                buffers,
                arrow_data,
                is_little_endian,
                compression,
            )
        },
        Array::List(a) => {
            let offsets = int32s_to_bytes(&a.offsets);
            write_own_two(
                &a.validity,
                offsets.as_slice(),
                4,
                buffers,
                arrow_data,
                is_little_endian,
                compression,
            )
        },
        Array::FixedSizeList(a) => {
            proof {
                lemma_laid(
                    validity_raw(a.validity),
                    Seq::empty(),
                    Seq::empty(),
                    arrow_data@.len() as int,
                    compression,
                );
            }
            let ok = write_validity(&a.validity, buffers, arrow_data, compression);
            proof {
                if ok {
                    assert(buffers@ =~= old(buffers)@ + seq![
                        buffer_descriptor(
                            validity_raw(a.validity),
                            old(arrow_data)@.len() as int,
                            compression,
                        ),
                    ]);
                }
            }
            ok
        },
        Array::Struct(a) => {
            proof {
                lemma_laid(
                    validity_raw(a.validity),
                    Seq::empty(),
                    Seq::empty(),
                    arrow_data@.len() as int,
                    compression,
                );
            }
            let ok = write_validity(&a.validity, buffers, arrow_data, compression);
            proof {
                if ok {
                    assert(buffers@ =~= old(buffers)@ + seq![
                        buffer_descriptor(
                            validity_raw(a.validity),
                            old(arrow_data)@.len() as int,
                            compression,
                        ),
                    ]);
                }
            }
            ok
        },
        Array::Union(a) => {
            let types = types_to_bytes(&a.types);
            let offsets = match &a.offsets {
                Some(offsets) => Some(int32s_to_bytes(offsets)),
                None => None,
            };
            write_own_union(types.as_slice(), &offsets, buffers, arrow_data, is_little_endian, compression)
        },
        Array::Dictionary(a) => write_own_two(
            &a.keys.validity,
            a.keys.values.as_slice(),
            a.keys.data_type.byte_width(),
            buffers,
            arrow_data,
            is_little_endian,
            compression,
        ),
    }
}

/// The validity bitmap of `array`, where it has one.
fn validity(array: &Array) -> (out: &Option<Bitmap>)
    requires
        !(array is Union),
    ensures
        *out == validity_of(*array),
{
    match array {
        Array::Boolean(a) => &a.validity,
        Array::Primitive(a) => &a.validity,
        Array::Binary(a) => &a.validity,
        Array::List(a) => &a.validity,
        Array::FixedSizeList(a) => &a.validity,
        Array::Struct(a) => &a.validity,
        Array::Dictionary(a) => &a.keys.validity,
        Array::Union(_) => vstd::pervasive::unreached(),
    }
}

/// The number of nulls that the field node of `array` counts.
pub fn null_count(array: &Array) -> (count: usize)
    requires
        array.wf(),
    ensures
        count == null_count_of(validity_of(*array)),
        count <= array@.len(),
{
    if let Array::Union(_) = array {
        return 0;
    }
    match validity(array) {
        Some(bitmap) => {
            proof {
                lemma_count_unset_zero(bitmap@);
            }
            bitmap.unset_bits()
        },
        None => 0,
    }
}

/// Appends the field node of `array` to `nodes`. Returns whether the length of
/// the array can stand in a field node.
fn write_node(array: &Array, nodes: &mut Vec<Node>) -> (ok: bool)
    requires
        array.wf(),
    ensures
        ok == (array@.len() <= i64::MAX),
        ok ==> final(nodes)@ == old(nodes)@.push(own_node(*array)),
{
    let length = array.len();
    if length as u64 > i64::MAX as u64 {
        return false;
    }
    let nulls = null_count(array);
    nodes.push(Node { length: length as i64, null_count: nulls as i64 });
    true
}

/// The more arrays are written, the longer the body, and the more lengths
/// have to fit.
pub proof fn lemma_arrays_grow(
    arrays: Vec<Array>,
    at: nat,
    upto: nat,
    is_little_endian: bool,
    compression: Option<Compression>,
)
    requires
        at <= upto <= arrays@.len(),
    ensures
        arrays_body(arrays, at, is_little_endian, compression).len() <= arrays_body(
            arrays,
            upto,
            is_little_endian,
            compression,
        ).len(),
        arrays_lengths_fit(arrays, upto) ==> arrays_lengths_fit(arrays, at),
    decreases upto,
{
    if at < upto {
        lemma_arrays_grow(arrays, at, (upto - 1) as nat, is_little_endian, compression);
    }
}

/// Writes `arrays` one after the other: see `write`.
pub fn write_arrays(
    arrays: &Vec<Array>,
    nodes: &mut Vec<Node>,
    buffers: &mut Vec<BufferDescriptor>,
    arrow_data: &mut Vec<u8>,
    is_little_endian: bool,
    compression: Option<Compression>,
) -> (out: Result<(), ArrowError>)
    requires
        forall|i: int| 0 <= i < arrays@.len() ==> (#[trigger] arrays@[i]).wf(),
    ensures
        out is Ok <==> arrays_lengths_fit(*arrays, arrays@.len()) && old(arrow_data)@.len() + arrays_body(
            *arrays,
            arrays@.len(),
            is_little_endian,
            compression,
        ).len() <= i64::MAX,
        out is Ok ==> {
            &&& final(nodes)@ == old(nodes)@ + arrays_nodes(*arrays, arrays@.len())
            &&& final(buffers)@ == old(buffers)@ + arrays_buffers(
                *arrays,
                arrays@.len(),
                old(arrow_data)@.len() as int,
                is_little_endian,
                compression,
            )
            &&& final(arrow_data)@ == old(arrow_data)@ + arrays_body(*arrays, arrays@.len(), is_little_endian, compression)
        },
        out matches Err(e) ==> e == ArrowError::NotYetImplemented(Unsupported::BodyTooLarge),
    decreases arrays, 0nat,
{
    let ghost base = arrow_data@.len() as int;
    let ghost total = arrays@.len();
    if arrow_data.len() as u64 > i64::MAX as u64 {
        return Err(ArrowError::NotYetImplemented(Unsupported::BodyTooLarge));
    }
    let mut i: usize = 0;
    proof {
        assert(nodes@ =~= old(nodes)@ + arrays_nodes(*arrays, 0));
        assert(buffers@ =~= old(buffers)@ + arrays_buffers(*arrays, 0, base, is_little_endian, compression));
        assert(arrow_data@ =~= old(arrow_data)@ + arrays_body(*arrays, 0, is_little_endian, compression));
    }
    while i < arrays.len()
        invariant
            i <= arrays.len(),
            total == arrays@.len(),
            base == old(arrow_data)@.len(),
            forall|k: int| 0 <= k < arrays@.len() ==> (#[trigger] arrays@[k]).wf(),
            arrays_lengths_fit(*arrays, i as nat),
            base + arrays_body(*arrays, i as nat, is_little_endian, compression).len() <= i64::MAX,
            nodes@ == old(nodes)@ + arrays_nodes(*arrays, i as nat),
            buffers@ == old(buffers)@ + arrays_buffers(*arrays, i as nat, base, is_little_endian, compression),
            arrow_data@ == old(arrow_data)@ + arrays_body(*arrays, i as nat, is_little_endian, compression),
        decreases arrays.len() - i,
    {
        match write(&arrays[i], nodes, buffers, arrow_data, is_little_endian, compression) {
            Err(e) => {
                proof {
                    lemma_arrays_grow(*arrays, (i + 1) as nat, total, is_little_endian, compression);
                }
                return Err(e);
            },
            Ok(_) => {},
        }
        proof {
            let array = arrays@[i as int];
            assert(nodes@ =~= old(nodes)@ + arrays_nodes(*arrays, (i + 1) as nat));
            assert(buffers@ =~= old(buffers)@ + arrays_buffers(
                *arrays,
                (i + 1) as nat,
                base,
                is_little_endian,
                compression,
            ));
            assert(arrow_data@ =~= old(arrow_data)@ + arrays_body(
                *arrays,
                (i + 1) as nat,
                is_little_endian,
                compression,
            ));
        }
        i = i + 1;
    }
    Ok(())
}

/// Flattens `array` onto the ends of `nodes`, `buffers` and `arrow_data`: its
/// field node and its own buffers, then its children, in pre-order. Every
/// buffer is padded to a multiple of eight bytes. It fails where a length or
/// an offset is beyond what the format can say; nothing is then said of what
/// was written.
pub fn write(
    array: &Array,
    nodes: &mut Vec<Node>,
    buffers: &mut Vec<BufferDescriptor>,
    arrow_data: &mut Vec<u8>,
    is_little_endian: bool,
    compression: Option<Compression>,
) -> (out: Result<(), ArrowError>)
    requires
        array.wf(),
    ensures
        out is Ok <==> writable(*array, old(arrow_data)@.len() as int, is_little_endian, compression),
        out is Ok ==> {
            &&& final(nodes)@ == old(nodes)@ + encoded_nodes(*array)
            &&& final(buffers)@ == old(buffers)@ + encoded_buffers(
                *array,
                old(arrow_data)@.len() as int,
                is_little_endian,
                compression,
            )
            &&& final(arrow_data)@ == old(arrow_data)@ + encoded_body(*array, is_little_endian, compression)
        },
        out matches Err(e) ==> e == ArrowError::NotYetImplemented(Unsupported::BodyTooLarge),
    decreases array, 1nat,
{
    let ghost base = arrow_data@.len() as int;
    if !write_node(array, nodes) {
        return Err(ArrowError::NotYetImplemented(Unsupported::BodyTooLarge));
    }
    if !write_own(array, buffers, arrow_data, is_little_endian, compression) {
        return Err(ArrowError::NotYetImplemented(Unsupported::BodyTooLarge));
    }
    match array {
        Array::List(a) => {
            write(&*a.values, nodes, buffers, arrow_data, is_little_endian, compression)?;
        },
        Array::FixedSizeList(a) => {
            write(&*a.values, nodes, buffers, arrow_data, is_little_endian, compression)?;
        },
        Array::Struct(a) => {
            proof {
                assert forall|i: int| 0 <= i < a.values@.len() implies (#[trigger] a.values@[i]).wf() by {
                    assert(array@->Struct_values[i] == a.values@[i]@);
                }
            }
            write_arrays(&a.values, nodes, buffers, arrow_data, is_little_endian, compression)?;
        },
        Array::Union(a) => {
            proof {
                assert forall|i: int| 0 <= i < a.fields@.len() implies (#[trigger] a.fields@[i]).wf() by {
                    assert(array@->Union_fields[i] == a.fields@[i]@);
                }
            }
            write_arrays(&a.fields, nodes, buffers, arrow_data, is_little_endian, compression)?;
        },
        _ => {},
    }
    proof {
        assert(nodes@ =~= old(nodes)@ + encoded_nodes(*array));
        assert(buffers@ =~= old(buffers)@ + encoded_buffers(*array, base, is_little_endian, compression));
        assert(arrow_data@ =~= old(arrow_data)@ + encoded_body(*array, is_little_endian, compression));
    }
    Ok(())
}

} // verus!
