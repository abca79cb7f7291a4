//! Reading one physical buffer of a message body.

use crate::bitmap::{all_set, bits_of, validity_view, Bitmap};
use crate::error::{ArrowError, OutOfSpec, Unsupported};
use crate::io::ipc::compression::{decompress, decompressed};
use crate::io::ipc::endianess::{ordered, reorder};
use crate::array::offsets_ascend;
use crate::io::ipc::{BufferDescriptor, Compression, Node};
use std::collections::VecDeque;
use vstd::bytes::{spec_u32_from_le_bytes, spec_u64_from_le_bytes, u32_from_le_bytes, u64_from_le_bytes};
use vstd::prelude::*;
use vstd::slice::{slice_subrange, slice_to_vec};

verus! {

/// `out` is what `expected` says: the same error, or a value with that view.
pub open spec fn yields<T: View>(out: Result<T, ArrowError>, expected: Result<T::V, ArrowError>) -> bool {
    match out {
        Ok(value) => expected == Ok::<T::V, ArrowError>(value@),
        Err(e) => expected == Err::<T::V, ArrowError>(e),
    }
}

/// `queue` without its first `count` items; nothing is left where it holds
/// no more than that.
pub open spec fn without<T>(queue: Seq<T>, count: nat) -> Seq<T> {
    if count == 0 {
        queue
    } else if count <= queue.len() {
        queue.skip(count as int)
    } else {
        Seq::empty()
    }
}

/// Taking items off a queue twice takes the sum.
pub proof fn lemma_without_twice<T>(queue: Seq<T>, first: nat, second: nat)
    ensures
        without(without(queue, first), second) == without(queue, first + second),
{
    assert(without(without(queue, first), second) =~= without(queue, first + second));
}

/// The number of slots of the array that `node` describes.
pub open spec fn slot_count(node: Node) -> Result<usize, ArrowError> {
    if node.length < 0 {
        Err(ArrowError::OutOfSpec(OutOfSpec::NegativeLength))
    } else if node.length > usize::MAX {
        Err(ArrowError::NotYetImplemented(Unsupported::LengthBeyondAddressRange))
    } else {
        Ok(node.length as usize)
    }
}

/// The number of slots of the array that `node` describes.
pub fn slots(node: Node) -> (out: Result<usize, ArrowError>)
    ensures
        out == slot_count(node),
{
    if node.length < 0 {
        Err(ArrowError::OutOfSpec(OutOfSpec::NegativeLength))
    } else if node.length as u64 > usize::MAX as u64 {
        Err(ArrowError::NotYetImplemented(Unsupported::LengthBeyondAddressRange))
    } else {
        Ok(node.length as usize)
    }
}

/// The bytes of `body` that `descriptor` points at.
pub open spec fn buffer_region(body: Seq<u8>, descriptor: BufferDescriptor) -> Result<Seq<u8>, ArrowError> {
    if descriptor.offset < 0 || descriptor.length < 0 {
        Err(ArrowError::OutOfSpec(OutOfSpec::NegativeBuffer))
    } else if descriptor.offset + descriptor.length > body.len() {
        Err(ArrowError::OutOfSpec(OutOfSpec::BufferOutOfBounds))
    } else {
        Ok(body.subrange(descriptor.offset as int, descriptor.offset + descriptor.length))
    }
}

/// How far into a body `descriptor` reaches; nowhere, where it is not one
/// that `buffer_region` takes.
pub open spec fn reach(descriptor: BufferDescriptor) -> nat {
    if descriptor.offset < 0 || descriptor.length < 0 {
        0
    } else {
        (descriptor.offset + descriptor.length) as nat
    }
}

/// How far into a body the first `count` of `buffers` reach: the bytes that a
/// reader of them needs to have.
pub open spec fn extent_of(buffers: Seq<BufferDescriptor>, count: nat) -> nat
    decreases count,
{
    if count == 0 {
        0
    } else {
        let before = extent_of(buffers, (count - 1) as nat);
        if count <= buffers.len() && reach(buffers[count - 1]) > before {
            reach(buffers[count - 1])
        } else {
            before
        }
    }
}

/// How far into a body the first `count` of `buffers` reach.
pub fn extent(buffers: &VecDeque<BufferDescriptor>, count: usize) -> (out: u64)
    ensures
        out == extent_of(buffers@, count as nat),
{
    let mut farthest: u64 = 0;
    let mut i: usize = 0;
    while i < count && i < buffers.len()
        invariant
            i <= count,
            i <= buffers@.len(),
            farthest == extent_of(buffers@, i as nat),
        decreases buffers@.len() - i,
    {
        let descriptor = buffers[i];
        if descriptor.offset >= 0 && descriptor.length >= 0 {
            let end: u64 = descriptor.offset as u64 + descriptor.length as u64;
            if end > farthest {
                farthest = end;
            }
        }
        i = i + 1;
    }
    proof {
        lemma_extent_ends(buffers@, i as nat, count as nat);
    }
    farthest
}

/// Beyond the end of the queue the extent grows no more.
pub proof fn lemma_extent_ends(buffers: Seq<BufferDescriptor>, from: nat, count: nat)
    requires
        from <= count,
        from == count || from >= buffers.len(),
    ensures
        extent_of(buffers, count) == extent_of(buffers, from),
    decreases count,
{
    if from < count {
        lemma_extent_ends(buffers, from, (count - 1) as nat);
    }
}

/// The extent of the first `count` descriptors is at least the reach of each.
pub proof fn lemma_extent_covers(buffers: Seq<BufferDescriptor>, count: nat, i: int)
    requires
        0 <= i < count,
        i < buffers.len(),
    ensures
        reach(buffers[i]) <= extent_of(buffers, count),
    decreases count,
{
    if i < count - 1 {
        lemma_extent_covers(buffers, (count - 1) as nat, i);
    }
}

/// The bytes of a body up to the extent of the first `count` descriptors hold
/// what each of those descriptors points at: who reads them needs no more of
/// the body.
pub proof fn lemma_extent_suffices(body: Seq<u8>, buffers: Seq<BufferDescriptor>, count: nat, i: int)
    requires
        0 <= i < count,
        i < buffers.len(),
    ensures
        ({
            let extent = extent_of(buffers, count);
            let start = if extent <= body.len() {
                body.take(extent as int)
            } else {
                body
            };
            buffer_region(start, buffers[i]) == buffer_region(body, buffers[i])
        }),
{
    lemma_extent_covers(buffers, count, i);
    let extent = extent_of(buffers, count);
    let descriptor = buffers[i];
    if extent <= body.len() && descriptor.offset >= 0 && descriptor.length >= 0 {
        let start = body.take(extent as int);
        if descriptor.offset + descriptor.length <= body.len() {
            assert(start.subrange(descriptor.offset as int, descriptor.offset + descriptor.length)
                =~= body.subrange(descriptor.offset as int, descriptor.offset + descriptor.length));
        }
    }
}

/// The content of a buffer whose bytes on the wire are `region`. Without
/// compression it is the region itself. With compression an empty region is an
/// empty buffer; any other starts with eight bytes, the little-endian length of
/// the content, where -1 says that the rest is the content as it is.
pub open spec fn decoded_buffer(region: Seq<u8>, compression: Option<Compression>) -> Result<Seq<u8>, ArrowError> {
    match compression {
        None => Ok(region),
        Some(codec) => if region.len() == 0 {
            Ok(region)
        } else if region.len() < 8 {
            Err(ArrowError::OutOfSpec(OutOfSpec::MissingLengthPrefix))
        } else {
            let declared = spec_u64_from_le_bytes(region.subrange(0, 8));
            let payload = region.subrange(8, region.len() as int);
            if declared == u64::MAX {
                Ok(payload)
            } else if declared > i64::MAX {
                Err(ArrowError::OutOfSpec(OutOfSpec::InvalidLengthPrefix))
            } else {
                match decompressed(codec, payload) {
                    None => Err(ArrowError::OutOfSpec(OutOfSpec::CorruptCompressedData)),
                    Some(raw) => if raw.len() == declared {
                        Ok(raw)
                    } else {
                        Err(ArrowError::OutOfSpec(OutOfSpec::DecompressedLengthMismatch))
                    },
                }
            }
        },
    }
}

/// The content of the buffer of `body` that `descriptor` points at.
pub open spec fn buffer_content(
    body: Seq<u8>,
    descriptor: BufferDescriptor,
    compression: Option<Compression>,
) -> Result<Seq<u8>, ArrowError> {
    match buffer_region(body, descriptor) {
        Err(e) => Err(e),
        Ok(region) => decoded_buffer(region, compression),
    }
}

/// Reads the content of the buffer of `body` that `descriptor` points at.
pub fn read_content(body: &[u8], descriptor: BufferDescriptor, compression: Option<Compression>) -> (out:
    Result<Vec<u8>, ArrowError>)
    ensures
        yields(out, buffer_content(body@, descriptor, compression)),
{
    if descriptor.offset < 0 || descriptor.length < 0 {
        return Err(ArrowError::OutOfSpec(OutOfSpec::NegativeBuffer));
    }
    let total: u64 = body.len() as u64;
    if descriptor.offset as u64 > total || descriptor.length as u64 > total - descriptor.offset as u64 {
        return Err(ArrowError::OutOfSpec(OutOfSpec::BufferOutOfBounds));
    }
    let start: usize = descriptor.offset as usize;
    let length: usize = descriptor.length as usize;
    let region = slice_subrange(body, start, start + length);
    let codec = match compression {
        None => {
            return Ok(slice_to_vec(region));
        },
        Some(codec) => codec,
    };
    if length == 0 {
        return Ok(slice_to_vec(region));
    }
    if length < 8 {
        return Err(ArrowError::OutOfSpec(OutOfSpec::MissingLengthPrefix));
    }
    let declared: u64 = u64_from_le_bytes(slice_subrange(region, 0, 8));
    let payload = slice_subrange(region, 8, length);
    if declared == u64::MAX {
        return Ok(slice_to_vec(payload));
    }
    if declared > i64::MAX as u64 {
        return Err(ArrowError::OutOfSpec(OutOfSpec::InvalidLengthPrefix));
    }
    match decompress(codec, payload) {
        None => Err(ArrowError::OutOfSpec(OutOfSpec::CorruptCompressedData)),
        Some(raw) => if raw.len() as u64 == declared {
            Ok(raw)
        } else {
            Err(ArrowError::OutOfSpec(OutOfSpec::DecompressedLengthMismatch))
        },
    }
}

/// `found`, but where `buffers` holds no descriptor, the error that the
/// buffer called `missing` is not there.
pub open spec fn expecting<T>(
    buffers: Seq<BufferDescriptor>,
    missing: OutOfSpec,
    found: Result<T, ArrowError>,
) -> Result<T, ArrowError> {
    if buffers.len() == 0 {
        Err(ArrowError::OutOfSpec(missing))
    } else {
        found
    }
}

/// Fails where `buffers` holds no descriptor, with the error that the buffer
/// called `missing` is not there.
pub fn expect_buffer(buffers: &VecDeque<BufferDescriptor>, missing: OutOfSpec) -> (out: Result<
    (),
    ArrowError,
>)
    ensures
        out == if buffers@.len() == 0 {
            Err::<(), ArrowError>(ArrowError::OutOfSpec(missing))
        } else {
            Ok::<(), ArrowError>(())
        },
{
    if buffers.len() == 0 {
        Err(ArrowError::OutOfSpec(missing))
    } else {
        Ok(())
    }
}

/// The bitmap of `length` bits that the first of `buffers` holds.
pub open spec fn decode_bitmap(
    buffers: Seq<BufferDescriptor>,
    length: nat,
    body: Seq<u8>,
    compression: Option<Compression>,
) -> Result<Seq<bool>, ArrowError> {
    if buffers.len() == 0 {
        Err(ArrowError::OutOfSpec(OutOfSpec::MissingBuffer))
    } else {
        match buffer_content(body, buffers[0], compression) {
            Err(e) => Err(e),
            Ok(bytes) => if length > bytes.len() * 8 {
                Err(ArrowError::OutOfSpec(OutOfSpec::BufferTooShort))
            } else {
                Ok(bits_of(bytes, length))
            },
        }
    }
}

/// Takes one descriptor off `buffers` and reads its buffer as a bitmap of
/// `length` bits. Bitmaps have no byte order. The descriptor is taken
/// whether or not its buffer can be read.
pub fn read_bitmap(
    buffers: &mut VecDeque<BufferDescriptor>,
    length: usize,
    body: &[u8],
    _is_little_endian: bool,
    compression: Option<Compression>,
) -> (out: Result<Bitmap, ArrowError>)
    ensures
        yields(out, decode_bitmap(old(buffers)@, length as nat, body@, compression)),
        out matches Ok(bitmap) ==> bitmap.wf() && bitmap.length == length && old(buffers)@.len() >= 1 && final(buffers)@ == old(buffers)@.skip(1),
        final(buffers)@ == without(old(buffers)@, 1),
{
    let descriptor = match buffers.pop_front() {
        None => {
            return Err(ArrowError::OutOfSpec(OutOfSpec::MissingBuffer));
        },
        Some(descriptor) => descriptor,
    };
    let bytes = read_content(body, descriptor, compression)?;
    match Bitmap::try_new(bytes, length) {
        None => Err(ArrowError::OutOfSpec(OutOfSpec::BufferTooShort)),
        Some(bitmap) => Ok(bitmap),
    }
}

/// The validity of the array that `node` describes, one flag for each slot.
/// Where the node counts no nulls the buffer is not looked at, and every slot
/// is valid.
pub open spec fn decode_validity(
    buffers: Seq<BufferDescriptor>,
    node: Node,
    body: Seq<u8>,
    compression: Option<Compression>,
) -> Result<Seq<bool>, ArrowError> {
    if buffers.len() == 0 {
        Err(ArrowError::OutOfSpec(OutOfSpec::MissingValidityBuffer))
    } else if node.null_count > 0 {
        decode_bitmap(buffers, node.length as nat, body, compression)
    } else {
        Ok(all_set(node.length as nat))
    }
}

/// Takes the validity buffer's descriptor off `buffers` and reads the buffer
/// where `node` counts any null; where it counts none, no bitmap is given.
/// The descriptor is taken whether or not its buffer can be read.
pub fn read_validity(
    buffers: &mut VecDeque<BufferDescriptor>,
    node: Node,
    body: &[u8],
    is_little_endian: bool,
    compression: Option<Compression>,
) -> (out: Result<Option<Bitmap>, ArrowError>)
    requires
        0 <= node.length <= usize::MAX,
    ensures
        match out {
            Ok(validity) => decode_validity(old(buffers)@, node, body@, compression) == Ok::<
                Seq<bool>,
                ArrowError,
            >(validity_view(validity, node.length as nat)),
            Err(e) => decode_validity(old(buffers)@, node, body@, compression) == Err::<
                Seq<bool>,
                ArrowError,
            >(e),
        },
        out matches Ok(validity) ==> old(buffers)@.len() >= 1 && final(buffers)@ == old(buffers)@.skip(1) && (validity matches Some(
            bitmap,
        ) ==> bitmap.wf() && bitmap.length == node.length),
        out matches Ok(validity) ==> (validity is Some <==> node.null_count > 0),
        final(buffers)@ == without(old(buffers)@, 1),
{
    if buffers.len() == 0 {
        Err(ArrowError::OutOfSpec(OutOfSpec::MissingValidityBuffer))
    } else if node.null_count > 0 {
        let bitmap = read_bitmap(buffers, node.length as usize, body, is_little_endian, compression)?;
        Ok(Some(bitmap))
    } else {
        let _ = buffers.pop_front();
        Ok(None)
    }
}

/// The first `count` elements of `width` bytes each that the first of
/// `buffers` holds, as bytes in little-endian order.
pub open spec fn decode_values(
    buffers: Seq<BufferDescriptor>,
    count: nat,
    width: nat,
    body: Seq<u8>,
    is_little_endian: bool,
    compression: Option<Compression>,
) -> Result<Seq<u8>, ArrowError> {
    if buffers.len() == 0 {
        Err(ArrowError::OutOfSpec(OutOfSpec::MissingBuffer))
    } else {
        match buffer_content(body, buffers[0], compression) {
            Err(e) => Err(e),
            Ok(bytes) => if count * width > bytes.len() {
                Err(ArrowError::OutOfSpec(OutOfSpec::BufferTooShort))
            } else {
                Ok(ordered(bytes.subrange(0, (count * width) as int), width, is_little_endian))
            },
        }
    }
}

/// Takes one descriptor off `buffers` and reads the first `count` elements of
/// `width` bytes of its buffer. The descriptor is taken whether or not
/// its buffer can be read.
pub fn read_values(
    buffers: &mut VecDeque<BufferDescriptor>,
    count: usize,
    width: usize,
    body: &[u8],
    is_little_endian: bool,
    compression: Option<Compression>,
) -> (out: Result<Vec<u8>, ArrowError>)
    requires
        1 <= width <= 8,
    ensures
        yields(
            out,
            decode_values(old(buffers)@, count as nat, width as nat, body@, is_little_endian, compression),
        ),
        out matches Ok(values) ==> values@.len() == count * width && old(buffers)@.len() >= 1 && final(buffers)@ == old(buffers)@.skip(1),
        final(buffers)@ == without(old(buffers)@, 1),
{
    let descriptor = match buffers.pop_front() {
        None => {
            return Err(ArrowError::OutOfSpec(OutOfSpec::MissingBuffer));
        },
        Some(descriptor) => descriptor,
    };
    let mut bytes = read_content(body, descriptor, compression)?;
    proof {
        assert(count * width <= bytes@.len() <==> count <= bytes@.len() / (width as nat))
            by (nonlinear_arith)
            requires
                width > 0,
        ;
    }
    if count > bytes.len() / width {
        return Err(ArrowError::OutOfSpec(OutOfSpec::BufferTooShort));
    }
    bytes.truncate(count * width);
    proof {
        assert(((count * width) as nat) % (width as nat) == 0) by (nonlinear_arith)
            requires
                width > 0,
        ;
    }
    Ok(reorder(bytes, width, is_little_endian))
}

/// The 32-bit integer that four bytes hold, least significant byte first.
pub open spec fn i32_of(bytes: Seq<u8>) -> i32 {
    spec_u32_from_le_bytes(bytes) as i32
}

/// The 32-bit integers that `bytes` hold, four bytes each, least significant first.
pub open spec fn int32s_of(bytes: Seq<u8>) -> Seq<i32> {
    Seq::new(bytes.len() / 4, |k: int| i32_of(bytes.subrange(4 * k, 4 * k + 4)))
}

/// The first `count` 32-bit integers that the first of `buffers` holds.
pub open spec fn decode_int32s(
    buffers: Seq<BufferDescriptor>,
    count: nat,
    body: Seq<u8>,
    is_little_endian: bool,
    compression: Option<Compression>,
) -> Result<Seq<i32>, ArrowError> {
    match decode_values(buffers, count, 4, body, is_little_endian, compression) {
        Err(e) => Err(e),
        Ok(bytes) => Ok(int32s_of(bytes)),
    }
}

/// Takes one descriptor off `buffers` and reads the first `count` 32-bit
/// integers of its buffer. The descriptor is taken whether or not
/// its buffer can be read.
pub fn read_int32s(
    buffers: &mut VecDeque<BufferDescriptor>,
    count: usize,
    body: &[u8],
    is_little_endian: bool,
    compression: Option<Compression>,
) -> (out: Result<Vec<i32>, ArrowError>)
    ensures
        yields(out, decode_int32s(old(buffers)@, count as nat, body@, is_little_endian, compression)),
        out matches Ok(values) ==> values@.len() == count && old(buffers)@.len() >= 1 && final(buffers)@ == old(buffers)@.skip(1),
        final(buffers)@ == without(old(buffers)@, 1),
{
    let bytes = read_values(buffers, count, 4, body, is_little_endian, compression)?;
    let mut values: Vec<i32> = Vec::with_capacity(count);
    let mut k: usize = 0;
    assert(bytes.len() <= usize::MAX);
    while k < count
        invariant
            k <= count,
            bytes@.len() == count * 4,
            count * 4 <= usize::MAX,
            values@.len() == k,
            forall|j: int| 0 <= j < k ==> values@[j] == int32s_of(bytes@)[j],
        decreases count - k,
    {
        let word: u32 = u32_from_le_bytes(slice_subrange(bytes.as_slice(), 4 * k, 4 * k + 4));
        values.push(#[verifier::truncate] (word as i32));
        k = k + 1;
    }
    proof {
        assert(values@ =~= int32s_of(bytes@));
    }
    Ok(values)
}

/// The offsets of an array of `count` slots that the first of `buffers`
/// holds: one more than there are slots, starting at or above zero and never
/// decreasing.
pub open spec fn decode_offsets(
    buffers: Seq<BufferDescriptor>,
    count: nat,
    body: Seq<u8>,
    is_little_endian: bool,
    compression: Option<Compression>,
) -> Result<Seq<i32>, ArrowError> {
    match decode_int32s(buffers, count + 1, body, is_little_endian, compression) {
        Err(e) => Err(e),
        Ok(offsets) => if offsets_ascend(offsets) {
            Ok(offsets)
        } else {
            Err(ArrowError::OutOfSpec(OutOfSpec::InvalidOffsets))
        },
    }
}

/// Whether `offsets` start at or above zero and never decrease.
pub fn check_offsets(offsets: &Vec<i32>) -> (ok: bool)
    ensures
        ok == offsets_ascend(offsets@),
{
    if offsets.len() == 0 || offsets[0] < 0 {
        return false;
    }
    let mut i: usize = 1;
    while i < offsets.len()
        invariant
            1 <= i <= offsets.len(),
            forall|j: int| 0 <= j < i - 1 ==> offsets@[j] <= #[trigger] offsets@[j + 1],
        decreases offsets.len() - i,
    {
        if offsets[i - 1] > offsets[i] {
            proof {
                assert(offsets@[i - 1] > offsets@[(i - 1) + 1]);
            }
            return false;
        }
        i = i + 1;
    }
    true
}

/// Takes one descriptor off `buffers` and reads the offsets of an array of
/// `count` slots. The descriptor is taken whether or not
/// its buffer can be read.
pub fn read_offsets(
    buffers: &mut VecDeque<BufferDescriptor>,
    count: usize,
    body: &[u8],
    is_little_endian: bool,
    compression: Option<Compression>,
) -> (out: Result<Vec<i32>, ArrowError>)
    ensures
        yields(out, decode_offsets(old(buffers)@, count as nat, body@, is_little_endian, compression)),
        out matches Ok(offsets) ==> offsets@.len() == count + 1 && offsets_ascend(offsets@) && old(buffers)@.len() >= 1 && final(buffers)@ == old(buffers)@.skip(1),
        final(buffers)@ == without(old(buffers)@, 1),
{
    if count == usize::MAX {
        // One more offset than slots cannot be addressed, so no buffer can hold them.
        let descriptor = match buffers.pop_front() {
            None => {
                return Err(ArrowError::OutOfSpec(OutOfSpec::MissingBuffer));
            },
            Some(descriptor) => descriptor,
        };
        let bytes = read_content(body, descriptor, compression)?;
        proof {
            assert(bytes.len() <= usize::MAX);
            assert((count + 1) * 4 > bytes@.len());
        }
        return Err(ArrowError::OutOfSpec(OutOfSpec::BufferTooShort));
    }
    let offsets = read_int32s(buffers, count + 1, body, is_little_endian, compression)?;
    if check_offsets(&offsets) {
        Ok(offsets)
    } else {
        Err(ArrowError::OutOfSpec(OutOfSpec::InvalidOffsets))
    }
}

/// The type identifiers that `bytes` hold, one byte each.
pub open spec fn types_of(bytes: Seq<u8>) -> Seq<i8> {
    Seq::new(bytes.len(), |i: int| bytes[i] as i8)
}

/// The type identifiers of a union of `count` slots that the first of
/// `buffers` holds, one byte each.
pub open spec fn decode_types(
    buffers: Seq<BufferDescriptor>,
    count: nat,
    body: Seq<u8>,
    compression: Option<Compression>,
) -> Result<Seq<i8>, ArrowError> {
    match decode_values(buffers, count, 1, body, true, compression) {
        Err(e) => Err(e),
        Ok(bytes) => Ok(types_of(bytes)),
    }
}

/// Takes one descriptor off `buffers` and reads the type identifiers of a
/// union of `count` slots. The descriptor is taken whether or not
/// its buffer can be read.
pub fn read_types(
    buffers: &mut VecDeque<BufferDescriptor>,
    count: usize,
    body: &[u8],
    compression: Option<Compression>,
) -> (out: Result<Vec<i8>, ArrowError>)
    ensures
        yields(out, decode_types(old(buffers)@, count as nat, body@, compression)),
        out matches Ok(types) ==> types@.len() == count && old(buffers)@.len() >= 1 && final(buffers)@ == old(buffers)@.skip(1),
        final(buffers)@ == without(old(buffers)@, 1),
{
    let bytes = read_values(buffers, count, 1, body, true, compression)?;
    let mut types: Vec<i8> = Vec::with_capacity(count);
    let mut i: usize = 0;
    while i < count
        invariant
            i <= count,
            bytes@.len() == count,
            types@.len() == i,
            forall|j: int| 0 <= j < i ==> types@[j] == bytes@[j] as i8,
        decreases count - i,
    {
        types.push(bytes[i] as i8);
        i = i + 1;
    }
    proof {
        assert(types@ =~= types_of(bytes@));
    }
    Ok(types)
}

} // verus!
