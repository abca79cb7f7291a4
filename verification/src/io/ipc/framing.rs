//! Message frames: a continuation marker, the length of the metadata, the
//! metadata padded to a multiple of eight bytes, and the body padded likewise.
//! A frame whose length is zero ends a stream.
//!
//! The length of a body stands in the metadata of its message. The metadata
//! is not parsed here: a frame is read in two steps, first its metadata, and
//! then, with the length that whoever parses the metadata found in it, its
//! body.

use crate::error::{ArrowError, OutOfSpec, Unsupported};
use crate::io::ipc::write::serialize::{append, padding, zeros};
use crate::io::ipc::CONTINUATION_MARKER;
use vstd::bytes::{
    lemma_auto_spec_u32_to_from_le_bytes, spec_u32_from_le_bytes, spec_u32_to_le_bytes, u32_from_le_bytes,
    u32_to_le_bytes,
};
use vstd::prelude::*;
use vstd::slice::slice_subrange;

verus! {

/// The number of bytes before the metadata of a frame: the marker and the length.
pub const PREFIX_LEN: usize = 8;

/// The continuation marker as a sequence.
pub open spec fn marker() -> Seq<u8> {
    seq![0xffu8, 0xffu8, 0xffu8, 0xffu8]
}

/// The metadata of one message as it stands in a byte source, with its
/// padding, and the position of the body after it.
pub struct Head<'a> {
    pub metadata: &'a [u8],
    pub body_start: usize,
}

/// What the head of a frame holds.
pub struct HeadView {
    pub metadata: Seq<u8>,
    pub body_start: int,
}

impl<'a> View for Head<'a> {
    type V = HeadView;

    open spec fn view(&self) -> HeadView {
        HeadView { metadata: self.metadata@, body_start: self.body_start as int }
    }
}

/// One message as it stands in a byte source: its metadata and its body, both
/// with their padding, and the position after it.
pub struct Frame<'a> {
    pub metadata: &'a [u8],
    pub body: &'a [u8],
    pub next: usize,
}

/// What a frame holds.
pub struct FrameView {
    pub metadata: Seq<u8>,
    pub body: Seq<u8>,
    pub next: int,
}

impl<'a> View for Frame<'a> {
    type V = FrameView;

    open spec fn view(&self) -> FrameView {
        FrameView { metadata: self.metadata@, body: self.body@, next: self.next as int }
    }
}

/// The head of the frame that starts at `position` of `bytes`; none where the
/// end of the stream is marked there.
pub open spec fn head_at(bytes: Seq<u8>, position: int) -> Result<Option<HeadView>, ArrowError> {
    if position + 8 > bytes.len() {
        Err(ArrowError::OutOfSpec(OutOfSpec::Truncated))
    } else if bytes.subrange(position, position + 4) != marker() {
        Err(ArrowError::OutOfSpec(OutOfSpec::InvalidContinuationMarker))
    } else {
        let length = spec_u32_from_le_bytes(bytes.subrange(position + 4, position + 8));
        let start = position + 8;
        if length == 0 {
            Ok(None)
        } else if length > i32::MAX {
            Err(ArrowError::OutOfSpec(OutOfSpec::InvalidLength))
        } else if start + length > bytes.len() {
            Err(ArrowError::OutOfSpec(OutOfSpec::Truncated))
        } else {
            Ok(Some(HeadView { metadata: bytes.subrange(start, start + length), body_start: start + length }))
        }
    }
}

/// The frame of the given head whose metadata declares a body of
/// `body_length` bytes.
pub open spec fn with_body(bytes: Seq<u8>, head: HeadView, body_length: i64) -> Result<FrameView, ArrowError> {
    if body_length < 0 {
        Err(ArrowError::OutOfSpec(OutOfSpec::InvalidLength))
    } else if head.body_start + body_length > bytes.len() {
        Err(ArrowError::OutOfSpec(OutOfSpec::Truncated))
    } else {
        Ok(
            FrameView {
                metadata: head.metadata,
                body: bytes.subrange(head.body_start, head.body_start + body_length),
                next: head.body_start + body_length,
            },
        )
    }
}

/// The frame that starts at `position` of `bytes`, where its metadata
/// declares a body of `body_length` bytes; no frame where the end of the
/// stream is marked there.
pub open spec fn frame_at(bytes: Seq<u8>, position: int, body_length: i64) -> Result<
    Option<FrameView>,
    ArrowError,
> {
    match head_at(bytes, position) {
        Err(e) => Err(e),
        Ok(None) => Ok(None),
        Ok(Some(head)) => match with_body(bytes, head, body_length) {
            Err(e) => Err(e),
            Ok(frame) => Ok(Some(frame)),
        },
    }
}

/// Reads the head of the frame that starts at `position` of `bytes`: the
/// marker, the length and the metadata. It gives no head where the end of the
/// stream is marked there, and an error where the bytes do not hold what the
/// marker and the length announce.
pub fn read_metadata<'a>(bytes: &'a [u8], position: usize) -> (out: Result<Option<Head<'a>>, ArrowError>)
    ensures
        match out {
            Ok(Some(head)) => head_at(bytes@, position as int) == Ok::<Option<HeadView>, ArrowError>(
                Some(head@),
            ),
            Ok(None) => head_at(bytes@, position as int) == Ok::<Option<HeadView>, ArrowError>(None),
            Err(e) => head_at(bytes@, position as int) == Err::<Option<HeadView>, ArrowError>(e),
        },
{
    if position > bytes.len() || bytes.len() - position < 8 {
        return Err(ArrowError::OutOfSpec(OutOfSpec::Truncated));
    }
    let continues = bytes[position] == CONTINUATION_MARKER[0] && bytes[position + 1]
        == CONTINUATION_MARKER[1] && bytes[position + 2] == CONTINUATION_MARKER[2] && bytes[position + 3]
        == CONTINUATION_MARKER[3];
    proof {
        let found = bytes@.subrange(position as int, position + 4);
        assert(found[0] == bytes@[position as int]);
        assert(found[1] == bytes@[position + 1]);
        assert(found[2] == bytes@[position + 2]);
        assert(found[3] == bytes@[position + 3]);
        if continues {
            assert(found =~= marker());
        }
    }
    if !continues {
        return Err(ArrowError::OutOfSpec(OutOfSpec::InvalidContinuationMarker));
    }
    let length: u32 = u32_from_le_bytes(slice_subrange(bytes, position + 4, position + 8));
    let start: usize = position + 8;
    if length == 0 {
        return Ok(None);
    }
    if length > i32::MAX as u32 {
        return Err(ArrowError::OutOfSpec(OutOfSpec::InvalidLength));
    }
    if length as u64 > (bytes.len() - start) as u64 {
        return Err(ArrowError::OutOfSpec(OutOfSpec::Truncated));
    }
    let end: usize = start + length as usize;
    Ok(Some(Head { metadata: slice_subrange(bytes, start, end), body_start: end }))
}

/// Reads the body of the message of `head`, whose metadata declares a body of
/// `body_length` bytes. It is an error where the length is negative or the
/// bytes hold less.
pub fn read_body<'a>(bytes: &'a [u8], head: Head<'a>, body_length: i64) -> (out: Result<
    Frame<'a>,
    ArrowError,
>)
    ensures
        match out {
            Ok(frame) => with_body(bytes@, head@, body_length) == Ok::<FrameView, ArrowError>(frame@),
            Err(e) => with_body(bytes@, head@, body_length) == Err::<FrameView, ArrowError>(e),
        },
{
    if body_length < 0 {
        return Err(ArrowError::OutOfSpec(OutOfSpec::InvalidLength));
    }
    if head.body_start > bytes.len() || body_length as u64 > (bytes.len() - head.body_start) as u64 {
        return Err(ArrowError::OutOfSpec(OutOfSpec::Truncated));
    }
    let next: usize = head.body_start + body_length as usize;
    Ok(Frame { metadata: head.metadata, body: slice_subrange(bytes, head.body_start, next), next })
}

/// Reads the frame that starts at `position` of `bytes`, where the length of
/// its body is known beforehand, as it is from the block of a file.
pub fn read_message<'a>(bytes: &'a [u8], position: usize, body_length: i64) -> (out: Result<
    Option<Frame<'a>>,
    ArrowError,
>)
    ensures
        match out {
            Ok(Some(frame)) => frame_at(bytes@, position as int, body_length) == Ok::<
                Option<FrameView>,
                ArrowError,
            >(Some(frame@)),
            Ok(None) => frame_at(bytes@, position as int, body_length) == Ok::<
                Option<FrameView>,
                ArrowError,
            >(None),
            Err(e) => frame_at(bytes@, position as int, body_length) == Err::<
                Option<FrameView>,
                ArrowError,
            >(e),
        },
{
    match read_metadata(bytes, position)? {
        None => Ok(None),
        Some(head) => {
            let frame = read_body(bytes, head, body_length)?;
            Ok(Some(frame))
        },
    }
}

/// `bytes`, padded with zeros to a multiple of eight.
pub open spec fn padded(bytes: Seq<u8>) -> Seq<u8> {
    bytes + zeros(padding(bytes.len()))
}

/// A message as it stands in a byte sink: the marker, the length of the padded
/// metadata, the padded metadata and the padded body.
pub open spec fn framed(metadata: Seq<u8>, body: Seq<u8>) -> Seq<u8> {
    marker() + spec_u32_to_le_bytes(padded(metadata).len() as u32) + padded(metadata) + padded(body)
}

/// The mark of the end of a stream: the marker and a length of zero.
pub open spec fn end_of_stream() -> Seq<u8> {
    marker() + spec_u32_to_le_bytes(0)
}

/// Why a message cannot be framed, if it cannot: there is no metadata, the
/// padded metadata is longer than its 32-bit signed length can say, or the
/// padded body is longer than the 64-bit signed length in its metadata can say.
pub open spec fn frame_refusal(metadata: Seq<u8>, body: Seq<u8>) -> Option<ArrowError> {
    if metadata.len() == 0 {
        Some(ArrowError::OutOfSpec(OutOfSpec::InvalidLength))
    } else if padded(metadata).len() > i32::MAX {
        Some(ArrowError::NotYetImplemented(Unsupported::MetadataTooLarge))
    } else if padded(body).len() > i64::MAX {
        Some(ArrowError::NotYetImplemented(Unsupported::BodyTooLarge))
    } else {
        None
    }
}

/// The length that the metadata of a message must declare for a body of
/// `length` bytes: the length with its padding, or `None` where that is more
/// than 64 signed bits say.
pub fn padded_length(length: usize) -> (out: Option<i64>)
    ensures
        out == if length + padding(length as nat) > i64::MAX {
            None::<i64>
        } else {
            Some((length + padding(length as nat)) as i64)
        },
{
    let pad: u64 = ((8 - length % 8) % 8) as u64;
    let limit: u64 = i64::MAX as u64;
    if length as u64 > limit - pad {
        None
    } else {
        Some((length as u64 + pad) as i64)
    }
}

/// Appends zeros to `out` until its length from `start` on is a multiple of eight.
pub fn pad_to_eight(out: &mut Vec<u8>, start: usize)
    requires
        start <= old(out)@.len(),
    ensures
        final(out)@ == old(out)@ + zeros(padding((old(out)@.len() - start) as nat)),
{
    let written: usize = out.len() - start;
    let pad: usize = (8 - written % 8) % 8;
    let mut i: usize = 0;
    proof {
        assert(out@ =~= old(out)@ + zeros(0));
    }
    while i < pad
        invariant
            i <= pad,
            out@ == old(out)@ + zeros(i as nat),
        decreases pad - i,
    {
        out.push(0u8);
        proof {
            assert(out@ =~= old(out)@ + zeros((i + 1) as nat));
        }
        i = i + 1;
    }
}

/// Appends the marker and `length` to `out`.
pub fn write_continuation(out: &mut Vec<u8>, length: u32)
    ensures
        final(out)@ == old(out)@ + marker() + spec_u32_to_le_bytes(length),
{
    out.push(CONTINUATION_MARKER[0]);
    out.push(CONTINUATION_MARKER[1]);
    out.push(CONTINUATION_MARKER[2]);
    out.push(CONTINUATION_MARKER[3]);
    let bytes = u32_to_le_bytes(length);
    append(out, bytes.as_slice());
    proof {
        assert(out@ =~= old(out)@ + marker() + spec_u32_to_le_bytes(length));
    }
}

/// Appends the mark of the end of a stream to `out`.
pub fn write_end_of_stream(out: &mut Vec<u8>)
    ensures
        final(out)@ == old(out)@ + end_of_stream(),
{
    write_continuation(out, 0);
    proof {
        assert(out@ =~= old(out)@ + end_of_stream());
    }
}

/// How many bytes a message took in a byte sink: its metadata with the marker,
/// the length and the padding, and its body with its padding.
#[derive(Debug, Clone, Copy, PartialEq, Eq, Structural)]
pub struct Written {
    pub metadata_length: usize,
    pub body_length: usize,
}

/// Appends a message to `out`. It fails, and leaves `out` as it was, exactly
/// where `frame_refusal` gives a reason.
pub fn write_message(out: &mut Vec<u8>, metadata: &[u8], body: &[u8]) -> (result: Result<Written, ArrowError>)
    ensures
        match result {
            Ok(written) => {
                &&& frame_refusal(metadata@, body@) is None
                &&& final(out)@ == old(out)@ + framed(metadata@, body@)
                &&& written.metadata_length == 8 + padded(metadata@).len()
                &&& written.body_length == padded(body@).len()
            },
            Err(e) => final(out)@ == old(out)@ && frame_refusal(metadata@, body@) == Some(e),
        },
{
    if metadata.len() == 0 {
        return Err(ArrowError::OutOfSpec(OutOfSpec::InvalidLength));
    }
    let limit: usize = 0x7fff_fff8;
    if metadata.len() > limit {
        return Err(ArrowError::NotYetImplemented(Unsupported::MetadataTooLarge));
    }
    if padded_length(body.len()).is_none() {
        return Err(ArrowError::NotYetImplemented(Unsupported::BodyTooLarge));
    }
    let pad: usize = (8 - metadata.len() % 8) % 8;
    let length: u32 = (metadata.len() + pad) as u32;
    write_continuation(out, length);
    let start = out.len();
    append(out, metadata);
    pad_to_eight(out, start);
    let middle = out.len();
    append(out, body);
    pad_to_eight(out, middle);
    proof {
        lemma_auto_spec_u32_to_from_le_bytes();
        assert(out@ =~= old(out)@ + framed(metadata@, body@));
    }
    Ok(Written { metadata_length: middle - start + 8, body_length: out.len() - middle })
}

/// A message that was written is read back as its padded metadata and, with
/// the length of its padded body, that body: wherever in the bytes it stands
/// and whatever follows it.
pub proof fn lemma_frame_round_trip(before: Seq<u8>, metadata: Seq<u8>, body: Seq<u8>, after: Seq<u8>)
    requires
        frame_refusal(metadata, body) is None,
    ensures
        frame_at(before + framed(metadata, body) + after, before.len() as int, padded(body).len() as i64)
            == Ok::<Option<FrameView>, ArrowError>(
            Some(
                FrameView {
                    metadata: padded(metadata),
                    body: padded(body),
                    next: (before.len() + framed(metadata, body).len()) as int,
                },
            ),
        ),
{
    lemma_auto_spec_u32_to_from_le_bytes();
    let length = padded(metadata).len() as u32;
    let frame = framed(metadata, body);
    let bytes = before + frame + after;
    let position = before.len() as int;
    assert(bytes.subrange(position, position + 4) =~= marker());
    assert(bytes.subrange(position + 4, position + 8) =~= spec_u32_to_le_bytes(length));
    assert(bytes.subrange(position + 8, position + 8 + length) =~= padded(metadata));
    assert(bytes.subrange(position + 8 + length, position + 8 + length + padded(body).len()) =~= padded(
        body,
    ));
}

/// The end of a stream that was written is read as no frame.
pub proof fn lemma_end_round_trip(before: Seq<u8>, after: Seq<u8>)
    ensures
        head_at(before + end_of_stream() + after, before.len() as int) == Ok::<
            Option<HeadView>,
            ArrowError,
        >(None),
{
    lemma_auto_spec_u32_to_from_le_bytes();
    let bytes = before + end_of_stream() + after;
    let position = before.len() as int;
    assert(bytes.subrange(position, position + 4) =~= marker());
    assert(bytes.subrange(position + 4, position + 8) =~= spec_u32_to_le_bytes(0));
}

} // verus!
