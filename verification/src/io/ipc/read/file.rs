//! Reading a file: finding its footer, and reading the message of a block
//! without reading what comes before it.

use crate::error::{ArrowError, OutOfSpec};
use crate::io::ipc::framing::{
    frame_at, framed, lemma_frame_round_trip, padded, read_message, Frame, FrameView,
};
use crate::io::ipc::read::stream::{lemma_frames_first, lemma_frames_split};
use crate::io::ipc::write::file::{block_places, block_refusal, closing, magic, FileWriter};
use crate::io::ipc::write::stream::{frames, Parts};
use crate::io::ipc::write::serialize::{padding, zeros};
use crate::io::ipc::{Block, ARROW_MAGIC};
use vstd::bytes::{lemma_auto_spec_u32_to_from_le_bytes, spec_u32_from_le_bytes, spec_u32_to_le_bytes, u32_from_le_bytes};
use vstd::prelude::*;
use vstd::slice::slice_subrange;

verus! {

/// The footer of the file that `bytes` hold. The file starts and ends with the
/// magic bytes; the four bytes before the closing magic say how long the
/// footer before them is, and the four bytes before the footer say so too.
pub open spec fn file_footer(bytes: Seq<u8>) -> Result<Seq<u8>, ArrowError> {
    let end = bytes.len() as int;
    if end < 20 {
        Err(ArrowError::OutOfSpec(OutOfSpec::Truncated))
    } else if bytes.subrange(0, 6) != magic() || bytes.subrange(end - 6, end) != magic() {
        Err(ArrowError::OutOfSpec(OutOfSpec::InvalidMagic))
    } else {
        let length = spec_u32_from_le_bytes(bytes.subrange(end - 10, end - 6));
        if length > i32::MAX {
            Err(ArrowError::OutOfSpec(OutOfSpec::InvalidLength))
        } else if 20 + length > end {
            Err(ArrowError::OutOfSpec(OutOfSpec::InvalidFooter))
        } else if spec_u32_from_le_bytes(bytes.subrange(end - 14 - length, end - 10 - length)) != length {
            Err(ArrowError::OutOfSpec(OutOfSpec::InvalidFooter))
        } else {
            Ok(bytes.subrange(end - 10 - length, end - 10))
        }
    }
}

/// Whether the six bytes of `bytes` from `start` on are the magic bytes.
fn is_magic(bytes: &[u8], start: usize) -> (ok: bool)
    requires
        start + 6 <= bytes@.len(),
    ensures
        ok == (bytes@.subrange(start as int, start + 6) == magic()),
{
    let ok = bytes[start] == ARROW_MAGIC[0] && bytes[start + 1] == ARROW_MAGIC[1] && bytes[start + 2]
        == ARROW_MAGIC[2] && bytes[start + 3] == ARROW_MAGIC[3] && bytes[start + 4] == ARROW_MAGIC[4]
        && bytes[start + 5] == ARROW_MAGIC[5];
    proof {
        let found = bytes@.subrange(start as int, start + 6);
        assert(found[0] == bytes@[start as int]);
        assert(found[1] == bytes@[start + 1]);
        assert(found[2] == bytes@[start + 2]);
        assert(found[3] == bytes@[start + 3]);
        assert(found[4] == bytes@[start + 4]);
        assert(found[5] == bytes@[start + 5]);
        if ok {
            assert(found =~= magic());
        }
    }
    ok
}

/// Finds the footer of the file that `bytes` hold.
pub fn read_file_footer<'a>(bytes: &'a [u8]) -> (out: Result<&'a [u8], ArrowError>)
    ensures
        match out {
            Ok(footer) => file_footer(bytes@) == Ok::<Seq<u8>, ArrowError>(footer@),
            Err(e) => file_footer(bytes@) == Err::<Seq<u8>, ArrowError>(e),
        },
{
    let end: usize = bytes.len();
    if end < 20 {
        return Err(ArrowError::OutOfSpec(OutOfSpec::Truncated));
    }
    if !is_magic(bytes, 0) || !is_magic(bytes, end - 6) {
        return Err(ArrowError::OutOfSpec(OutOfSpec::InvalidMagic));
    }
    let length: u32 = u32_from_le_bytes(slice_subrange(bytes, end - 10, end - 6));
    if length > i32::MAX as u32 {
        return Err(ArrowError::OutOfSpec(OutOfSpec::InvalidLength));
    }
    if length as u64 > (end - 20) as u64 {
        return Err(ArrowError::OutOfSpec(OutOfSpec::InvalidFooter));
    }
    let start: usize = end - 10 - length as usize;
    let repeated: u32 = u32_from_le_bytes(slice_subrange(bytes, start - 4, start));
    if repeated != length {
        return Err(ArrowError::OutOfSpec(OutOfSpec::InvalidFooter));
    }
    Ok(slice_subrange(bytes, start, end - 10))
}

/// The message that `block` places within `bytes`: the frame at its offset,
/// with a body as long as the block says, and metadata as long as it says.
pub open spec fn block_frame(bytes: Seq<u8>, block: Block) -> Result<FrameView, ArrowError> {
    if block.offset < 0 {
        Err(ArrowError::OutOfSpec(OutOfSpec::InvalidBlock))
    } else {
        match frame_at(bytes, block.offset as int, block.body_length) {
            Err(e) => Err(e),
            Ok(None) => Err(ArrowError::OutOfSpec(OutOfSpec::InvalidBlock)),
            Ok(Some(frame)) => if 8 + frame.metadata.len() == block.meta_data_length {
                Ok(frame)
            } else {
                Err(ArrowError::OutOfSpec(OutOfSpec::InvalidBlock))
            },
        }
    }
}

/// Reads the message that `block` places within `bytes`, without reading the
/// messages before it.
pub fn read_block<'a>(bytes: &'a [u8], block: Block) -> (out: Result<Frame<'a>, ArrowError>)
    ensures
        match out {
            Ok(frame) => block_frame(bytes@, block) == Ok::<FrameView, ArrowError>(frame@),
            Err(e) => block_frame(bytes@, block) == Err::<FrameView, ArrowError>(e),
        },
{
    if block.offset < 0 {
        return Err(ArrowError::OutOfSpec(OutOfSpec::InvalidBlock));
    }
    if block.offset as u64 > usize::MAX as u64 {
        proof {
            assert(bytes@.len() == bytes.len());
        }
        return Err(ArrowError::OutOfSpec(OutOfSpec::Truncated));
    }
    match read_message(bytes, block.offset as usize, block.body_length)? {
        None => Err(ArrowError::OutOfSpec(OutOfSpec::InvalidBlock)),
        Some(frame) => {
            if block.meta_data_length >= 8 && frame.metadata.len() as u64 == (block.meta_data_length
                - 8) as u64 {
                Ok(frame)
            } else {
                Err(ArrowError::OutOfSpec(OutOfSpec::InvalidBlock))
            }
        },
    }
}

/// Whether the body of `frame` is as long as its metadata was found to
/// declare: a block whose length differs does not describe its message.
pub fn check_body_length(frame: &Frame, declared: i64) -> (out: Result<(), ArrowError>)
    ensures
        out == if frame@.body.len() == declared {
            Ok::<(), ArrowError>(())
        } else {
            Err::<(), ArrowError>(ArrowError::OutOfSpec(OutOfSpec::InvalidBlock))
        },
{
    if declared >= 0 && frame.body.len() as u64 == declared as u64 {
        Ok(())
    } else {
        Err(ArrowError::OutOfSpec(OutOfSpec::InvalidBlock))
    }
}

/// The footer that a file was closed with is found again, whatever messages
/// the file holds.
pub proof fn lemma_footer_round_trip(messages: Seq<u8>, footer: Seq<u8>)
    requires
        footer.len() <= i32::MAX,
    ensures
        file_footer(magic() + messages + closing((6 + messages.len()) as nat, footer)) == Ok::<
            Seq<u8>,
            ArrowError,
        >(footer),
{
    lemma_auto_spec_u32_to_from_le_bytes();
    let length = spec_u32_to_le_bytes(footer.len() as u32);
    let pad = zeros(padding((6 + messages.len()) as nat));
    let bytes = magic() + messages + closing((6 + messages.len()) as nat, footer);
    let end = bytes.len() as int;
    assert(bytes =~= magic() + messages + pad + length + footer + length + magic());
    assert(bytes.subrange(0, 6) =~= magic());
    assert(bytes.subrange(end - 6, end) =~= magic());
    assert(bytes.subrange(end - 10, end - 6) =~= length);
    assert(bytes.subrange(end - 14 - footer.len(), end - 10 - footer.len()) =~= length);
    assert(bytes.subrange(end - 10 - footer.len(), end - 10) =~= footer);
}

/// The footer that a writer closed its file with is found again in the bytes
/// that it wrote.
pub proof fn lemma_written_footer_is_found(writer: FileWriter)
    requires
        writer.wf(),
        writer.state is Finished,
    ensures
        file_footer(writer.bytes@) == Ok::<Seq<u8>, ArrowError>(writer.footer@),
{
    lemma_footer_round_trip(frames(writer.written@), writer.footer@);
}

/// The block that a writer notes for a message places that message: it is
/// read back as its padded metadata and its padded body, whatever comes
/// before and after it in the file. This holds of every message that a
/// writer accepts as a block.
pub proof fn lemma_block_round_trip(before: Seq<u8>, metadata: Seq<u8>, body: Seq<u8>, after: Seq<u8>)
    requires
        block_refusal(before.len(), metadata, body) is None,
    ensures
        block_frame(
            before + framed(metadata, body) + after,
            Block {
                offset: before.len() as i64,
                meta_data_length: (8 + padded(metadata).len()) as i32,
                body_length: padded(body).len() as i64,
            },
        ) == Ok::<FrameView, ArrowError>(
            FrameView {
                metadata: padded(metadata),
                body: padded(body),
                next: (before.len() + framed(metadata, body).len()) as int,
            },
        ),
{
    lemma_frame_round_trip(before, metadata, body, after);
}

/// The block of message `at` of a file places that message: it is read back
/// as its padded metadata and its padded body, whatever closes the file.
pub proof fn lemma_block_places(messages: Seq<Parts>, at: int, block: Block, rest: Seq<u8>)
    requires
        block_places(block, at, messages),
    ensures
        block_frame(magic() + frames(messages) + rest, block) == Ok::<FrameView, ArrowError>(
            FrameView {
                metadata: padded(messages[at].metadata),
                body: padded(messages[at].body),
                next: (6 + frames(messages.take(at + 1)).len()) as int,
            },
        ),
{
    let before = magic() + frames(messages.take(at));
    let after = frames(messages.skip(at).skip(1)) + rest;
    lemma_frames_split(messages, at);
    lemma_frames_first(messages.skip(at));
    lemma_frames_split(messages.take(at + 1), at);
    assert(messages.take(at + 1).take(at) =~= messages.take(at));
    assert(messages.take(at + 1).skip(at) =~= seq![messages[at]]);
    lemma_frames_first(seq![messages[at]]);
    assert(seq![messages[at]].skip(1) =~= Seq::<Parts>::empty());
    assert(frames(Seq::<Parts>::empty()) =~= Seq::<u8>::empty());
    assert(magic() + frames(messages) + rest =~= before + framed(messages[at].metadata, messages[at].body)
        + after);
    lemma_block_round_trip(before, messages[at].metadata, messages[at].body, after);
}

/// Each block that a writer has noted for a record batch places the message
/// of that batch within the bytes written, before the file is closed and
/// after: reading at the block gives the padded metadata and the padded body
/// of the message.
pub proof fn lemma_record_block_is_read_back(writer: FileWriter, i: int)
    requires
        writer.wf(),
        0 <= i < writer.record_blocks@.len(),
    ensures
        block_frame(writer.bytes@, writer.record_blocks@[i]) == Ok::<FrameView, ArrowError>(
            FrameView {
                metadata: padded(writer.written@[writer.record_places@[i]].metadata),
                body: padded(writer.written@[writer.record_places@[i]].body),
                next: (6 + frames(writer.written@.take(writer.record_places@[i] + 1)).len()) as int,
            },
        ),
{
    let rest = if writer.state is Finished {
        closing((6 + frames(writer.written@).len()) as nat, writer.footer@)
    } else {
        Seq::<u8>::empty()
    };
    assert(block_places(writer.record_blocks@[i], writer.record_places@[i], writer.written@));
    lemma_block_places(writer.written@, writer.record_places@[i], writer.record_blocks@[i], rest);
}

/// Each block that a writer has noted for a dictionary batch places the
/// message of that batch within the bytes written.
pub proof fn lemma_dictionary_block_is_read_back(writer: FileWriter, i: int)
    requires
        writer.wf(),
        0 <= i < writer.dictionary_blocks@.len(),
    ensures
        block_frame(writer.bytes@, writer.dictionary_blocks@[i]) == Ok::<FrameView, ArrowError>(
            FrameView {
                metadata: padded(writer.written@[writer.dictionary_places@[i]].metadata),
                body: padded(writer.written@[writer.dictionary_places@[i]].body),
                next: (6 + frames(writer.written@.take(writer.dictionary_places@[i] + 1)).len()) as int,
            },
        ),
{
    let rest = if writer.state is Finished {
        closing((6 + frames(writer.written@).len()) as nat, writer.footer@)
    } else {
        Seq::<u8>::empty()
    };
    assert(block_places(writer.dictionary_blocks@[i], writer.dictionary_places@[i], writer.written@));
    lemma_block_places(writer.written@, writer.dictionary_places@[i], writer.dictionary_blocks@[i], rest);
}

} // verus!
