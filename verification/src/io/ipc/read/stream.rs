//! Reading the frames of a stream, in the order they were written: one step
//! for each message, and the end of the stream as the last thing in the bytes.

use crate::error::{ArrowError, OutOfSpec};
use crate::io::ipc::framing::{
    end_of_stream, frame_at, frame_refusal, framed, head_at, lemma_end_round_trip, lemma_frame_round_trip,
    padded, read_metadata, FrameView, Head, HeadView,
};
use crate::io::ipc::write::stream::{frames, Parts, StreamWriter};
use vstd::prelude::*;

verus! {

/// The head of the message of a stream that starts at `position` of `bytes`;
/// none where the end of the stream is marked there, which must be the last
/// thing in the bytes.
pub open spec fn stream_head_at(bytes: Seq<u8>, position: int) -> Result<Option<HeadView>, ArrowError> {
    match head_at(bytes, position) {
        Ok(None) => if position + 8 == bytes.len() {
            Ok(None)
        } else {
            Err(ArrowError::OutOfSpec(OutOfSpec::TrailingData))
        },
        other => other,
    }
}

/// Reads the head of the next message of a stream. It gives none at the end
/// of the stream, and an error where bytes follow the mark of the end.
pub fn read_head<'a>(bytes: &'a [u8], position: usize) -> (out: Result<Option<Head<'a>>, ArrowError>)
    ensures
        match out {
            Ok(Some(head)) => stream_head_at(bytes@, position as int) == Ok::<
                Option<HeadView>,
                ArrowError,
            >(Some(head@)),
            Ok(None) => stream_head_at(bytes@, position as int) == Ok::<Option<HeadView>, ArrowError>(
                None,
            ),
            Err(e) => stream_head_at(bytes@, position as int) == Err::<Option<HeadView>, ArrowError>(e),
        },
{
    match read_metadata(bytes, position)? {
        Some(head) => Ok(Some(head)),
        None => {
            if bytes.len() - position == 8 {
                Ok(None)
            } else {
                Err(ArrowError::OutOfSpec(OutOfSpec::TrailingData))
            }
        },
    }
}

/// The frames of messages are the frame of the first, then the frames of the rest.
pub proof fn lemma_frames_first(messages: Seq<Parts>)
    requires
        messages.len() > 0,
    ensures
        frames(messages) == framed(messages[0].metadata, messages[0].body) + frames(messages.skip(1)),
    decreases messages.len(),
{
    let front = messages.drop_last();
    if messages.len() == 1 {
        assert(front =~= Seq::<Parts>::empty());
        assert(messages.skip(1) =~= Seq::<Parts>::empty());
        assert(frames(front) =~= Seq::<u8>::empty());
        assert(frames(messages.skip(1)) =~= Seq::<u8>::empty());
        assert(frames(messages) =~= framed(messages[0].metadata, messages[0].body) + frames(
            messages.skip(1),
        ));
    } else {
        lemma_frames_first(front);
        assert(front.skip(1) =~= messages.skip(1).drop_last());
        assert(messages.skip(1).last() == messages.last());
        assert(frames(messages) =~= framed(messages[0].metadata, messages[0].body) + frames(
            messages.skip(1),
        ));
    }
}

/// The frames of messages are the frames of the first of them, then the
/// frames of those after.
pub proof fn lemma_frames_split(messages: Seq<Parts>, at: int)
    requires
        0 <= at <= messages.len(),
    ensures
        frames(messages) == frames(messages.take(at)) + frames(messages.skip(at)),
    decreases messages.len(),
{
    if at == messages.len() {
        assert(messages.take(at) =~= messages);
        assert(messages.skip(at) =~= Seq::<Parts>::empty());
        assert(frames(messages.skip(at)) =~= Seq::<u8>::empty());
        assert(frames(messages) =~= frames(messages.take(at)) + frames(messages.skip(at)));
    } else {
        let front = messages.drop_last();
        lemma_frames_split(front, at);
        assert(front.take(at) =~= messages.take(at));
        assert(messages.skip(at).drop_last() =~= front.skip(at));
        assert(messages.skip(at).last() == messages.last());
        assert(frames(messages) =~= frames(messages.take(at)) + frames(messages.skip(at)));
    }
}

/// The position at which message `at` of a stream of `messages` starts.
pub open spec fn position_of(messages: Seq<Parts>, at: int) -> int {
    frames(messages.take(at)).len() as int
}

/// Each message of a stream that was written is read back, as its padded
/// metadata and its padded body, at the position where the message before it
/// ended, and after the last comes the end of the stream: the messages come
/// out in the order they were written, and nothing is left over.
pub proof fn lemma_stream_round_trip(messages: Seq<Parts>, at: int)
    requires
        0 <= at <= messages.len(),
        forall|i: int| 0 <= i < messages.len() ==> frame_refusal(
            (#[trigger] messages[i]).metadata,
            messages[i].body,
        ) is None,
    ensures
        at < messages.len() ==> frame_at(
            frames(messages) + end_of_stream(),
            position_of(messages, at),
            padded(messages[at].body).len() as i64,
        ) == Ok::<Option<FrameView>, ArrowError>(
            Some(
                FrameView {
                    metadata: padded(messages[at].metadata),
                    body: padded(messages[at].body),
                    next: position_of(messages, at + 1),
                },
            ),
        ),
        at < messages.len() ==> stream_head_at(
            frames(messages) + end_of_stream(),
            position_of(messages, at),
        ) is Ok,
        at == messages.len() ==> stream_head_at(
            frames(messages) + end_of_stream(),
            position_of(messages, at),
        ) == Ok::<Option<HeadView>, ArrowError>(None),
{
    let bytes = frames(messages) + end_of_stream();
    let before = frames(messages.take(at));
    let none = Seq::<u8>::empty();
    lemma_frames_split(messages, at);
    vstd::bytes::lemma_auto_spec_u32_to_from_le_bytes();
    if at < messages.len() {
        let rest = messages.skip(at);
        lemma_frames_first(rest);
        let frame = framed(messages[at].metadata, messages[at].body);
        let after = frames(rest.skip(1)) + end_of_stream();
        assert(bytes =~= before + frame + after);
        lemma_frame_round_trip(before, messages[at].metadata, messages[at].body, after);
        lemma_frames_split(messages.take(at + 1), at);
        assert(messages.take(at + 1).take(at) =~= messages.take(at));
        assert(messages.take(at + 1).skip(at) =~= seq![messages[at]]);
        lemma_frames_first(seq![messages[at]]);
        assert(seq![messages[at]].skip(1) =~= Seq::<Parts>::empty());
        assert(frames(Seq::<Parts>::empty()) =~= none);
    } else {
        assert(messages.take(at) =~= messages);
        assert(bytes =~= before + end_of_stream() + none);
        lemma_end_round_trip(before, none);
    }
}

/// What a writer has written and finished is read back message by message:
/// each message at the position where the one before it ended, as its padded
/// metadata and its padded body, and after the last the end of the stream,
/// with nothing behind it.
pub proof fn lemma_written_is_read_back(writer: StreamWriter, at: int)
    requires
        writer.wf(),
        writer.state is Finished,
        0 <= at <= writer.written@.len(),
    ensures
        at < writer.written@.len() ==> frame_at(
            writer.bytes@,
            position_of(writer.written@, at),
            padded(writer.written@[at].body).len() as i64,
        ) == Ok::<Option<FrameView>, ArrowError>(
            Some(
                FrameView {
                    metadata: padded(writer.written@[at].metadata),
                    body: padded(writer.written@[at].body),
                    next: position_of(writer.written@, at + 1),
                },
            ),
        ),
        at == writer.written@.len() ==> stream_head_at(writer.bytes@, position_of(writer.written@, at))
            == Ok::<Option<HeadView>, ArrowError>(None),
{
    lemma_stream_round_trip(writer.written@, at);
}

} // verus!
