//! Writing a stream: the schema message, then dictionary and record batch
//! messages in the order they are given, then the mark of the end.

use crate::error::ArrowError;
use crate::io::ipc::framing::{end_of_stream, frame_refusal, framed, write_end_of_stream, write_message};
use vstd::prelude::*;

verus! {

/// Where a writer stands.
#[derive(Debug, Clone, Copy, PartialEq, Eq, Structural)]
pub enum State {
    /// The schema is written, and no batch yet.
    Started,
    /// At least one batch is written.
    Writing,
    /// The end is written: nothing more can be.
    Finished,
}

/// A message as a writer takes it: its metadata and its body.
pub struct Parts {
    pub metadata: Seq<u8>,
    pub body: Seq<u8>,
}

/// The frames of `messages`, one after the other.
pub open spec fn frames(messages: Seq<Parts>) -> Seq<u8>
    decreases messages.len(),
{
    if messages.len() == 0 {
        Seq::empty()
    } else {
        frames(messages.drop_last()) + framed(messages.last().metadata, messages.last().body)
    }
}

/// A writer of a stream into memory. It holds the bytes written so far and,
/// for contracts to speak of, the messages that they are the frames of.
pub struct StreamWriter {
    pub bytes: Vec<u8>,
    pub state: State,
    pub written: Ghost<Seq<Parts>>,
}

impl StreamWriter {
    /// The bytes are the frames of the messages written, with the mark of the
    /// end after them once the writer is finished; and each message written
    /// was one that can be framed.
    pub open spec fn wf(&self) -> bool {
        &&& self.written@.len() >= 1
        &&& self.state is Started ==> self.written@.len() == 1
        &&& forall|i: int|
            0 <= i < self.written@.len() ==> frame_refusal(
                (#[trigger] self.written@[i]).metadata,
                self.written@[i].body,
            ) is None
        &&& self.bytes@ == frames(self.written@) + if self.state is Finished {
            end_of_stream()
        } else {
            Seq::empty()
        }
    }

    /// A writer that has written the schema message. It fails exactly where
    /// the message cannot be framed, with the reason `frame_refusal` gives.
    pub fn start(schema_metadata: &[u8]) -> (out: Result<StreamWriter, ArrowError>)
        ensures
            match out {
                Ok(writer) => {
                    &&& writer.wf()
                    &&& writer.state is Started
                    &&& writer.written@ == seq![
                        Parts { metadata: schema_metadata@, body: Seq::empty() },
                    ]
                },
                Err(e) => frame_refusal(schema_metadata@, Seq::empty()) == Some(e),
            },
            out is Ok <==> frame_refusal(schema_metadata@, Seq::empty()) is None,
    {
        let mut bytes: Vec<u8> = Vec::new();
        let nothing: Vec<u8> = Vec::new();
        proof {
            assert(nothing@ =~= Seq::<u8>::empty());
        }
        write_message(&mut bytes, schema_metadata, nothing.as_slice())?;
        let ghost written = seq![Parts { metadata: schema_metadata@, body: Seq::<u8>::empty() }];
        proof {
            assert(written.drop_last() =~= Seq::<Parts>::empty());
            assert(frames(written.drop_last()) =~= Seq::<u8>::empty());
            assert(bytes@ =~= frames(written) + Seq::<u8>::empty());
        }
        Ok(StreamWriter { bytes, state: State::Started, written: Ghost(written) })
    }

    /// Writes a dictionary or record batch message. It fails, and changes
    /// nothing, exactly where the writer is finished or the message cannot be
    /// framed, with the reason `frame_refusal` gives.
    pub fn write(&mut self, metadata: &[u8], body: &[u8]) -> (out: Result<(), ArrowError>)
        requires
            old(self).wf(),
        ensures
            final(self).wf(),
            match out {
                Ok(_) => {
                    &&& !(old(self).state is Finished)
                    &&& final(self).state is Writing
                    &&& final(self).written@ == old(self).written@.push(
                        Parts { metadata: metadata@, body: body@ },
                    )
                },
                Err(e) => {
                    &&& final(self).bytes@ == old(self).bytes@
                    &&& final(self).state == old(self).state
                    &&& final(self).written@ == old(self).written@
                    &&& old(self).state is Finished ==> e == ArrowError::Finished
                    &&& !(old(self).state is Finished) ==> frame_refusal(metadata@, body@) == Some(e)
                },
            },
            out is Ok <==> !(old(self).state is Finished) && frame_refusal(metadata@, body@) is None,
    {
        if let State::Finished = self.state {
            return Err(ArrowError::Finished);
        }
        write_message(&mut self.bytes, metadata, body)?;
        proof {
            let before = self.written@;
            let now = before.push(Parts { metadata: metadata@, body: body@ });
            assert(now.drop_last() =~= before);
            assert(self.bytes@ =~= frames(now) + Seq::<u8>::empty());
            self.written@ = now;
        }
        self.state = State::Writing;
        Ok(())
    }

    /// Writes the mark of the end. It fails, and changes nothing, where the
    /// writer is finished already.
    pub fn finish(&mut self) -> (out: Result<(), ArrowError>)
        requires
            old(self).wf(),
        ensures
            final(self).wf(),
            match out {
                Ok(_) => {
                    &&& !(old(self).state is Finished)
                    &&& final(self).state is Finished
                    &&& final(self).written@ == old(self).written@
                },
                Err(e) => {
                    &&& final(self).bytes@ == old(self).bytes@
                    &&& final(self).written@ == old(self).written@
                    &&& old(self).state is Finished
                    &&& final(self).state is Finished
                    &&& e == ArrowError::Finished
                },
            },
    {
        if let State::Finished = self.state {
            return Err(ArrowError::Finished);
        }
        write_end_of_stream(&mut self.bytes);
        self.state = State::Finished;
        proof {
            assert(self.bytes@ =~= frames(self.written@) + end_of_stream());
        }
        Ok(())
    }

    /// The bytes written so far.
    pub fn into_inner(self) -> (bytes: Vec<u8>)
        ensures
            bytes == self.bytes,
    {
        self.bytes
    }
}

} // verus!
