//! Writing a file: the magic bytes, the messages of a stream, the footer
//! between two copies of its length, and the magic bytes again.

use crate::error::{ArrowError, OutOfSpec, Unsupported};
use crate::io::ipc::framing::{frame_refusal, pad_to_eight, padded, write_message};
use crate::io::ipc::write::serialize::{append, padding, zeros};
use crate::io::ipc::write::stream::{frames, Parts, State};
use crate::io::ipc::{Block, ARROW_MAGIC};
use vstd::bytes::{spec_u32_to_le_bytes, u32_to_le_bytes};
use vstd::prelude::*;

verus! {

/// The magic bytes as a sequence.
pub open spec fn magic() -> Seq<u8> {
    seq![0x41u8, 0x52u8, 0x52u8, 0x4fu8, 0x57u8, 0x31u8]
}

/// What closes a file whose messages end at `position`: padding to a multiple
/// of eight, the length of the footer, the footer, its length again, and the
/// magic bytes.
pub open spec fn closing(position: nat, footer: Seq<u8>) -> Seq<u8> {
    zeros(padding(position)) + spec_u32_to_le_bytes(footer.len() as u32) + footer + spec_u32_to_le_bytes(
        footer.len() as u32,
    ) + magic()
}

/// Why a message cannot be written as a block of a file whose bytes end at
/// `position`, if it cannot: the offset or the length of the padded body is
/// beyond the 64 signed bits of a block, the length of the metadata with its
/// marker, length field and padding is beyond the 32 signed bits of a block,
/// or there is no metadata.
pub open spec fn block_refusal(position: nat, metadata: Seq<u8>, body: Seq<u8>) -> Option<ArrowError> {
    if position > i64::MAX || padded(body).len() > i64::MAX {
        Some(ArrowError::NotYetImplemented(Unsupported::BodyTooLarge))
    } else if 8 + padded(metadata).len() > i32::MAX {
        Some(ArrowError::NotYetImplemented(Unsupported::MetadataTooLarge))
    } else if metadata.len() == 0 {
        Some(ArrowError::OutOfSpec(OutOfSpec::InvalidLength))
    } else {
        None
    }
}

/// The block of message `at` of a file of `messages`: where the frame of the
/// message starts, behind the magic bytes and the frames before it, and how
/// long its metadata and its body are as they stand there.
pub open spec fn block_of(messages: Seq<Parts>, at: int) -> Block {
    Block {
        offset: (6 + frames(messages.take(at)).len()) as i64,
        meta_data_length: (8 + padded(messages[at].metadata).len()) as i32,
        body_length: padded(messages[at].body).len() as i64,
    }
}

/// Whether `block` is the block of message `place` of a file of `messages`,
/// which is not its schema message and could be written as a block.
pub open spec fn block_places(block: Block, place: int, messages: Seq<Parts>) -> bool {
    &&& 1 <= place < messages.len()
    &&& block == block_of(messages, place)
    &&& block_refusal(
        (6 + frames(messages.take(place)).len()) as nat,
        messages[place].metadata,
        messages[place].body,
    ) is None
}

/// Whether each of `blocks` is the block of the message at its place.
pub open spec fn blocks_place(blocks: Seq<Block>, places: Seq<int>, messages: Seq<Parts>) -> bool {
    &&& places.len() == blocks.len()
    &&& forall|i: int| 0 <= i < blocks.len() ==> block_places(#[trigger] blocks[i], places[i], messages)
}

/// Blocks that place messages place them still when a message comes after,
/// and so does the block of that message.
pub proof fn lemma_blocks_stay(
    blocks: Seq<Block>,
    places: Seq<int>,
    messages: Seq<Parts>,
    next: Parts,
    block: Block,
)
    requires
        blocks_place(blocks, places, messages),
    ensures
        blocks_place(blocks, places, messages.push(next)),
        block_places(block, messages.len() as int, messages.push(next)) ==> blocks_place(
            blocks.push(block),
            places.push(messages.len() as int),
            messages.push(next),
        ),
{
    let more = messages.push(next);
    assert forall|i: int| 0 <= i < blocks.len() implies block_places(
        #[trigger] blocks[i],
        places[i],
        more,
    ) by {
        assert(block_places(blocks[i], places[i], messages));
        assert(more.take(places[i]) =~= messages.take(places[i]));
    }
    if block_places(block, messages.len() as int, more) {
        assert forall|i: int| 0 <= i < blocks.push(block).len() implies block_places(
            #[trigger] blocks.push(block)[i],
            places.push(messages.len() as int)[i],
            more,
        ) by {
            if i < blocks.len() {
                assert(block_places(blocks[i], places[i], more));
            }
        }
    }
}

/// Appends the magic bytes to `out`.
pub fn write_magic(out: &mut Vec<u8>)
    ensures
        final(out)@ == old(out)@ + magic(),
{
    out.push(ARROW_MAGIC[0]);
    out.push(ARROW_MAGIC[1]);
    out.push(ARROW_MAGIC[2]);
    out.push(ARROW_MAGIC[3]);
    out.push(ARROW_MAGIC[4]);
    out.push(ARROW_MAGIC[5]);
    proof {
        assert(out@ =~= old(out)@ + magic());
    }
}

/// A writer of a file into memory. It holds the bytes written so far, where
/// each dictionary batch and each record batch lies in them, and, for
/// contracts to speak of, the messages that the bytes are the frames of.
pub struct FileWriter {
    pub bytes: Vec<u8>,
    pub state: State,
    pub dictionary_blocks: Vec<Block>,
    pub record_blocks: Vec<Block>,
    pub written: Ghost<Seq<Parts>>,
    pub footer: Ghost<Seq<u8>>,
    pub dictionary_places: Ghost<Seq<int>>,
    pub record_places: Ghost<Seq<int>>,
}

impl FileWriter {
    /// The bytes are the magic bytes and the frames of the messages written,
    /// with the closing after them once the writer is finished; and there is
    /// one block for each batch, the schema message having none, which says
    /// where the message of the batch lies.
    pub open spec fn wf(&self) -> bool {
        &&& self.written@.len() == 1 + self.dictionary_blocks@.len() + self.record_blocks@.len()
        &&& blocks_place(self.dictionary_blocks@, self.dictionary_places@, self.written@)
        &&& blocks_place(self.record_blocks@, self.record_places@, self.written@)
        &&& self.state is Started ==> self.written@.len() == 1
        &&& self.state is Finished ==> self.footer@.len() <= i32::MAX
        &&& self.bytes@ == magic() + frames(self.written@) + if self.state is Finished {
            closing((6 + frames(self.written@).len()) as nat, self.footer@)
        } else {
            Seq::empty()
        }
    }

    /// A writer that has written the magic bytes and the schema message. It
    /// fails exactly where the message cannot be framed, with the reason
    /// `frame_refusal` gives.
    pub fn start(schema_metadata: &[u8]) -> (out: Result<FileWriter, ArrowError>)
        ensures
            match out {
                Ok(writer) => {
                    &&& writer.wf()
                    &&& writer.state is Started
                    &&& writer.written@ == seq![
                        Parts { metadata: schema_metadata@, body: Seq::empty() },
                    ]
                },
                Err(e) => frame_refusal(schema_metadata@, Seq::empty()) == Some(e),
            },
            out is Ok <==> frame_refusal(schema_metadata@, Seq::empty()) is None,
    {
        let mut bytes: Vec<u8> = Vec::new();
        write_magic(&mut bytes);
        let nothing: Vec<u8> = Vec::new();
        proof {
            assert(nothing@ =~= Seq::<u8>::empty());
        }
        write_message(&mut bytes, schema_metadata, nothing.as_slice())?;
        let ghost written = seq![Parts { metadata: schema_metadata@, body: Seq::<u8>::empty() }];
        proof {
            assert(written.drop_last() =~= Seq::<Parts>::empty());
            assert(frames(written.drop_last()) =~= Seq::<u8>::empty());
            assert(bytes@ =~= magic() + frames(written) + Seq::<u8>::empty());
        }
        Ok(
            FileWriter {
                bytes,
                state: State::Started,
                dictionary_blocks: Vec::new(),
                record_blocks: Vec::new(),
                written: Ghost(written),
                footer: Ghost(Seq::empty()),
                dictionary_places: Ghost(Seq::empty()),
                record_places: Ghost(Seq::empty()),
            },
        )
    }

    /// Appends a message and says where it lies. It fails, and changes
    /// nothing, exactly where `block_refusal` gives a reason.
    fn write_block(&mut self, metadata: &[u8], body: &[u8]) -> (out: Result<Block, ArrowError>)
        requires
            old(self).wf(),
            !(old(self).state is Finished),
        ensures
            final(self).state == old(self).state,
            final(self).dictionary_blocks == old(self).dictionary_blocks,
            final(self).record_blocks == old(self).record_blocks,
            final(self).footer == old(self).footer,
            final(self).dictionary_places == old(self).dictionary_places,
            final(self).record_places == old(self).record_places,
            match out {
                Ok(block) => {
                    &&& final(self).written@ == old(self).written@.push(
                        Parts { metadata: metadata@, body: body@ },
                    )
                    &&& final(self).bytes@ == magic() + frames(final(self).written@)
                    &&& block == block_of(final(self).written@, old(self).written@.len() as int)
                    &&& block.offset == old(self).bytes@.len()
                    &&& block.meta_data_length == 8 + padded(metadata@).len()
                    &&& block.body_length == padded(body@).len()
                },
                Err(e) => {
                    &&& final(self).bytes@ == old(self).bytes@
                    &&& final(self).written@ == old(self).written@
                    &&& block_refusal(old(self).bytes@.len(), metadata@, body@) == Some(e)
                },
            },
            out is Ok <==> block_refusal(old(self).bytes@.len(), metadata@, body@) is None,
    {
        let limit: u64 = i64::MAX as u64;
        let offset: usize = self.bytes.len();
        if offset as u64 > limit || body.len() as u64 > limit - 7 {
            return Err(ArrowError::NotYetImplemented(Unsupported::BodyTooLarge));
        }
        if metadata.len() > 0x7fff_fff0 {
            return Err(ArrowError::NotYetImplemented(Unsupported::MetadataTooLarge));
        }
        let written = write_message(&mut self.bytes, metadata, body)?;
        proof {
            let before = self.written@;
            let now = before.push(Parts { metadata: metadata@, body: body@ });
            assert(now.drop_last() =~= before);
            assert(now.take(before.len() as int) =~= before);
            assert(self.bytes@ =~= magic() + frames(now));
            self.written@ = now;
        }
        Ok(
            Block {
                offset: offset as i64,
                meta_data_length: written.metadata_length as i32,
                body_length: written.body_length as i64,
            },
        )
    }

    /// Writes a dictionary batch message and notes its block. It fails, and
    /// changes nothing, where the writer is finished or the message cannot be
    /// framed.
    pub fn write_dictionary(&mut self, metadata: &[u8], body: &[u8]) -> (out: Result<(), ArrowError>)
        requires
            old(self).wf(),
        ensures
            final(self).wf(),
            final(self).record_blocks@ == old(self).record_blocks@,
            match out {
                Ok(_) => {
                    &&& final(self).state is Writing
                    &&& final(self).written@ == old(self).written@.push(
                        Parts { metadata: metadata@, body: body@ },
                    )
                    &&& final(self).dictionary_blocks@.len() == old(self).dictionary_blocks@.len() + 1
                    &&& final(self).dictionary_blocks@.last().offset == old(self).bytes@.len()
                },
                Err(e) => {
                    &&& final(self).bytes@ == old(self).bytes@
                    &&& final(self).written@ == old(self).written@
                    &&& final(self).dictionary_blocks@ == old(self).dictionary_blocks@
                    &&& old(self).state is Finished ==> e == ArrowError::Finished
                    &&& !(old(self).state is Finished) ==> block_refusal(
                        old(self).bytes@.len(),
                        metadata@,
                        body@,
                    ) == Some(e)
                },
            },
            out is Ok <==> !(old(self).state is Finished) && block_refusal(
                old(self).bytes@.len(),
                metadata@,
                body@,
            ) is None,
    {
        if let State::Finished = self.state {
            return Err(ArrowError::Finished);
        }
        let ghost at = self.written@.len() as int;
        let ghost before = self.written@;
        let block = self.write_block(metadata, body)?;
        self.dictionary_blocks.push(block);
        self.state = State::Writing;
        proof {
            let next = Parts { metadata: metadata@, body: body@ };
            assert(self.written@.take(at) =~= before);
            lemma_blocks_stay(old(self).dictionary_blocks@, old(self).dictionary_places@, before, next, block);
            lemma_blocks_stay(old(self).record_blocks@, old(self).record_places@, before, next, block);
            self.dictionary_places@ = self.dictionary_places@.push(at);
        }
        Ok(())
    }

    /// Writes a record batch message and notes its block. It fails, and
    /// changes nothing, where the writer is finished or the message cannot be
    /// framed.
    pub fn write(&mut self, metadata: &[u8], body: &[u8]) -> (out: Result<(), ArrowError>)
        requires
            old(self).wf(),
        ensures
            final(self).wf(),
            final(self).dictionary_blocks@ == old(self).dictionary_blocks@,
            match out {
                Ok(_) => {
                    &&& final(self).state is Writing
                    &&& final(self).written@ == old(self).written@.push(
                        Parts { metadata: metadata@, body: body@ },
                    )
                    &&& final(self).record_blocks@.len() == old(self).record_blocks@.len() + 1
                    &&& final(self).record_blocks@.last().offset == old(self).bytes@.len()
                },
                Err(e) => {
                    &&& final(self).bytes@ == old(self).bytes@
                    &&& final(self).written@ == old(self).written@
                    &&& final(self).record_blocks@ == old(self).record_blocks@
                    &&& old(self).state is Finished ==> e == ArrowError::Finished
                    &&& !(old(self).state is Finished) ==> block_refusal(
                        old(self).bytes@.len(),
                        metadata@,
                        body@,
                    ) == Some(e)
                },
            },
            out is Ok <==> !(old(self).state is Finished) && block_refusal(
                old(self).bytes@.len(),
                metadata@,
                body@,
            ) is None,
    {
        if let State::Finished = self.state {
            return Err(ArrowError::Finished);
        }
        let ghost at = self.written@.len() as int;
        let ghost before = self.written@;
        let block = self.write_block(metadata, body)?;
        self.record_blocks.push(block);
        self.state = State::Writing;
        proof {
            let next = Parts { metadata: metadata@, body: body@ };
            assert(self.written@.take(at) =~= before);
            lemma_blocks_stay(old(self).dictionary_blocks@, old(self).dictionary_places@, before, next, block);
            lemma_blocks_stay(old(self).record_blocks@, old(self).record_places@, before, next, block);
            self.record_places@ = self.record_places@.push(at);
        }
        Ok(())
    }

    /// Closes the file with `footer`, which whoever calls makes from the
    /// blocks. It fails, and changes nothing, where the writer is finished
    /// already or the footer is longer than its 32-bit signed length can say.
    pub fn finish(&mut self, footer: &[u8]) -> (out: Result<(), ArrowError>)
        requires
            old(self).wf(),
        ensures
            final(self).wf(),
            final(self).written@ == old(self).written@,
            final(self).dictionary_blocks@ == old(self).dictionary_blocks@,
            final(self).record_blocks@ == old(self).record_blocks@,
            match out {
                Ok(_) => {
                    &&& !(old(self).state is Finished)
                    &&& final(self).state is Finished
                    &&& final(self).footer@ == footer@
                    &&& footer@.len() <= i32::MAX
                },
                Err(e) => {
                    &&& final(self).bytes@ == old(self).bytes@
                    &&& final(self).state == old(self).state
                    &&& if old(self).state is Finished {
                        e == ArrowError::Finished
                    } else {
                        footer@.len() > i32::MAX && e == ArrowError::NotYetImplemented(
                            Unsupported::MetadataTooLarge,
                        )
                    }
                },
            },
    {
        if let State::Finished = self.state {
            return Err(ArrowError::Finished);
        }
        if footer.len() > 0x7fff_ffff {
            return Err(ArrowError::NotYetImplemented(Unsupported::MetadataTooLarge));
        }
        let length = u32_to_le_bytes(footer.len() as u32);
        pad_to_eight(&mut self.bytes, 0);
        append(&mut self.bytes, length.as_slice());
        append(&mut self.bytes, footer);
        append(&mut self.bytes, length.as_slice());
        write_magic(&mut self.bytes);
        self.state = State::Finished;
        proof {
            self.footer@ = footer@;
            assert(self.bytes@ =~= magic() + frames(self.written@) + closing(
                (6 + frames(self.written@).len()) as nat,
                footer@,
            ));
        }
        Ok(())
    }

    /// The blocks of the record batches written so far, in their order.
    pub fn blocks(&self) -> (out: &Vec<Block>)
        ensures
            *out == self.record_blocks,
    {
        &self.record_blocks
    }

    /// The bytes written so far.
    pub fn into_inner(self) -> (bytes: Vec<u8>)
        ensures
            bytes == self.bytes,
    {
        self.bytes
    }
}

} // verus!
