//! Writing one chunk as a record batch.

use crate::chunk::Chunk;
use crate::datatypes::Field;
use crate::error::{ArrowError, Unsupported};
use crate::io::ipc::read::deserialize::ipcs_fit;
use crate::io::ipc::write::dictionary::{
    encode_in_arrays, extends, pending_in_arrays, DictionaryTracker, EncodedDictionary,
};
use crate::io::ipc::IpcField;
use crate::io::ipc::write::serialize::{
    arrays_body, arrays_buffers, arrays_lengths_fit, arrays_nodes, write_arrays,
};
use crate::io::ipc::{BufferDescriptor, Compression, Node, RecordBatch};
use vstd::prelude::*;

verus! {

/// The number of rows that the metadata of a batch of `chunk` declares.
pub open spec fn declared_rows(chunk: Chunk) -> int {
    if chunk@.len() == 0 {
        0
    } else {
        chunk@[0].len() as int
    }
}

/// Flattens the columns of `chunk` into the metadata and the body of a record
/// batch. It fails where a length or an offset is beyond what the format can
/// say.
pub fn write_batch(chunk: &Chunk, is_little_endian: bool, compression: Option<Compression>) -> (out: Result<
    (RecordBatch, Vec<u8>),
    ArrowError,
>)
    requires
        chunk.wf(),
    ensures
        out is Ok <==> arrays_lengths_fit(chunk.arrays, chunk.arrays@.len()) && arrays_body(
            chunk.arrays,
            chunk.arrays@.len(),
            is_little_endian,
            compression,
        ).len() <= i64::MAX,
        out matches Ok(written) ==> {
            &&& written.0.length == declared_rows(*chunk)
            &&& written.0.compression == compression
            &&& written.0.nodes@ == arrays_nodes(chunk.arrays, chunk.arrays@.len())
            &&& written.0.buffers@ == arrays_buffers(
                chunk.arrays,
                chunk.arrays@.len(),
                0,
                is_little_endian,
                compression,
            )
            &&& written.1@ == arrays_body(chunk.arrays, chunk.arrays@.len(), is_little_endian, compression)
        },
        out matches Err(e) ==> e == ArrowError::NotYetImplemented(Unsupported::BodyTooLarge),
{
    let mut nodes: Vec<Node> = Vec::new();
    let mut buffers: Vec<BufferDescriptor> = Vec::new();
    let mut arrow_data: Vec<u8> = Vec::new();
    write_arrays(&chunk.arrays, &mut nodes, &mut buffers, &mut arrow_data, is_little_endian, compression)?;
    let rows = chunk.len();
    proof {
        assert(nodes@ =~= arrays_nodes(chunk.arrays, chunk.arrays@.len()));
        assert(buffers@ =~= arrays_buffers(
            chunk.arrays,
            chunk.arrays@.len(),
            0,
            is_little_endian,
            compression,
        ));
        assert(arrow_data@ =~= arrays_body(chunk.arrays, chunk.arrays@.len(), is_little_endian, compression));
        if chunk.arrays@.len() > 0 {
            crate::io::ipc::write::serialize::lemma_arrays_grow(
                chunk.arrays,
                1,
                chunk.arrays@.len(),
                is_little_endian,
                compression,
            );
            assert(arrays_lengths_fit(chunk.arrays, 1));
            assert(arrays_lengths_fit(chunk.arrays, 0));
            assert(crate::io::ipc::write::serialize::lengths_fit(chunk.arrays@[0]));
            assert(chunk@[0] == chunk.arrays@[0]@);
        }
    }
    Ok((RecordBatch { length: rows as i64, nodes, buffers, compression }, arrow_data))
}

/// A chunk as it is sent: the dictionary batches that must go before it, and
/// the metadata and the body of its record batch.
pub struct EncodedChunk {
    pub dictionaries: Vec<EncodedDictionary>,
    pub batch: RecordBatch,
    pub body: Vec<u8>,
}

/// Writes `chunk` as messages: a dictionary batch for each segment of each
/// dictionary within it that `tracker` has not seen go out in its version, in
/// pre-order, and the record batch of the chunk itself. It fails where a
/// dictionary-encoded column has no identifier, or a length or an offset is
/// beyond what the format can say; nothing is then said of the tracker.
pub fn encode_chunk(
    chunk: &Chunk,
    fields: &Vec<Field>,
    ipc_fields: &Vec<IpcField>,
    tracker: &mut DictionaryTracker,
    is_little_endian: bool,
    compression: Option<Compression>,
) -> (out: Result<EncodedChunk, ArrowError>)
    requires
        chunk.wf(),
        chunk.arrays@.len() == fields@.len(),
        ipcs_fit(ipc_fields@, *fields),
        forall|i: int|
            0 <= i < chunk.arrays@.len() ==> (#[trigger] chunk.arrays@[i])@.conforms(fields@[i].data_type),
    ensures
        match out {
            Ok(encoded) => {
                let plan = pending_in_arrays(
                    chunk.arrays,
                    ipc_fields@,
                    old(tracker)@,
                    is_little_endian,
                    compression,
                    chunk.arrays@.len(),
                );
                &&& plan is Ok
                &&& extends(
                    Seq::empty(),
                    encoded.dictionaries@,
                    plan->Ok_0.batches,
                    is_little_endian,
                    compression,
                )
                &&& final(tracker)@ == plan->Ok_0.sent
                &&& encoded.batch.length == declared_rows(*chunk)
                &&& encoded.batch.compression == compression
                &&& encoded.batch.nodes@ == arrays_nodes(chunk.arrays, chunk.arrays@.len())
                &&& encoded.batch.buffers@ == arrays_buffers(
                    chunk.arrays,
                    chunk.arrays@.len(),
                    0,
                    is_little_endian,
                    compression,
                )
                &&& encoded.body@ == arrays_body(
                    chunk.arrays,
                    chunk.arrays@.len(),
                    is_little_endian,
                    compression,
                )
            },
            Err(e) => {
                let plan = pending_in_arrays(
                    chunk.arrays,
                    ipc_fields@,
                    old(tracker)@,
                    is_little_endian,
                    compression,
                    chunk.arrays@.len(),
                );
                if plan is Err {
                    plan == Err::<crate::io::ipc::write::dictionary::Plan, ArrowError>(e)
                } else {
                    &&& e == ArrowError::NotYetImplemented(Unsupported::BodyTooLarge)
                    &&& !(arrays_lengths_fit(chunk.arrays, chunk.arrays@.len()) && arrays_body(
                        chunk.arrays,
                        chunk.arrays@.len(),
                        is_little_endian,
                        compression,
                    ).len() <= i64::MAX)
                }
            },
        },
{
    let mut dictionaries: Vec<EncodedDictionary> = Vec::new();
    encode_in_arrays(
        &chunk.arrays,
        fields,
        ipc_fields,
        tracker,
        &mut dictionaries,
        is_little_endian,
        compression,
    )?;
    let written = write_batch(chunk, is_little_endian, compression)?;
    Ok(EncodedChunk { dictionaries, batch: written.0, body: written.1 })
}

} // verus!
