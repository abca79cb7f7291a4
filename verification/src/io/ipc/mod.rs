//! The inter-process wire format: what a message's metadata carries, and the
//! wire twin of a schema.

pub mod compression;
pub mod dictionaries;
pub mod endianess;
pub mod framing;
pub mod in_step;
pub mod read;
pub mod round_trip;
pub mod write;

use vstd::prelude::*;

verus! {

/// The six bytes that open and close a file container.
pub const ARROW_MAGIC: [u8; 6] = [0x41, 0x52, 0x52, 0x4f, 0x57, 0x31];

/// The four bytes that open every message frame.
pub const CONTINUATION_MARKER: [u8; 4] = [0xff, 0xff, 0xff, 0xff];

/// The wire twin of a field: its dictionary identifier, present only where the
/// field is dictionary-encoded, and the twins of its children.
#[derive(Debug, PartialEq)]
pub struct IpcField {
    pub fields: Vec<IpcField>,
    pub dictionary_id: Option<i64>,
}

/// The wire twin of a schema, with the byte order its buffers were written in.
#[derive(Debug, PartialEq)]
pub struct IpcSchema {
    pub fields: Vec<IpcField>,
    pub is_little_endian: bool,
}

/// Whether two wire twins say the same: the same identifier, and children
/// that say the same, one by one.
pub open spec fn same_twin(a: IpcField, b: IpcField) -> bool
    decreases a,
{
    &&& a.dictionary_id == b.dictionary_id
    &&& same_twins(a.fields@, b.fields@)
}

/// Whether two sequences of wire twins say the same, one by one.
pub open spec fn same_twins(a: Seq<IpcField>, b: Seq<IpcField>) -> bool
    decreases a,
{
    &&& a.len() == b.len()
    &&& forall|i: int| 0 <= i < a.len() ==> same_twin(#[trigger] a[i], b[i])
}

/// Copies of `fields`.
fn clone_twins(fields: &Vec<IpcField>) -> (out: Vec<IpcField>)
    ensures
        same_twins(fields@, out@),
    decreases fields,
{
    let mut out: Vec<IpcField> = Vec::with_capacity(fields.len());
    let mut i: usize = 0;
    while i < fields.len()
        invariant
            i <= fields.len(),
            out@.len() == i,
            forall|k: int| 0 <= k < i ==> same_twin(#[trigger] fields@[k], out@[k]),
        decreases fields.len() - i,
    {
        let copy = fields[i].clone();
        out.push(copy);
        i = i + 1;
    }
    out
}

impl Clone for IpcField {
    fn clone(&self) -> (out: IpcField)
        ensures
            same_twin(*self, out),
        decreases self,
    {
        IpcField { fields: clone_twins(&self.fields), dictionary_id: self.dictionary_id }
    }
}

impl Clone for IpcSchema {
    fn clone(&self) -> (out: IpcSchema)
        ensures
            same_twins(self.fields@, out.fields@),
            out.is_little_endian == self.is_little_endian,
    {
        IpcSchema { fields: clone_twins(&self.fields), is_little_endian: self.is_little_endian }
    }
}

impl Default for IpcField {
    fn default() -> (out: IpcField)
        ensures
            out.fields@.len() == 0,
            out.dictionary_id is None,
    {
        IpcField { fields: Vec::new(), dictionary_id: None }
    }
}

/// The metadata of one array of a batch: its element count and null count.
#[derive(Debug, Clone, Copy, PartialEq, Eq, Structural)]
pub struct Node {
    pub length: i64,
    pub null_count: i64,
}

/// Where one physical buffer lies within a message body.
#[derive(Debug, Clone, Copy, PartialEq, Eq, Structural)]
pub struct BufferDescriptor {
    pub offset: i64,
    pub length: i64,
}

/// What the metadata of a record batch carries: the number of rows, and the
/// field nodes and buffer descriptors of all columns in pre-order.
#[derive(Debug, Clone, PartialEq, Eq)]
pub struct RecordBatch {
    pub length: i64,
    pub nodes: Vec<Node>,
    pub buffers: Vec<BufferDescriptor>,
    pub compression: Option<Compression>,
}

/// What the metadata of a dictionary batch carries: which dictionary it is for,
/// whether its values replace or extend the dictionary, and the one column of
/// values as a record batch.
#[derive(Debug, Clone, PartialEq, Eq)]
pub struct DictionaryBatch {
    pub id: i64,
    pub is_delta: bool,
    pub data: RecordBatch,
}

/// Where one message lies within a file: the offset of its frame, the length
/// of its metadata with the marker, the length field and the padding, and the
/// length of its body with the padding.
#[derive(Debug, Clone, Copy, PartialEq, Eq, Structural)]
pub struct Block {
    pub offset: i64,
    pub meta_data_length: i32,
    pub body_length: i64,
}

/// The codec that every buffer of a stream or file was compressed with.
#[derive(Debug, Clone, Copy, PartialEq, Eq, Structural)]
pub enum Compression {
    /// The frame format of LZ4.
    LZ4,
    /// Zstandard.
    ZSTD,
}

} // verus!
