//! The failures that reading and writing the wire format can report.

use vstd::prelude::*;

verus! {

/// What was found to be wrong with bytes or metadata that do not follow the format.
#[derive(Debug, Clone, Copy, PartialEq, Eq, Structural)]
pub enum OutOfSpec {
    /// The batch holds fewer field nodes than the schema asks for.
    MissingFieldNode,
    /// A buffer is asked for, of no array in particular, and the batch holds
    /// no more buffer descriptors.
    MissingBuffer,
    /// The batch holds no descriptor for the validity buffer of an array.
    MissingValidityBuffer,
    /// The batch holds no descriptor for the offsets buffer of an array.
    MissingOffsetsBuffer,
    /// The batch holds no descriptor for the type identifiers of a union.
    MissingTypesBuffer,
    /// The batch holds no descriptor for the values buffer of an array.
    MissingValuesBuffer,
    /// A field node declares a negative element count.
    NegativeLength,
    /// A buffer descriptor has a negative offset or length.
    NegativeBuffer,
    /// A buffer descriptor reaches beyond the end of the message body.
    BufferOutOfBounds,
    /// A buffer is shorter than its array's elements need.
    BufferTooShort,
    /// A compressed buffer is too short to hold its length prefix.
    MissingLengthPrefix,
    /// The length prefix of a compressed buffer is negative and not the sentinel.
    InvalidLengthPrefix,
    /// The codec rejected the compressed bytes.
    CorruptCompressedData,
    /// The decompressed bytes are not as many as the length prefix declared.
    DecompressedLengthMismatch,
    /// The offsets of a variable-length array are empty or decrease.
    InvalidOffsets,
    /// A child of a nested array has not the length that its parent asks for.
    ChildLengthMismatch,
    /// A dictionary-encoded field has no dictionary identifier.
    MissingDictionaryId,
    /// A batch refers to a dictionary that no dictionary batch has defined yet.
    MissingDictionary,
    /// A dictionary batch names a dictionary that no field of the schema refers to.
    UnknownDictionary,
    /// A delta dictionary batch arrived for a dictionary that has no values yet.
    DeltaWithoutDictionary,
    /// The byte source does not start or end with the magic bytes.
    InvalidMagic,
    /// A frame does not start with the continuation marker.
    InvalidContinuationMarker,
    /// The metadata of a message cannot be parsed.
    InvalidMetadata,
    /// A block of the footer does not describe the message at its offset.
    InvalidBlock,
    /// A length field is negative, or zero where a message must follow.
    InvalidLength,
    /// Fewer bytes are present than a length field declares.
    Truncated,
    /// The footer is not where the trailing length field places it.
    InvalidFooter,
    /// Bytes follow the end-of-stream marker.
    TrailingData,
    /// A batch arrived before the schema, or a second schema arrived.
    UnexpectedMessage,
    /// The wire twin of the schema has not the shape of the schema.
    SchemaMismatch,
    /// The columns of one batch differ in their number of rows.
    RowCountMismatch,
}

/// What this version does not implement.
#[derive(Debug, Clone, Copy, PartialEq, Eq, Structural)]
pub enum Unsupported {
    /// An element count is beyond what this machine can address.
    LengthBeyondAddressRange,
    /// A batch is larger than the 64-bit signed lengths of the format can say.
    BodyTooLarge,
    /// The metadata of a message is longer than its 32-bit signed length can say.
    MetadataTooLarge,
}

/// An error of the wire format. Failures of the byte source or sink itself are
/// not among them: they belong to whoever owns the source.
#[derive(Debug, Clone, Copy, PartialEq, Eq, Structural)]
pub enum ArrowError {
    /// The bytes or the metadata are corrupt.
    OutOfSpec(OutOfSpec),
    /// The bytes are well formed but ask for something not implemented.
    NotYetImplemented(Unsupported),
    /// The writer was finished already, or the reader has seen the end of the
    /// stream: nothing more can be written or read.
    Finished,
}

} // verus!
