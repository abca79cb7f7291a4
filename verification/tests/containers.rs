// Streams and files from end to end, with the metadata of messages laid out
// by `arrow_format`.

use arrow2::array::{Array, BinaryArray, DictionaryArray, PrimitiveArray};
use arrow2::chunk::Chunk;
use arrow2::io::ipc::framing::{
    padded_length, read_body, read_message, read_metadata, write_end_of_stream, write_message, Frame,
};
use arrow2::io::ipc::read::file::{check_body_length, read_block, read_file_footer};
use arrow2::io::ipc::read::reader::{Message, ReaderState, StreamReader};
use arrow2::io::ipc::read::stream::read_head;
use arrow2::io::ipc::write::common::encode_chunk;
use arrow2::io::ipc::write::dictionary::DictionaryTracker;
use arrow2::io::ipc::write::file::FileWriter;
use arrow2::io::ipc::write::schema::default_ipc_fields;
use arrow2::io::ipc::write::stream::{State, StreamWriter};
use std::sync::Arc;
use arrow2::datatypes::{DataType, Field, IntegerType, Schema, UnionMode};
use arrow2::error::{ArrowError, OutOfSpec};
use arrow2::io::ipc::{
    Block, BufferDescriptor, Compression, DictionaryBatch, IpcField, IpcSchema, Node, RecordBatch,
};
use arrow_format::ipc;
use flatbuffers::{FlatBufferBuilder, ForwardsUOffset, UnionWIPOffset, Vector, WIPOffset};

/// What the metadata of a message says.
enum Header {
    Schema(Schema, IpcSchema),
    DictionaryBatch(DictionaryBatch),
    RecordBatch(RecordBatch),
}

fn invalid() -> ArrowError {
    ArrowError::OutOfSpec(OutOfSpec::InvalidMetadata)
}

/// A node of the library as `arrow_format` holds it.
fn node_to_fb(node: &Node) -> ipc::Message::FieldNode {
    ipc::Message::FieldNode::new(node.length, node.null_count)
}

/// A node of `arrow_format` as the library holds it.
fn node_from_fb(node: &ipc::Message::FieldNode) -> Node {
    Node { length: node.length(), null_count: node.null_count() }
}

/// A buffer descriptor of the library as `arrow_format` holds it.
fn buffer_to_fb(buffer: &BufferDescriptor) -> ipc::Schema::Buffer {
    ipc::Schema::Buffer::new(buffer.offset, buffer.length)
}

/// A buffer of `arrow_format` as the library holds it.
fn buffer_from_fb(buffer: &ipc::Schema::Buffer) -> BufferDescriptor {
    BufferDescriptor { offset: buffer.offset(), length: buffer.length() }
}

/// A block of the library as `arrow_format` holds it.
fn block_to_fb(block: &Block) -> ipc::File::Block {
    ipc::File::Block::new(block.offset, block.meta_data_length, block.body_length)
}

/// A block of `arrow_format` as the library holds it.
fn block_from_fb(block: &ipc::File::Block) -> Block {
    Block { offset: block.offset(), meta_data_length: block.metaDataLength(), body_length: block.bodyLength() }
}

/// The codec that `compression` names, where the library has it.
fn compression_from_fb(
    compression: Option<ipc::Message::BodyCompression>,
) -> std::result::Result<Option<Compression>, ArrowError> {
    match compression {
        None => Ok(None),
        Some(compression) => {
            let codec = compression.codec();
            if codec == ipc::Message::CompressionType::LZ4_FRAME {
                Ok(Some(Compression::LZ4))
            } else if codec == ipc::Message::CompressionType::ZSTD {
                Ok(Some(Compression::ZSTD))
            } else {
                Err(invalid())
            }
        }
    }
}

fn integer_to_fb<'a>(fbb: &mut FlatBufferBuilder<'a>, integer: IntegerType) -> WIPOffset<ipc::Schema::Int<'a>> {
    let mut builder = ipc::Schema::IntBuilder::new(fbb);
    builder.add_bitWidth(8 * integer.byte_width() as i32);
    builder.add_is_signed(integer.is_signed());
    builder.finish()
}

fn integer_from_fb(integer: ipc::Schema::Int) -> std::result::Result<IntegerType, ArrowError> {
    Ok(match (integer.bitWidth(), integer.is_signed()) {
        (8, true) => IntegerType::Int8,
        (16, true) => IntegerType::Int16,
        (32, true) => IntegerType::Int32,
        (64, true) => IntegerType::Int64,
        (8, false) => IntegerType::UInt8,
        (16, false) => IntegerType::UInt16,
        (32, false) => IntegerType::UInt32,
        (64, false) => IntegerType::UInt64,
        _ => return Err(invalid()),
    })
}

fn children_to_fb<'a>(
    fbb: &mut FlatBufferBuilder<'a>,
    fields: &[Field],
    ipc_fields: &[IpcField],
) -> Vec<WIPOffset<ipc::Schema::Field<'a>>> {
    fields.iter().zip(ipc_fields.iter()).map(|(field, ipc_field)| field_to_fb(fbb, field, ipc_field)).collect()
}

/// The type, the offset of its table, and the children of a field of type
/// `data_type`. A dictionary-encoded field has those of its values.
fn type_to_fb<'a>(
    fbb: &mut FlatBufferBuilder<'a>,
    data_type: &DataType,
    ipc_field: &IpcField,
) -> (ipc::Schema::Type, WIPOffset<UnionWIPOffset>, Vec<WIPOffset<ipc::Schema::Field<'a>>>) {
    match data_type {
        DataType::Boolean => {
            let table = ipc::Schema::BoolBuilder::new(fbb).finish();
            (ipc::Schema::Type::Bool, table.as_union_value(), vec![])
        }
        DataType::Integer(integer) => {
            (ipc::Schema::Type::Int, integer_to_fb(fbb, *integer).as_union_value(), vec![])
        }
        DataType::Binary => {
            let table = ipc::Schema::BinaryBuilder::new(fbb).finish();
            (ipc::Schema::Type::Binary, table.as_union_value(), vec![])
        }
        DataType::Utf8 => {
            let table = ipc::Schema::Utf8Builder::new(fbb).finish();
            (ipc::Schema::Type::Utf8, table.as_union_value(), vec![])
        }
        DataType::List(inner) => {
            let children = vec![field_to_fb(fbb, inner, &ipc_field.fields[0])];
            let table = ipc::Schema::ListBuilder::new(fbb).finish();
            (ipc::Schema::Type::List, table.as_union_value(), children)
        }
        DataType::FixedSizeList(inner, size) => {
            let children = vec![field_to_fb(fbb, inner, &ipc_field.fields[0])];
            let mut builder = ipc::Schema::FixedSizeListBuilder::new(fbb);
            builder.add_listSize(*size as i32);
            (ipc::Schema::Type::FixedSizeList, builder.finish().as_union_value(), children)
        }
        DataType::Struct(fields) => {
            let children = children_to_fb(fbb, fields, &ipc_field.fields);
            let table = ipc::Schema::Struct_Builder::new(fbb).finish();
            (ipc::Schema::Type::Struct_, table.as_union_value(), children)
        }
        DataType::Union(fields, mode) => {
            let children = children_to_fb(fbb, fields, &ipc_field.fields);
            let mut builder = ipc::Schema::UnionBuilder::new(fbb);
            builder.add_mode(match mode {
                UnionMode::Sparse => ipc::Schema::UnionMode::Sparse,
                UnionMode::Dense => ipc::Schema::UnionMode::Dense,
            });
            (ipc::Schema::Type::Union, builder.finish().as_union_value(), children)
        }
        DataType::Dictionary(_, value_type) => type_to_fb(fbb, value_type, ipc_field),
    }
}

/// A field with its wire twin as `arrow_format` lays it out. The wire twin
/// must have the shape of the field.
fn field_to_fb<'a>(
    fbb: &mut FlatBufferBuilder<'a>,
    field: &Field,
    ipc_field: &IpcField,
) -> WIPOffset<ipc::Schema::Field<'a>> {
    let name = fbb.create_string(field.name.as_str());
    let (type_type, type_, children) = type_to_fb(fbb, &field.data_type, ipc_field);
    let children = fbb.create_vector(&children);
    let dictionary = if let DataType::Dictionary(key_type, _) = &field.data_type {
        let index_type = integer_to_fb(fbb, *key_type);
        let mut builder = ipc::Schema::DictionaryEncodingBuilder::new(fbb);
        builder.add_id(ipc_field.dictionary_id.unwrap_or(0));
        builder.add_indexType(index_type);
        builder.add_isOrdered(false);
        Some(builder.finish())
    } else {
        None
    };
    let mut builder = ipc::Schema::FieldBuilder::new(fbb);
    builder.add_name(name);
    builder.add_nullable(field.is_nullable);
    builder.add_type_type(type_type);
    builder.add_type_(type_);
    builder.add_children(children);
    if let Some(dictionary) = dictionary {
        builder.add_dictionary(dictionary);
    }
    builder.finish()
}

/// A schema with its wire twin as `arrow_format` lays it out.
fn schema_to_fb<'a>(
    fbb: &mut FlatBufferBuilder<'a>,
    schema: &Schema,
    ipc_schema: &IpcSchema,
) -> WIPOffset<ipc::Schema::Schema<'a>> {
    let fields = children_to_fb(fbb, &schema.fields, &ipc_schema.fields);
    let fields = fbb.create_vector(&fields);
    let mut builder = ipc::Schema::SchemaBuilder::new(fbb);
    builder.add_endianness(if ipc_schema.is_little_endian {
        ipc::Schema::Endianness::Little
    } else {
        ipc::Schema::Endianness::Big
    });
    builder.add_fields(fields);
    builder.finish()
}

fn children_from_fb(
    children: Option<Vector<ForwardsUOffset<ipc::Schema::Field>>>,
) -> std::result::Result<(Vec<Field>, Vec<IpcField>), ArrowError> {
    let mut fields = vec![];
    let mut ipc_fields = vec![];
    if let Some(children) = children {
        for child in children.iter() {
            let (field, ipc_field) = field_from_fb(child)?;
            fields.push(field);
            ipc_fields.push(ipc_field);
        }
    }
    Ok((fields, ipc_fields))
}

fn only(mut fields: Vec<Field>) -> std::result::Result<Box<Field>, ArrowError> {
    if fields.len() == 1 {
        Ok(Box::new(fields.remove(0)))
    } else {
        Err(invalid())
    }
}

/// A field and its wire twin out of what `arrow_format` holds. Types that the
/// library has not are an error.
fn field_from_fb(field: ipc::Schema::Field) -> std::result::Result<(Field, IpcField), ArrowError> {
    let (children, ipc_children) = children_from_fb(field.children())?;
    let type_type = field.type_type();
    let data_type = if type_type == ipc::Schema::Type::Bool {
        DataType::Boolean
    } else if type_type == ipc::Schema::Type::Int {
        DataType::Integer(integer_from_fb(field.type_as_int().ok_or_else(invalid)?)?)
    } else if type_type == ipc::Schema::Type::Binary {
        DataType::Binary
    } else if type_type == ipc::Schema::Type::Utf8 {
        DataType::Utf8
    } else if type_type == ipc::Schema::Type::List {
        DataType::List(only(children)?)
    } else if type_type == ipc::Schema::Type::FixedSizeList {
        let size = field.type_as_fixed_size_list().ok_or_else(invalid)?.listSize();
        if size < 0 {
            return Err(invalid());
        }
        DataType::FixedSizeList(only(children)?, size as usize)
    } else if type_type == ipc::Schema::Type::Struct_ {
        DataType::Struct(children)
    } else if type_type == ipc::Schema::Type::Union {
        let mode = field.type_as_union().ok_or_else(invalid)?.mode();
        let mode =
            if mode == ipc::Schema::UnionMode::Dense { UnionMode::Dense } else { UnionMode::Sparse };
        DataType::Union(children, mode)
    } else {
        return Err(invalid());
    };
    let (data_type, dictionary_id) = match field.dictionary() {
        Some(dictionary) => {
            let key_type = integer_from_fb(dictionary.indexType().ok_or_else(invalid)?)?;
            (DataType::Dictionary(key_type, Box::new(data_type)), Some(dictionary.id()))
        }
        None => (data_type, None),
    };
    let name = field.name().unwrap_or("").to_string();
    Ok((
        Field { name, data_type, is_nullable: field.nullable() },
        IpcField { fields: ipc_children, dictionary_id },
    ))
}

/// A schema and its wire twin out of what `arrow_format` holds.
fn schema_from_fb(schema: ipc::Schema::Schema) -> std::result::Result<(Schema, IpcSchema), ArrowError> {
    let (fields, ipc_fields) = children_from_fb(schema.fields())?;
    let is_little_endian = schema.endianness() == ipc::Schema::Endianness::Little;
    Ok((Schema { fields }, IpcSchema { fields: ipc_fields, is_little_endian }))
}

fn batch_to_fb<'a>(fbb: &mut FlatBufferBuilder<'a>, batch: &RecordBatch) -> WIPOffset<ipc::Message::RecordBatch<'a>> {
    let nodes: Vec<ipc::Message::FieldNode> = batch.nodes.iter().map(node_to_fb).collect();
    let buffers: Vec<ipc::Schema::Buffer> = batch.buffers.iter().map(buffer_to_fb).collect();
    let nodes = fbb.create_vector(&nodes);
    let buffers = fbb.create_vector(&buffers);
    let compression = batch.compression.map(|compression| {
        let mut builder = ipc::Message::BodyCompressionBuilder::new(fbb);
        builder.add_codec(match compression {
            Compression::LZ4 => ipc::Message::CompressionType::LZ4_FRAME,
            Compression::ZSTD => ipc::Message::CompressionType::ZSTD,
        });
        builder.add_method(ipc::Message::BodyCompressionMethod::BUFFER);
        builder.finish()
    });
    let mut builder = ipc::Message::RecordBatchBuilder::new(fbb);
    builder.add_length(batch.length);
    builder.add_nodes(nodes);
    builder.add_buffers(buffers);
    if let Some(compression) = compression {
        builder.add_compression(compression);
    }
    builder.finish()
}

fn batch_from_fb(batch: ipc::Message::RecordBatch) -> std::result::Result<RecordBatch, ArrowError> {
    Ok(RecordBatch {
        length: batch.length(),
        nodes: batch.nodes().ok_or_else(invalid)?.iter().map(node_from_fb).collect(),
        buffers: batch.buffers().ok_or_else(invalid)?.iter().map(buffer_from_fb).collect(),
        compression: compression_from_fb(batch.compression())?,
    })
}

fn message_to_bytes(
    mut fbb: FlatBufferBuilder,
    header_type: ipc::Message::MessageHeader,
    header: WIPOffset<UnionWIPOffset>,
    body_length: i64,
) -> Vec<u8> {
    let mut builder = ipc::Message::MessageBuilder::new(&mut fbb);
    builder.add_version(ipc::Schema::MetadataVersion::V5);
    builder.add_header_type(header_type);
    builder.add_bodyLength(body_length);
    builder.add_header(header);
    let message = builder.finish();
    fbb.finish(message, None);
    fbb.finished_data().to_vec()
}

/// The metadata of a schema message.
fn schema_to_bytes(schema: &Schema, ipc_schema: &IpcSchema) -> Vec<u8> {
    let mut fbb = FlatBufferBuilder::new();
    let header = schema_to_fb(&mut fbb, schema, ipc_schema).as_union_value();
    message_to_bytes(fbb, ipc::Message::MessageHeader::Schema, header, 0)
}

/// The metadata of a record batch message whose body is `body_length` bytes long.
fn record_batch_to_bytes(batch: &RecordBatch, body_length: i64) -> Vec<u8> {
    let mut fbb = FlatBufferBuilder::new();
    let header = batch_to_fb(&mut fbb, batch).as_union_value();
    message_to_bytes(fbb, ipc::Message::MessageHeader::RecordBatch, header, body_length)
}

/// The metadata of a dictionary batch message whose body is `body_length`
/// bytes long.
fn dictionary_batch_to_bytes(batch: &DictionaryBatch, body_length: i64) -> Vec<u8> {
    let mut fbb = FlatBufferBuilder::new();
    let data = batch_to_fb(&mut fbb, &batch.data);
    let mut builder = ipc::Message::DictionaryBatchBuilder::new(&mut fbb);
    builder.add_id(batch.id);
    builder.add_data(data);
    builder.add_isDelta(batch.is_delta);
    let header = builder.finish().as_union_value();
    message_to_bytes(fbb, ipc::Message::MessageHeader::DictionaryBatch, header, body_length)
}

/// How long the metadata of a message declares its body to be.
fn body_length_of(metadata: &[u8]) -> std::result::Result<i64, ArrowError> {
    Ok(ipc::Message::root_as_message(metadata).map_err(|_| invalid())?.bodyLength())
}

/// The frame at `position`, with the body that its metadata declares.
fn read_framed(bytes: &[u8], position: usize) -> std::result::Result<Option<Frame<'_>>, ArrowError> {
    match read_metadata(bytes, position)? {
        None => Ok(None),
        Some(head) => {
            let body_length = body_length_of(head.metadata)?;
            Ok(Some(read_body(bytes, head, body_length)?))
        }
    }
}

/// The frames of a stream, in their order.
fn read_stream(bytes: &[u8]) -> std::result::Result<Vec<Frame<'_>>, ArrowError> {
    let mut frames = vec![];
    let mut position = 0;
    while let Some(head) = read_head(bytes, position)? {
        let body_length = body_length_of(head.metadata)?;
        let frame = read_body(bytes, head, body_length)?;
        position = frame.next;
        frames.push(frame);
    }
    Ok(frames)
}

/// What the metadata of a message says.
fn header_from_bytes(metadata: &[u8]) -> std::result::Result<Header, ArrowError> {
    let message = ipc::Message::root_as_message(metadata).map_err(|_| invalid())?;
    if let Some(schema) = message.header_as_schema() {
        let (schema, ipc_schema) = schema_from_fb(schema)?;
        Ok(Header::Schema(schema, ipc_schema))
    } else if let Some(batch) = message.header_as_dictionary_batch() {
        Ok(Header::DictionaryBatch(DictionaryBatch {
            id: batch.id(),
            is_delta: batch.isDelta(),
            data: batch_from_fb(batch.data().ok_or_else(invalid)?)?,
        }))
    } else if let Some(batch) = message.header_as_record_batch() {
        Ok(Header::RecordBatch(batch_from_fb(batch)?))
    } else {
        Err(invalid())
    }
}

/// The footer of a file: its schema and the blocks of its batches.
fn footer_to_bytes(
    schema: &Schema,
    ipc_schema: &IpcSchema,
    dictionaries: &[Block],
    record_batches: &[Block],
) -> Vec<u8> {
    let mut fbb = FlatBufferBuilder::new();
    let dictionaries: Vec<ipc::File::Block> = dictionaries.iter().map(block_to_fb).collect();
    let record_batches: Vec<ipc::File::Block> = record_batches.iter().map(block_to_fb).collect();
    let dictionaries = fbb.create_vector(&dictionaries);
    let record_batches = fbb.create_vector(&record_batches);
    let schema = schema_to_fb(&mut fbb, schema, ipc_schema);
    let mut builder = ipc::File::FooterBuilder::new(&mut fbb);
    builder.add_version(ipc::Schema::MetadataVersion::V5);
    builder.add_schema(schema);
    builder.add_dictionaries(dictionaries);
    builder.add_recordBatches(record_batches);
    let footer = builder.finish();
    fbb.finish(footer, None);
    fbb.finished_data().to_vec()
}

/// What the footer of a file says.
struct FileMetadata {
    schema: Schema,
    ipc_schema: IpcSchema,
    dictionaries: Vec<Block>,
    blocks: Vec<Block>,
}

/// The schema and the blocks out of the footer of a file.
fn footer_from_bytes(footer: &[u8]) -> std::result::Result<FileMetadata, ArrowError> {
    let footer = ipc::File::root_as_footer(footer).map_err(|_| invalid())?;
    let (schema, ipc_schema) = schema_from_fb(footer.schema().ok_or_else(invalid)?)?;
    Ok(FileMetadata {
        schema,
        ipc_schema,
        dictionaries: footer.dictionaries().unwrap_or(&[]).iter().map(block_from_fb).collect(),
        blocks: footer.recordBatches().unwrap_or(&[]).iter().map(block_from_fb).collect(),
    })
}

fn int32(values: &[i32]) -> Array {
    let bytes = values.iter().flat_map(|value| value.to_le_bytes()).collect();
    Array::Primitive(PrimitiveArray { data_type: IntegerType::Int32, values: bytes, validity: None })
}

fn utf8(values: &[&str]) -> Array {
    let mut offsets = vec![0i32];
    let mut bytes = Vec::new();
    for value in values {
        bytes.extend_from_slice(value.as_bytes());
        offsets.push(bytes.len() as i32);
    }
    Array::Binary(BinaryArray { is_utf8: true, offsets, values: bytes, validity: None })
}

fn field(name: &str, data_type: DataType) -> Field {
    Field { name: name.to_string(), data_type, is_nullable: false }
}

fn xy_schema() -> Schema {
    Schema {
        fields: vec![
            field("x", DataType::Integer(IntegerType::Int32)),
            field("y", DataType::Integer(IntegerType::Int32)),
        ],
    }
}

fn xy_chunk() -> Chunk {
    Chunk { arrays: vec![int32(&[-1, 1]), int32(&[1, -1])] }
}

fn write_file(schema: &Schema, chunks: &[Chunk], compression: Option<Compression>) -> Vec<u8> {
    let ipc_schema = IpcSchema { fields: default_ipc_fields(&schema.fields), is_little_endian: true };
    let mut file = FileWriter::start(&schema_to_bytes(schema, &ipc_schema)).unwrap();
    assert_eq!(file.state, State::Started);
    let mut tracker = DictionaryTracker::new();
    for chunk in chunks {
        assert!(chunk.validate());
        assert!(chunk.has_types(&schema.fields));
        let encoded = encode_chunk(chunk, &schema.fields, &ipc_schema.fields, &mut tracker, true, compression).unwrap();
        for dictionary in encoded.dictionaries.iter() {
            let metadata = dictionary_batch_to_bytes(&dictionary.batch, dictionary.body.len() as i64);
            file.write_dictionary(&metadata, &dictionary.body).unwrap();
        }
        let metadata = record_batch_to_bytes(&encoded.batch, encoded.body.len() as i64);
        file.write(&metadata, &encoded.body).unwrap();
        assert_eq!(file.state, State::Writing);
    }
    let footer = footer_to_bytes(schema, &ipc_schema, &file.dictionary_blocks, file.blocks());
    file.finish(&footer).unwrap();
    assert_eq!(file.state, State::Finished);
    assert_eq!(file.blocks().len(), chunks.len());
    assert_eq!(file.finish(&footer), Err(ArrowError::Finished));
    assert_eq!(file.write(&footer, &[]), Err(ArrowError::Finished));
    file.into_inner()
}

fn read_file(bytes: &[u8]) -> (Schema, Vec<Chunk>) {
    let metadata = footer_from_bytes(read_file_footer(bytes).unwrap()).unwrap();
    let mut reader = StreamReader::new();
    reader.read_schema(metadata.schema, metadata.ipc_schema).unwrap();
    for block in metadata.dictionaries.iter() {
        let frame = read_block(bytes, *block).unwrap();
        assert_eq!(check_body_length(&frame, body_length_of(frame.metadata).unwrap()), Ok(()));
        match header_from_bytes(frame.metadata).unwrap() {
            Header::DictionaryBatch(batch) => reader.read_dictionary(&batch, frame.body).unwrap(),
            _ => panic!("a dictionary block must hold a dictionary batch"),
        }
    }
    let mut chunks = vec![];
    for block in metadata.blocks.iter() {
        let frame = read_block(bytes, *block).unwrap();
        assert_eq!(check_body_length(&frame, body_length_of(frame.metadata).unwrap()), Ok(()));
        match header_from_bytes(frame.metadata).unwrap() {
            Header::RecordBatch(batch) => chunks.push(reader.read_batch(&batch, frame.body, None).unwrap()),
            _ => panic!("a record block must hold a record batch"),
        }
    }
    (reader.schema.unwrap(), chunks)
}

#[test]
fn file_of_five_batches_round_trips() {
    let chunks: Vec<Chunk> = (0..5).map(|_| xy_chunk()).collect();
    let bytes = write_file(&xy_schema(), &chunks, None);
    assert_eq!(&bytes[..6], b"ARROW1");
    assert_eq!(&bytes[bytes.len() - 6..], b"ARROW1");
    let (schema, read) = read_file(&bytes);
    assert_eq!(schema, xy_schema());
    assert_eq!(read.len(), 5);
    for chunk in read.iter() {
        assert_eq!(chunk, &xy_chunk());
    }
}

#[test]
fn file_round_trips_compressed() {
    let chunks: Vec<Chunk> = (0..3).map(|_| Chunk { arrays: vec![int32(&[7; 500]), int32(&[-7; 500])] }).collect();
    for compression in [Compression::LZ4, Compression::ZSTD] {
        let bytes = write_file(&xy_schema(), &chunks, Some(compression));
        let plain = write_file(&xy_schema(), &chunks, None);
        assert!(bytes.len() < plain.len());
        let (schema, read) = read_file(&bytes);
        assert_eq!(schema, xy_schema());
        assert_eq!(read, chunks);
    }
}

#[test]
fn file_of_no_batches_and_of_no_fields() {
    let bytes = write_file(&xy_schema(), &[], None);
    let (schema, read) = read_file(&bytes);
    assert_eq!(schema, xy_schema());
    assert_eq!(read.len(), 0);
    let none = Schema { fields: vec![] };
    let bytes = write_file(&none, &[Chunk { arrays: vec![] }], None);
    let (schema, read) = read_file(&bytes);
    assert_eq!(schema, Schema { fields: vec![] });
    assert_eq!(read, vec![Chunk { arrays: vec![] }]);
}

#[test]
fn blocks_are_read_in_any_order() {
    let chunks = vec![
        Chunk { arrays: vec![int32(&[1]), int32(&[2])] },
        Chunk { arrays: vec![int32(&[3]), int32(&[4])] },
        Chunk { arrays: vec![int32(&[5]), int32(&[6])] },
    ];
    let bytes = write_file(&xy_schema(), &chunks, None);
    let metadata = footer_from_bytes(read_file_footer(&bytes).unwrap()).unwrap();
    assert_eq!(metadata.blocks.len(), 3);
    let mut reader = StreamReader::new();
    reader.read_schema(metadata.schema, metadata.ipc_schema).unwrap();
    for index in [2usize, 0, 1] {
        let frame = read_block(&bytes, metadata.blocks[index]).unwrap();
        match header_from_bytes(frame.metadata).unwrap() {
            Header::RecordBatch(batch) => {
                assert_eq!(reader.read_batch(&batch, frame.body, None).unwrap(), chunks[index]);
                assert_eq!(reader.read_batch(&batch, frame.body, Some(&[1])).unwrap().arrays, chunks[index].arrays[1..]);
            }
            _ => panic!("a record block must hold a record batch"),
        }
    }
    // a block that does not describe the message at its offset
    let mut block = metadata.blocks[0];
    block.body_length += 8;
    let frame = read_block(&bytes, block).unwrap();
    assert_eq!(
        check_body_length(&frame, body_length_of(frame.metadata).unwrap()),
        Err(ArrowError::OutOfSpec(OutOfSpec::InvalidBlock))
    );
    let mut block = metadata.blocks[0];
    block.body_length = -8;
    assert_eq!(read_block(&bytes, block).err(), Some(ArrowError::OutOfSpec(OutOfSpec::InvalidLength)));
    let mut block = metadata.blocks[2];
    block.body_length = i64::MAX;
    assert_eq!(read_block(&bytes, block).err(), Some(ArrowError::OutOfSpec(OutOfSpec::Truncated)));
    let mut block = metadata.blocks[0];
    block.meta_data_length += 8;
    assert_eq!(read_block(&bytes, block).err(), Some(ArrowError::OutOfSpec(OutOfSpec::InvalidBlock)));
    let mut block = metadata.blocks[0];
    block.offset += 8;
    assert!(read_block(&bytes, block).is_err());
    let mut block = metadata.blocks[0];
    block.offset = -1;
    assert_eq!(read_block(&bytes, block).err(), Some(ArrowError::OutOfSpec(OutOfSpec::InvalidBlock)));
}

#[test]
fn file_errors() {
    let bytes = write_file(&xy_schema(), &[xy_chunk()], None);
    let footer_of = |bytes: &[u8]| read_file_footer(bytes).err();
    assert_eq!(footer_of(&bytes[..19]), Some(ArrowError::OutOfSpec(OutOfSpec::Truncated)));
    let mut bad = bytes.clone();
    bad[0] = b'B';
    assert_eq!(footer_of(&bad), Some(ArrowError::OutOfSpec(OutOfSpec::InvalidMagic)));
    let mut bad = bytes.clone();
    let end = bad.len();
    bad[end - 1] = b'2';
    assert_eq!(footer_of(&bad), Some(ArrowError::OutOfSpec(OutOfSpec::InvalidMagic)));
    // the trailing length says more than the file holds
    let mut bad = bytes.clone();
    bad[end - 10..end - 6].copy_from_slice(&(end as u32).to_le_bytes());
    assert_eq!(footer_of(&bad), Some(ArrowError::OutOfSpec(OutOfSpec::InvalidFooter)));
    // the trailing length is negative
    let mut bad = bytes.clone();
    bad[end - 10..end - 6].copy_from_slice(&(-1i32).to_le_bytes());
    assert_eq!(footer_of(&bad), Some(ArrowError::OutOfSpec(OutOfSpec::InvalidLength)));
    // the two lengths disagree
    let mut bad = bytes.clone();
    let length = u32::from_le_bytes([bytes[end - 10], bytes[end - 9], bytes[end - 8], bytes[end - 7]]);
    bad[end - 10..end - 6].copy_from_slice(&(length - 8).to_le_bytes());
    assert_eq!(footer_of(&bad), Some(ArrowError::OutOfSpec(OutOfSpec::InvalidFooter)));
}

fn write_stream(schema: &Schema, ipc_schema: &IpcSchema, chunks: &[Chunk]) -> Vec<u8> {
    let mut stream = StreamWriter::start(&schema_to_bytes(schema, ipc_schema)).unwrap();
    let mut tracker = DictionaryTracker::new();
    for chunk in chunks {
        let encoded = encode_chunk(chunk, &schema.fields, &ipc_schema.fields, &mut tracker, true, None).unwrap();
        for dictionary in encoded.dictionaries.iter() {
            let metadata = dictionary_batch_to_bytes(&dictionary.batch, dictionary.body.len() as i64);
            stream.write(&metadata, &dictionary.body).unwrap();
        }
        let metadata = record_batch_to_bytes(&encoded.batch, encoded.body.len() as i64);
        stream.write(&metadata, &encoded.body).unwrap();
    }
    stream.finish().unwrap();
    assert_eq!(stream.finish(), Err(ArrowError::Finished));
    assert_eq!(stream.write(&[1], &[]), Err(ArrowError::Finished));
    stream.into_inner()
}

/// The chunks of a stream, and how many dictionary batches it held.
fn read_all(bytes: &[u8]) -> Result<(Schema, Vec<Chunk>, usize), ArrowError> {
    let frames = read_stream(bytes)?;
    let mut reader = StreamReader::new();
    let mut chunks = vec![];
    let mut dictionaries = 0;
    for frame in frames.iter() {
        let message = match header_from_bytes(frame.metadata)? {
            Header::Schema(schema, ipc_schema) => Message::Schema(schema, ipc_schema),
            Header::DictionaryBatch(batch) => {
                dictionaries += 1;
                Message::DictionaryBatch(batch)
            }
            Header::RecordBatch(batch) => Message::RecordBatch(batch),
        };
        if let Some(chunk) = reader.read_next(message, frame.body, None)? {
            chunks.push(chunk);
        }
    }
    assert_eq!(reader.read_next(Message::EndOfStream, &[], None)?, None);
    assert_eq!(reader.state, ReaderState::Ended);
    Ok((reader.schema.unwrap(), chunks, dictionaries))
}

#[test]
fn stream_round_trips() {
    let chunks: Vec<Chunk> = (0..5).map(|_| xy_chunk()).collect();
    let ipc_schema = IpcSchema { fields: default_ipc_fields(&xy_schema().fields), is_little_endian: true };
    let bytes = write_stream(&xy_schema(), &ipc_schema, &chunks);
    assert_eq!(&bytes[..4], &[0xff; 4]);
    assert_eq!(&bytes[bytes.len() - 8..], &[0xff, 0xff, 0xff, 0xff, 0, 0, 0, 0]);
    let (schema, read, dictionaries) = read_all(&bytes).unwrap();
    assert_eq!(schema, xy_schema());
    assert_eq!(read, chunks);
    assert_eq!(dictionaries, 0);
}

fn coded(keys: &[i32], values: &[&[&str]], version: u64) -> Array {
    Array::Dictionary(DictionaryArray {
        keys: PrimitiveArray {
            data_type: IntegerType::Int32,
            values: keys.iter().flat_map(|key| key.to_le_bytes()).collect(),
            validity: None,
        },
        values: values.iter().map(|segment| Arc::new(utf8(segment))).collect(),
        version,
    })
}

#[test]
fn stream_sends_each_dictionary_before_its_first_use_and_when_it_changes() {
    let schema = Schema {
        fields: vec![field("c", DataType::Dictionary(IntegerType::Int32, Box::new(DataType::Utf8)))],
    };
    let ipc_schema = IpcSchema { fields: default_ipc_fields(&schema.fields), is_little_endian: true };
    assert_eq!(ipc_schema.fields[0].dictionary_id, Some(0));
    let chunks = vec![
        Chunk { arrays: vec![coded(&[0, 1, 0], &[&["a", "b"]], 1)] },
        Chunk { arrays: vec![coded(&[1, 1], &[&["a", "b"]], 1)] },
        Chunk { arrays: vec![coded(&[2, 0], &[&["x", "y"], &["z"]], 2)] },
    ];
    let bytes = write_stream(&schema, &ipc_schema, &chunks);
    let (read_schema, read, dictionaries) = read_all(&bytes).unwrap();
    assert_eq!(read_schema, schema);
    // one batch for version 1, and a batch and a delta for version 2
    assert_eq!(dictionaries, 3);
    assert_eq!(read, chunks);
    // what a table shows: the values that the keys select, also beyond the first segment
    let names = vec!["c".to_string()];
    let expected = vec!["+---+", "| c |", "+---+", "| z |", "| x |", "+---+"];
    assert_eq!(arrow2::io::print::write(&read[2..], &names), expected.join("\n"));
}

#[test]
fn record_batch_before_its_dictionary_fails() {
    let schema = Schema {
        fields: vec![field("c", DataType::Dictionary(IntegerType::Int32, Box::new(DataType::Utf8)))],
    };
    let ipc_schema = IpcSchema { fields: default_ipc_fields(&schema.fields), is_little_endian: true };
    let chunk = Chunk { arrays: vec![coded(&[0], &[&["a"]], 1)] };
    let mut tracker = DictionaryTracker::new();
    let encoded = encode_chunk(&chunk, &schema.fields, &ipc_schema.fields, &mut tracker, true, None).unwrap();
    assert_eq!(encoded.dictionaries.len(), 1);
    assert!(!tracker.needs_emit(0, 1));
    assert!(tracker.needs_emit(0, 2));
    assert!(tracker.needs_emit(1, 1));
    let mut reader = StreamReader::new();
    // before the schema nothing is read
    assert_eq!(
        reader.read_batch(&encoded.batch, &encoded.body, None),
        Err(ArrowError::OutOfSpec(OutOfSpec::UnexpectedMessage))
    );
    assert_eq!(reader.end(), Err(ArrowError::OutOfSpec(OutOfSpec::UnexpectedMessage)));
    reader.read_schema(Schema { fields: schema.fields }, ipc_schema).unwrap();
    let second = IpcSchema { fields: vec![], is_little_endian: true };
    assert_eq!(
        reader.read_schema(Schema { fields: vec![] }, second),
        Err(ArrowError::OutOfSpec(OutOfSpec::UnexpectedMessage))
    );
    assert_eq!(
        reader.read_batch(&encoded.batch, &encoded.body, None),
        Err(ArrowError::OutOfSpec(OutOfSpec::MissingDictionary))
    );
    // a dictionary that no field refers to
    let mut stray = DictionaryBatch {
        id: 9,
        is_delta: false,
        data: encoded.dictionaries[0].batch.data.clone(),
    };
    assert_eq!(
        reader.read_dictionary(&stray, &encoded.dictionaries[0].body),
        Err(ArrowError::OutOfSpec(OutOfSpec::UnknownDictionary))
    );
    stray.id = 0;
    stray.is_delta = true;
    assert_eq!(
        reader.read_dictionary(&stray, &encoded.dictionaries[0].body),
        Err(ArrowError::OutOfSpec(OutOfSpec::DeltaWithoutDictionary))
    );
    reader.read_dictionary(&encoded.dictionaries[0].batch, &encoded.dictionaries[0].body).unwrap();
    assert_eq!(reader.read_batch(&encoded.batch, &encoded.body, None), Ok(chunk));
    reader.end().unwrap();
    assert_eq!(reader.read_batch(&encoded.batch, &encoded.body, None), Err(ArrowError::Finished));
    assert_eq!(reader.end(), Err(ArrowError::Finished));
}

#[test]
fn a_schema_whose_wire_twin_has_another_shape_is_refused() {
    let mut reader = StreamReader::new();
    let twin = IpcSchema { fields: vec![IpcField { fields: vec![], dictionary_id: None }], is_little_endian: true };
    assert_eq!(reader.read_schema(xy_schema(), twin), Err(ArrowError::OutOfSpec(OutOfSpec::SchemaMismatch)));
    assert_eq!(reader.state, ReaderState::AwaitingSchema);
}

#[test]
fn frames_are_padded_and_read_back() {
    let batch = RecordBatch { length: 0, nodes: vec![], buffers: vec![], compression: None };
    let body = vec![1u8, 2, 3];
    let metadata = record_batch_to_bytes(&batch, 8);
    let mut bytes = vec![0u8; 3];
    let written = write_message(&mut bytes, &metadata, &body).unwrap();
    assert_eq!(written.metadata_length % 8, 0);
    assert_eq!(written.body_length, 8);
    assert_eq!(bytes.len(), 3 + written.metadata_length + written.body_length);
    assert_eq!(&bytes[3..7], &[0xff; 4]);
    assert_eq!(&bytes[7..11], &((written.metadata_length - 8) as u32).to_le_bytes());
    let head = read_metadata(&bytes, 3).unwrap().unwrap();
    assert_eq!(head.body_start, 3 + written.metadata_length);
    assert_eq!(body_length_of(head.metadata), Ok(8));
    assert_eq!(read_framed(&bytes, 3).unwrap().unwrap().body, &[1, 2, 3, 0, 0, 0, 0, 0]);
    let frame = read_message(&bytes, 3, 8).unwrap().unwrap();
    assert_eq!(&frame.metadata[..metadata.len()], &metadata[..]);
    assert!(frame.metadata[metadata.len()..].iter().all(|byte| *byte == 0));
    assert_eq!(frame.body, &[1, 2, 3, 0, 0, 0, 0, 0]);
    assert_eq!(frame.next, bytes.len());
    let next = frame.next;
    write_end_of_stream(&mut bytes);
    assert!(read_message(&bytes, next, 0).unwrap().is_none());
    assert!(read_metadata(&bytes, next).unwrap().is_none());
    assert!(read_head(&bytes, next).unwrap().is_none());
    assert_eq!(read_head(&bytes, 3).unwrap().unwrap().body_start, 3 + written.metadata_length);
    assert_eq!(write_message(&mut bytes, &[], &body), Err(ArrowError::OutOfSpec(OutOfSpec::InvalidLength)));
    assert_eq!((padded_length(0), padded_length(3), padded_length(8), padded_length(9)), (Some(0), Some(8), Some(8), Some(16)));
    assert_eq!(padded_length(usize::MAX), if usize::MAX as u128 > i64::MAX as u128 { None } else { Some(i64::MAX) });
}

#[test]
fn frame_errors() {
    let batch = RecordBatch { length: 0, nodes: vec![], buffers: vec![], compression: None };
    let metadata = record_batch_to_bytes(&batch, 16);
    let mut good = vec![];
    write_message(&mut good, &metadata, &[9u8; 16]).unwrap();
    let error_of = |bytes: &[u8], position: usize| read_framed(bytes, position).err();
    assert_eq!(error_of(&good[..7], 0), Some(ArrowError::OutOfSpec(OutOfSpec::Truncated)));
    assert_eq!(error_of(&good, good.len()), Some(ArrowError::OutOfSpec(OutOfSpec::Truncated)));
    assert_eq!(error_of(&good, good.len() + 1), Some(ArrowError::OutOfSpec(OutOfSpec::Truncated)));
    let mut bad = good.clone();
    bad[3] = 0xfe;
    assert_eq!(error_of(&bad, 0), Some(ArrowError::OutOfSpec(OutOfSpec::InvalidContinuationMarker)));
    let mut bad = good.clone();
    bad[4..8].copy_from_slice(&(-8i32).to_le_bytes());
    assert_eq!(error_of(&bad, 0), Some(ArrowError::OutOfSpec(OutOfSpec::InvalidLength)));
    // the metadata is cut short
    assert_eq!(error_of(&good[..20], 0), Some(ArrowError::OutOfSpec(OutOfSpec::Truncated)));
    // the body is cut short
    assert_eq!(error_of(&good[..good.len() - 1], 0), Some(ArrowError::OutOfSpec(OutOfSpec::Truncated)));
    // metadata that is no message
    let mut bad = good.clone();
    for byte in bad[8..8 + metadata.len()].iter_mut() {
        *byte = 0xff;
    }
    assert_eq!(error_of(&bad, 0), Some(ArrowError::OutOfSpec(OutOfSpec::InvalidMetadata)));
    // a body of negative length
    let negative = record_batch_to_bytes(&batch, -8);
    let mut bad = vec![];
    write_message(&mut bad, &negative, &[]).unwrap();
    assert_eq!(error_of(&bad, 0), Some(ArrowError::OutOfSpec(OutOfSpec::InvalidLength)));
    // a body whose length is given beforehand
    assert_eq!(read_message(&good, 0, -1).err(), Some(ArrowError::OutOfSpec(OutOfSpec::InvalidLength)));
    assert_eq!(read_message(&good, 0, 24).err(), Some(ArrowError::OutOfSpec(OutOfSpec::Truncated)));
    assert_eq!(read_message(&good, 0, i64::MAX).err(), Some(ArrowError::OutOfSpec(OutOfSpec::Truncated)));
    assert_eq!(read_message(&good, 0, 8).unwrap().unwrap().body, &[9u8; 8]);
    assert_eq!(read_message(&good, 0, 0).unwrap().unwrap().next, good.len() - 16);
}

#[test]
fn metadata_is_handed_out_as_it_stands() {
    // bytes that are no message: no parser sees them here
    let metadata = [4u8, 0, 0, 0, 0, 0, 0, 0x80];
    let mut bytes = vec![];
    let written = write_message(&mut bytes, &metadata, &[7, 7]).unwrap();
    assert_eq!((written.metadata_length, written.body_length), (16, 8));
    let head = read_metadata(&bytes, 0).unwrap().unwrap();
    assert_eq!(head.metadata, &metadata);
    assert_eq!(head.body_start, 16);
    let frame = read_body(&bytes, head, 8).unwrap();
    assert_eq!(frame.body, &[7, 7, 0, 0, 0, 0, 0, 0]);
    assert_eq!(frame.next, 24);
    let head = read_metadata(&bytes, 0).unwrap().unwrap();
    assert_eq!(read_body(&bytes, head, 9).err(), Some(ArrowError::OutOfSpec(OutOfSpec::Truncated)));
}

#[test]
fn stream_errors() {
    let ipc_schema = IpcSchema { fields: default_ipc_fields(&xy_schema().fields), is_little_endian: true };
    let bytes = write_stream(&xy_schema(), &ipc_schema, &[xy_chunk()]);
    // no mark of the end
    assert_eq!(read_stream(&bytes[..bytes.len() - 8]).err(), Some(ArrowError::OutOfSpec(OutOfSpec::Truncated)));
    // bytes after the mark of the end
    let mut more = bytes.clone();
    more.push(0);
    assert_eq!(read_stream(&more).err(), Some(ArrowError::OutOfSpec(OutOfSpec::TrailingData)));
    // nothing at all
    assert_eq!(read_stream(&[]).err(), Some(ArrowError::OutOfSpec(OutOfSpec::Truncated)));
    // only the mark of the end: a stream without a schema
    let mut only_end = vec![];
    write_end_of_stream(&mut only_end);
    assert_eq!(read_stream(&only_end).unwrap().len(), 0);
    assert_eq!(read_all(&only_end).err(), Some(ArrowError::OutOfSpec(OutOfSpec::UnexpectedMessage)));
}

#[test]
fn a_message_without_metadata_is_refused_and_changes_nothing() {
    let ipc_schema = IpcSchema { fields: default_ipc_fields(&xy_schema().fields), is_little_endian: true };
    let mut file = FileWriter::start(&schema_to_bytes(&xy_schema(), &ipc_schema)).unwrap();
    let before = file.bytes.clone();
    assert_eq!(file.write(&[], &[1, 2, 3]), Err(ArrowError::OutOfSpec(OutOfSpec::InvalidLength)));
    assert_eq!(file.write_dictionary(&[], &[]), Err(ArrowError::OutOfSpec(OutOfSpec::InvalidLength)));
    assert_eq!(file.bytes, before);
    assert_eq!(file.state, State::Started);
    assert_eq!((file.blocks().len(), file.dictionary_blocks.len()), (0, 0));
    let batch = RecordBatch { length: 0, nodes: vec![], buffers: vec![], compression: None };
    let metadata = record_batch_to_bytes(&batch, 8);
    assert_eq!(file.write(&metadata, &[1, 2, 3]), Ok(()));
    let block = file.blocks()[0];
    assert_eq!(block.offset as usize, before.len());
    assert_eq!(block.body_length, 8);
    assert_eq!(block.meta_data_length as usize + 8, file.bytes.len() - before.len());
    let reader = StreamReader::new();
    assert_eq!(reader.state, ReaderState::AwaitingSchema);
    assert!(reader.schema.is_none() && reader.ipc_schema.is_none());
    assert_eq!(reader.dictionaries.lookup(0), None);
}
