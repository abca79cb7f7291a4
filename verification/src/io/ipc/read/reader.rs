//! The reader of a stream of messages: it waits for the schema, then takes
//! dictionary batches into its dictionary table and gives a chunk for each
//! record batch, until the end of the stream.

use crate::chunk::Chunk;
use crate::datatypes::{DataType, Field, Schema};
use crate::error::{ArrowError, OutOfSpec};
use crate::io::ipc::dictionaries::{Dictionaries, DictionaryView};
use crate::io::ipc::read::common::{
    ascending, columns_in_read_form, decode_batch, projection_of, read_record_batch,
};
use crate::io::ipc::read::deserialize::{ipc_fits, ipcs_fit, source_of};
use crate::io::ipc::read::dictionary::{dictionary_outcome, read_dictionary};
use crate::io::ipc::read::read_basic::yields;
use crate::io::ipc::{DictionaryBatch, IpcField, IpcSchema, RecordBatch};
use vstd::prelude::*;

verus! {

/// Whether `ipc_field` has the shape of `data_type`.
pub fn fits(ipc_field: &IpcField, data_type: &DataType) -> (ok: bool)
    ensures
        ok == ipc_fits(*ipc_field, *data_type),
    decreases data_type, 1nat,
{
    match data_type {
        DataType::List(inner) => ipc_field.fields.len() == 1 && fits(
            &ipc_field.fields[0],
            &inner.data_type,
        ),
        DataType::FixedSizeList(inner, _) => ipc_field.fields.len() == 1 && fits(
            &ipc_field.fields[0],
            &inner.data_type,
        ),
        DataType::Struct(fields) => all_fit(&ipc_field.fields, fields),
        DataType::Union(fields, _) => all_fit(&ipc_field.fields, fields),
        DataType::Dictionary(_, value_type) => fits(ipc_field, &**value_type),
        _ => true,
    }
}

/// Whether there is one of `ipc_fields` for each of `fields`, of its shape.
pub fn all_fit(ipc_fields: &Vec<IpcField>, fields: &Vec<Field>) -> (ok: bool)
    ensures
        ok == ipcs_fit(ipc_fields@, *fields),
    decreases fields, 0nat,
{
    if ipc_fields.len() != fields.len() {
        return false;
    }
    let mut i: usize = 0;
    while i < fields.len()
        invariant
            i <= fields.len(),
            ipc_fields@.len() == fields@.len(),
            forall|k: int| 0 <= k < i ==> ipc_fits(#[trigger] ipc_fields@[k], fields@[k].data_type),
        decreases fields.len() - i,
    {
        if !fits(&ipc_fields[i], &fields[i].data_type) {
            return false;
        }
        i = i + 1;
    }
    true
}

/// One message of a stream, as its metadata says what it is.
pub enum Message {
    /// The schema of the stream with its wire twin.
    Schema(Schema, IpcSchema),
    /// Values of a dictionary.
    DictionaryBatch(DictionaryBatch),
    /// The columns of one chunk.
    RecordBatch(RecordBatch),
    /// The mark of the end of the stream.
    EndOfStream,
}

/// Where a reader stands.
#[derive(Debug, Clone, Copy, PartialEq, Eq, Structural)]
pub enum ReaderState {
    /// No schema has arrived yet.
    AwaitingSchema,
    /// The schema has arrived: batches are read.
    Reading,
    /// The end of the stream has arrived: nothing more is read.
    Ended,
}

/// The reader of one stream. It owns its dictionary table.
pub struct StreamReader {
    pub state: ReaderState,
    pub schema: Option<Schema>,
    pub ipc_schema: Option<IpcSchema>,
    pub dictionaries: Dictionaries,
}

impl StreamReader {
    /// The dictionary table is sound, and once the schema has arrived it is
    /// there with its wire twin, which has its shape.
    pub open spec fn wf(&self) -> bool {
        &&& self.dictionaries.wf()
        &&& !(self.state is AwaitingSchema) ==> {
            &&& self.schema matches Some(schema)
            &&& self.ipc_schema matches Some(ipc_schema)
            &&& ipcs_fit(ipc_schema.fields@, schema.fields)
        }
    }

    /// A reader that waits for the schema: it holds no schema, no wire twin
    /// and no dictionary.
    pub fn new() -> (out: StreamReader)
        ensures
            out.wf(),
            out.state is AwaitingSchema,
            out.schema is None,
            out.ipc_schema is None,
            out.dictionaries@ == Map::<i64, DictionaryView>::empty(),
    {
        StreamReader {
            state: ReaderState::AwaitingSchema,
            schema: None,
            ipc_schema: None,
            dictionaries: Dictionaries::new(),
        }
    }

    /// The error of a message that arrives where the reader does not stand at
    /// `Reading`.
    pub open spec fn misplaced(state: ReaderState) -> ArrowError {
        if state is Ended {
            ArrowError::Finished
        } else {
            ArrowError::OutOfSpec(OutOfSpec::UnexpectedMessage)
        }
    }

    /// Takes the schema of the stream. It must be the first message, and the
    /// only one of its kind.
    pub fn read_schema(&mut self, schema: Schema, ipc_schema: IpcSchema) -> (out: Result<(), ArrowError>)
        requires
            old(self).wf(),
        ensures
            final(self).wf(),
            final(self).dictionaries == old(self).dictionaries,
            match out {
                Ok(_) => {
                    &&& old(self).state is AwaitingSchema
                    &&& final(self).state is Reading
                    &&& final(self).schema == Some(schema)
                    &&& final(self).ipc_schema == Some(ipc_schema)
                },
                Err(e) => {
                    &&& final(self).state == old(self).state
                    &&& final(self).schema == old(self).schema
                    &&& final(self).ipc_schema == old(self).ipc_schema
                    &&& e == if old(self).state is Ended {
                        ArrowError::Finished
                    } else if old(self).state is Reading {
                        ArrowError::OutOfSpec(OutOfSpec::UnexpectedMessage)
                    } else {
                        ArrowError::OutOfSpec(OutOfSpec::SchemaMismatch)
                    }
                    &&& old(self).state is AwaitingSchema ==> !ipcs_fit(ipc_schema.fields@, schema.fields)
                },
            },
    {
        match self.state {
            ReaderState::Ended => {
                return Err(ArrowError::Finished);
            },
            ReaderState::Reading => {
                return Err(ArrowError::OutOfSpec(OutOfSpec::UnexpectedMessage));
            },
            ReaderState::AwaitingSchema => {},
        }
        if !all_fit(&ipc_schema.fields, &schema.fields) {
            return Err(ArrowError::OutOfSpec(OutOfSpec::SchemaMismatch));
        }
        self.schema = Some(schema);
        self.ipc_schema = Some(ipc_schema);
        self.state = ReaderState::Reading;
        Ok(())
    }

    /// Takes a dictionary batch into the dictionary table. After an error the
    /// table is as it was.
    pub fn read_dictionary(&mut self, batch: &DictionaryBatch, body: &[u8]) -> (out: Result<(), ArrowError>)
        requires
            old(self).wf(),
        ensures
            final(self).wf(),
            final(self).state == old(self).state,
            final(self).schema == old(self).schema,
            final(self).ipc_schema == old(self).ipc_schema,
            !(old(self).state is Reading) ==> out == Err::<(), ArrowError>(Self::misplaced(old(self).state))
                && final(self).dictionaries@ == old(self).dictionaries@,
            old(self).state is Reading ==> match out {
                Ok(_) => dictionary_outcome(
                    old(self).schema->0.fields,
                    old(self).ipc_schema->0.fields@,
                    batch.id,
                    batch.is_delta,
                    batch.data.nodes@,
                    batch.data.buffers@,
                    body@,
                    old(self).ipc_schema->0.is_little_endian,
                    batch.data.compression,
                    old(self).dictionaries@,
                ) == Ok::<Map<i64, DictionaryView>, ArrowError>(final(self).dictionaries@),
                Err(e) => final(self).dictionaries@ == old(self).dictionaries@ && dictionary_outcome(
                    old(self).schema->0.fields,
                    old(self).ipc_schema->0.fields@,
                    batch.id,
                    batch.is_delta,
                    batch.data.nodes@,
                    batch.data.buffers@,
                    body@,
                    old(self).ipc_schema->0.is_little_endian,
                    batch.data.compression,
                    old(self).dictionaries@,
                ) == Err::<Map<i64, DictionaryView>, ArrowError>(e),
            },
    {
        match self.state {
            ReaderState::Ended => {
                return Err(ArrowError::Finished);
            },
            ReaderState::AwaitingSchema => {
                return Err(ArrowError::OutOfSpec(OutOfSpec::UnexpectedMessage));
            },
            ReaderState::Reading => {},
        }
        match (&self.schema, &self.ipc_schema) {
            (Some(schema), Some(ipc_schema)) => read_dictionary(
                batch,
                &schema.fields,
                ipc_schema,
                &mut self.dictionaries,
                body,
            ),
            _ => Err(ArrowError::OutOfSpec(OutOfSpec::UnexpectedMessage)),
        }
    }

    /// Reads a record batch into a chunk: the columns that `projection` names,
    /// or all where there is none.
    pub fn read_batch(&self, batch: &RecordBatch, body: &[u8], projection: Option<&[usize]>) -> (out: Result<
        Chunk,
        ArrowError,
    >)
        requires
            self.wf(),
            projection matches Some(p) ==> ascending(p@),
        ensures
            !(self.state is Reading) ==> (out matches Err(e) && e == Self::misplaced(self.state)),
            self.state is Reading ==> yields(
                out,
                decode_batch(
                    self.schema->0.fields,
                    self.ipc_schema->0.fields@,
                    projection_of(projection),
                    batch.nodes@,
                    batch.buffers@,
                    source_of(
                        body@,
                        self.ipc_schema->0.is_little_endian,
                        batch.compression,
                        self.dictionaries@,
                    ),
                ),
            ),
            out matches Ok(chunk) ==> chunk.wf() && columns_in_read_form(
                chunk.arrays@,
                self.schema->0.fields,
                self.ipc_schema->0.fields@,
                projection_of(projection),
                batch.nodes@,
                self.dictionaries@,
            ),
    {
        match self.state {
            ReaderState::Ended => {
                return Err(ArrowError::Finished);
            },
            ReaderState::AwaitingSchema => {
                return Err(ArrowError::OutOfSpec(OutOfSpec::UnexpectedMessage));
            },
            ReaderState::Reading => {},
        }
        match (&self.schema, &self.ipc_schema) {
            (Some(schema), Some(ipc_schema)) => read_record_batch(
                batch,
                &schema.fields,
                ipc_schema,
                projection,
                &self.dictionaries,
                body,
            ),
            _ => Err(ArrowError::OutOfSpec(OutOfSpec::UnexpectedMessage)),
        }
    }

    /// Takes the end of the stream: nothing more is read after it.
    pub fn end(&mut self) -> (out: Result<(), ArrowError>)
        requires
            old(self).wf(),
        ensures
            final(self).wf(),
            final(self).dictionaries == old(self).dictionaries,
            final(self).schema == old(self).schema,
            final(self).ipc_schema == old(self).ipc_schema,
            match out {
                Ok(_) => old(self).state is Reading && final(self).state is Ended,
                Err(e) => !(old(self).state is Reading) && final(self).state == old(self).state && e
                    == Self::misplaced(old(self).state),
            },
    {
        match self.state {
            ReaderState::Ended => Err(ArrowError::Finished),
            ReaderState::AwaitingSchema => Err(ArrowError::OutOfSpec(OutOfSpec::UnexpectedMessage)),
            ReaderState::Reading => {
                self.state = ReaderState::Ended;
                Ok(())
            },
        }
    }
}

impl StreamReader {
    /// Takes the next message of the stream with its body, and gives the chunk
    /// of a record batch. A schema moves the reader from `AwaitingSchema` to
    /// `Reading`; a dictionary batch changes the dictionary table and gives
    /// nothing; the end of the stream moves the reader to `Ended`. Each kind
    /// of message is taken as the method of its own takes it.
    pub fn read_next(&mut self, message: Message, body: &[u8], projection: Option<&[usize]>) -> (out: Result<
        Option<Chunk>,
        ArrowError,
    >)
        requires
            old(self).wf(),
            projection matches Some(p) ==> ascending(p@),
        ensures
            final(self).wf(),
            out matches Ok(Some(chunk)) ==> message is RecordBatch && chunk.wf(),
            !(message is Schema) && !(old(self).state is Reading) ==> out == Err::<
                Option<Chunk>,
                ArrowError,
            >(Self::misplaced(old(self).state)) && final(self).state == old(self).state && final(self).dictionaries@ == old(self).dictionaries@,
            match message {
                Message::Schema(schema, ipc_schema) => {
                    &&& final(self).dictionaries == old(self).dictionaries
                    &&& out is Ok <==> old(self).state is AwaitingSchema && ipcs_fit(
                        ipc_schema.fields@,
                        schema.fields,
                    )
                    &&& out is Ok ==> final(self).state is Reading && final(self).schema == Some(schema)
                        && final(self).ipc_schema == Some(ipc_schema)
                    &&& out is Err ==> final(self).state == old(self).state
                },
                Message::DictionaryBatch(batch) => {
                    &&& final(self).state == old(self).state
                    &&& old(self).state is Reading ==> match out {
                        Ok(_) => dictionary_outcome(
                            old(self).schema->0.fields,
                            old(self).ipc_schema->0.fields@,
                            batch.id,
                            batch.is_delta,
                            batch.data.nodes@,
                            batch.data.buffers@,
                            body@,
                            old(self).ipc_schema->0.is_little_endian,
                            batch.data.compression,
                            old(self).dictionaries@,
                        ) == Ok::<Map<i64, DictionaryView>, ArrowError>(final(self).dictionaries@),
                        Err(e) => final(self).dictionaries@ == old(self).dictionaries@
                            && dictionary_outcome(
                            old(self).schema->0.fields,
                            old(self).ipc_schema->0.fields@,
                            batch.id,
                            batch.is_delta,
                            batch.data.nodes@,
                            batch.data.buffers@,
                            body@,
                            old(self).ipc_schema->0.is_little_endian,
                            batch.data.compression,
                            old(self).dictionaries@,
                        ) == Err::<Map<i64, DictionaryView>, ArrowError>(e),
                    }
                },
                Message::RecordBatch(batch) => {
                    &&& final(self).state == old(self).state
                    &&& final(self).dictionaries == old(self).dictionaries
                    &&& old(self).state is Reading ==> match out {
                        Ok(chunk) => chunk is Some && decode_batch(
                            old(self).schema->0.fields,
                            old(self).ipc_schema->0.fields@,
                            projection_of(projection),
                            batch.nodes@,
                            batch.buffers@,
                            source_of(
                                body@,
                                old(self).ipc_schema->0.is_little_endian,
                                batch.compression,
                                old(self).dictionaries@,
                            ),
                        ) == Ok::<Seq<crate::array::ArrayView>, ArrowError>(chunk->0@)
                            && columns_in_read_form(
                            chunk->0.arrays@,
                            old(self).schema->0.fields,
                            old(self).ipc_schema->0.fields@,
                            projection_of(projection),
                            batch.nodes@,
                            old(self).dictionaries@,
                        ),
                        Err(e) => decode_batch(
                            old(self).schema->0.fields,
                            old(self).ipc_schema->0.fields@,
                            projection_of(projection),
                            batch.nodes@,
                            batch.buffers@,
                            source_of(
                                body@,
                                old(self).ipc_schema->0.is_little_endian,
                                batch.compression,
                                old(self).dictionaries@,
                            ),
                        ) == Err::<Seq<crate::array::ArrayView>, ArrowError>(e),
                    }
                },
                Message::EndOfStream => {
                    &&& final(self).dictionaries == old(self).dictionaries
                    &&& out is Ok <==> old(self).state is Reading
                    &&& out is Ok ==> final(self).state is Ended
                },
            },
    {
        match message {
            Message::Schema(schema, ipc_schema) => {
                self.read_schema(schema, ipc_schema)?;
                Ok(None)
            },
            Message::DictionaryBatch(batch) => {
                self.read_dictionary(&batch, body)?;
                Ok(None)
            },
            Message::RecordBatch(batch) => {
                let chunk = self.read_batch(&batch, body, projection)?;
                Ok(Some(chunk))
            },
            Message::EndOfStream => {
                self.end()?;
                Ok(None)
            },
        }
    }
}

} // verus!
