//! The wire twin of a schema, with dictionary identifiers given out in
//! pre-order.

use crate::datatypes::{DataType, Field};
use crate::io::ipc::read::deserialize::{ipc_fits, ipcs_fit};
use crate::io::ipc::IpcField;
use vstd::prelude::*;

verus! {

/// The number of dictionary-encoded fields within `data_type`, at any depth,
/// those within the values of a dictionary counted.
pub open spec fn dictionary_count(data_type: DataType) -> nat
    decreases data_type, 1nat,
{
    match data_type {
        DataType::Dictionary(_, value_type) => 1 + dictionary_count(*value_type),
        DataType::List(field) => dictionary_count(field.data_type),
        DataType::FixedSizeList(field, _) => dictionary_count(field.data_type),
        DataType::Struct(fields) => fields_dictionary_count(fields, fields@.len()),
        DataType::Union(fields, _) => fields_dictionary_count(fields, fields@.len()),
        _ => 0,
    }
}

/// The number of dictionary-encoded fields within the first `upto` of `fields`.
pub open spec fn fields_dictionary_count(fields: Vec<Field>, upto: nat) -> nat
    decreases fields, upto,
{
    if upto == 0 || upto > fields@.len() {
        0
    } else {
        fields_dictionary_count(fields, (upto - 1) as nat) + dictionary_count(fields@[upto - 1].data_type)
    }
}

/// Whether `ipc_field` is the wire twin of `data_type` that gives out the
/// identifiers from `start` on: it has the shape of the type, a field that is
/// not dictionary-encoded has no identifier, and the dictionary-encoded
/// fields have `start`, `start + 1` and so on in pre-order. The twin of a
/// dictionary-encoded field has the children of the twin of its values.
pub open spec fn is_default(ipc_field: IpcField, data_type: DataType, start: int) -> bool
    decreases data_type, 1nat,
{
    &&& ipc_field.dictionary_id == if data_type is Dictionary {
        Some(start as i64)
    } else {
        None
    }
    &&& children_default(ipc_field.fields@, data_type, start)
}

/// Whether `children` are the children of the twin of `data_type`.
pub open spec fn children_default(children: Seq<IpcField>, data_type: DataType, start: int) -> bool
    decreases data_type, 0nat,
{
    match data_type {
        DataType::Dictionary(_, value_type) => children_default(children, *value_type, start + 1),
        DataType::List(field) => children.len() == 1 && is_default(children[0], field.data_type, start),
        DataType::FixedSizeList(field, _) => children.len() == 1 && is_default(
            children[0],
            field.data_type,
            start,
        ),
        DataType::Struct(fields) => are_default(children, fields, start),
        DataType::Union(fields, _) => are_default(children, fields, start),
        _ => children.len() == 0,
    }
}

/// Whether `ipc_fields` are the twins of `fields`, the identifiers running on
/// from one field to the next.
pub open spec fn are_default(ipc_fields: Seq<IpcField>, fields: Vec<Field>, start: int) -> bool
    decreases fields,
{
    &&& ipc_fields.len() == fields@.len()
    &&& forall|i: int|
        0 <= i < fields@.len() ==> is_default(
            #[trigger] ipc_fields[i],
            fields@[i].data_type,
            start + fields_dictionary_count(fields, i as nat),
        )
}

/// A default twin has the shape of its type.
pub proof fn lemma_default_fits(ipc_field: IpcField, data_type: DataType, start: int)
    requires
        is_default(ipc_field, data_type, start),
    ensures
        ipc_fits(ipc_field, data_type),
    decreases data_type, 1nat,
{
    lemma_children_fit(ipc_field, data_type, start);
}

/// A twin with default children for a type has the shape of the type.
pub proof fn lemma_children_fit(ipc_field: IpcField, data_type: DataType, start: int)
    requires
        children_default(ipc_field.fields@, data_type, start),
    ensures
        ipc_fits(ipc_field, data_type),
    decreases data_type, 0nat,
{
    match data_type {
        DataType::Dictionary(_, value_type) => {
            lemma_children_fit(ipc_field, *value_type, start + 1);
        },
        DataType::List(field) => {
            lemma_default_fits(ipc_field.fields@[0], field.data_type, start);
        },
        DataType::FixedSizeList(field, _) => {
            lemma_default_fits(ipc_field.fields@[0], field.data_type, start);
        },
        DataType::Struct(fields) => {
            lemma_defaults_fit(ipc_field.fields@, fields, start);
        },
        DataType::Union(fields, _) => {
            lemma_defaults_fit(ipc_field.fields@, fields, start);
        },
        _ => {},
    }
}

/// Default twins have the shapes of their fields.
pub proof fn lemma_defaults_fit(ipc_fields: Seq<IpcField>, fields: Vec<Field>, start: int)
    requires
        are_default(ipc_fields, fields, start),
    ensures
        ipcs_fit(ipc_fields, fields),
    decreases fields,
{
    assert forall|i: int| 0 <= i < fields@.len() implies ipc_fits(
        #[trigger] ipc_fields[i],
        fields@[i].data_type,
    ) by {
        lemma_default_fits(
            ipc_fields[i],
            fields@[i].data_type,
            start + fields_dictionary_count(fields, i as nat),
        );
    }
}

/// The wire twins of `fields`, the identifiers running on from `current_id`.
fn default_fields(fields: &Vec<Field>, current_id: &mut i64) -> (out: Vec<IpcField>)
    requires
        *old(current_id) + fields_dictionary_count(*fields, fields@.len()) <= i64::MAX,
    ensures
        are_default(out@, *fields, *old(current_id) as int),
        *final(current_id) == *old(current_id) + fields_dictionary_count(*fields, fields@.len()),
    decreases fields, 0nat,
{
    let mut out: Vec<IpcField> = Vec::with_capacity(fields.len());
    let mut i: usize = 0;
    while i < fields.len()
        invariant
            i <= fields.len(),
            out@.len() == i,
            *old(current_id) + fields_dictionary_count(*fields, fields@.len()) <= i64::MAX,
            *current_id == *old(current_id) + fields_dictionary_count(*fields, i as nat),
            forall|k: int|
                0 <= k < i ==> is_default(
                    #[trigger] out@[k],
                    fields@[k].data_type,
                    *old(current_id) + fields_dictionary_count(*fields, k as nat),
                ),
        decreases fields.len() - i,
    {
        proof {
            lemma_count_grows(*fields, (i + 1) as nat, fields@.len());
        }
        let field = default_ipc_field(&fields[i].data_type, current_id);
        out.push(field);
        i = i + 1;
    }
    out
}

/// The more fields, the more dictionaries.
pub proof fn lemma_count_grows(fields: Vec<Field>, at: nat, upto: nat)
    requires
        at <= upto <= fields@.len(),
    ensures
        fields_dictionary_count(fields, at) <= fields_dictionary_count(fields, upto),
    decreases upto,
{
    if at < upto {
        lemma_count_grows(fields, at, (upto - 1) as nat);
    }
}

/// The wire twin of `data_type`. Each dictionary-encoded field within it gets
/// the identifier that `current_id` holds when the field is reached in
/// pre-order, and `current_id` goes on by one.
pub fn default_ipc_field(data_type: &DataType, current_id: &mut i64) -> (out: IpcField)
    requires
        *old(current_id) + dictionary_count(*data_type) <= i64::MAX,
    ensures
        is_default(out, *data_type, *old(current_id) as int),
        ipc_fits(out, *data_type),
        *final(current_id) == *old(current_id) + dictionary_count(*data_type),
    decreases data_type, 1nat,
{
    let out = match data_type {
        DataType::Dictionary(_, value_type) => {
            let id = *current_id;
            *current_id = id + 1;
            let values = default_ipc_field(&**value_type, current_id);
            IpcField { fields: values.fields, dictionary_id: Some(id) }
        },
        DataType::List(inner) => {
            let mut fields: Vec<IpcField> = Vec::new();
            fields.push(default_ipc_field(&inner.data_type, current_id));
            IpcField { fields, dictionary_id: None }
        },
        DataType::FixedSizeList(inner, _) => {
            let mut fields: Vec<IpcField> = Vec::new();
            fields.push(default_ipc_field(&inner.data_type, current_id));
            IpcField { fields, dictionary_id: None }
        },
        DataType::Struct(fields) => IpcField {
            fields: default_fields(fields, current_id),
            dictionary_id: None,
        },
        DataType::Union(fields, _) => IpcField {
            fields: default_fields(fields, current_id),
            dictionary_id: None,
        },
        _ => IpcField { fields: Vec::new(), dictionary_id: None },
    };
    proof {
        lemma_default_fits(out, *data_type, *old(current_id) as int);
    }
    out
}

/// The wire twins of `fields`, with the dictionary identifiers given out from
/// zero on in pre-order.
pub fn default_ipc_fields(fields: &Vec<Field>) -> (out: Vec<IpcField>)
    requires
        fields_dictionary_count(*fields, fields@.len()) <= i64::MAX,
    ensures
        are_default(out@, *fields, 0),
        ipcs_fit(out@, *fields),
{
    let mut current_id: i64 = 0;
    let out = default_fields(fields, &mut current_id);
    proof {
        lemma_defaults_fit(out@, *fields, 0);
    }
    out
}

} // verus!
