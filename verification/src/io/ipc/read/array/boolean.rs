//! Boolean arrays: one field node, a validity buffer and a bit-packed values buffer.

use crate::array::{BooleanArray, BooleanArrayView};
use crate::datatypes::DataType;
use crate::error::{ArrowError, OutOfSpec};
use crate::io::ipc::read::read_basic::{
    decode_bitmap, decode_validity, expect_buffer, expecting, lemma_without_twice, read_bitmap, read_validity, slot_count, slots,
    without, yields,
};
use crate::io::ipc::{BufferDescriptor, Compression, Node};
use std::collections::VecDeque;
use vstd::prelude::*;

verus! {

/// The boolean array that the first of `nodes` and the first two of `buffers`
/// describe within `body`.
pub open spec fn decode_boolean(
    nodes: Seq<Node>,
    buffers: Seq<BufferDescriptor>,
    body: Seq<u8>,
    compression: Option<Compression>,
) -> Result<BooleanArrayView, ArrowError> {
    if nodes.len() == 0 {
        Err(ArrowError::OutOfSpec(OutOfSpec::MissingFieldNode))
    } else {
        match slot_count(nodes[0]) {
            Err(e) => Err(e),
            Ok(length) => match decode_validity(buffers, nodes[0], body, compression) {
                Err(e) => Err(e),
                Ok(validity) => match expecting(
                    buffers.skip(1),
                    OutOfSpec::MissingValuesBuffer,
                    decode_bitmap(buffers.skip(1), length as nat, body, compression),
                ) {
                    Err(e) => Err(e),
                    Ok(values) => Ok(BooleanArrayView { validity, values }),
                },
            },
        }
    }
}

/// How many buffer descriptors reading an array of two buffers reaches for:
/// none where its field node is missing or declares a length that is
/// refused, one where its validity cannot be read, else two.
pub open spec fn reached(
    nodes: Seq<Node>,
    buffers: Seq<BufferDescriptor>,
    body: Seq<u8>,
    compression: Option<Compression>,
) -> nat {
    if nodes.len() == 0 || slot_count(nodes[0]) is Err {
        0
    } else if decode_validity(buffers, nodes[0], body, compression) is Err {
        1
    } else {
        2
    }
}

/// Reads a boolean array: takes one field node and two buffer descriptors off
/// the queues and reads the two buffers out of `body`. The array has a
/// validity bitmap exactly where its node counts nulls. Where reading fails,
/// the field node is taken all the same, if there is one, and so is each
/// buffer descriptor that was reached for before the failure.
pub fn read_boolean(
    field_nodes: &mut VecDeque<Node>,
    data_type: DataType,
    buffers: &mut VecDeque<BufferDescriptor>,
    body: &[u8],
    is_little_endian: bool,
    compression: Option<Compression>,
) -> (out: Result<BooleanArray, ArrowError>)
    requires
        data_type is Boolean,
    ensures
        yields(out, decode_boolean(old(field_nodes)@, old(buffers)@, body@, compression)),
        out matches Ok(array) ==> {
            &&& array.wf()
            &&& array.data_type == data_type
            &&& array.validity is Some <==> old(field_nodes)@[0].null_count > 0
            &&& old(field_nodes)@.len() >= 1
            &&& old(buffers)@.len() >= 2
            &&& final(field_nodes)@ == old(field_nodes)@.skip(1)
            &&& final(buffers)@ == old(buffers)@.skip(2)
        },
        final(field_nodes)@ == without(old(field_nodes)@, 1),
        final(buffers)@ == without(
            old(buffers)@,
            reached(old(field_nodes)@, old(buffers)@, body@, compression),
        ),
{
    let field_node = match field_nodes.pop_front() {
        None => {
            return Err(ArrowError::OutOfSpec(OutOfSpec::MissingFieldNode));
        },
        Some(field_node) => field_node,
    };
    proof {
        assert(buffers@ =~= without(old(buffers)@, 0));
    }
    let length = slots(field_node)?;
    let validity = read_validity(buffers, field_node, body, is_little_endian, compression)?;
    proof {
        lemma_without_twice(old(buffers)@, 1, 1);
    }
    expect_buffer(buffers, OutOfSpec::MissingValuesBuffer)?;
    let values = read_bitmap(buffers, length, body, is_little_endian, compression)?;
    proof {
        assert(old(buffers)@.skip(1).skip(1) =~= old(buffers)@.skip(2));
    }
    Ok(BooleanArray::from_data(data_type, values, validity))
}

/// What skipping a boolean array finds missing, if anything, where the
/// queues hold `nodes` field nodes and `buffers` buffer descriptors.
pub open spec fn skip_refusal(nodes: nat, buffers: nat) -> Option<ArrowError> {
    if nodes == 0 {
        Some(ArrowError::OutOfSpec(OutOfSpec::MissingFieldNode))
    } else if buffers == 0 {
        Some(ArrowError::OutOfSpec(OutOfSpec::MissingValidityBuffer))
    } else if buffers == 1 {
        Some(ArrowError::OutOfSpec(OutOfSpec::MissingValuesBuffer))
    } else {
        None
    }
}

/// Takes what a boolean array occupies off the queues without reading it: one
/// field node and two buffer descriptors. Where one of them is missing, what
/// stands before it is taken all the same, and the error says which it was.
pub fn skip_boolean(field_nodes: &mut VecDeque<Node>, buffers: &mut VecDeque<BufferDescriptor>) -> (out:
    Result<(), ArrowError>)
    ensures
        match out {
            Ok(_) => {
                &&& skip_refusal(old(field_nodes)@.len(), old(buffers)@.len()) is None
                &&& final(field_nodes)@ == old(field_nodes)@.skip(1)
                &&& final(buffers)@ == old(buffers)@.skip(2)
            },
            Err(e) => skip_refusal(old(field_nodes)@.len(), old(buffers)@.len()) == Some(e),
        },
        final(field_nodes)@ == without(old(field_nodes)@, 1),
        final(buffers)@ == without(
            old(buffers)@,
            if old(field_nodes)@.len() == 0 {
                0
            } else {
                2
            },
        ),
{
    if field_nodes.pop_front().is_none() {
        proof {
            assert(buffers@ =~= without(old(buffers)@, 0));
        }
        return Err(ArrowError::OutOfSpec(OutOfSpec::MissingFieldNode));
    }
    if buffers.pop_front().is_none() {
        return Err(ArrowError::OutOfSpec(OutOfSpec::MissingValidityBuffer));
    }
    if buffers.pop_front().is_none() {
        return Err(ArrowError::OutOfSpec(OutOfSpec::MissingValuesBuffer));
    }
    proof {
        assert(old(buffers)@.skip(1).skip(1) =~= old(buffers)@.skip(2));
    }
    Ok(())
}

} // verus!
