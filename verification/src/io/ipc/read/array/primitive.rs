//! Arrays of fixed-width integers: one field node, a validity buffer and a values buffer.

use crate::array::{PrimitiveArray, PrimitiveArrayView};
use crate::datatypes::IntegerType;
use crate::error::{ArrowError, OutOfSpec};
use crate::io::ipc::read::read_basic::{
    decode_validity, decode_values, expect_buffer, expecting, lemma_without_twice, read_validity, read_values, slot_count, slots,
    without, yields,
};
use crate::io::ipc::read::array::boolean::reached;
use crate::io::ipc::{BufferDescriptor, Compression, Node};
use std::collections::VecDeque;
use vstd::prelude::*;

verus! {

/// The array of integers that the first of `nodes` and the first two of
/// `buffers` describe within `body`.
pub open spec fn decode_primitive(
    data_type: IntegerType,
    nodes: Seq<Node>,
    buffers: Seq<BufferDescriptor>,
    body: Seq<u8>,
    is_little_endian: bool,
    compression: Option<Compression>,
) -> Result<PrimitiveArrayView, ArrowError> {
    if nodes.len() == 0 {
        Err(ArrowError::OutOfSpec(OutOfSpec::MissingFieldNode))
    } else {
        match slot_count(nodes[0]) {
            Err(e) => Err(e),
            Ok(length) => match decode_validity(buffers, nodes[0], body, compression) {
                Err(e) => Err(e),
                Ok(validity) => match expecting(
                    buffers.skip(1),
                    OutOfSpec::MissingValuesBuffer,
                    decode_values(
                        buffers.skip(1),
                        length as nat,
                        data_type.byte_width() as nat,
                        body,
                        is_little_endian,
                        compression,
                    ),
                ) {
                    Err(e) => Err(e),
                    Ok(values) => Ok(PrimitiveArrayView { data_type, validity, values }),
                },
            },
        }
    }
}

/// Reads an array of integers: takes one field node and two buffer descriptors
/// off the queues and reads the two buffers out of `body`. The array has a
/// validity bitmap exactly where its node counts nulls. Where reading fails,
/// the field node is taken all the same, if there is one, and so is each
/// buffer descriptor that was reached for before the failure.
pub fn read_primitive(
    field_nodes: &mut VecDeque<Node>,
    data_type: IntegerType,
    buffers: &mut VecDeque<BufferDescriptor>,
    body: &[u8],
    is_little_endian: bool,
    compression: Option<Compression>,
) -> (out: Result<PrimitiveArray, ArrowError>)
    ensures
        yields(
            out,
            decode_primitive(data_type, old(field_nodes)@, old(buffers)@, body@, is_little_endian, compression),
        ),
        out matches Ok(array) ==> {
            &&& array.wf()
            &&& array@.wf()
            &&& array.data_type == data_type
            &&& array.validity is Some <==> old(field_nodes)@[0].null_count > 0
            &&& old(field_nodes)@.len() >= 1
            &&& old(buffers)@.len() >= 2
            &&& final(field_nodes)@ == old(field_nodes)@.skip(1)
            &&& final(buffers)@ == old(buffers)@.skip(2)
        },
        final(field_nodes)@ == without(old(field_nodes)@, 1),
        final(buffers)@ == without(
            old(buffers)@,
            reached(old(field_nodes)@, old(buffers)@, body@, compression),
        ),
{
    let field_node = match field_nodes.pop_front() {
        None => {
            return Err(ArrowError::OutOfSpec(OutOfSpec::MissingFieldNode));
        },
        Some(field_node) => field_node,
    };
    proof {
        assert(buffers@ =~= without(old(buffers)@, 0));
    }
    let length = slots(field_node)?;
    let validity = read_validity(buffers, field_node, body, is_little_endian, compression)?;
    let width = data_type.byte_width();
    proof {
        lemma_without_twice(old(buffers)@, 1, 1);
    }
    expect_buffer(buffers, OutOfSpec::MissingValuesBuffer)?;
    let values = read_values(buffers, length, width, body, is_little_endian, compression)?;
    proof {
        assert(old(buffers)@.skip(1).skip(1) =~= old(buffers)@.skip(2));
        assert(((length * width) as nat) % (width as nat) == 0 && ((length * width) as nat) / (
        width as nat) == length) by (nonlinear_arith)
            requires
                width > 0,
        ;
    }
    Ok(PrimitiveArray { data_type, values, validity })
}

} // verus!
