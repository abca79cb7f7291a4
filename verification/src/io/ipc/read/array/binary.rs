//! Arrays of byte strings and of texts: one field node, a validity buffer, an
//! offsets buffer and a values buffer.

use crate::array::{BinaryArray, BinaryArrayView};
use crate::error::{ArrowError, OutOfSpec};
use crate::io::ipc::read::read_basic::{
    decode_offsets, decode_validity, decode_values, expect_buffer, expecting, lemma_without_twice, read_offsets, read_validity,
    read_values, slot_count, without,
    slots, yields,
};
use crate::io::ipc::{BufferDescriptor, Compression, Node};
use std::collections::VecDeque;
use vstd::prelude::*;

verus! {

/// The array of byte strings that the first of `nodes` and the first three of
/// `buffers` describe within `body`. The last offset says how many bytes of
/// the values buffer belong to the array.
pub open spec fn decode_binary(
    is_utf8: bool,
    nodes: Seq<Node>,
    buffers: Seq<BufferDescriptor>,
    body: Seq<u8>,
    is_little_endian: bool,
    compression: Option<Compression>,
) -> Result<BinaryArrayView, ArrowError> {
    if nodes.len() == 0 {
        Err(ArrowError::OutOfSpec(OutOfSpec::MissingFieldNode))
    } else {
        match slot_count(nodes[0]) {
            Err(e) => Err(e),
            Ok(length) => match decode_validity(buffers, nodes[0], body, compression) {
                Err(e) => Err(e),
                Ok(validity) => match expecting(
                    buffers.skip(1),
                    OutOfSpec::MissingOffsetsBuffer,
                    decode_offsets(buffers.skip(1), length as nat, body, is_little_endian, compression),
                ) {
                    Err(e) => Err(e),
                    Ok(offsets) => match expecting(
                        buffers.skip(2),
                        OutOfSpec::MissingValuesBuffer,
                        decode_values(buffers.skip(2), offsets.last() as nat, 1, body, true, compression),
                    ) {
                        Err(e) => Err(e),
                        Ok(values) => Ok(BinaryArrayView { is_utf8, validity, offsets, values }),
                    },
                },
            },
        }
    }
}

/// How many buffer descriptors reading an array of byte strings reaches for:
/// none where its field node is missing or declares a length that is
/// refused, one where its validity cannot be read, two where its offsets
/// cannot, else three.
pub open spec fn reached(
    nodes: Seq<Node>,
    buffers: Seq<BufferDescriptor>,
    body: Seq<u8>,
    is_little_endian: bool,
    compression: Option<Compression>,
) -> nat {
    if nodes.len() == 0 || slot_count(nodes[0]) is Err {
        0
    } else if decode_validity(buffers, nodes[0], body, compression) is Err {
        1
    } else if expecting(
        buffers.skip(1),
        OutOfSpec::MissingOffsetsBuffer,
        decode_offsets(buffers.skip(1), slot_count(nodes[0])->Ok_0 as nat, body, is_little_endian, compression),
    ) is Err {
        2
    } else {
        3
    }
}

/// Reads an array of byte strings: takes one field node and three buffer
/// descriptors off the queues and reads the three buffers out of `body`. The
/// array has a validity bitmap exactly where its node counts nulls. Where
/// reading fails, the field node is taken all the same, if there is one, and
/// so is each buffer descriptor that was reached for before the failure.
pub fn read_binary(
    field_nodes: &mut VecDeque<Node>,
    is_utf8: bool,
    buffers: &mut VecDeque<BufferDescriptor>,
    body: &[u8],
    is_little_endian: bool,
    compression: Option<Compression>,
) -> (out: Result<BinaryArray, ArrowError>)
    ensures
        yields(
            out,
            decode_binary(is_utf8, old(field_nodes)@, old(buffers)@, body@, is_little_endian, compression),
        ),
        out matches Ok(array) ==> {
            &&& array.wf()
            &&& array@.wf()
            &&& array.is_utf8 == is_utf8
            &&& array.validity is Some <==> old(field_nodes)@[0].null_count > 0
            &&& old(field_nodes)@.len() >= 1
            &&& old(buffers)@.len() >= 3
            &&& final(field_nodes)@ == old(field_nodes)@.skip(1)
            &&& final(buffers)@ == old(buffers)@.skip(3)
        },
        final(field_nodes)@ == without(old(field_nodes)@, 1),
        final(buffers)@ == without(
            old(buffers)@,
            reached(old(field_nodes)@, old(buffers)@, body@, is_little_endian, compression),
        ),
{
    let field_node = match field_nodes.pop_front() {
        None => {
            return Err(ArrowError::OutOfSpec(OutOfSpec::MissingFieldNode));
        },
        Some(field_node) => field_node,
    };
    proof {
        assert(buffers@ =~= without(old(buffers)@, 0));
    }
    let length = slots(field_node)?;
    let validity = read_validity(buffers, field_node, body, is_little_endian, compression)?;
    proof {
        lemma_without_twice(old(buffers)@, 1, 1);
    }
    expect_buffer(buffers, OutOfSpec::MissingOffsetsBuffer)?;
    let offsets = read_offsets(buffers, length, body, is_little_endian, compression)?;
    proof {
        assert(old(buffers)@.skip(1).skip(1) =~= old(buffers)@.skip(2));
        lemma_ascending_last(offsets@);
    }
    let last: usize = offsets[offsets.len() - 1] as usize;
    proof {
        lemma_without_twice(old(buffers)@, 2, 1);
    }
    expect_buffer(buffers, OutOfSpec::MissingValuesBuffer)?;
    let values = read_values(buffers, last, 1, body, true, compression)?;
    proof {
        assert(old(buffers)@.skip(2).skip(1) =~= old(buffers)@.skip(3));
    }
    Ok(BinaryArray { is_utf8, offsets, values, validity })
}

/// Offsets that start at or above zero and never decrease end at or above zero.
pub proof fn lemma_ascending_last(offsets: Seq<i32>)
    requires
        crate::array::offsets_ascend(offsets),
    ensures
        forall|i: int| 0 <= i < offsets.len() ==> 0 <= #[trigger] offsets[i],
        forall|i: int| 0 <= i < offsets.len() ==> #[trigger] offsets[i] <= offsets.last(),
{
    lemma_ascending(offsets, offsets.len() as int - 1);
    assert forall|i: int| 0 <= i < offsets.len() implies 0 <= #[trigger] offsets[i] && offsets[i]
        <= offsets.last() by {
        lemma_ascending(offsets, i);
        lemma_between(offsets, i, offsets.len() as int - 1);
    }
}

proof fn lemma_ascending(offsets: Seq<i32>, i: int)
    requires
        crate::array::offsets_ascend(offsets),
        0 <= i < offsets.len(),
    ensures
        0 <= offsets[i],
    decreases i,
{
    if i > 0 {
        lemma_ascending(offsets, i - 1);
        assert(offsets[i - 1] <= offsets[(i - 1) + 1]);
    }
}

proof fn lemma_between(offsets: Seq<i32>, i: int, j: int)
    requires
        crate::array::offsets_ascend(offsets),
        0 <= i <= j < offsets.len(),
    ensures
        offsets[i] <= offsets[j],
    decreases j - i,
{
    if i < j {
        lemma_between(offsets, i, j - 1);
        assert(offsets[j - 1] <= offsets[(j - 1) + 1]);
    }
}

} // verus!
