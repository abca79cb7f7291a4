//! Byte order: buffers of fixed-width elements are swapped element by element
//! where the wire is not little-endian. Bitmaps and single bytes have no order.

use vstd::arithmetic::div_mod::{lemma_fundamental_div_mod, lemma_fundamental_div_mod_converse};
use vstd::prelude::*;

verus! {

/// Where byte `i` of a buffer of `width`-byte elements goes when each element
/// is reversed.
pub open spec fn swap_index(i: int, width: int) -> int {
    i - i % width + (width - 1 - i % width)
}

/// `bytes` with each element of `width` bytes reversed.
pub open spec fn swapped(bytes: Seq<u8>, width: nat) -> Seq<u8> {
    Seq::new(bytes.len(), |i: int| bytes[swap_index(i, width as int)])
}

/// `bytes` as they stand on a wire of the given byte order, and back.
pub open spec fn ordered(bytes: Seq<u8>, width: nat, is_little_endian: bool) -> Seq<u8> {
    if is_little_endian {
        bytes
    } else {
        swapped(bytes, width)
    }
}

/// A byte stays within its element, and goes back where it was when swapped twice.
pub proof fn lemma_swap_index(i: int, width: int, len: int)
    requires
        width > 0,
        0 <= i < len,
        len % width == 0,
    ensures
        0 <= i % width < width,
        i % width <= i,
        0 <= swap_index(i, width) < len,
        swap_index(swap_index(i, width), width) == i,
{
    let q = i / width;
    let r = i % width;
    let j = swap_index(i, width);
    lemma_fundamental_div_mod(i, width);
    lemma_fundamental_div_mod(len, width);
    assert(i == width * q + r);
    assert(j == width * q + (width - 1 - r));
    lemma_fundamental_div_mod_converse(j, width, q, width - 1 - r);
    assert(j % width == width - 1 - r);
    let n = len / width;
    assert(len == width * n);
    assert(q < n) by (nonlinear_arith)
        requires
            width * q + r < width * n,
            0 <= r,
            width > 0,
    ;
    assert(width * q + width <= width * n) by (nonlinear_arith)
        requires
            q < n,
            width > 0,
    ;
    assert(0 <= width * q) by (nonlinear_arith)
        requires
            0 <= q,
            width > 0,
    ;
}

/// Swapping twice gives the bytes back.
pub proof fn lemma_swapped_twice(bytes: Seq<u8>, width: nat)
    requires
        width > 0,
        bytes.len() % width == 0,
    ensures
        swapped(swapped(bytes, width), width) == bytes,
        swapped(bytes, width).len() == bytes.len(),
{
    assert forall|i: int| 0 <= i < bytes.len() implies swapped(swapped(bytes, width), width)[i]
        == bytes[i] by {
        lemma_swap_index(i, width as int, bytes.len() as int);
    }
    assert(swapped(swapped(bytes, width), width) =~= bytes);
}

/// Putting bytes on the wire and taking them off again gives them back.
pub proof fn lemma_ordered_twice(bytes: Seq<u8>, width: nat, is_little_endian: bool)
    requires
        width > 0,
        bytes.len() % width == 0,
    ensures
        ordered(ordered(bytes, width, is_little_endian), width, is_little_endian) == bytes,
        ordered(bytes, width, is_little_endian).len() == bytes.len(),
{
    lemma_swapped_twice(bytes, width);
}

/// Reverses each element of `width` bytes.
pub fn swap_bytes(bytes: &[u8], width: usize) -> (out: Vec<u8>)
    requires
        width > 0,
        bytes@.len() % (width as nat) == 0,
    ensures
        out@ == swapped(bytes@, width as nat),
{
    let mut out: Vec<u8> = Vec::with_capacity(bytes.len());
    let mut i: usize = 0;
    while i < bytes.len()
        invariant
            width > 0,
            bytes@.len() % (width as nat) == 0,
            i <= bytes.len(),
            out@.len() == i,
            forall|k: int| 0 <= k < i ==> out@[k] == bytes@[swap_index(k, width as int)],
        decreases bytes.len() - i,
    {
        proof {
            lemma_swap_index(i as int, width as int, bytes@.len() as int);
        }
        let r: usize = i % width;
        let j: usize = i - r + (width - 1 - r);
        out.push(bytes[j]);
        i = i + 1;
    }
    proof {
        assert(out@ =~= swapped(bytes@, width as nat));
    }
    out
}

/// Brings `bytes` from or to a wire of the given byte order.
pub fn reorder(bytes: Vec<u8>, width: usize, is_little_endian: bool) -> (out: Vec<u8>)
    requires
        width > 0,
        bytes@.len() % (width as nat) == 0,
    ensures
        out@ == ordered(bytes@, width as nat, is_little_endian),
{
    if is_little_endian || width == 1 {
        proof {
            if width == 1 {
                assert(swapped(bytes@, 1) =~= bytes@);
            }
        }
        bytes
    } else {
        swap_bytes(bytes.as_slice(), width)
    }
}

} // verus!
