//! Bit-packed sequences of booleans.

use vstd::prelude::*;

verus! {

/// Whether bit `k` of `byte` is set. Bit 0 is the least significant one.
pub open spec fn bit_of(byte: u8, k: int) -> bool {
    (byte >> (k as u8)) & 1u8 == 1u8
}

/// The first `length` bits of `bytes`, each byte read from its least significant bit.
pub open spec fn bits_of(bytes: Seq<u8>, length: nat) -> Seq<bool> {
    Seq::new(length, |i: int| bit_of(bytes[i / 8], i % 8))
}

/// How many entries of `bits` are `false`.
pub open spec fn count_unset(bits: Seq<bool>) -> nat
    decreases bits.len(),
{
    if bits.len() == 0 {
        0
    } else {
        count_unset(bits.drop_last()) + if bits.last() {
            0nat
        } else {
            1nat
        }
    }
}

/// A sequence of `length` booleans with nothing unset.
pub open spec fn all_set(length: nat) -> Seq<bool> {
    Seq::new(length, |i: int| true)
}

/// Nothing is unset in a sequence of which every entry is `true`, and only there.
pub proof fn lemma_count_unset_zero(bits: Seq<bool>)
    ensures
        count_unset(bits) == 0 <==> bits == all_set(bits.len()),
        count_unset(bits) <= bits.len(),
    decreases bits.len(),
{
    if bits.len() == 0 {
        assert(bits =~= all_set(0));
    } else {
        let front = bits.drop_last();
        lemma_count_unset_zero(front);
        if count_unset(bits) == 0 {
            assert(front == all_set(front.len()));
            assert(bits =~= all_set(bits.len())) by {
                assert forall|i: int| 0 <= i < bits.len() implies bits[i] by {
                    if i < front.len() {
                        assert(bits[i] == front[i]);
                    }
                }
            }
        }
        if bits == all_set(bits.len()) {
            assert(front =~= all_set(front.len()));
        }
    }
}

/// A bit-packed sequence of booleans: the first `length` bits of `bytes`.
#[derive(Debug, Clone, PartialEq, Eq)]
pub struct Bitmap {
    pub bytes: Vec<u8>,
    pub length: usize,
}

impl View for Bitmap {
    type V = Seq<bool>;

    open spec fn view(&self) -> Seq<bool> {
        bits_of(self.bytes@, self.length as nat)
    }
}

/// The flags that `validity` stands for in an array of `length` slots: without
/// a bitmap every slot is valid.
pub open spec fn validity_view(validity: Option<Bitmap>, length: nat) -> Seq<bool> {
    match validity {
        Some(bitmap) => bitmap@,
        None => all_set(length),
    }
}

impl Bitmap {
    /// The bytes hold at least `length` bits.
    pub open spec fn wf(&self) -> bool {
        self.length <= self.bytes.len() * 8
    }

    /// The bitmap of the first `length` bits of `bytes`, or `None` where the
    /// bytes hold fewer bits than that.
    pub fn try_new(bytes: Vec<u8>, length: usize) -> (out: Option<Bitmap>)
        ensures
            out is Some <==> length <= bytes.len() * 8,
            out matches Some(b) ==> b.wf() && b.bytes == bytes && b.length == length,
    {
        if length / 8 < bytes.len() || (length / 8 == bytes.len() && length % 8 == 0) {
            Some(Bitmap { bytes, length })
        } else {
            None
        }
    }

    /// The number of bits.
    pub fn len(&self) -> (n: usize)
        ensures
            n == self@.len(),
    {
        self.length
    }

    /// The bit at position `i`.
    pub fn get(&self, i: usize) -> (b: bool)
        requires
            self.wf(),
            i < self.length,
        ensures
            b == self@[i as int],
    {
        let byte: u8 = self.bytes[i / 8];
        let k: u8 = (i % 8) as u8;
        (byte >> k) & 1u8 == 1u8
    }

    /// The number of unset bits.
    pub fn unset_bits(&self) -> (n: usize)
        requires
            self.wf(),
        ensures
            n == count_unset(self@),
    {
        let mut n: usize = 0;
        let mut i: usize = 0;
        while i < self.length
            invariant
                self.wf(),
                i <= self.length,
                n == count_unset(self@.take(i as int)),
                n <= i,
            decreases self.length - i,
        {
            let set = self.get(i);
            proof {
                assert(self@.take(i + 1).drop_last() =~= self@.take(i as int));
            }
            if !set {
                n = n + 1;
            }
            i = i + 1;
        }
        proof {
            assert(self@.take(self.length as int) =~= self@);
        }
        n
    }
}

} // verus!
