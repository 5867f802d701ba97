//! Ready-made value types for the segment trees: byte-sequence
//! concatenation (deliberately non-commutative, which exercises the fold
//! order) and wrapping `u32` addition.

use vstd::prelude::*;

use crate::value::Value;

verus! {

/// A byte string whose operation is concatenation. Concatenation is
/// associative but not commutative, so folds over `Concat` values observe
/// the exact left-to-right order the trees promise.
#[derive(Debug, PartialEq, Eq)]
pub struct Concat {
    bytes: Vec<u8>,
}

impl View for Concat {
    type V = Seq<u8>;

    closed spec fn view(&self) -> Seq<u8> {
        self.bytes@
    }
}

impl Concat {
    /// Wraps a byte vector.
    pub fn new(bytes: Vec<u8>) -> (r: Self)
        ensures
            r@ == bytes@,
    {
        Concat { bytes }
    }

    /// Reads the bytes back.
    pub fn as_bytes(&self) -> (r: &Vec<u8>)
        ensures
            r@ == self@,
    {
        &self.bytes
    }
}

impl Clone for Concat {
    fn clone(&self) -> (r: Self)
        ensures
            r@ == self@,
    {
        let mut bytes: Vec<u8> = Vec::new();
        let mut i: usize = 0;
        while i < self.bytes.len()
            invariant
                i <= self.bytes@.len(),
                bytes@ =~= self.bytes@.subrange(0, i as int),
            decreases self.bytes@.len() - i,
        {
            bytes.push(self.bytes[i]);
            i += 1;
        }
        proof {
            assert(bytes@ =~= self.bytes@);
        }
        Concat { bytes }
    }
}

impl Value for Concat {
    open spec fn op_spec(a: Seq<u8>, b: Seq<u8>) -> Seq<u8> {
        a + b
    }

    proof fn lemma_op_assoc(a: Seq<u8>, b: Seq<u8>, c: Seq<u8>) {
        assert((a + b) + c =~= a + (b + c));
    }

    proof fn lemma_clone_view(a: Self, b: Self) {
    }

    fn op(&self, rhs: &Self) -> (r: Self) {
        let mut bytes = self.clone().bytes;
        let mut i: usize = 0;
        while i < rhs.bytes.len()
            invariant
                i <= rhs.bytes@.len(),
                bytes@ =~= self.bytes@ + rhs.bytes@.subrange(0, i as int),
            decreases rhs.bytes@.len() - i,
        {
            bytes.push(rhs.bytes[i]);
            i += 1;
        }
        proof {
            assert(bytes@ =~= self.bytes@ + rhs.bytes@);
        }
        Concat { bytes }
    }
}

/// A `u32` whose operation is wrapping addition.
#[derive(Debug, PartialEq, Eq, Structural, Copy)]
pub struct SumU32 {
    value: u32,
}

impl View for SumU32 {
    type V = u32;

    closed spec fn view(&self) -> u32 {
        self.value
    }
}

impl SumU32 {
    /// Wraps a number.
    pub fn new(value: u32) -> (r: Self)
        ensures
            r@ == value,
    {
        SumU32 { value }
    }

    /// Reads the number back.
    pub fn get(&self) -> (r: u32)
        ensures
            r == self@,
    {
        self.value
    }
}

impl Clone for SumU32 {
    fn clone(&self) -> (r: Self)
        ensures
            r@ == self@,
    {
        SumU32 { value: self.value }
    }
}

impl Value for SumU32 {
    open spec fn op_spec(a: u32, b: u32) -> u32 {
        vstd::wrapping::u32_specs::wrapping_add(a, b)
    }

    proof fn lemma_op_assoc(a: u32, b: u32, c: u32) {
    }

    proof fn lemma_clone_view(a: Self, b: Self) {
    }

    fn op(&self, rhs: &Self) -> (r: Self) {
        SumU32 { value: self.value.wrapping_add(rhs.value) }
    }
}

} // verus!
