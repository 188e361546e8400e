use vstd::prelude::*;

use crate::metadata::Metadata;

verus! {

/// The identifier of a stored vector.
pub type VectorId = u64;

/// A vector component is held as the bit pattern of an IEEE-754 single
/// precision number; it is NaN when its exponent bits are all ones and its
/// fraction is not zero.
pub open spec fn is_nan_bits(bits: u32) -> bool {
    bits % 0x8000_0000 > 0x7f80_0000
}

/// The position of a non-NaN component on the real line, as an integer that
/// orders components as their values compare (`-0.0` and `0.0` are equal).
pub open spec fn order_key(bits: u32) -> int {
    if bits >= 0x8000_0000 {
        -((bits - 0x8000_0000) as int)
    } else {
        bits as int
    }
}

/// Some component of the vector is NaN.
pub open spec fn has_nan(v: Seq<u32>) -> bool {
    exists|i: int| 0 <= i < v.len() && is_nan_bits(#[trigger] v[i])
}

/// Whether the bit pattern `bits` is a NaN.
pub fn bits_are_nan(bits: u32) -> (r: bool)
    ensures
        r == is_nan_bits(bits),
{
    bits % 0x8000_0000 > 0x7f80_0000
}

/// Whether some component of `vector` is NaN.
pub fn contains_nan(vector: &[u32]) -> (r: bool)
    ensures
        r == has_nan(vector@),
{
    let mut i: usize = 0;
    while i < vector.len()
        invariant
            i <= vector@.len(),
            forall|j: int| 0 <= j < i ==> !is_nan_bits(#[trigger] vector@[j]),
        decreases vector@.len() - i,
    {
        if bits_are_nan(vector[i]) {
            return true;
        }
        i = i + 1;
    }
    false
}

/// A stored vector with its identifier and metadata.
#[derive(Debug)]
pub struct Embedding {
    pub id: VectorId,
    pub vector: Vec<u32>,
    pub metadata: Metadata,
}

/// The model of an embedding.
pub struct EmbeddingView {
    pub id: VectorId,
    pub vector: Seq<u32>,
    pub metadata: Seq<(Seq<char>, Seq<char>)>,
}

impl View for Embedding {
    type V = EmbeddingView;

    open spec fn view(&self) -> EmbeddingView {
        EmbeddingView { id: self.id, vector: self.vector@, metadata: self.metadata@ }
    }
}

impl Clone for Embedding {
    /// A copy with the same identifier, vector and metadata.
    fn clone(&self) -> (e: Self)
        ensures
            e@ == self@,
    {
        let vector = self.vector.clone();
        assert(vector@ =~= self.vector@);
        Embedding { id: self.id, vector, metadata: self.metadata.clone() }
    }
}

impl Embedding {
    /// Builds an embedding from its parts.
    pub fn new(id: VectorId, vector: Vec<u32>, metadata: Metadata) -> (e: Self)
        ensures
            e.id == id,
            e.vector == vector,
            e.metadata == metadata,
    {
        Embedding { id, vector, metadata }
    }
}

} // verus!
