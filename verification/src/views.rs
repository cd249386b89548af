//! Views of nested vectors.

use vstd::prelude::*;

verus! {

/// A vector of vectors as a sequence of sequences.
pub open spec fn rows<E>(vectors: Seq<Vec<E>>) -> Seq<Seq<E>> {
    Seq::new(vectors.len(), |r: int| vectors[r]@)
}

} // verus!
