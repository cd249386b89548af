//! What an index is created with.

use vstd::prelude::*;

verus! {

/// How the components of a vector are stored.
#[derive(Clone, Copy, Debug, PartialEq, Eq, Structural)]
pub enum VectorKind {
    Vecf32,
    Vecf16,
}

/// How the distance of two vectors is measured.
#[derive(Clone, Copy, Debug, PartialEq, Eq, Structural)]
pub enum DistanceKind {
    L2,
    Cos,
    Dot,
}

/// The shape of the vectors of an index.
#[derive(Clone, Copy, Debug, PartialEq, Eq, Structural)]
pub struct VectorOptions {
    pub dims: u32,
    pub v: VectorKind,
    pub d: DistanceKind,
}

/// Vectors are kept as they are.
#[derive(Clone, Copy, Debug, PartialEq, Eq, Structural)]
pub struct TrivialQuantizationOptions {}

/// Every component becomes a code of `bits` bits.
#[derive(Clone, Copy, Debug, PartialEq, Eq, Structural)]
pub struct ScalarQuantizationOptions {
    pub bits: u32,
}

/// Every group of `ratio` components becomes a code of `bits` bits.
#[derive(Clone, Copy, Debug, PartialEq, Eq, Structural)]
pub struct ProductQuantizationOptions {
    pub ratio: u32,
    pub bits: u32,
}

/// Vectors are rotated at random and reduced to the signs of their
/// components.
#[derive(Clone, Copy, Debug, PartialEq, Eq, Structural)]
pub struct RaBitQuantizationOptions {}

/// Which quantizer to train.
#[derive(Clone, Copy, Debug, PartialEq, Eq, Structural)]
pub enum QuantizationOptions {
    Trivial(TrivialQuantizationOptions),
    Scalar(ScalarQuantizationOptions),
    Product(ProductQuantizationOptions),
    RaBitQ(RaBitQuantizationOptions),
}

} // verus!
