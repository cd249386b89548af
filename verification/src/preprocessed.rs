//! What a query becomes before vectors are scored against it.

use crate::lookup::{Distance, LookupTable};
use crate::scalar::Scalar;
use vstd::prelude::*;

verus! {

/// A query for the quantizer that rotates vectors: the rotated query, and
/// the distance that the caller already knows a bound of.
#[derive(Debug)]
pub struct RaBitQuantizationPreprocessed {
    pub projected: Vec<Scalar>,
    pub distance: Distance,
}

impl Clone for RaBitQuantizationPreprocessed {
    /// The same rotated query and distance.
    fn clone(&self) -> (x: RaBitQuantizationPreprocessed)
        ensures
            x.projected@ == self.projected@,
            x.distance == self.distance,
    {
        let projected = self.projected.clone();
        assert(projected@ =~= self.projected@);
        RaBitQuantizationPreprocessed { projected, distance: self.distance }
    }
}

/// A query, prepared for a quantizer of one kind: the query itself for the
/// trivial quantizer, a lookup table for the scalar and the product
/// quantizer.
#[derive(Debug)]
pub enum QuantizationPreprocessed {
    Trivial(Vec<Scalar>),
    RaBit(RaBitQuantizationPreprocessed),
    Scalar(LookupTable),
    Product(LookupTable),
}

impl Clone for QuantizationPreprocessed {
    /// A prepared query for the same kind of quantizer, with the same
    /// query or the same table.
    fn clone(&self) -> (p: QuantizationPreprocessed)
        ensures
            match (*self, p) {
                (QuantizationPreprocessed::Trivial(a), QuantizationPreprocessed::Trivial(b)) => b@
                    == a@,
                (QuantizationPreprocessed::RaBit(a), QuantizationPreprocessed::RaBit(b)) => b.projected@
                    == a.projected@ && b.distance == a.distance,
                (QuantizationPreprocessed::Scalar(a), QuantizationPreprocessed::Scalar(b)) => same_table(
                    a,
                    b,
                ),
                (QuantizationPreprocessed::Product(a), QuantizationPreprocessed::Product(b)) => same_table(
                    a,
                    b,
                ),
                _ => false,
            },
    {
        match self {
            QuantizationPreprocessed::Trivial(q) => {
                let query = q.clone();
                assert(query@ =~= q@);
                QuantizationPreprocessed::Trivial(query)
            },
            QuantizationPreprocessed::RaBit(x) => QuantizationPreprocessed::RaBit(x.clone()),
            QuantizationPreprocessed::Scalar(t) => QuantizationPreprocessed::Scalar(t.clone()),
            QuantizationPreprocessed::Product(t) => QuantizationPreprocessed::Product(t.clone()),
        }
    }
}

/// Two tables have one shape and the same entries.
pub open spec fn same_table(a: LookupTable, b: LookupTable) -> bool {
    &&& b.wf()
    &&& b.spec_width() == a.spec_width()
    &&& b.spec_bits() == a.spec_bits()
    &&& b.spec_entries() == a.spec_entries()
}

impl QuantizationPreprocessed {
    /// The lookup table of a query prepared for the scalar or the product
    /// quantizer.
    pub open spec fn spec_table(self) -> Option<LookupTable> {
        match self {
            QuantizationPreprocessed::Scalar(t) => Some(t),
            QuantizationPreprocessed::Product(t) => Some(t),
            _ => None,
        }
    }

    /// The lookup table of a query prepared for the scalar or the product
    /// quantizer.
    pub fn table(&self) -> (r: Option<&LookupTable>)
        ensures
            r is Some <==> self.spec_table() is Some,
            r matches Some(t) ==> self.spec_table() == Some(*t) && t.wf(),
    {
        match self {
            QuantizationPreprocessed::Scalar(t) => {
                proof {
                    use_type_invariant(t);
                }
                Some(t)
            },
            QuantizationPreprocessed::Product(t) => {
                proof {
                    use_type_invariant(t);
                }
                Some(t)
            },
            _ => None,
        }
    }
}

} // verus!
