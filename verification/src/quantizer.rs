//! The four quantizers and their training.
//!
//! A trained quantizer says how a vector becomes codes: how many codes,
//! of how many bits. It also holds what was learnt from the training
//! vectors: the scalar quantizer the range of every component, between
//! which its grid is laid; the product quantizer its centroids; the
//! rotating quantizer its rotation. Ranges are found here; centroids and
//! rotations need arithmetic and are asked of the caller.

use crate::lookup::Distance;
use crate::options::{
    ProductQuantizationOptions, QuantizationOptions, RaBitQuantizationOptions,
    ScalarQuantizationOptions, TrivialQuantizationOptions, VectorOptions,
};
use crate::packing::{
    bytes_per_record, codes_fit, is_valid_bits, level_count, levels, pack_codes, packed_record,
    record_bytes, valid_bits,
};
use crate::scalar::{earlier, later, Scalar};
use crate::views::rows;
use vstd::prelude::*;

verus! {

/// Why a quantizer could not be trained.
#[derive(Clone, Copy, Debug, PartialEq, Eq, Structural)]
pub enum TrainError {
    /// The vectors have no components.
    InvalidDimensions,
    /// The code width is not 1, 2, 4 or 8.
    UnsupportedBits,
    /// A group of the product quantizer has no components.
    InvalidRatio,
    /// There is no training vector.
    EmptyVectors,
    /// There are more training vectors than ids.
    TooManyVectors,
    /// A training vector has not as many components as the options say.
    DimensionMismatch,
    /// What was fitted for the quantizer has not as many parameters as the
    /// quantizer holds.
    MalformedParameters,
}

/// What is wrong with a set of training vectors, if anything: it is empty,
/// it has more vectors than there are ids, or one of its vectors has not
/// `dims` components.
pub open spec fn vectors_error(dims: u32, vectors: Seq<Seq<Scalar>>) -> Option<TrainError> {
    if vectors.len() == 0 {
        Some(TrainError::EmptyVectors)
    } else if vectors.len() > u32::MAX {
        Some(TrainError::TooManyVectors)
    } else if exists|i: int| 0 <= i < vectors.len() && (#[trigger] vectors[i]).len() != dims {
        Some(TrainError::DimensionMismatch)
    } else {
        None
    }
}

/// What is wrong with the options or the training vectors, if anything.
/// The options are looked at first: the dimensions, then the code width,
/// then the ratio.
pub open spec fn train_error(
    vector_options: VectorOptions,
    quantization_options: QuantizationOptions,
    vectors: Seq<Seq<Scalar>>,
) -> Option<TrainError> {
    if vector_options.dims == 0 {
        Some(TrainError::InvalidDimensions)
    } else {
        match quantization_options {
            QuantizationOptions::Scalar(o) => if !valid_bits(o.bits) {
                Some(TrainError::UnsupportedBits)
            } else {
                vectors_error(vector_options.dims, vectors)
            },
            QuantizationOptions::Product(o) => if !valid_bits(o.bits) {
                Some(TrainError::UnsupportedBits)
            } else if o.ratio == 0 {
                Some(TrainError::InvalidRatio)
            } else {
                vectors_error(vector_options.dims, vectors)
            },
            _ => vectors_error(vector_options.dims, vectors),
        }
    }
}

/// The earliest, in the total order, of component `j` over the first `upto`
/// vectors.
pub open spec fn column_min(vectors: Seq<Seq<Scalar>>, j: int, upto: int) -> Scalar
    decreases upto,
{
    if upto <= 1 {
        vectors[0][j]
    } else {
        earlier(column_min(vectors, j, upto - 1), vectors[upto - 1][j])
    }
}

/// The latest, in the total order, of component `j` over the first `upto`
/// vectors.
pub open spec fn column_max(vectors: Seq<Seq<Scalar>>, j: int, upto: int) -> Scalar
    decreases upto,
{
    if upto <= 1 {
        vectors[0][j]
    } else {
        later(column_max(vectors, j, upto - 1), vectors[upto - 1][j])
    }
}

/// `parameters` is what `fit` gave for the training vectors.
pub open spec fn fitted_by<F: Fn(&Vec<Vec<Scalar>>) -> Vec<Scalar>>(
    fit: F,
    vectors: Vec<Vec<Scalar>>,
    parameters: Seq<Scalar>,
) -> bool {
    exists|out: Vec<Scalar>| fit.ensures((&vectors,), out) && out@ == parameters
}

/// `fit` gave, for the training vectors, parameters that are not `expected`
/// in number.
pub open spec fn misfitted_by<F: Fn(&Vec<Vec<Scalar>>) -> Vec<Scalar>>(
    fit: F,
    vectors: Vec<Vec<Scalar>>,
    expected: int,
) -> bool {
    exists|out: Vec<Scalar>| fit.ensures((&vectors,), out) && out@.len() != expected
}

/// The number of parameters that are fitted for a quantizer: for the
/// product quantizer one centroid for each code, each of as many components
/// as a vector; for the rotating quantizer a square matrix; for the others
/// none.
pub open spec fn fitted_len(
    vector_options: VectorOptions,
    quantization_options: QuantizationOptions,
) -> int {
    match quantization_options {
        QuantizationOptions::Product(o) => levels(o.bits) * vector_options.dims,
        QuantizationOptions::RaBitQ(_) => vector_options.dims * vector_options.dims,
        _ => 0,
    }
}

/// The number of groups of `ratio` components that `dims` components make.
pub open spec fn group_count(dims: u32, ratio: u32) -> int {
    (dims + ratio - 1) / (ratio as int)
}

/// Looks through the training vectors.
fn check_vectors(dims: u32, vectors: &Vec<Vec<Scalar>>) -> (r: Option<TrainError>)
    ensures
        r == vectors_error(dims, rows(vectors@)),
{
    let ghost rs = rows(vectors@);
    if vectors.len() == 0 {
        return Some(TrainError::EmptyVectors);
    }
    if vectors.len() > u32::MAX as usize {
        return Some(TrainError::TooManyVectors);
    }
    let mut i: usize = 0;
    while i < vectors.len()
        invariant
            rs == rows(vectors@),
            0 < vectors.len() <= u32::MAX,
            i <= vectors.len(),
            forall|t: int| 0 <= t < i ==> (#[trigger] rs[t]).len() == dims,
        decreases vectors.len() - i,
    {
        assert(rs[i as int] == vectors@[i as int]@);
        if vectors[i].len() != dims as usize {
            assert(rs[i as int].len() != dims);
            return Some(TrainError::DimensionMismatch);
        }
        i += 1;
    }
    None
}

/// The quantizer that keeps vectors as they are.
#[derive(Clone, Copy, Debug)]
pub struct TrivialQuantizer {
    dims: u32,
}

impl TrivialQuantizer {
    /// There is at least one component.
    #[verifier::type_invariant]
    pub closed spec fn wf(self) -> bool {
        self.dims >= 1
    }

    /// The number of components of a vector.
    pub closed spec fn spec_dims(self) -> u32 {
        self.dims
    }

    /// The quantizer for vectors of `dims` components; none for no
    /// components.
    pub fn new(dims: u32) -> (r: Option<TrivialQuantizer>)
        ensures
            r is Some <==> dims >= 1,
            r matches Some(x) ==> x.wf() && x.spec_dims() == dims,
    {
        if dims == 0 {
            None
        } else {
            Some(TrivialQuantizer { dims })
        }
    }

    /// Trains on the given vectors: nothing is learnt but the dimensions.
    pub fn train(
        vector_options: VectorOptions,
        options: TrivialQuantizationOptions,
        vectors: &Vec<Vec<Scalar>>,
    ) -> (r: Result<TrivialQuantizer, TrainError>)
        ensures
            match train_error(vector_options, QuantizationOptions::Trivial(options), rows(vectors@)) {
                Some(e) => r == Err::<TrivialQuantizer, TrainError>(e),
                None => r matches Ok(x) && x.wf() && x.spec_dims() == vector_options.dims,
            },
    {
        if vector_options.dims == 0 {
            return Err(TrainError::InvalidDimensions);
        }
        match check_vectors(vector_options.dims, vectors) {
            Some(e) => Err(e),
            None => Ok(TrivialQuantizer { dims: vector_options.dims }),
        }
    }

    /// The number of components of a vector.
    pub fn dims(&self) -> (d: u32)
        ensures
            self.wf(),
            d == self.spec_dims(),
            d >= 1,
    {
        proof {
            use_type_invariant(self);
        }
        self.dims
    }
}

/// The quantizer that turns every component into a code.
#[derive(Debug)]
pub struct ScalarQuantizer {
    dims: u32,
    bits: u32,
    max: Vec<Scalar>,
    min: Vec<Scalar>,
}

impl Clone for ScalarQuantizer {
    /// A quantizer of the same shape and ranges.
    fn clone(&self) -> (x: ScalarQuantizer)
        ensures
            x.wf(),
            x.spec_dims() == self.spec_dims(),
            x.spec_bits() == self.spec_bits(),
            x.spec_max() == self.spec_max(),
            x.spec_min() == self.spec_min(),
    {
        proof {
            use_type_invariant(self);
        }
        let max = self.max.clone();
        let min = self.min.clone();
        assert(max@ =~= self.max@);
        assert(min@ =~= self.min@);
        ScalarQuantizer { dims: self.dims, bits: self.bits, max, min }
    }
}

impl ScalarQuantizer {
    /// There is at least one component, the code width is packable, and
    /// every component has its range, which is not empty.
    #[verifier::type_invariant]
    pub closed spec fn wf(self) -> bool {
        &&& self.dims >= 1
        &&& valid_bits(self.bits)
        &&& self.max.len() == self.dims
        &&& self.min.len() == self.dims
        &&& forall|j: int|
            0 <= j < self.dims ==> (#[trigger] self.min@[j]).key() <= self.max@[j].key()
    }

    /// The number of components of a vector.
    pub closed spec fn spec_dims(self) -> u32 {
        self.dims
    }

    /// The number of bits of a code.
    pub closed spec fn spec_bits(self) -> u32 {
        self.bits
    }

    /// The upper end of the range of every component.
    pub closed spec fn spec_max(self) -> Seq<Scalar> {
        self.max@
    }

    /// The lower end of the range of every component.
    pub closed spec fn spec_min(self) -> Seq<Scalar> {
        self.min@
    }

    /// What `wf` says, over the public names.
    pub proof fn lemma_wf(self)
        requires
            self.wf(),
        ensures
            self.spec_dims() >= 1,
            valid_bits(self.spec_bits()),
            self.spec_max().len() == self.spec_dims(),
            self.spec_min().len() == self.spec_dims(),
            forall|j: int|
                0 <= j < self.spec_dims() ==> (#[trigger] self.spec_min()[j]).key()
                    <= self.spec_max()[j].key(),
    {
    }

    /// The quantizer with the given ranges.
    ///
    /// Fails exactly when there is no component, the code width is not
    /// packable, a range is missing, or a range is empty.
    pub fn new(dims: u32, bits: u32, max: Vec<Scalar>, min: Vec<Scalar>) -> (r: Option<
        ScalarQuantizer,
    >)
        ensures
            r is Some <==> dims >= 1 && valid_bits(bits) && max.len() == dims && min.len() == dims
                && forall|j: int| 0 <= j < dims ==> (#[trigger] min@[j]).key() <= max@[j].key(),
            r matches Some(x) ==> x.wf() && x.spec_dims() == dims && x.spec_bits() == bits
                && x.spec_max() == max@ && x.spec_min() == min@,
    {
        if dims == 0 || !is_valid_bits(bits) || max.len() != dims as usize || min.len()
            != dims as usize {
            return None;
        }
        let mut j: usize = 0;
        while j < dims as usize
            invariant
                j <= dims,
                max.len() == dims,
                min.len() == dims,
                forall|t: int| 0 <= t < j ==> (#[trigger] min@[t]).key() <= max@[t].key(),
            decreases dims - j,
        {
            if !min[j].le(max[j]) {
                return None;
            }
            j += 1;
        }
        Some(ScalarQuantizer { dims, bits, max, min })
    }

    /// Trains on the given vectors: the range of every component is from
    /// its earliest to its latest value over the vectors.
    pub fn train(
        vector_options: VectorOptions,
        options: ScalarQuantizationOptions,
        vectors: &Vec<Vec<Scalar>>,
    ) -> (r: Result<ScalarQuantizer, TrainError>)
        ensures
            match train_error(vector_options, QuantizationOptions::Scalar(options), rows(vectors@)) {
                Some(e) => r == Err::<ScalarQuantizer, TrainError>(e),
                None => r matches Ok(x) && x.trained_from(vector_options, options, rows(vectors@)),
            },
    {
        let dims = vector_options.dims;
        if dims == 0 {
            return Err(TrainError::InvalidDimensions);
        }
        if !is_valid_bits(options.bits) {
            return Err(TrainError::UnsupportedBits);
        }
        match check_vectors(dims, vectors) {
            Some(e) => {
                return Err(e);
            },
            None => {},
        }
        let ghost rs = rows(vectors@);
        let n = vectors.len();
        assert(rs[0] == vectors@[0]@);
        let mut max: Vec<Scalar> = vectors[0].clone();
        let mut min: Vec<Scalar> = vectors[0].clone();
        assert(max@ =~= rs[0]);
        assert(min@ =~= rs[0]);
        let mut i: usize = 1;
        while i < n
            invariant
                rs == rows(vectors@),
                n == vectors.len(),
                1 <= i <= n,
                forall|t: int| 0 <= t < n ==> (#[trigger] rs[t]).len() == dims,
                max.len() == dims,
                min.len() == dims,
                forall|j: int| 0 <= j < dims ==> (#[trigger] min@[j]) == column_min(rs, j, i as int),
                forall|j: int| 0 <= j < dims ==> (#[trigger] max@[j]) == column_max(rs, j, i as int),
            decreases n - i,
        {
            assert(rs[i as int] == vectors@[i as int]@);
            assert(rs[i as int].len() == dims);
            let vector = &vectors[i];
            let mut j: usize = 0;
            while j < dims as usize
                invariant
                    rs == rows(vectors@),
                    1 <= i < vectors.len(),
                    vector@ == rs[i as int],
                    vector.len() == dims,
                    j <= dims,
                    max.len() == dims,
                    min.len() == dims,
                    forall|t: int|
                        0 <= t < j ==> (#[trigger] min@[t]) == column_min(rs, t, i + 1),
                    forall|t: int|
                        0 <= t < j ==> (#[trigger] max@[t]) == column_max(rs, t, i + 1),
                    forall|t: int|
                        j <= t < dims ==> (#[trigger] min@[t]) == column_min(rs, t, i as int),
                    forall|t: int|
                        j <= t < dims ==> (#[trigger] max@[t]) == column_max(rs, t, i as int),
                decreases dims - j,
            {
                let low = min[j].min(vector[j]);
                let high = max[j].max(vector[j]);
                min[j] = low;
                max[j] = high;
                j += 1;
            }
            i += 1;
        }
        proof {
            assert forall|j: int| 0 <= j < dims implies (#[trigger] min@[j]).key()
                <= max@[j].key() by {
                lemma_column_range(rs, j, n as int);
            }
        }
        Ok(ScalarQuantizer { dims, bits: options.bits, max, min })
    }

    /// The outcome of training on `vectors`.
    pub open spec fn trained_from(
        self,
        vector_options: VectorOptions,
        options: ScalarQuantizationOptions,
        vectors: Seq<Seq<Scalar>>,
    ) -> bool {
        &&& self.wf()
        &&& self.spec_dims() == vector_options.dims
        &&& self.spec_bits() == options.bits
        &&& self.spec_min().len() == vector_options.dims
        &&& self.spec_max().len() == vector_options.dims
        &&& forall|j: int|
            0 <= j < vector_options.dims ==> (#[trigger] self.spec_min()[j]) == column_min(
                vectors,
                j,
                vectors.len() as int,
            )
        &&& forall|j: int|
            0 <= j < vector_options.dims ==> (#[trigger] self.spec_max()[j]) == column_max(
                vectors,
                j,
                vectors.len() as int,
            )
    }

    /// The number of components of a vector.
    pub fn dims(&self) -> (d: u32)
        ensures
            self.wf(),
            d == self.spec_dims(),
            d >= 1,
    {
        proof {
            use_type_invariant(self);
        }
        self.dims
    }

    /// The number of bits of a code.
    pub fn bits(&self) -> (b: u32)
        ensures
            b == self.spec_bits(),
            valid_bits(b),
    {
        proof {
            use_type_invariant(self);
        }
        self.bits
    }

    /// The number of codes of a vector: one for each component.
    pub fn width(&self) -> (w: u32)
        ensures
            w == self.spec_dims(),
    {
        self.dims
    }

    /// The number of bytes of the packed codes of a vector.
    pub fn bytes(&self) -> (n: u32)
        ensures
            n == record_bytes(self.spec_dims() as int, self.spec_bits()),
    {
        proof {
            use_type_invariant(self);
        }
        bytes_per_record(self.dims, self.bits)
    }

    /// The upper end of the range of every component.
    pub fn max(&self) -> (m: &Vec<Scalar>)
        ensures
            m@ == self.spec_max(),
    {
        &self.max
    }

    /// The lower end of the range of every component.
    pub fn min(&self) -> (m: &Vec<Scalar>)
        ensures
            m@ == self.spec_min(),
    {
        &self.min
    }
}

/// The range of a component holds every value of it: the earliest value
/// comes no later than any, the latest no earlier, and both occur.
pub proof fn lemma_column_range(vectors: Seq<Seq<Scalar>>, j: int, upto: int)
    requires
        1 <= upto <= vectors.len(),
    ensures
        column_min(vectors, j, upto).key() <= column_max(vectors, j, upto).key(),
        forall|i: int|
            0 <= i < upto ==> column_min(vectors, j, upto).key() <= (#[trigger] vectors[i])[j].key()
                <= column_max(vectors, j, upto).key(),
        exists|i: int| 0 <= i < upto && (#[trigger] vectors[i])[j] == column_min(vectors, j, upto),
        exists|i: int| 0 <= i < upto && (#[trigger] vectors[i])[j] == column_max(vectors, j, upto),
    decreases upto,
{
    if upto > 1 {
        lemma_column_range(vectors, j, upto - 1);
        let a = choose|i: int|
            0 <= i < upto - 1 && (#[trigger] vectors[i])[j] == column_min(vectors, j, upto - 1);
        let b = choose|i: int|
            0 <= i < upto - 1 && (#[trigger] vectors[i])[j] == column_max(vectors, j, upto - 1);
        let last = vectors[upto - 1][j];
        if column_min(vectors, j, upto) == last {
            assert(vectors[upto - 1][j] == column_min(vectors, j, upto));
        } else {
            assert(vectors[a][j] == column_min(vectors, j, upto));
        }
        if column_max(vectors, j, upto) == last {
            assert(vectors[upto - 1][j] == column_max(vectors, j, upto));
        } else {
            assert(vectors[b][j] == column_max(vectors, j, upto));
        }
    } else {
        assert(vectors[0][j] == column_min(vectors, j, upto));
    }
}

/// The quantizer that turns every group of components into a code. It
/// holds one centroid for each code; the part of a centroid that lies in a
/// group is what the code stands for in that group.
#[derive(Debug)]
pub struct ProductQuantizer {
    dims: u32,
    ratio: u32,
    bits: u32,
    centroids: Vec<Scalar>,
}

impl Clone for ProductQuantizer {
    /// A quantizer of the same shape and centroids.
    fn clone(&self) -> (x: ProductQuantizer)
        ensures
            x.wf(),
            x.spec_dims() == self.spec_dims(),
            x.spec_ratio() == self.spec_ratio(),
            x.spec_bits() == self.spec_bits(),
            x.spec_centroids() == self.spec_centroids(),
    {
        proof {
            use_type_invariant(self);
        }
        let centroids = self.centroids.clone();
        assert(centroids@ =~= self.centroids@);
        ProductQuantizer { dims: self.dims, ratio: self.ratio, bits: self.bits, centroids }
    }
}

impl ProductQuantizer {
    /// There is at least one component, a group has at least one, the code
    /// width is packable, and every code has its centroid.
    #[verifier::type_invariant]
    pub closed spec fn wf(self) -> bool {
        &&& self.dims >= 1
        &&& self.ratio >= 1
        &&& valid_bits(self.bits)
        &&& self.centroids.len() == levels(self.bits) * self.dims
    }

    /// The number of components of a vector.
    pub closed spec fn spec_dims(self) -> u32 {
        self.dims
    }

    /// The number of components of a group.
    pub closed spec fn spec_ratio(self) -> u32 {
        self.ratio
    }

    /// The number of bits of a code.
    pub closed spec fn spec_bits(self) -> u32 {
        self.bits
    }

    /// The centroids, one behind the other in the order of their codes.
    pub closed spec fn spec_centroids(self) -> Seq<Scalar> {
        self.centroids@
    }

    /// The number of codes of a vector: one for each group.
    pub open spec fn spec_width(self) -> int {
        group_count(self.spec_dims(), self.spec_ratio())
    }

    /// What `wf` says, over the public names.
    pub proof fn lemma_wf(self)
        requires
            self.wf(),
        ensures
            self.spec_dims() >= 1,
            self.spec_ratio() >= 1,
            valid_bits(self.spec_bits()),
            1 <= self.spec_width() <= self.spec_dims(),
            self.spec_centroids().len() == levels(self.spec_bits()) * self.spec_dims(),
    {
        lemma_group_count(self.dims, self.ratio);
    }

    /// The quantizer of the given shape and centroids.
    ///
    /// Fails exactly when there is no component, a group has none, the code
    /// width is not packable, or the centroids are not `2^bits * dims`
    /// components.
    pub fn new(dims: u32, ratio: u32, bits: u32, centroids: Vec<Scalar>) -> (r: Option<
        ProductQuantizer,
    >)
        ensures
            r is Some <==> dims >= 1 && ratio >= 1 && valid_bits(bits) && centroids.len()
                == levels(bits) * dims,
            r matches Some(x) ==> x.wf() && x.spec_dims() == dims && x.spec_ratio() == ratio
                && x.spec_bits() == bits && x.spec_centroids() == centroids@,
    {
        if dims == 0 || ratio == 0 || !is_valid_bits(bits) {
            return None;
        }
        let count = level_count(bits);
        assert(count * dims <= 256 * 0xFFFF_FFFF) by (nonlinear_arith)
            requires
                count <= 256,
                dims <= 0xFFFF_FFFF,
        ;
        if centroids.len() as u64 != count as u64 * dims as u64 {
            return None;
        }
        Some(ProductQuantizer { dims, ratio, bits, centroids })
    }

    /// The outcome of training on `vectors`: the shape that the options
    /// give, and the centroids that `fit` gave for the vectors.
    pub open spec fn trained_from<F: Fn(&Vec<Vec<Scalar>>) -> Vec<Scalar>>(
        self,
        vector_options: VectorOptions,
        options: ProductQuantizationOptions,
        vectors: Vec<Vec<Scalar>>,
        fit: F,
    ) -> bool {
        &&& self.wf()
        &&& self.spec_dims() == vector_options.dims
        &&& self.spec_ratio() == options.ratio
        &&& self.spec_bits() == options.bits
        &&& fitted_by(fit, vectors, self.spec_centroids())
    }

    /// Trains on the given vectors: the shape of the codes is that of the
    /// options, and the centroids are asked of `fit`.
    ///
    /// Fails with the error that `train_error` finds, and otherwise only
    /// where `fit` gave centroids that are not `2^bits * dims` components.
    pub fn train<F: Fn(&Vec<Vec<Scalar>>) -> Vec<Scalar>>(
        vector_options: VectorOptions,
        options: ProductQuantizationOptions,
        vectors: &Vec<Vec<Scalar>>,
        fit: &F,
    ) -> (r: Result<ProductQuantizer, TrainError>)
        requires
            train_error(vector_options, QuantizationOptions::Product(options), rows(vectors@))
                is None ==> fit.requires((vectors,)),
        ensures
            match train_error(vector_options, QuantizationOptions::Product(options), rows(vectors@)) {
                Some(e) => r matches Err(x) && x == e,
                None => match r {
                    Ok(x) => x.trained_from(vector_options, options, *vectors, *fit),
                    Err(e) => e == TrainError::MalformedParameters && misfitted_by(
                        *fit,
                        *vectors,
                        levels(options.bits) * vector_options.dims,
                    ),
                },
            },
    {
        if vector_options.dims == 0 {
            return Err(TrainError::InvalidDimensions);
        }
        if !is_valid_bits(options.bits) {
            return Err(TrainError::UnsupportedBits);
        }
        if options.ratio == 0 {
            return Err(TrainError::InvalidRatio);
        }
        match check_vectors(vector_options.dims, vectors) {
            Some(e) => {
                return Err(e);
            },
            None => {},
        }
        let centroids = fit(vectors);
        match ProductQuantizer::new(vector_options.dims, options.ratio, options.bits, centroids) {
            Some(x) => Ok(x),
            None => Err(TrainError::MalformedParameters),
        }
    }

    /// The number of components of a vector.
    pub fn dims(&self) -> (d: u32)
        ensures
            self.wf(),
            d == self.spec_dims(),
            d >= 1,
    {
        proof {
            use_type_invariant(self);
        }
        self.dims
    }

    /// The number of components of a group.
    pub fn ratio(&self) -> (r: u32)
        ensures
            r == self.spec_ratio(),
            r >= 1,
    {
        proof {
            use_type_invariant(self);
        }
        self.ratio
    }

    /// The number of bits of a code.
    pub fn bits(&self) -> (b: u32)
        ensures
            b == self.spec_bits(),
            valid_bits(b),
    {
        proof {
            use_type_invariant(self);
        }
        self.bits
    }

    /// The number of codes of a vector: one for each group.
    pub fn width(&self) -> (w: u32)
        ensures
            w == self.spec_width(),
    {
        proof {
            use_type_invariant(self);
            lemma_group_count(self.dims, self.ratio);
        }
        let total: u64 = self.dims as u64 + self.ratio as u64 - 1;
        (total / self.ratio as u64) as u32
    }

    /// The number of bytes of the packed codes of a vector.
    pub fn bytes(&self) -> (n: u32)
        ensures
            n == record_bytes(self.spec_width(), self.spec_bits()),
    {
        proof {
            use_type_invariant(self);
        }
        bytes_per_record(self.width(), self.bits)
    }

    /// The centroids, one behind the other in the order of their codes.
    pub fn centroids(&self) -> (c: &Vec<Scalar>)
        ensures
            c@ == self.spec_centroids(),
    {
        &self.centroids
    }

    /// The first component of group `group`.
    pub open spec fn spec_group_start(self, group: int) -> int {
        group * self.spec_ratio()
    }

    /// The component behind the last of group `group`: the last group ends
    /// with the vector.
    pub open spec fn spec_group_end(self, group: int) -> int {
        if (group + 1) * self.spec_ratio() < self.spec_dims() {
            (group + 1) * self.spec_ratio()
        } else {
            self.spec_dims() as int
        }
    }

    /// The part of the centroid of `code` that lies in group `group`: the
    /// centroid of `code` takes the components from `code * dims` on, and
    /// the group its own components of them.
    pub open spec fn spec_centroid(self, code: int, group: int) -> Seq<Scalar> {
        self.spec_centroids().subrange(
            code * self.spec_dims() + self.spec_group_start(group),
            code * self.spec_dims() + self.spec_group_end(group),
        )
    }

    /// The components of group `group`: the first, and the one behind the
    /// last.
    pub fn group_range(&self, group: u32) -> (r: (u32, u32))
        requires
            group < self.spec_width(),
        ensures
            r.0 == self.spec_group_start(group as int),
            r.1 == self.spec_group_end(group as int),
            r.0 < r.1 <= self.spec_dims(),
    {
        proof {
            use_type_invariant(self);
            lemma_group_start(self.dims, self.ratio, group as int);
        }
        let start: u64 = group as u64 * self.ratio as u64;
        let next: u64 = start + self.ratio as u64;
        let end: u64 = if next < self.dims as u64 {
            next
        } else {
            self.dims as u64
        };
        (start as u32, end as u32)
    }

    /// The part of the centroid of `code` that lies in group `group`.
    pub fn centroid(&self, code: u8, group: u32) -> (c: &[Scalar])
        requires
            code < levels(self.spec_bits()),
            group < self.spec_width(),
        ensures
            c@ == self.spec_centroid(code as int, group as int),
    {
        let (start, end) = self.group_range(group);
        proof {
            use_type_invariant(self);
            assert(code * self.dims + self.dims <= levels(self.bits) * self.dims)
                by (nonlinear_arith)
                requires
                    0 <= code < levels(self.bits),
                    0 <= self.dims,
            ;
            assert(0 <= code * self.dims) by (nonlinear_arith)
                requires
                    0 <= code,
                    0 <= self.dims,
            ;
        }
        let row: usize = code as usize * self.dims as usize;
        vstd::slice::slice_subrange(
            self.centroids.as_slice(),
            row + start as usize,
            row + end as usize,
        )
    }
}

/// A group begins inside the vector.
pub proof fn lemma_group_start(dims: u32, ratio: u32, group: int)
    requires
        dims >= 1,
        ratio >= 1,
        0 <= group < group_count(dims, ratio),
    ensures
        0 <= group * ratio < dims,
        (group + 1) * ratio == group * ratio + ratio,
{
    let total = dims + ratio - 1;
    let r = ratio as int;
    vstd::arithmetic::div_mod::lemma_fundamental_div_mod(total, r);
    vstd::arithmetic::div_mod::lemma_mod_bound(total, r);
    let q = total / r;
    assert(0 <= group * r && group * r + r <= q * r && q * r == r * q && (group + 1) * r == group
        * r + r) by (nonlinear_arith)
        requires
            0 <= group < q,
            r >= 1,
    ;
}

/// `code` is the place of the least of `distances`, and the first such
/// place.
pub open spec fn is_nearest(distances: Seq<Distance>, code: int) -> bool {
    &&& 0 <= code < distances.len()
    &&& forall|c: int| 0 <= c < distances.len() ==> distances[code] <= #[trigger] distances[c]
    &&& forall|c: int| 0 <= c < code ==> distances[code] < #[trigger] distances[c]
}

/// The place of the least of `distances`, the first if there are several;
/// none if there are no distances.
pub fn nearest(distances: &Vec<Distance>) -> (r: Option<usize>)
    ensures
        r is None <==> distances.len() == 0,
        r matches Some(code) ==> is_nearest(distances@, code as int),
{
    if distances.len() == 0 {
        return None;
    }
    let mut best: usize = 0;
    let mut c: usize = 1;
    while c < distances.len()
        invariant
            best < c <= distances.len(),
            forall|t: int| 0 <= t < c ==> distances@[best as int] <= #[trigger] distances@[t],
            forall|t: int| 0 <= t < best ==> distances@[best as int] < #[trigger] distances@[t],
        decreases distances.len() - c,
    {
        if distances[c] < distances[best] {
            best = c;
        }
        c += 1;
    }
    Some(best)
}

/// `code` is the code of a group whose centroids lie at the distances that
/// `distance` gave for the group: the first of the nearest centroids.
pub open spec fn nearest_by<F: Fn(u32, u8) -> Distance>(
    distance: F,
    bits: u32,
    group: u32,
    code: u8,
) -> bool {
    exists|distances: Seq<Distance>|
        distances.len() == levels(bits) && is_nearest(distances, code as int) && forall|c: u8|
            c < levels(bits) ==> #[trigger] distance.ensures((group, c), distances[c as int])
}

impl ProductQuantizer {
    /// The codes of a vector: for every group the code of the centroid
    /// nearest to it, the first if several are as near. `distance` is asked,
    /// once for each group and code, how far the centroid of that code is
    /// from that group of the vector.
    pub fn encode<F: Fn(u32, u8) -> Distance>(&self, distance: &F) -> (codes: Vec<u8>)
        requires
            forall|group: u32, c: u8|
                group < self.spec_width() && c < levels(self.spec_bits())
                    ==> #[trigger] distance.requires((group, c)),
        ensures
            codes.len() == self.spec_width(),
            codes_fit(self.spec_bits(), codes@),
            forall|group: u32|
                group < self.spec_width() ==> nearest_by(
                    *distance,
                    self.spec_bits(),
                    group,
                    #[trigger] codes@[group as int],
                ),
    {
        let width = self.width();
        let bits = self.bits();
        let count = level_count(bits);
        let mut codes: Vec<u8> = Vec::new();
        let mut group: u32 = 0;
        while group < width
            invariant
                width == self.spec_width(),
                bits == self.spec_bits(),
                valid_bits(bits),
                count == levels(bits),
                forall|g: u32, c: u8|
                    g < width && c < levels(bits) ==> #[trigger] distance.requires((g, c)),
                group <= width,
                codes.len() == group,
                forall|g: u32|
                    g < group ==> nearest_by(*distance, bits, g, #[trigger] codes@[g as int]),
                forall|g: int| 0 <= g < group ==> (#[trigger] codes@[g]) < levels(bits),
            decreases width - group,
        {
            let mut distances: Vec<Distance> = Vec::new();
            let mut c: u32 = 0;
            while c < count
                invariant
                    count == levels(bits),
                    valid_bits(bits),
                    group < width,
                    forall|g: u32, c: u8|
                        g < width && c < levels(bits) ==> #[trigger] distance.requires((g, c)),
                    c <= count,
                    distances.len() == c,
                    forall|t: u8|
                        t < c ==> #[trigger] distance.ensures((group, t), distances@[t as int]),
                decreases count - c,
            {
                let d = distance(group, c as u8);
                distances.push(d);
                c += 1;
            }
            let code = nearest(&distances).unwrap();
            let ghost before = codes@;
            codes.push(code as u8);
            proof {
                assert(is_nearest(distances@, code as int));
                assert(nearest_by(*distance, bits, group, code as u8));
                assert forall|g: u32| g < group + 1 implies nearest_by(
                    *distance,
                    bits,
                    g,
                    #[trigger] codes@[g as int],
                ) by {
                    if g < group {
                        assert(codes@[g as int] == before[g as int]);
                    }
                }
            }
            group += 1;
        }
        codes
    }
}

/// There is at least one group, and no more groups than components.
pub proof fn lemma_group_count(dims: u32, ratio: u32)
    requires
        dims >= 1,
        ratio >= 1,
    ensures
        1 <= group_count(dims, ratio) <= dims,
{
    let total = dims + ratio - 1;
    let r = ratio as int;
    vstd::arithmetic::div_mod::lemma_fundamental_div_mod(total, r);
    vstd::arithmetic::div_mod::lemma_mod_bound(total, r);
    let q = total / r;
    assert(total == r * q + total % r);
    assert(q >= 1) by (nonlinear_arith)
        requires
            total == r * q + total % r,
            0 <= total % r < r,
            total >= r,
            r >= 1,
    ;
    assert(q <= dims) by (nonlinear_arith)
        requires
            total == r * q + total % r,
            0 <= total % r < r,
            total == dims + r - 1,
            r >= 1,
            dims >= 1,
    ;
}

/// The quantizer that rotates vectors and keeps the signs. It holds the
/// rotation, a square matrix, row after row.
#[derive(Debug)]
pub struct RaBitQuantizer {
    dims: u32,
    rotation: Vec<Scalar>,
}

impl Clone for RaBitQuantizer {
    /// A quantizer of the same dimensions and rotation.
    fn clone(&self) -> (x: RaBitQuantizer)
        ensures
            x.wf(),
            x.spec_dims() == self.spec_dims(),
            x.spec_rotation() == self.spec_rotation(),
    {
        proof {
            use_type_invariant(self);
        }
        let rotation = self.rotation.clone();
        assert(rotation@ =~= self.rotation@);
        RaBitQuantizer { dims: self.dims, rotation }
    }
}

impl RaBitQuantizer {
    /// There is at least one component, and the rotation is square.
    #[verifier::type_invariant]
    pub closed spec fn wf(self) -> bool {
        &&& self.dims >= 1
        &&& self.rotation.len() == self.dims * self.dims
    }

    /// The number of components of a vector.
    pub closed spec fn spec_dims(self) -> u32 {
        self.dims
    }

    /// The rotation, row after row.
    pub closed spec fn spec_rotation(self) -> Seq<Scalar> {
        self.rotation@
    }

    /// The vector that holds the rotation.
    pub closed spec fn spec_rotation_vec(self) -> Vec<Scalar> {
        self.rotation
    }

    /// What `wf` says, over the public names.
    pub proof fn lemma_wf(self)
        requires
            self.wf(),
        ensures
            self.spec_dims() >= 1,
            self.spec_rotation().len() == self.spec_dims() * self.spec_dims(),
    {
    }

    /// The quantizer with the given rotation.
    ///
    /// Fails exactly when there is no component or the rotation is not
    /// `dims * dims` components.
    pub fn new(dims: u32, rotation: Vec<Scalar>) -> (r: Option<RaBitQuantizer>)
        ensures
            r is Some <==> dims >= 1 && rotation.len() == dims * dims,
            r matches Some(x) ==> x.wf() && x.spec_dims() == dims && x.spec_rotation()
                == rotation@,
    {
        if dims == 0 {
            return None;
        }
        assert(dims * dims <= 0xFFFF_FFFF * 0xFFFF_FFFF) by (nonlinear_arith)
            requires
                dims <= 0xFFFF_FFFF,
        ;
        if rotation.len() as u64 != dims as u64 * dims as u64 {
            return None;
        }
        Some(RaBitQuantizer { dims, rotation })
    }

    /// The outcome of training on `vectors`: the dimensions that the
    /// options give, and the rotation that `fit` gave.
    pub open spec fn trained_from<F: Fn(&Vec<Vec<Scalar>>) -> Vec<Scalar>>(
        self,
        vector_options: VectorOptions,
        vectors: Vec<Vec<Scalar>>,
        fit: F,
    ) -> bool {
        &&& self.wf()
        &&& self.spec_dims() == vector_options.dims
        &&& fitted_by(fit, vectors, self.spec_rotation())
    }

    /// Trains on the given vectors: the rotation is asked of `fit`.
    ///
    /// Fails with the error that `train_error` finds, and otherwise only
    /// where `fit` gave a rotation that is not `dims * dims` components.
    pub fn train<F: Fn(&Vec<Vec<Scalar>>) -> Vec<Scalar>>(
        vector_options: VectorOptions,
        options: RaBitQuantizationOptions,
        vectors: &Vec<Vec<Scalar>>,
        fit: &F,
    ) -> (r: Result<RaBitQuantizer, TrainError>)
        requires
            train_error(vector_options, QuantizationOptions::RaBitQ(options), rows(vectors@))
                is None ==> fit.requires((vectors,)),
        ensures
            match train_error(vector_options, QuantizationOptions::RaBitQ(options), rows(vectors@)) {
                Some(e) => r matches Err(x) && x == e,
                None => match r {
                    Ok(x) => x.trained_from(vector_options, *vectors, *fit),
                    Err(e) => e == TrainError::MalformedParameters && misfitted_by(
                        *fit,
                        *vectors,
                        vector_options.dims * vector_options.dims,
                    ),
                },
            },
    {
        if vector_options.dims == 0 {
            return Err(TrainError::InvalidDimensions);
        }
        match check_vectors(vector_options.dims, vectors) {
            Some(e) => {
                return Err(e);
            },
            None => {},
        }
        let rotation = fit(vectors);
        match RaBitQuantizer::new(vector_options.dims, rotation) {
            Some(x) => Ok(x),
            None => Err(TrainError::MalformedParameters),
        }
    }

    /// The number of components of a vector.
    pub fn dims(&self) -> (d: u32)
        ensures
            self.wf(),
            d == self.spec_dims(),
            d >= 1,
    {
        proof {
            use_type_invariant(self);
        }
        self.dims
    }

    /// The rotation, row after row.
    pub fn rotation(&self) -> (r: &Vec<Scalar>)
        ensures
            *r == self.spec_rotation_vec(),
            r@ == self.spec_rotation(),
    {
        &self.rotation
    }
}

/// The sign of a component as a code: one where the sign bit is clear,
/// zero where it is set.
pub open spec fn sign_code(component: Scalar) -> u8 {
    if component.bits < 0x8000_0000 {
        1
    } else {
        0
    }
}

/// The signs of the components of a vector.
pub open spec fn sign_codes(vector: Seq<Scalar>) -> Seq<u8> {
    Seq::new(vector.len(), |i: int| sign_code(vector[i]))
}

impl RaBitQuantizer {
    /// The signs of a rotated vector, eight to a byte.
    ///
    /// Fails exactly when the vector has not the dimensions of the
    /// quantizer.
    pub fn binarize(&self, rotated: &Vec<Scalar>) -> (r: Option<Vec<u8>>)
        ensures
            r is Some <==> rotated.len() == self.spec_dims(),
            r matches Some(bytes) ==> bytes@ == packed_record(1, sign_codes(rotated@)),
    {
        if rotated.len() != self.dims as usize {
            return None;
        }
        let mut signs: Vec<u8> = Vec::new();
        let mut i: usize = 0;
        while i < rotated.len()
            invariant
                i <= rotated.len(),
                signs.len() == i,
                forall|t: int| 0 <= t < i ==> (#[trigger] signs@[t]) == sign_code(rotated@[t]),
            decreases rotated.len() - i,
        {
            let sign: u8 = if rotated[i].to_bits() < 0x8000_0000 {
                1
            } else {
                0
            };
            signs.push(sign);
            i += 1;
        }
        assert(signs@ =~= sign_codes(rotated@));
        assert(codes_fit(1, signs@));
        pack_codes(1, &signs)
    }
}

/// A trained quantizer, of one of four kinds. The kind never changes.
#[derive(Debug)]
pub enum Quantizer {
    Trivial(TrivialQuantizer),
    Scalar(ScalarQuantizer),
    Product(ProductQuantizer),
    RaBitQ(RaBitQuantizer),
}

impl Clone for Quantizer {
    /// A quantizer of the same kind and shape.
    fn clone(&self) -> (q: Quantizer)
        ensures
            q.wf(),
            q.spec_dims() == self.spec_dims(),
            q.spec_coded() == self.spec_coded(),
            q.spec_bits() == self.spec_bits(),
            q.spec_width() == self.spec_width(),
            self is Trivial ==> q is Trivial,
            self matches Quantizer::Scalar(x) ==> (q matches Quantizer::Scalar(y) && y.spec_max()
                == x.spec_max() && y.spec_min() == x.spec_min()),
            self matches Quantizer::Product(x) ==> (q matches Quantizer::Product(y)
                && y.spec_ratio() == x.spec_ratio() && y.spec_centroids() == x.spec_centroids()),
            self matches Quantizer::RaBitQ(x) ==> (q matches Quantizer::RaBitQ(y)
                && y.spec_rotation() == x.spec_rotation()),
    {
        match self {
            Quantizer::Trivial(x) => {
                proof {
                    use_type_invariant(x);
                }
                Quantizer::Trivial(*x)
            },
            Quantizer::Scalar(x) => Quantizer::Scalar(x.clone()),
            Quantizer::Product(x) => Quantizer::Product(x.clone()),
            Quantizer::RaBitQ(x) => Quantizer::RaBitQ(x.clone()),
        }
    }
}

impl Quantizer {
    /// The quantizer inside is well formed.
    pub open spec fn wf(self) -> bool {
        match self {
            Quantizer::Trivial(x) => x.wf(),
            Quantizer::Scalar(x) => x.wf(),
            Quantizer::Product(x) => x.wf(),
            Quantizer::RaBitQ(x) => x.wf(),
        }
    }

    /// The number of components of a vector.
    pub open spec fn spec_dims(self) -> u32 {
        match self {
            Quantizer::Trivial(x) => x.spec_dims(),
            Quantizer::Scalar(x) => x.spec_dims(),
            Quantizer::Product(x) => x.spec_dims(),
            Quantizer::RaBitQ(x) => x.spec_dims(),
        }
    }

    /// Whether vectors are stored as codes: so for the scalar and the
    /// product quantizer.
    pub open spec fn spec_coded(self) -> bool {
        self is Scalar || self is Product
    }

    /// The number of bits of a code; zero where no codes are stored.
    pub open spec fn spec_bits(self) -> u32 {
        match self {
            Quantizer::Scalar(x) => x.spec_bits(),
            Quantizer::Product(x) => x.spec_bits(),
            _ => 0,
        }
    }

    /// The number of codes of a vector; zero where no codes are stored.
    pub open spec fn spec_width(self) -> int {
        match self {
            Quantizer::Scalar(x) => x.spec_dims() as int,
            Quantizer::Product(x) => x.spec_width(),
            _ => 0,
        }
    }

    /// The number of bytes of the packed codes of a vector; zero where no
    /// codes are stored.
    pub open spec fn spec_bytes(self) -> int {
        record_bytes(self.spec_width(), self.spec_bits())
    }

    /// What `wf` says of the codes, over the public names.
    pub proof fn lemma_wf(self)
        requires
            self.wf(),
        ensures
            self.spec_dims() >= 1,
            self.spec_coded() ==> valid_bits(self.spec_bits()) && 1 <= self.spec_width()
                <= self.spec_dims() && 1 <= self.spec_bytes() <= self.spec_width(),
            !self.spec_coded() ==> self.spec_bits() == 0 && self.spec_width() == 0
                && self.spec_bytes() == 0,
    {
        match self {
            Quantizer::Trivial(x) => {},
            Quantizer::Scalar(x) => {
                x.lemma_wf();
            },
            Quantizer::Product(x) => {
                x.lemma_wf();
            },
            Quantizer::RaBitQ(x) => {},
        }
    }

    /// The outcome of training on `vectors` with the given options: a
    /// quantizer of the kind that the options name, of their dimensions and
    /// shape; the scalar quantizer with the range of every component, the
    /// product quantizer with the centroids and the rotating quantizer with
    /// the rotation that `fit` gave.
    pub open spec fn trained_from<F: Fn(&Vec<Vec<Scalar>>) -> Vec<Scalar>>(
        self,
        vector_options: VectorOptions,
        quantization_options: QuantizationOptions,
        vectors: Vec<Vec<Scalar>>,
        fit: F,
    ) -> bool {
        &&& self.wf()
        &&& self.spec_dims() == vector_options.dims
        &&& match quantization_options {
            QuantizationOptions::Trivial(_) => self is Trivial,
            QuantizationOptions::Scalar(o) => self matches Quantizer::Scalar(x) && x.trained_from(
                vector_options,
                o,
                rows(vectors@),
            ),
            QuantizationOptions::Product(o) => self matches Quantizer::Product(x)
                && x.trained_from(vector_options, o, vectors, fit),
            QuantizationOptions::RaBitQ(_) => self matches Quantizer::RaBitQ(x) && x.trained_from(
                vector_options,
                vectors,
                fit,
            ),
        }
    }

    /// How training ends: with the first error that `train_error` finds;
    /// else with the trained quantizer, or, where `fit` gave parameters
    /// that are not as many as the quantizer holds, with
    /// `MalformedParameters`.
    pub open spec fn train_outcome<F: Fn(&Vec<Vec<Scalar>>) -> Vec<Scalar>>(
        vector_options: VectorOptions,
        quantization_options: QuantizationOptions,
        vectors: Vec<Vec<Scalar>>,
        fit: F,
        r: Result<Quantizer, TrainError>,
    ) -> bool {
        match train_error(vector_options, quantization_options, rows(vectors@)) {
            Some(e) => r matches Err(x) && x == e,
            None => match r {
                Ok(q) => q.trained_from(vector_options, quantization_options, vectors, fit),
                Err(e) => e == TrainError::MalformedParameters && (quantization_options is Product
                    || quantization_options is RaBitQ) && misfitted_by(
                    fit,
                    vectors,
                    fitted_len(vector_options, quantization_options),
                ),
            },
        }
    }

    /// Two quantizers are of one kind and hold the same: dimensions, shape,
    /// ranges, centroids, rotation.
    pub open spec fn same_as(self, other: Quantizer) -> bool {
        match (self, other) {
            (Quantizer::Trivial(x), Quantizer::Trivial(y)) => x.spec_dims() == y.spec_dims(),
            (Quantizer::Scalar(x), Quantizer::Scalar(y)) => x.spec_dims() == y.spec_dims()
                && x.spec_bits() == y.spec_bits() && x.spec_min() == y.spec_min() && x.spec_max()
                == y.spec_max(),
            (Quantizer::Product(x), Quantizer::Product(y)) => x.spec_dims() == y.spec_dims()
                && x.spec_ratio() == y.spec_ratio() && x.spec_bits() == y.spec_bits()
                && x.spec_centroids() == y.spec_centroids(),
            (Quantizer::RaBitQ(x), Quantizer::RaBitQ(y)) => x.spec_dims() == y.spec_dims()
                && x.spec_rotation() == y.spec_rotation(),
            _ => false,
        }
    }

    /// Training twice on the same vectors with the same options ends the
    /// same way, where `fit` gives one result for one input: with the same
    /// error, or with quantizers that hold the same.
    pub proof fn lemma_train_twice<F: Fn(&Vec<Vec<Scalar>>) -> Vec<Scalar>>(
        vector_options: VectorOptions,
        quantization_options: QuantizationOptions,
        vectors: Vec<Vec<Scalar>>,
        fit: F,
        first: Result<Quantizer, TrainError>,
        second: Result<Quantizer, TrainError>,
    )
        requires
            Self::train_outcome(vector_options, quantization_options, vectors, fit, first),
            Self::train_outcome(vector_options, quantization_options, vectors, fit, second),
            forall|a: Vec<Scalar>, b: Vec<Scalar>|
                fit.ensures((&vectors,), a) && fit.ensures((&vectors,), b) ==> a@ == b@,
        ensures
            match (first, second) {
                (Ok(a), Ok(b)) => a.same_as(b),
                (Err(a), Err(b)) => a == b,
                _ => false,
            },
    {
        if train_error(vector_options, quantization_options, rows(vectors@)) is None {
            match (first, second) {
                (Ok(a), Ok(b)) => {
                    match (a, b) {
                        (Quantizer::Scalar(x), Quantizer::Scalar(y)) => {
                            assert(x.spec_min() =~= y.spec_min());
                            assert(x.spec_max() =~= y.spec_max());
                        },
                        (Quantizer::Product(x), Quantizer::Product(y)) => {
                            x.lemma_wf();
                            y.lemma_wf();
                        },
                        (Quantizer::RaBitQ(x), Quantizer::RaBitQ(y)) => {
                            x.lemma_wf();
                            y.lemma_wf();
                        },
                        _ => {},
                    }
                },
                (Ok(a), Err(_)) => {
                    a.lemma_fitted_len(vector_options, quantization_options, vectors, fit);
                },
                (Err(_), Ok(b)) => {
                    b.lemma_fitted_len(vector_options, quantization_options, vectors, fit);
                },
                _ => {},
            }
        }
    }

    /// What was fitted for a trained quantizer is as many parameters as
    /// the quantizer holds.
    pub proof fn lemma_fitted_len<F: Fn(&Vec<Vec<Scalar>>) -> Vec<Scalar>>(
        self,
        vector_options: VectorOptions,
        quantization_options: QuantizationOptions,
        vectors: Vec<Vec<Scalar>>,
        fit: F,
    )
        requires
            self.trained_from(vector_options, quantization_options, vectors, fit),
            quantization_options is Product || quantization_options is RaBitQ,
        ensures
            exists|out: Vec<Scalar>|
                fit.ensures((&vectors,), out) && out@.len() == fitted_len(
                    vector_options,
                    quantization_options,
                ),
    {
        match self {
            Quantizer::Product(x) => {
                x.lemma_wf();
                let out = choose|out: Vec<Scalar>|
                    fit.ensures((&vectors,), out) && out@ == x.spec_centroids();
                assert(fit.ensures((&vectors,), out) && out@.len() == fitted_len(
                    vector_options,
                    quantization_options,
                ));
            },
            Quantizer::RaBitQ(x) => {
                x.lemma_wf();
                let out = choose|out: Vec<Scalar>|
                    fit.ensures((&vectors,), out) && out@ == x.spec_rotation();
                assert(fit.ensures((&vectors,), out) && out@.len() == fitted_len(
                    vector_options,
                    quantization_options,
                ));
            },
            _ => {},
        }
    }

    /// Trains the quantizer that the options name. What training needs
    /// arithmetic for is asked of `fit`: the centroids of the product
    /// quantizer and the rotation of the rotating quantizer.
    ///
    /// Fails on options that are malformed and on training vectors that are
    /// none, too many, or not of the dimensions that the options give; the
    /// error is the first that `train_error` finds. Otherwise it fails only
    /// where `fit` gave parameters that are not as many as the quantizer
    /// holds. The result is the trained quantizer.
    pub fn train<F: Fn(&Vec<Vec<Scalar>>) -> Vec<Scalar>>(
        vector_options: VectorOptions,
        quantization_options: QuantizationOptions,
        vectors: &Vec<Vec<Scalar>>,
        fit: &F,
    ) -> (r: Result<Quantizer, TrainError>)
        requires
            train_error(vector_options, quantization_options, rows(vectors@)) is None && (
            quantization_options is Product || quantization_options is RaBitQ) ==> fit.requires(
                (vectors,),
            ),
        ensures
            Self::train_outcome(vector_options, quantization_options, *vectors, *fit, r),
    {
        match quantization_options {
            QuantizationOptions::Trivial(trivial_quantization_options) => {
                match TrivialQuantizer::train(vector_options, trivial_quantization_options, vectors) {
                    Ok(x) => Ok(Quantizer::Trivial(x)),
                    Err(e) => Err(e),
                }
            },
            QuantizationOptions::Scalar(scalar_quantization_options) => {
                match ScalarQuantizer::train(vector_options, scalar_quantization_options, vectors) {
                    Ok(x) => Ok(Quantizer::Scalar(x)),
                    Err(e) => Err(e),
                }
            },
            QuantizationOptions::Product(product_quantization_options) => {
                match ProductQuantizer::train(
                    vector_options,
                    product_quantization_options,
                    vectors,
                    fit,
                ) {
                    Ok(x) => Ok(Quantizer::Product(x)),
                    Err(e) => Err(e),
                }
            },
            QuantizationOptions::RaBitQ(rabitq_quantization_options) => {
                match RaBitQuantizer::train(vector_options, rabitq_quantization_options, vectors, fit) {
                    Ok(x) => Ok(Quantizer::RaBitQ(x)),
                    Err(e) => Err(e),
                }
            },
        }
    }

    /// The number of components of a vector.
    pub fn dims(&self) -> (d: u32)
        ensures
            self.wf(),
            d == self.spec_dims(),
            d >= 1,
    {
        match self {
            Quantizer::Trivial(x) => x.dims(),
            Quantizer::Scalar(x) => x.dims(),
            Quantizer::Product(x) => x.dims(),
            Quantizer::RaBitQ(x) => x.dims(),
        }
    }

    /// Whether vectors are stored as codes.
    pub fn coded(&self) -> (r: bool)
        ensures
            self.wf(),
            r == self.spec_coded(),
    {
        match self {
            Quantizer::Trivial(x) => {
                proof {
                    use_type_invariant(x);
                }
                false
            },
            Quantizer::Scalar(x) => {
                proof {
                    use_type_invariant(x);
                }
                true
            },
            Quantizer::Product(x) => {
                proof {
                    use_type_invariant(x);
                }
                true
            },
            Quantizer::RaBitQ(x) => {
                proof {
                    use_type_invariant(x);
                }
                false
            },
        }
    }

    /// The number of bits of a code; zero where no codes are stored.
    pub fn bits(&self) -> (b: u32)
        ensures
            b == self.spec_bits(),
    {
        match self {
            Quantizer::Scalar(x) => x.bits(),
            Quantizer::Product(x) => x.bits(),
            _ => 0,
        }
    }

    /// The number of codes of a vector; zero where no codes are stored.
    pub fn width(&self) -> (w: u32)
        ensures
            w == self.spec_width(),
    {
        match self {
            Quantizer::Scalar(x) => x.width(),
            Quantizer::Product(x) => x.width(),
            _ => 0,
        }
    }

    /// The number of bytes of the packed codes of a vector; zero where no
    /// codes are stored.
    pub fn bytes(&self) -> (n: u32)
        ensures
            n == self.spec_bytes(),
    {
        match self {
            Quantizer::Scalar(x) => x.bytes(),
            Quantizer::Product(x) => x.bytes(),
            _ => 0,
        }
    }
}

} // verus!
