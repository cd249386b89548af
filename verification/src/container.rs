//! The quantization container: a trained quantizer with the codes of the
//! vectors it encoded.
//!
//! The container holds three artifacts. `train` is the quantizer. `codes`
//! holds one packed record for each vector, in the order of their ids; it is
//! empty for a quantizer that stores no codes. `packed_codes` holds the same
//! codes block-transposed; it is empty unless the codes have four bits.
//! Nothing in a container changes once it is made.

use crate::fast_scan::{
    blocks_for, lemma_packed_code, pack, packed_blocks, packed_code, read_packed_code,
    well_formed_rows,
};
use crate::packing::{
    codes_fit, codes_per_byte, lemma_record_room, lemma_unpack_packed, pack_codes, packed_record,
    record_bytes,
    unpack_code, unpacked_code, unpacked_codes, valid_bits,
};
use crate::options::{QuantizationOptions, VectorOptions};
use crate::quantizer::{fitted_len, misfitted_by, train_error, Quantizer, TrainError};
use crate::scalar::Scalar;
use crate::views::rows;
use vstd::arithmetic::div_mod::lemma_fundamental_div_mod_converse;
use vstd::prelude::*;

verus! {

/// Why a container could not be created.
#[derive(Clone, Copy, Debug, PartialEq, Eq, Structural)]
pub enum CreateError {
    /// The quantizer could not be trained.
    Train(TrainError),
    /// The code vectors are not what the quantizer produces: there are more
    /// than ids, one has not as many codes as the quantizer makes, or a code
    /// needs more bits than the quantizer gives; or there are code vectors
    /// for a quantizer that stores none.
    MalformedCodes,
}

/// Why artifacts could not be opened as a container.
#[derive(Clone, Copy, Debug, PartialEq, Eq, Structural)]
pub enum OpenError {
    /// `codes` is not a whole number of records, holds more records than
    /// there are ids, or is not empty though the quantizer stores no codes.
    MalformedCodes,
    /// `packed_codes` is not the block-transposed form of `codes`, or is not
    /// empty though the codes have not four bits.
    MalformedPackedCodes,
}

/// The records of the first `upto` code vectors, packed, one behind the
/// other.
pub open spec fn packed_records(bits: u32, vectors: Seq<Seq<u8>>, upto: int) -> Seq<u8>
    decreases upto,
{
    if upto <= 0 {
        Seq::empty()
    } else {
        packed_records(bits, vectors, upto - 1) + packed_record(bits, vectors[upto - 1])
    }
}

/// The record of vector `id` among records of `bytes` bytes each.
pub open spec fn record_at(codes: Seq<u8>, bytes: int, id: int) -> Seq<u8> {
    codes.subrange(id * bytes, id * bytes + bytes)
}

/// The vector whose codes stand in slot `id` of the block-transposed
/// layout of `n` vectors: behind the last vector, the last vector again.
pub open spec fn stored_vector(n: int, id: int) -> int {
    if id < n {
        id
    } else {
        n - 1
    }
}

/// Whether code vectors are what `train` produces: for a quantizer that
/// stores codes, no more vectors than ids, each of as many codes as the
/// quantizer makes and of codes that fit its bits; otherwise none.
pub open spec fn encoded_valid(train: Quantizer, vectors: Seq<Seq<u8>>) -> bool {
    if train.spec_coded() {
        &&& vectors.len() <= u32::MAX
        &&& forall|r: int|
            0 <= r < vectors.len() ==> (#[trigger] vectors[r]).len() == train.spec_width()
                && codes_fit(train.spec_bits(), vectors[r])
    } else {
        vectors.len() == 0
    }
}

/// Whether `codes` is a whole number of records of `train`, for no more
/// vectors than there are ids.
pub open spec fn codes_valid(train: Quantizer, codes: Seq<u8>) -> bool {
    if train.spec_coded() {
        &&& codes.len() % (train.spec_bytes() as nat) == 0
        &&& codes.len() / (train.spec_bytes() as nat) <= u32::MAX
    } else {
        codes.len() == 0
    }
}

/// The number of vectors whose records `codes` holds.
pub open spec fn vector_count(train: Quantizer, codes: Seq<u8>) -> int {
    if train.spec_coded() {
        codes.len() as int / train.spec_bytes()
    } else {
        0
    }
}

/// Whether `packed_codes` is the block-transposed form of `codes`: for
/// four-bit codes, every slot of every block holds the codes of its
/// vector, and the slots behind the last vector those of the last vector;
/// for all else, it is empty.
pub open spec fn packed_codes_valid(train: Quantizer, codes: Seq<u8>, packed_codes: Seq<u8>) -> bool {
    if train.spec_coded() && train.spec_bits() == 4 {
        let n = vector_count(train, codes);
        let width = train.spec_width();
        let bytes = train.spec_bytes();
        &&& packed_codes.len() == blocks_for(n) * width * 16
        &&& forall|id: int, i: int|
            0 <= id < 32 * blocks_for(n) && 0 <= i < width ==> #[trigger] packed_code(
                packed_codes,
                width,
                id,
                i,
            ) == unpacked_code(4, record_at(codes, bytes, stored_vector(n, id)), i)
    } else {
        packed_codes.len() == 0
    }
}

/// Whether the three artifacts make a container.
pub open spec fn artifacts_valid(train: Quantizer, codes: Seq<u8>, packed_codes: Seq<u8>) -> bool {
    &&& train.wf()
    &&& codes_valid(train, codes)
    &&& packed_codes_valid(train, codes, packed_codes)
}

/// What is wrong with artifacts, if anything; `codes` is looked at first.
pub open spec fn open_error(train: Quantizer, codes: Seq<u8>, packed_codes: Seq<u8>) -> Option<
    OpenError,
> {
    if !codes_valid(train, codes) {
        Some(OpenError::MalformedCodes)
    } else if !packed_codes_valid(train, codes, packed_codes) {
        Some(OpenError::MalformedPackedCodes)
    } else {
        None
    }
}

/// Record `id` of `n` records lies inside them.
pub proof fn lemma_record_bounds(id: int, n: int, bytes: int)
    requires
        0 <= id < n,
        0 <= bytes,
    ensures
        0 <= id * bytes,
        id * bytes + bytes <= n * bytes,
{
    assert(0 <= id * bytes && id * bytes + bytes <= n * bytes) by (nonlinear_arith)
        requires
            0 <= id < n,
            0 <= bytes,
    ;
}

/// Packed records of vectors of one width have one length each.
pub proof fn lemma_packed_records_len(bits: u32, vectors: Seq<Seq<u8>>, upto: int, width: int)
    requires
        0 <= upto <= vectors.len(),
        forall|r: int| 0 <= r < upto ==> (#[trigger] vectors[r]).len() == width,
    ensures
        packed_records(bits, vectors, upto).len() == upto * record_bytes(width, bits),
    decreases upto,
{
    if upto > 0 {
        lemma_packed_records_len(bits, vectors, upto - 1, width);
        assert(vectors[upto - 1].len() == width);
        assert(0 <= width * bits) by (nonlinear_arith)
            requires
                0 <= width,
        ;
        assert(packed_record(bits, vectors[upto - 1]).len() == record_bytes(width, bits));
        assert((upto - 1) * record_bytes(width, bits) + record_bytes(width, bits) == upto
            * record_bytes(width, bits)) by (nonlinear_arith);
    } else {
        assert(0 * record_bytes(width, bits) == 0);
    }
}

/// Among packed records, the record of a vector is its packed record.
pub proof fn lemma_packed_records_record(
    bits: u32,
    vectors: Seq<Seq<u8>>,
    upto: int,
    width: int,
    id: int,
)
    requires
        0 <= id < upto <= vectors.len(),
        0 <= width,
        forall|r: int| 0 <= r < upto ==> (#[trigger] vectors[r]).len() == width,
    ensures
        record_at(packed_records(bits, vectors, upto), record_bytes(width, bits), id)
            == packed_record(bits, vectors[id]),
    decreases upto,
{
    let bytes = record_bytes(width, bits);
    let before = packed_records(bits, vectors, upto - 1);
    let last = packed_record(bits, vectors[upto - 1]);
    lemma_packed_records_len(bits, vectors, upto - 1, width);
    assert(vectors[upto - 1].len() == width);
    assert(0 <= width * bits) by (nonlinear_arith)
        requires
            0 <= width,
    ;
    assert(last.len() == bytes);
    lemma_record_bounds(id, upto, bytes);
    assert((upto - 1) * bytes + bytes == upto * bytes) by (nonlinear_arith);
    if id == upto - 1 {
        assert(record_at(before + last, bytes, id) =~= last);
    } else {
        lemma_packed_records_record(bits, vectors, upto - 1, width, id);
        lemma_record_bounds(id, upto - 1, bytes);
        assert(record_at(before + last, bytes, id) =~= record_at(before, bytes, id));
    }
}

/// Valid codes are as many records as the vector count says.
pub proof fn lemma_codes_len(train: Quantizer, codes: Seq<u8>)
    requires
        train.wf(),
        train.spec_coded(),
        codes_valid(train, codes),
    ensures
        train.spec_bytes() >= 1,
        0 <= vector_count(train, codes) <= u32::MAX,
        codes.len() == vector_count(train, codes) * train.spec_bytes(),
{
    train.lemma_wf();
    let bytes = train.spec_bytes();
    vstd::arithmetic::div_mod::lemma_fundamental_div_mod(codes.len() as int, bytes);
    assert(bytes * (codes.len() as int / bytes) == (codes.len() as int / bytes) * bytes)
        by (nonlinear_arith);
}

/// The artifacts made from valid code vectors fit together, and the codes
/// read from the record of a vector are the codes of that vector.
pub proof fn lemma_created_artifacts(train: Quantizer, vectors: Seq<Seq<u8>>)
    requires
        train.wf(),
        train.spec_coded(),
        encoded_valid(train, vectors),
    ensures
        artifacts_valid(
            train,
            packed_records(train.spec_bits(), vectors, vectors.len() as int),
            if train.spec_bits() == 4 {
                packed_blocks(train.spec_width(), vectors)
            } else {
                Seq::empty()
            },
        ),
        vector_count(train, packed_records(train.spec_bits(), vectors, vectors.len() as int))
            == vectors.len(),
        forall|id: int, i: int|
            0 <= id < vectors.len() && 0 <= i < train.spec_width() ==> #[trigger] unpacked_code(
                train.spec_bits(),
                record_at(
                    packed_records(train.spec_bits(), vectors, vectors.len() as int),
                    train.spec_bytes(),
                    id,
                ),
                i,
            ) == vectors[id][i],
{
    let bits = train.spec_bits();
    let width = train.spec_width();
    let bytes = train.spec_bytes();
    let n = vectors.len() as int;
    let codes = packed_records(bits, vectors, n);
    train.lemma_wf();
    lemma_packed_records_len(bits, vectors, n, width);
    lemma_fundamental_div_mod_converse(codes.len() as int, bytes, n, 0);
    assert forall|id: int, i: int| 0 <= id < n && 0 <= i < width implies #[trigger] unpacked_code(
        bits,
        record_at(codes, bytes, id),
        i,
    ) == vectors[id][i] by {
        lemma_packed_records_record(bits, vectors, n, width, id);
        assert(vectors[id].len() == width && codes_fit(bits, vectors[id]));
        lemma_record_room(width, bits, i);
        assert(i < record_bytes(width, bits) * codes_per_byte(bits));
        lemma_unpack_packed(bits, vectors[id], i);
    }
    if bits == 4 {
        let packed = packed_blocks(width, vectors);
        assert(well_formed_rows(width, vectors)) by {
            assert forall|r: int| 0 <= r < vectors.len() implies (#[trigger] vectors[r]).len()
                == width && codes_fit(4, vectors[r]) by {}
        }
        assert forall|id: int, i: int|
            0 <= id < 32 * blocks_for(n) && 0 <= i < width implies #[trigger] packed_code(
            packed,
            width,
            id,
            i,
        ) == unpacked_code(4, record_at(codes, bytes, stored_vector(n, id)), i) by {
            lemma_packed_code(width, vectors, id, i);
            let v = stored_vector(n, id);
            assert(0 <= v < n);
            assert(unpacked_code(bits, record_at(codes, bytes, v), i) == vectors[v][i]);
        }
    }
}

/// `codes` is what `encode` gave for `vector` under the quantizer `train`.
pub open spec fn encoded_by<F: Fn(&Quantizer, &Vec<Scalar>) -> Vec<u8>>(
    encode: F,
    train: Quantizer,
    vector: Vec<Scalar>,
    codes: Seq<u8>,
) -> bool {
    exists|out: Vec<u8>| encode.ensures((&train, &vector), out) && out@ == codes
}

/// `encode` gave, for `vector` under the quantizer `train`, codes that the
/// quantizer does not produce: not as many as it makes, or one of more bits
/// than it gives.
pub open spec fn malformed_by<F: Fn(&Quantizer, &Vec<Scalar>) -> Vec<u8>>(
    encode: F,
    train: Quantizer,
    vector: Vec<Scalar>,
) -> bool {
    exists|out: Vec<u8>|
        encode.ensures((&train, &vector), out) && !(out@.len() == train.spec_width() && codes_fit(
            train.spec_bits(),
            out@,
        ))
}

/// `encode` gave malformed codes for one of the vectors, under a quantizer
/// that stores codes and was trained on them.
pub open spec fn encode_failed<
    F: Fn(&Vec<Vec<Scalar>>) -> Vec<Scalar>,
    E: Fn(&Quantizer, &Vec<Scalar>) -> Vec<u8>,
>(
    vector_options: VectorOptions,
    quantization_options: QuantizationOptions,
    vectors: Vec<Vec<Scalar>>,
    fit: F,
    encode: E,
) -> bool {
    exists|train: Quantizer, id: int|
        train.trained_from(vector_options, quantization_options, vectors, fit)
            && train.spec_coded() && 0 <= id < vectors.len() && #[trigger] malformed_by(
            encode,
            train,
            vectors@[id],
        )
}

/// The codes of the vectors of a container, with its three artifacts.
pub struct Quantization {
    train: Quantizer,
    codes: Vec<u8>,
    packed_codes: Vec<u8>,
}

impl Quantization {
    /// The three artifacts fit together.
    #[verifier::type_invariant]
    pub closed spec fn wf(self) -> bool {
        artifacts_valid(self.train, self.codes@, self.packed_codes@)
    }

    /// The trained quantizer.
    pub closed spec fn spec_train(self) -> Quantizer {
        self.train
    }

    /// The packed records of all vectors.
    pub closed spec fn spec_codes(self) -> Seq<u8> {
        self.codes@
    }

    /// The block-transposed codes of all vectors.
    pub closed spec fn spec_packed_codes(self) -> Seq<u8> {
        self.packed_codes@
    }

    /// The number of vectors whose codes the container holds.
    pub open spec fn spec_len(self) -> int {
        vector_count(self.spec_train(), self.spec_codes())
    }

    /// The packed record of vector `id`.
    pub open spec fn spec_record(self, id: int) -> Seq<u8> {
        record_at(self.spec_codes(), self.spec_train().spec_bytes(), id)
    }

    /// The codes of vector `id`.
    pub open spec fn spec_codes_of(self, id: int) -> Seq<u8> {
        unpacked_codes(
            self.spec_train().spec_bits(),
            self.spec_record(id),
            self.spec_train().spec_width(),
        )
    }

    /// What `wf` says, over the public names.
    pub proof fn lemma_wf(self)
        requires
            self.wf(),
        ensures
            artifacts_valid(self.spec_train(), self.spec_codes(), self.spec_packed_codes()),
    {
    }

    /// The trained quantizer.
    pub fn train(&self) -> (q: &Quantizer)
        ensures
            *q == self.spec_train(),
    {
        &self.train
    }

    /// The packed records of all vectors.
    pub fn codes(&self) -> (c: &Vec<u8>)
        ensures
            c@ == self.spec_codes(),
    {
        &self.codes
    }

    /// The block-transposed codes of all vectors.
    pub fn packed_codes(&self) -> (c: &Vec<u8>)
        ensures
            c@ == self.spec_packed_codes(),
    {
        &self.packed_codes
    }

    /// The number of vectors whose codes the container holds.
    pub fn len(&self) -> (n: u32)
        ensures
            n == self.spec_len(),
    {
        proof {
            use_type_invariant(self);
            self.train.lemma_wf();
        }
        if self.train.coded() {
            (self.codes.len() / self.train.bytes() as usize) as u32
        } else {
            0
        }
    }

    /// The packed record of vector `id`.
    pub fn record(&self, id: u32) -> (r: &[u8])
        requires
            id < self.spec_len(),
        ensures
            r@ == self.spec_record(id as int),
            r@.len() == self.spec_train().spec_bytes(),
    {
        let bytes = self.train.bytes() as usize;
        proof {
            use_type_invariant(self);
            self.train.lemma_wf();
            assert(self.train.spec_coded());
            lemma_codes_len(self.train, self.codes@);
            let n = vector_count(self.train, self.codes@);
            lemma_record_bounds(id as int, n, bytes as int);
            assert(id * bytes + bytes <= self.codes.len());
        }
        let start = id as usize * bytes;
        vstd::slice::slice_subrange(self.codes.as_slice(), start, start + bytes)
    }

    /// The container of the given code vectors, one for each vector, in the
    /// order of their ids.
    ///
    /// Fails exactly when the code vectors are not what `train` produces.
    /// Otherwise `codes` holds the packed record of each vector, one behind
    /// the other, and `packed_codes` their block-transposed form where the
    /// codes have four bits.
    #[verifier::loop_isolation(false)]
    pub fn from_codes(train: Quantizer, encoded: &Vec<Vec<u8>>) -> (r: Result<
        Quantization,
        CreateError,
    >)
        ensures
            r is Ok <==> encoded_valid(train, rows(encoded@)),
            r matches Err(e) ==> e == CreateError::MalformedCodes,
            r matches Ok(q) ==> q.created_from(train, rows(encoded@)),
            r matches Ok(q) ==> forall|id: int|
                0 <= id < encoded.len() ==> #[trigger] q.spec_codes_of(id) == encoded@[id]@,
    {
        let ghost rs = rows(encoded@);
        let coded = train.coded();
        proof {
            train.lemma_wf();
        }
        if !coded {
            if encoded.len() > 0 {
                return Err(CreateError::MalformedCodes);
            }
            return Ok(Quantization { train, codes: Vec::new(), packed_codes: Vec::new() });
        }
        let bits = train.bits();
        let width = train.width();
        let n = encoded.len();
        if n > u32::MAX as usize {
            return Err(CreateError::MalformedCodes);
        }
        let mut codes: Vec<u8> = Vec::new();
        let mut i: usize = 0;
        while i < n
            invariant
                rs == rows(encoded@),
                n == encoded.len(),
                i <= n,
                valid_bits(bits),
                forall|r: int|
                    0 <= r < i ==> (#[trigger] rs[r]).len() == width && codes_fit(bits, rs[r]),
                codes@ == packed_records(bits, rs, i as int),
            decreases n - i,
        {
            assert(rs[i as int] == encoded@[i as int]@);
            if encoded[i].len() != width as usize {
                return Err(CreateError::MalformedCodes);
            }
            match pack_codes(bits, &encoded[i]) {
                None => {
                    return Err(CreateError::MalformedCodes);
                },
                Some(record) => {
                    let mut record = record;
                    codes.append(&mut record);
                },
            }
            i += 1;
        }
        proof {
            lemma_created_artifacts(train, rs);
        }
        let packed_codes: Vec<u8> = if bits == 4 {
            pack(width, encoded).unwrap()
        } else {
            Vec::new()
        };
        let q = Quantization { train, codes, packed_codes };
        proof {
            assert forall|id: int| 0 <= id < encoded.len() implies #[trigger] q.spec_codes_of(id)
                == encoded@[id]@ by {
                q.lemma_stored_codes(train, rs, id);
                assert(rs[id] == encoded@[id]@);
            }
        }
        Ok(q)
    }

    /// The codes read from the record of a vector are the codes that the
    /// container was made from: unpacking undoes packing.
    pub proof fn lemma_stored_codes(self, train: Quantizer, vectors: Seq<Seq<u8>>, id: int)
        requires
            train.wf(),
            train.spec_coded(),
            encoded_valid(train, vectors),
            self.created_from(train, vectors),
            0 <= id < vectors.len(),
        ensures
            self.spec_codes_of(id) == vectors[id],
    {
        lemma_created_artifacts(train, vectors);
        let a = self.spec_codes_of(id);
        let b = vectors[id];
        train.lemma_wf();
        assert(a.len() == b.len());
        assert forall|i: int| 0 <= i < a.len() implies a[i] == b[i] by {
            assert(unpacked_code(
                train.spec_bits(),
                record_at(self.spec_codes(), train.spec_bytes(), id),
                i,
            ) == vectors[id][i]);
        }
        assert(a =~= b);
    }

    /// Trains a quantizer on `vectors` and makes the container of their
    /// codes. `fit` is asked for what training needs arithmetic for, and
    /// `encode` for the codes of every vector, in the order of the ids,
    /// where the quantizer stores codes.
    ///
    /// Fails with the error of the training exactly where `train_error`
    /// finds one. Otherwise it fails only where `fit` gave parameters that
    /// are not as many as the quantizer holds, or `encode` gave, for one of
    /// the vectors, codes that the quantizer does not produce. On success
    /// the container holds the trained quantizer and, for every vector,
    /// codes that `encode` gave for it.
    pub fn create<
        F: Fn(&Vec<Vec<Scalar>>) -> Vec<Scalar>,
        E: Fn(&Quantizer, &Vec<Scalar>) -> Vec<u8>,
    >(
        vector_options: VectorOptions,
        quantization_options: QuantizationOptions,
        vectors: &Vec<Vec<Scalar>>,
        fit: &F,
        encode: &E,
    ) -> (r: Result<Quantization, CreateError>)
        requires
            train_error(vector_options, quantization_options, rows(vectors@)) is None && (
            quantization_options is Product || quantization_options is RaBitQ) ==> fit.requires(
                (vectors,),
            ),
            forall|q: Quantizer, i: int|
                q.trained_from(vector_options, quantization_options, *vectors, *fit) && 0 <= i
                    < vectors.len() ==> #[trigger] encode.requires((&q, &vectors@[i])),
        ensures
            match train_error(vector_options, quantization_options, rows(vectors@)) {
                Some(e) => r matches Err(x) && x == CreateError::Train(e),
                None => match r {
                    Ok(q) => q.created_by(
                        vector_options,
                        quantization_options,
                        *vectors,
                        *fit,
                        *encode,
                    ),
                    Err(CreateError::Train(e)) => e == TrainError::MalformedParameters && (
                    quantization_options is Product || quantization_options is RaBitQ)
                        && misfitted_by(
                        *fit,
                        *vectors,
                        fitted_len(vector_options, quantization_options),
                    ),
                    Err(CreateError::MalformedCodes) => encode_failed(
                        vector_options,
                        quantization_options,
                        *vectors,
                        *fit,
                        *encode,
                    ),
                },
            },
    {
        let train = match Quantizer::train(vector_options, quantization_options, vectors, fit) {
            Ok(train) => train,
            Err(e) => {
                return Err(CreateError::Train(e));
            },
        };
        let ghost trained = train;
        let mut encoded: Vec<Vec<u8>> = Vec::new();
        if train.coded() {
            let mut i: usize = 0;
            while i < vectors.len()
                invariant
                    trained == train,
                    train.trained_from(vector_options, quantization_options, *vectors, *fit),
                    forall|q: Quantizer, i: int|
                        q.trained_from(vector_options, quantization_options, *vectors, *fit) && 0
                            <= i < vectors.len() ==> #[trigger] encode.requires((&q, &vectors@[i])),
                    i <= vectors.len(),
                    encoded.len() == i,
                    forall|t: int|
                        0 <= t < i ==> encode.ensures((&train, &vectors@[t]), #[trigger] encoded@[t]),
                decreases vectors.len() - i,
            {
                let codes = encode(&train, &vectors[i]);
                encoded.push(codes);
                i += 1;
            }
        }
        match Quantization::from_codes(train, &encoded) {
            Ok(q) => {
                proof {
                    assert(q.spec_train() == trained);
                    assert(rows(encoded@).len() == encoded.len());
                    assert(q.spec_len() == encoded.len());
                    assert forall|id: int| 0 <= id < q.spec_len() implies #[trigger] encoded_by(
                        *encode,
                        q.spec_train(),
                        vectors@[id],
                        q.spec_codes_of(id),
                    ) by {
                        let codes = encoded@[id];
                        assert(encode.ensures((&trained, &vectors@[id]), codes));
                        assert(codes@ == q.spec_codes_of(id));
                    }
                    assert(q.spec_all_codes() =~= rows(encoded@)) by {
                        assert forall|id: int| 0 <= id < encoded.len() implies q.spec_all_codes()[id]
                            == rows(encoded@)[id] by {
                            assert(encoded@[id]@ == q.spec_codes_of(id));
                        }
                    }
                }
                Ok(q)
            },
            Err(e) => {
                proof {
                    let rs = rows(encoded@);
                    assert(trained.spec_coded());
                    assert(!encoded_valid(trained, rs));
                    let id = choose|id: int|
                        0 <= id < rs.len() && !((#[trigger] rs[id]).len() == trained.spec_width()
                            && codes_fit(trained.spec_bits(), rs[id]));
                    assert(rs[id] == encoded@[id]@);
                    assert(encode.ensures((&trained, &vectors@[id]), encoded@[id]));
                    assert(malformed_by(*encode, trained, vectors@[id]));
                }
                Err(e)
            },
        }
    }

    /// The container that `create` makes: it holds the quantizer trained on
    /// the vectors, as many records as there are vectors where the
    /// quantizer stores codes and none where it does not, and in the record
    /// of every vector codes that `encode` gave for that vector; its
    /// artifacts are those made from these codes.
    pub open spec fn created_by<
        F: Fn(&Vec<Vec<Scalar>>) -> Vec<Scalar>,
        E: Fn(&Quantizer, &Vec<Scalar>) -> Vec<u8>,
    >(
        self,
        vector_options: VectorOptions,
        quantization_options: QuantizationOptions,
        vectors: Vec<Vec<Scalar>>,
        fit: F,
        encode: E,
    ) -> bool {
        &&& self.wf()
        &&& self.spec_train().trained_from(vector_options, quantization_options, vectors, fit)
        &&& self.spec_len() == if self.spec_train().spec_coded() {
            vectors.len() as int
        } else {
            0
        }
        &&& forall|id: int|
            0 <= id < self.spec_len() ==> #[trigger] encoded_by(
                encode,
                self.spec_train(),
                vectors@[id],
                self.spec_codes_of(id),
            )
        &&& self.created_from(self.spec_train(), self.spec_all_codes())
    }

    /// The codes of all vectors, in the order of their ids.
    pub open spec fn spec_all_codes(self) -> Seq<Seq<u8>> {
        Seq::new(self.spec_len() as nat, |id: int| self.spec_codes_of(id))
    }

    /// The container made from the given code vectors: its artifacts and
    /// what can be read from them.
    pub open spec fn created_from(self, train: Quantizer, vectors: Seq<Seq<u8>>) -> bool {
        &&& self.wf()
        &&& self.spec_train() == train
        &&& self.spec_codes() == if train.spec_coded() {
            packed_records(train.spec_bits(), vectors, vectors.len() as int)
        } else {
            Seq::empty()
        }
        &&& self.spec_packed_codes() == if train.spec_coded() && train.spec_bits() == 4 {
            packed_blocks(train.spec_width(), vectors)
        } else {
            Seq::empty()
        }
        &&& self.spec_len() == vectors.len()
    }

    /// Opens three artifacts as a container.
    ///
    /// Fails exactly when the artifacts do not fit together; the error is
    /// the first that `open_error` finds.
    #[verifier::loop_isolation(false)]
    pub fn open(train: Quantizer, codes: Vec<u8>, packed_codes: Vec<u8>) -> (r: Result<
        Quantization,
        OpenError,
    >)
        ensures
            match open_error(train, codes@, packed_codes@) {
                Some(e) => r == Err::<Quantization, OpenError>(e),
                None => r matches Ok(q) && q.wf() && q.spec_train() == train && q.spec_codes()
                    == codes@ && q.spec_packed_codes() == packed_codes@,
            },
    {
        let coded = train.coded();
        proof {
            train.lemma_wf();
        }
        if !coded {
            if codes.len() != 0 {
                return Err(OpenError::MalformedCodes);
            }
            if packed_codes.len() != 0 {
                return Err(OpenError::MalformedPackedCodes);
            }
            return Ok(Quantization { train, codes, packed_codes });
        }
        let bits = train.bits();
        let width = train.width();
        let bytes = train.bytes() as usize;
        if codes.len() % bytes != 0 {
            return Err(OpenError::MalformedCodes);
        }
        let n = codes.len() / bytes;
        if n > u32::MAX as usize {
            return Err(OpenError::MalformedCodes);
        }
        proof {
            lemma_codes_len(train, codes@);
        }
        if bits != 4 {
            if packed_codes.len() != 0 {
                return Err(OpenError::MalformedPackedCodes);
            }
            return Ok(Quantization { train, codes, packed_codes });
        }
        let blocks: usize = n / 32 + if n % 32 != 0 {
            1
        } else {
            0
        };
        assert(blocks * width <= 0x800_0000 * 0xFFFF_FFFF) by (nonlinear_arith)
            requires
                blocks <= 0x800_0000,
                width <= 0xFFFF_FFFF,
        ;
        let expected: u64 = blocks as u64 * width as u64 * 16;
        if packed_codes.len() as u64 != expected {
            return Err(OpenError::MalformedPackedCodes);
        }
        let mut block: usize = 0;
        while block < blocks
            invariant
                train.wf(),
                train.spec_coded(),
                bits == 4,
                bits == train.spec_bits(),
                width == train.spec_width(),
                bytes == train.spec_bytes(),
                bytes >= 1,
                width >= 1,
                codes_valid(train, codes@),
                n == vector_count(train, codes@),
                n <= u32::MAX,
                codes.len() == n * bytes,
                blocks == blocks_for(n as int),
                packed_codes.len() == blocks * width * 16,
                block <= blocks,
                forall|id: int, i: int|
                    0 <= id < 32 * block && 0 <= i < width ==> #[trigger] packed_code(
                        packed_codes@,
                        width as int,
                        id,
                        i,
                    ) == unpacked_code(4, record_at(codes@, bytes as int, stored_vector(n as int, id)), i),
            decreases blocks - block,
        {
            let mut slot: usize = 0;
            while slot < 32
                invariant
                    train.wf(),
                    train.spec_coded(),
                    bits == 4,
                    bits == train.spec_bits(),
                    width == train.spec_width(),
                    bytes == train.spec_bytes(),
                    bytes >= 1,
                    width >= 1,
                    codes_valid(train, codes@),
                    n == vector_count(train, codes@),
                    n <= u32::MAX,
                    codes.len() == n * bytes,
                    blocks == blocks_for(n as int),
                    packed_codes.len() == blocks * width * 16,
                    block < blocks,
                    slot <= 32,
                    forall|id: int, i: int|
                        0 <= id < 32 * block + slot && 0 <= i < width ==> #[trigger] packed_code(
                            packed_codes@,
                            width as int,
                            id,
                            i,
                        ) == unpacked_code(
                            4,
                            record_at(codes@, bytes as int, stored_vector(n as int, id)),
                            i,
                        ),
                decreases 32 - slot,
            {
                let id: usize = 32 * block + slot;
                let vector: usize = if id < n {
                    id
                } else {
                    n - 1
                };
                proof {
                    lemma_record_bounds(vector as int, n as int, bytes as int);
                }
                let start = vector * bytes;
                let record = vstd::slice::slice_subrange(codes.as_slice(), start, start + bytes);
                let mut i: u32 = 0;
                while i < width
                    invariant
                        bits == 4,
                        width >= 1,
                        bytes == record_bytes(width as int, 4),
                        blocks == blocks_for(n as int),
                        packed_codes.len() == blocks * width * 16,
                        block < blocks,
                        slot < 32,
                        id == 32 * block + slot,
                        vector == stored_vector(n as int, id as int),
                        record@ == record_at(codes@, bytes as int, vector as int),
                        record@.len() == bytes,
                        i <= width,
                        forall|t: int|
                            0 <= t < i ==> #[trigger] packed_code(
                                packed_codes@,
                                width as int,
                                id as int,
                                t,
                            ) == unpacked_code(4, record@, t),
                    decreases width - i,
                {
                    proof {
                        crate::fast_scan::lemma_packed_position_bound(
                            width as int,
                            blocks as int,
                            id as int,
                            i as int,
                        );
                        lemma_record_room(width as int, 4, i as int);
                    }
                    let a = read_packed_code(
                        packed_codes.as_slice(),
                        width,
                        block as u32,
                        slot as u32,
                        i,
                    );
                    let b = unpack_code(4, record, i as usize);
                    if a != b {
                        assert(packed_code(packed_codes@, width as int, id as int, i as int)
                            != unpacked_code(
                            4,
                            record_at(codes@, bytes as int, stored_vector(n as int, id as int)),
                            i as int,
                        ));
                        return Err(OpenError::MalformedPackedCodes);
                    }
                    i += 1;
                }
                slot += 1;
            }
            block += 1;
        }
        Ok(Quantization { train, codes, packed_codes })
    }
}

} // verus!
