//! Queries against a container: preparing a query and scoring vectors.

use crate::fast_scan::{block_codes, blocks_for, packed_code, scan_block};
use crate::heap::Candidate;
use crate::lookup::{lemma_score_bound, lemma_score_same_entries, Distance, LookupTable};
use crate::packing::{levels, unpacked_code, unpacked_codes};
use crate::preprocessed::{QuantizationPreprocessed, RaBitQuantizationPreprocessed};
use crate::container::{open_error, stored_vector, vector_count, Quantization};
use crate::quantizer::Quantizer;
use crate::scalar::Scalar;
use core::ops::Range;
use vstd::prelude::*;

verus! {

/// Why a query could not be answered.
#[derive(Clone, Copy, Debug, PartialEq, Eq, Structural)]
pub enum QueryError {
    /// The quantizer of the container is of a kind that cannot do this.
    UnsupportedVariant,
    /// The query was prepared for a quantizer of another kind.
    TagMismatch,
    /// The query, or its lookup table, has not the shape of the quantizer.
    DimensionMismatch,
    /// An id is not that of a vector of the container.
    OutOfRange,
}

/// The result is the failure `error`.
pub open spec fn fails_with<V>(r: Result<V, QueryError>, error: QueryError) -> bool {
    r matches Err(e) && e == error
}

impl Quantization {
    /// Whether a query was prepared for a quantizer of the kind that the
    /// container holds.
    pub open spec fn tags_match(self, preprocessed: QuantizationPreprocessed) -> bool {
        match (self.spec_train(), preprocessed) {
            (Quantizer::Trivial(_), QuantizationPreprocessed::Trivial(_)) => true,
            (Quantizer::Scalar(_), QuantizationPreprocessed::Scalar(_)) => true,
            (Quantizer::Product(_), QuantizationPreprocessed::Product(_)) => true,
            (Quantizer::RaBitQ(_), QuantizationPreprocessed::RaBit(_)) => true,
            _ => false,
        }
    }

    /// Whether a lookup table has the shape of the codes of the container.
    pub open spec fn table_fits(self, table: LookupTable) -> bool {
        &&& table.spec_width() == self.spec_train().spec_width()
        &&& table.spec_bits() == self.spec_train().spec_bits()
    }

    /// The distance that a lookup table gives vector `id`: the sum of what
    /// it gives for the codes of the vector.
    pub open spec fn spec_score(self, table: LookupTable, id: int) -> Distance {
        table.spec_score(self.spec_codes_of(id)) as u64
    }

    /// Whether a table was built from `contribution` for the codes of the
    /// container: every entry is what `contribution` gave for its position
    /// and code.
    pub open spec fn table_built<F: Fn(u32, u8) -> u32>(
        self,
        table: LookupTable,
        contribution: F,
    ) -> bool {
        &&& table.wf()
        &&& self.table_fits(table)
        &&& forall|position: u32, code: u8|
            position < table.spec_width() && code < levels(table.spec_bits())
                ==> #[trigger] contribution.ensures(
                (position, code),
                table.spec_entry(position as int, code as int) as u32,
            )
    }

    /// Whether `preprocessed` is the query `lhs`, prepared for the
    /// quantizer of the container: the query itself for the trivial
    /// quantizer, a table built from `contribution` for the scalar and the
    /// product quantizer.
    pub open spec fn preprocessed_from<F: Fn(u32, u8) -> u32>(
        self,
        preprocessed: QuantizationPreprocessed,
        lhs: Seq<Scalar>,
        contribution: F,
    ) -> bool {
        match (self.spec_train(), preprocessed) {
            (Quantizer::Trivial(_), QuantizationPreprocessed::Trivial(q)) => q@ == lhs,
            (Quantizer::Scalar(_), QuantizationPreprocessed::Scalar(t)) => self.table_built(
                t,
                contribution,
            ),
            (Quantizer::Product(_), QuantizationPreprocessed::Product(t)) => self.table_built(
                t,
                contribution,
            ),
            _ => false,
        }
    }

    /// Prepares the query `lhs`.
    ///
    /// For the trivial quantizer the prepared query is `lhs` itself. For
    /// the scalar and the product quantizer it is a lookup table, and
    /// `contribution` is asked, once for each position and code, what that
    /// code at that position adds to the distance from `lhs`.
    ///
    /// Fails with `UnsupportedVariant` exactly on the quantizer that rotates
    /// vectors, and otherwise with `DimensionMismatch` exactly when `lhs`
    /// has not the dimensions of the quantizer.
    pub fn preprocess<F: Fn(u32, u8) -> u32>(&self, lhs: &Vec<Scalar>, contribution: &F) -> (r:
        Result<QuantizationPreprocessed, QueryError>)
        requires
            forall|position: u32, code: u8|
                position < self.spec_train().spec_width() && code < levels(
                    self.spec_train().spec_bits(),
                ) ==> #[trigger] contribution.requires((position, code)),
        ensures
            self.spec_train() is RaBitQ ==> fails_with(r, QueryError::UnsupportedVariant),
            !(self.spec_train() is RaBitQ) && lhs.len() != self.spec_train().spec_dims()
                ==> fails_with(r, QueryError::DimensionMismatch),
            !(self.spec_train() is RaBitQ) && lhs.len() == self.spec_train().spec_dims() ==> (r matches Ok(
                p,
            ) && self.preprocessed_from(p, lhs@, *contribution)),
    {
        let train = self.train();
        let dims = train.dims();
        proof {
            train.lemma_wf();
        }
        match train {
            Quantizer::RaBitQ(_) => Err(QueryError::UnsupportedVariant),
            Quantizer::Trivial(_) => {
                if lhs.len() != dims as usize {
                    return Err(QueryError::DimensionMismatch);
                }
                let query = lhs.clone();
                assert(query@ =~= lhs@);
                Ok(QuantizationPreprocessed::Trivial(query))
            },
            Quantizer::Scalar(x) => {
                if lhs.len() != dims as usize {
                    return Err(QueryError::DimensionMismatch);
                }
                let table = LookupTable::build(x.width(), x.bits(), contribution).unwrap();
                Ok(QuantizationPreprocessed::Scalar(table))
            },
            Quantizer::Product(x) => {
                if lhs.len() != dims as usize {
                    return Err(QueryError::DimensionMismatch);
                }
                let table = LookupTable::build(x.width(), x.bits(), contribution).unwrap();
                Ok(QuantizationPreprocessed::Product(table))
            },
        }
    }

    /// `out` is what `rotate` gave for the rotation of the quantizer and the
    /// vector `lhs`.
    pub open spec fn rotated_by<F: Fn(&Vec<Scalar>, &Vec<Scalar>) -> Vec<Scalar>>(
        self,
        rotate: F,
        lhs: Vec<Scalar>,
        out: Vec<Scalar>,
    ) -> bool {
        self.spec_train() matches Quantizer::RaBitQ(x) && rotate.ensures(
            (&x.spec_rotation_vec(), &lhs),
            out,
        )
    }

    /// `rotate` can be asked for the rotation of the quantizer and the
    /// vector `lhs`.
    pub open spec fn can_rotate<F: Fn(&Vec<Scalar>, &Vec<Scalar>) -> Vec<Scalar>>(
        self,
        rotate: F,
        lhs: Vec<Scalar>,
    ) -> bool {
        self.spec_train() matches Quantizer::RaBitQ(x) ==> rotate.requires(
            (&x.spec_rotation_vec(), &lhs),
        )
    }

    /// How rotating the vector `lhs` ends, for the quantizer that rotates:
    /// with what `rotate` gave, if that has the dimensions of the
    /// quantizer; else with `DimensionMismatch`.
    pub open spec fn rotation_outcome<F: Fn(&Vec<Scalar>, &Vec<Scalar>) -> Vec<Scalar>>(
        self,
        rotate: F,
        lhs: Vec<Scalar>,
        r: Result<Vec<Scalar>, QueryError>,
    ) -> bool {
        match r {
            Ok(v) => self.rotated_by(rotate, lhs, v) && v.len() == self.spec_train().spec_dims(),
            Err(e) => e == QueryError::DimensionMismatch && (lhs.len()
                != self.spec_train().spec_dims() || exists|v: Vec<Scalar>|
                self.rotated_by(rotate, lhs, v) && v.len() != self.spec_train().spec_dims()),
        }
    }

    /// How `project` ends: with `UnsupportedVariant` exactly on a quantizer
    /// that does not rotate, else with `DimensionMismatch` for a vector
    /// that has not the dimensions of the quantizer, else as
    /// `rotation_outcome` says.
    pub open spec fn project_outcome<F: Fn(&Vec<Scalar>, &Vec<Scalar>) -> Vec<Scalar>>(
        self,
        rotate: F,
        lhs: Vec<Scalar>,
        r: Result<Vec<Scalar>, QueryError>,
    ) -> bool {
        if !(self.spec_train() is RaBitQ) {
            fails_with(r, QueryError::UnsupportedVariant)
        } else if lhs.len() != self.spec_train().spec_dims() {
            fails_with(r, QueryError::DimensionMismatch)
        } else {
            self.rotation_outcome(rotate, lhs, r)
        }
    }

    /// Rotates a vector as the quantizer rotates the vectors it encodes;
    /// `rotate` is handed the rotation and the vector and does the
    /// arithmetic.
    ///
    /// Fails with `UnsupportedVariant` exactly on a quantizer that does not
    /// rotate, and otherwise with `DimensionMismatch` exactly when `lhs`, or
    /// what `rotate` gave for it, has not the dimensions of the quantizer.
    /// Otherwise the result is what `rotate` gave.
    pub fn project<F: Fn(&Vec<Scalar>, &Vec<Scalar>) -> Vec<Scalar>>(
        &self,
        lhs: &Vec<Scalar>,
        rotate: &F,
    ) -> (r: Result<Vec<Scalar>, QueryError>)
        requires
            lhs.len() == self.spec_train().spec_dims() ==> self.can_rotate(*rotate, *lhs),
        ensures
            self.project_outcome(*rotate, *lhs, r),
    {
        let train = self.train();
        let dims = train.dims();
        match train {
            Quantizer::RaBitQ(x) => {
                if lhs.len() != dims as usize {
                    return Err(QueryError::DimensionMismatch);
                }
                let rotated = rotate(x.rotation(), lhs);
                if rotated.len() != dims as usize {
                    assert(self.rotated_by(*rotate, *lhs, rotated));
                    return Err(QueryError::DimensionMismatch);
                }
                Ok(rotated)
            },
            _ => Err(QueryError::UnsupportedVariant),
        }
    }

    /// Prepares the query `lhs` for the quantizer that rotates vectors,
    /// where the caller knows the distance `distance` already; `rotate` does
    /// the arithmetic.
    ///
    /// Fails as `project` does. Otherwise the prepared query holds what
    /// `rotate` gave for `lhs`, and `distance`.
    pub fn projection_preprocess<F: Fn(&Vec<Scalar>, &Vec<Scalar>) -> Vec<Scalar>>(
        &self,
        lhs: &Vec<Scalar>,
        distance: Distance,
        rotate: &F,
    ) -> (r: Result<QuantizationPreprocessed, QueryError>)
        requires
            lhs.len() == self.spec_train().spec_dims() ==> self.can_rotate(*rotate, *lhs),
        ensures
            !(self.spec_train() is RaBitQ) ==> fails_with(r, QueryError::UnsupportedVariant),
            self.spec_train() is RaBitQ && lhs.len() != self.spec_train().spec_dims()
                ==> fails_with(r, QueryError::DimensionMismatch),
            self.spec_train() is RaBitQ ==> match r {
                Ok(p) => p matches QuantizationPreprocessed::RaBit(x) && x.distance == distance
                    && self.rotation_outcome(*rotate, *lhs, Ok(x.projected)),
                Err(e) => self.rotation_outcome(*rotate, *lhs, Err(e)),
            },
    {
        match self.project(lhs, rotate) {
            Ok(projected) => Ok(
                QuantizationPreprocessed::RaBit(RaBitQuantizationPreprocessed { projected, distance }),
            ),
            Err(e) => Err(e),
        }
    }

    /// What scoring vector `u` by a lookup table gives: `DimensionMismatch`
    /// for a table that has not the shape of the codes, else `OutOfRange`
    /// for an id that is not of the container, else the distance that the
    /// table gives the vector.
    pub open spec fn table_outcome(self, table: LookupTable, u: u32) -> Result<
        Distance,
        QueryError,
    > {
        if !self.table_fits(table) {
            Err(QueryError::DimensionMismatch)
        } else if u >= self.spec_len() {
            Err(QueryError::OutOfRange)
        } else {
            Ok(self.spec_score(table, u as int))
        }
    }

    /// How scoring vector `u` against a prepared query ends: with
    /// `TagMismatch` exactly when the query was prepared for a quantizer of
    /// another kind; for the scalar and the product quantizer as the lookup
    /// table decides on the stored codes of `u`; for the other two, which
    /// store no codes, with a distance that `raw` gave for `u`.
    pub open spec fn process_outcome<F: Fn(u32) -> Distance>(
        self,
        raw: F,
        preprocessed: QuantizationPreprocessed,
        u: u32,
        r: Result<Distance, QueryError>,
    ) -> bool {
        if !self.tags_match(preprocessed) {
            fails_with(r, QueryError::TagMismatch)
        } else {
            match preprocessed.spec_table() {
                Some(table) => r == self.table_outcome(table, u),
                None => r matches Ok(d) && raw.ensures((u,), d),
            }
        }
    }

    /// Scores vector `u` against a prepared query.
    ///
    /// Fails with `TagMismatch` exactly when the query was prepared for a
    /// quantizer of another kind. For the scalar and the product quantizer
    /// the outcome is that of the lookup table on the stored codes of `u`.
    /// For the other two, which store no codes, the distance is what `raw`
    /// gives for `u`.
    pub fn process<F: Fn(u32) -> Distance>(
        &self,
        raw: &F,
        preprocessed: &QuantizationPreprocessed,
        u: u32,
    ) -> (r: Result<Distance, QueryError>)
        requires
            self.tags_match(*preprocessed) && preprocessed.spec_table() is None ==> raw.requires(
                (u,),
            ),
        ensures
            self.process_outcome(*raw, *preprocessed, u, r),
    {
        match (self.train(), preprocessed) {
            (Quantizer::Trivial(_), QuantizationPreprocessed::Trivial(_)) => Ok(raw(u)),
            (Quantizer::Scalar(_), QuantizationPreprocessed::Scalar(lhs)) => self.process_table(
                lhs,
                u,
            ),
            (Quantizer::Product(_), QuantizationPreprocessed::Product(lhs)) => self.process_table(
                lhs,
                u,
            ),
            (Quantizer::RaBitQ(_), QuantizationPreprocessed::RaBit(_)) => Ok(raw(u)),
            _ => Err(QueryError::TagMismatch),
        }
    }

    /// Scores vector `u` by a lookup table, on its record in `codes`.
    pub fn process_table(&self, table: &LookupTable, u: u32) -> (r: Result<Distance, QueryError>)
        ensures
            r == self.table_outcome(*table, u),
    {
        let train = self.train();
        if table.width() != train.width() || table.bits() != train.bits() {
            return Err(QueryError::DimensionMismatch);
        }
        proof {
            table.lemma_wf();
        }
        if u >= self.len() {
            return Err(QueryError::OutOfRange);
        }
        let rhs = self.record(u);
        proof {
            lemma_score_bound(*table, self.spec_codes_of(u as int), table.spec_width() as int);
            assert(table.spec_width() * 0xFFFF_FFFF <= 0xFFFF_FFFF * 0xFFFF_FFFF) by (nonlinear_arith)
                requires
                    table.spec_width() <= 0xFFFF_FFFF,
            ;
        }
        Ok(table.score_record(rhs))
    }

    /// What is wrong with scoring the ids from `start` up to `end` against a
    /// prepared query, if anything: `TagMismatch` for a query prepared for a
    /// quantizer of another kind, else `UnsupportedVariant` for the
    /// quantizer that rotates vectors; for the scalar and the product
    /// quantizer `DimensionMismatch` for a table that has not the shape of
    /// the codes, else `OutOfRange` if there are ids and not all are of the
    /// container. Nothing is wrong for the trivial quantizer.
    pub open spec fn batch_error(
        self,
        preprocessed: QuantizationPreprocessed,
        start: u32,
        end: u32,
    ) -> Option<QueryError> {
        if !self.tags_match(preprocessed) {
            Some(QueryError::TagMismatch)
        } else if self.spec_train() is RaBitQ {
            Some(QueryError::UnsupportedVariant)
        } else {
            match preprocessed.spec_table() {
                None => None,
                Some(table) => if !self.table_fits(table) {
                    Some(QueryError::DimensionMismatch)
                } else if start < end && end > self.spec_len() {
                    Some(QueryError::OutOfRange)
                } else {
                    None
                },
            }
        }
    }

    /// `added` holds the ids from `start` up to `end`, in their order, each
    /// with a distance that `raw` gave for it.
    pub open spec fn raw_scores<F: Fn(u32) -> Distance>(
        raw: F,
        start: u32,
        end: u32,
        added: Seq<Candidate>,
    ) -> bool {
        &&& added.len() == if start < end {
            end - start
        } else {
            0
        }
        &&& forall|k: int|
            0 <= k < added.len() ==> (#[trigger] added[k]).1 == start + k && raw.ensures(
                (added[k].1,),
                added[k].0,
            )
    }

    /// What a batch that nothing is wrong with puts behind `before` to give
    /// `after`: for the scalar and the product quantizer the ids with the
    /// distances that the table gives them; for the trivial quantizer the
    /// ids with distances that `raw` gave.
    pub open spec fn batch_outcome<F: Fn(u32) -> Distance>(
        self,
        raw: F,
        preprocessed: QuantizationPreprocessed,
        start: u32,
        end: u32,
        before: Seq<Candidate>,
        after: Seq<Candidate>,
    ) -> bool {
        match preprocessed.spec_table() {
            Some(table) => after == before + self.batch_scores(table, start, end),
            None => before.len() <= after.len() && after.subrange(0, before.len() as int)
                == before && Self::raw_scores(
                raw,
                start,
                end,
                after.subrange(before.len() as int, after.len() as int),
            ),
        }
    }

    /// The ids from `start` up to `end`, each with the distance that the
    /// table gives it, in the order of the ids.
    pub open spec fn batch_scores(self, table: LookupTable, start: u32, end: u32) -> Seq<
        Candidate,
    > {
        if start < end {
            Seq::new(
                (end - start) as nat,
                |k: int| (self.spec_score(table, start + k), (start + k) as u32),
            )
        } else {
            Seq::empty()
        }
    }

    /// Scores the ids of `rhs` against a prepared query and puts them, each
    /// with its distance, behind what `heap` holds, in the order of the ids.
    /// An empty range adds nothing.
    ///
    /// For the trivial quantizer the distance of an id is what `raw` gives
    /// for it. For the scalar and the product quantizer it is what the
    /// lookup table gives the stored codes: with `sq_fast_scan` for the
    /// scalar quantizer, `pq_fast_scan` for the product quantizer, and
    /// codes of four bits, read from `packed_codes`, a block at a time;
    /// otherwise from `codes`, a vector at a time. What is put into `heap`
    /// is the same either way.
    ///
    /// Fails, and leaves `heap` as it was, exactly when `batch_error` finds
    /// something wrong.
    pub fn push_batch<F: Fn(u32) -> Distance>(
        &self,
        raw: &F,
        preprocessed: &QuantizationPreprocessed,
        rhs: Range<u32>,
        heap: &mut Vec<Candidate>,
        sq_fast_scan: bool,
        pq_fast_scan: bool,
    ) -> (r: Result<(), QueryError>)
        requires
            self.spec_train() is Trivial && self.tags_match(*preprocessed) ==> forall|u: u32|
                rhs.start <= u < rhs.end ==> raw.requires((u,)),
        ensures
            match self.batch_error(*preprocessed, rhs.start, rhs.end) {
                Some(e) => fails_with(r, e) && final(heap)@ == old(heap)@,
                None => r is Ok && self.batch_outcome(
                    *raw,
                    *preprocessed,
                    rhs.start,
                    rhs.end,
                    old(heap)@,
                    final(heap)@,
                ),
            },
    {
        match (self.train(), preprocessed) {
            (Quantizer::Trivial(_), QuantizationPreprocessed::Trivial(_)) => {
                push_batch_raw(raw, rhs.start, rhs.end, heap);
                Ok(())
            },
            (Quantizer::Scalar(_), QuantizationPreprocessed::Scalar(lhs)) => self.push_batch_table(
                lhs,
                rhs.start,
                rhs.end,
                heap,
                sq_fast_scan,
            ),
            (Quantizer::Product(_), QuantizationPreprocessed::Product(lhs)) => self.push_batch_table(
                lhs,
                rhs.start,
                rhs.end,
                heap,
                pq_fast_scan,
            ),
            (Quantizer::RaBitQ(_), QuantizationPreprocessed::RaBit(_)) => Err(
                QueryError::UnsupportedVariant,
            ),
            _ => Err(QueryError::TagMismatch),
        }
    }

    /// Scores the ids from `start` up to `end` by a lookup table and puts
    /// them behind what `heap` holds; with `fast_scan` and codes of four
    /// bits, from `packed_codes`.
    pub fn push_batch_table(
        &self,
        table: &LookupTable,
        start: u32,
        end: u32,
        heap: &mut Vec<Candidate>,
        fast_scan: bool,
    ) -> (r: Result<(), QueryError>)
        ensures
            !self.table_fits(*table) ==> fails_with(r, QueryError::DimensionMismatch)
                && final(heap)@ == old(heap)@,
            self.table_fits(*table) && start < end && end > self.spec_len() ==> fails_with(
                r,
                QueryError::OutOfRange,
            ) && final(heap)@ == old(heap)@,
            self.table_fits(*table) && !(start < end && end > self.spec_len()) ==> r is Ok
                && final(heap)@ == old(heap)@ + self.batch_scores(*table, start, end),
    {
        let train = self.train();
        let width = train.width();
        if table.width() != width || table.bits() != train.bits() {
            return Err(QueryError::DimensionMismatch);
        }
        proof {
            table.lemma_wf();
        }
        if start >= end {
            assert(heap@ + Seq::<Candidate>::empty() =~= heap@);
            return Ok(());
        }
        let n = self.len();
        if end > n {
            return Err(QueryError::OutOfRange);
        }
        if fast_scan && train.bits() == 4 {
            self.push_batch_packed(table, start, end, heap);
        } else {
            self.push_batch_codes(table, start, end, heap);
        }
        Ok(())
    }

    /// Scores the ids from `start` up to `end` on their records in `codes`,
    /// a vector at a time.
    fn push_batch_codes(&self, table: &LookupTable, start: u32, end: u32, heap: &mut Vec<Candidate>)
        requires
            self.spec_train().spec_coded(),
            self.table_fits(*table),
            start < end <= self.spec_len(),
        ensures
            final(heap)@ == old(heap)@ + self.batch_scores(*table, start, end),
    {
        let ghost scored = self.batch_scores(*table, start, end);
        let mut id = start;
        assert(heap@ =~= old(heap)@ + scored.subrange(0, 0));
        while id < end
            invariant
                self.spec_train().spec_coded(),
                self.table_fits(*table),
                start < end <= self.spec_len(),
                scored == self.batch_scores(*table, start, end),
                start <= id <= end,
                heap@ == old(heap)@ + scored.subrange(0, id - start),
            decreases end - id,
        {
            let rhs = self.record(id);
            proof {
                lemma_score_bound(*table, self.spec_codes_of(id as int), table.spec_width() as int);
                assert(table.spec_width() * 0xFFFF_FFFF <= 0xFFFF_FFFF * 0xFFFF_FFFF)
                    by (nonlinear_arith)
                    requires
                        table.spec_width() <= 0xFFFF_FFFF,
                ;
            }
            let distance = table.score_record(rhs);
            assert(scored[id - start] == (distance, id));
            let ghost before = heap@;
            heap.push((distance, id));
            assert(heap@ =~= old(heap)@ + scored.subrange(0, id + 1 - start)) by {
                assert(scored.subrange(0, id + 1 - start) =~= scored.subrange(0, id - start).push(
                    scored[id - start],
                ));
            }
            id += 1;
        }
        assert(scored.subrange(0, end - start) =~= scored);
    }

    /// Scores the ids from `start` up to `end` on `packed_codes`, a block
    /// at a time.
    fn push_batch_packed(&self, table: &LookupTable, start: u32, end: u32, heap: &mut Vec<Candidate>)
        requires
            self.spec_train().spec_coded(),
            self.spec_train().spec_bits() == 4,
            self.table_fits(*table),
            start < end <= self.spec_len(),
        ensures
            final(heap)@ == old(heap)@ + self.batch_scores(*table, start, end),
    {
        let ghost scored = self.batch_scores(*table, start, end);
        let ghost width = table.spec_width() as int;
        let packed = self.packed_codes().as_slice();
        let mut id = start;
        proof {
            use_type_invariant(self);
            self.lemma_packed_len();
            lemma_block_room(width, self.spec_len(), id as int);
        }
        let mut scores = scan_block(table, packed, id / 32);
        assert(heap@ =~= old(heap)@ + scored.subrange(0, 0));
        while id < end
            invariant
                self.wf(),
                self.spec_train().spec_coded(),
                self.spec_train().spec_bits() == 4,
                self.table_fits(*table),
                width == table.spec_width(),
                packed@ == self.spec_packed_codes(),
                packed@.len() == blocks_for(self.spec_len()) * width * 16,
                start < end <= self.spec_len(),
                scored == self.batch_scores(*table, start, end),
                start <= id <= end,
                heap@ == old(heap)@ + scored.subrange(0, id - start),
                scores.len() == 32,
                id < end ==> forall|slot: int|
                    0 <= slot < 32 ==> (#[trigger] scores@[slot]) == table.spec_score(
                        block_codes(packed@, width, 32 * (id / 32) + slot),
                    ),
            decreases end - id,
        {
            proof {
                self.lemma_fast_scan_codes(id as int);
                assert(32 * (id / 32) + id % 32 == id);
            }
            let distance = scores[(id % 32) as usize];
            assert(scored[id - start] == (distance, id));
            heap.push((distance, id));
            assert(heap@ =~= old(heap)@ + scored.subrange(0, id + 1 - start)) by {
                assert(scored.subrange(0, id + 1 - start) =~= scored.subrange(0, id - start).push(
                    scored[id - start],
                ));
            }
            id += 1;
            if id < end && id % 32 == 0 {
                proof {
                    lemma_block_room(width, self.spec_len(), id as int);
                }
                scores = scan_block(table, packed, id / 32);
            }
        }
        assert(scored.subrange(0, end - start) =~= scored);
    }

    /// The block-transposed codes of four-bit codes fill whole blocks.
    pub proof fn lemma_packed_len(self)
        requires
            self.wf(),
            self.spec_train().spec_coded(),
            self.spec_train().spec_bits() == 4,
        ensures
            self.spec_packed_codes().len() == blocks_for(self.spec_len())
                * self.spec_train().spec_width() * 16,
    {
        self.lemma_wf();
    }

    /// The codes of a vector read from `packed_codes` are its codes read
    /// from `codes`: scoring by the block-transposed layout and scoring by
    /// the records give one distance.
    pub proof fn lemma_fast_scan_codes(self, id: int)
        requires
            self.wf(),
            self.spec_train().spec_coded(),
            self.spec_train().spec_bits() == 4,
            0 <= id < self.spec_len(),
        ensures
            block_codes(self.spec_packed_codes(), self.spec_train().spec_width(), id)
                == self.spec_codes_of(id),
    {
        self.lemma_wf();
        let train = self.spec_train();
        train.lemma_wf();
        let n = vector_count(train, self.spec_codes());
        assert(stored_vector(n, id) == id);
        assert(0 <= id < 32 * blocks_for(n));
        let width = train.spec_width();
        let a = block_codes(self.spec_packed_codes(), width, id);
        let b = self.spec_codes_of(id);
        assert(a.len() == width && b.len() == width);
        assert forall|i: int| 0 <= i < width implies a[i] == b[i] by {
            assert(packed_code(self.spec_packed_codes(), width, id, i) == unpacked_code(
                4,
                self.spec_record(stored_vector(n, id)),
                i,
            ));
            assert(a[i] == packed_code(self.spec_packed_codes(), width, id, i) as u8);
            assert(b[i] == unpacked_code(4, self.spec_record(id), i) as u8);
        }
        assert(a =~= b);
    }
}

/// Scores the ids from `start` up to `end` by `raw` and puts them behind
/// what `heap` holds.
fn push_batch_raw<F: Fn(u32) -> Distance>(raw: &F, start: u32, end: u32, heap: &mut Vec<Candidate>)
    requires
        forall|u: u32| start <= u < end ==> raw.requires((u,)),
    ensures
        old(heap)@.len() <= final(heap)@.len(),
        final(heap)@.subrange(0, old(heap)@.len() as int) == old(heap)@,
        Quantization::raw_scores(
            *raw,
            start,
            end,
            final(heap)@.subrange(old(heap)@.len() as int, final(heap)@.len() as int),
        ),
{
    let ghost before = heap@;
    if start >= end {
        assert(heap@.subrange(0, before.len() as int) =~= before);
        return ;
    }
    let mut id = start;
    assert(heap@.subrange(0, before.len() as int) =~= before);
    while id < end
        invariant
            forall|u: u32| start <= u < end ==> raw.requires((u,)),
            before == old(heap)@,
            start <= id <= end,
            heap@.len() == before.len() + (id - start),
            heap@.subrange(0, before.len() as int) == before,
            forall|k: int|
                0 <= k < id - start ==> (#[trigger] heap@[before.len() + k]).1 == start + k
                    && raw.ensures((heap@[before.len() + k].1,), heap@[before.len() + k].0),
        decreases end - id,
    {
        let ghost held = heap@;
        let distance = raw(id);
        heap.push((distance, id));
        proof {
            assert(heap@.subrange(0, before.len() as int) =~= held.subrange(
                0,
                before.len() as int,
            ));
            assert forall|k: int| 0 <= k < id + 1 - start implies (#[trigger] heap@[before.len()
                + k]).1 == start + k && raw.ensures(
                (heap@[before.len() + k].1,),
                heap@[before.len() + k].0,
            ) by {
                if k < id - start {
                    assert(heap@[before.len() + k] == held[before.len() + k]);
                }
            }
        }
        id += 1;
    }
    proof {
        let added = heap@.subrange(before.len() as int, heap@.len() as int);
        assert forall|k: int| 0 <= k < added.len() implies (#[trigger] added[k]).1 == start + k
            && raw.ensures((added[k].1,), added[k].0) by {
            assert(added[k] == heap@[before.len() + k]);
        }
    }
}

/// A container can be opened again from its own artifacts, and what is
/// opened from the artifacts of a container scores every vector as that
/// container does.
pub proof fn lemma_round_trip(created: Quantization, opened: Quantization)
    requires
        created.wf(),
        opened.spec_train() == created.spec_train(),
        opened.spec_codes() == created.spec_codes(),
        opened.spec_packed_codes() == created.spec_packed_codes(),
    ensures
        open_error(created.spec_train(), created.spec_codes(), created.spec_packed_codes())
            is None,
        opened.spec_len() == created.spec_len(),
        forall|preprocessed: QuantizationPreprocessed| #[trigger]
            opened.tags_match(preprocessed) == created.tags_match(preprocessed),
        forall|table: LookupTable, u: u32| #[trigger]
            opened.table_outcome(table, u) == created.table_outcome(table, u),
{
    created.lemma_wf();
}

/// Two tables built from one `contribution` for one container give every
/// vector one outcome, where `contribution` gives one value for one
/// position and code.
pub proof fn lemma_tables_agree<F: Fn(u32, u8) -> u32>(
    quantization: Quantization,
    contribution: F,
    a: LookupTable,
    b: LookupTable,
    u: u32,
)
    requires
        quantization.table_built(a, contribution),
        quantization.table_built(b, contribution),
        forall|position: u32, code: u8, x: u32, y: u32|
            contribution.ensures((position, code), x) && contribution.ensures((position, code), y)
                ==> x == y,
    ensures
        quantization.table_outcome(a, u) == quantization.table_outcome(b, u),
{
    let codes = quantization.spec_codes_of(u as int);
    let width = a.spec_width() as int;
    a.lemma_wf();
    assert forall|i: int| 0 <= i < width implies a.spec_entry(i, codes[i] as int) == b.spec_entry(
        i,
        codes[i] as int,
    ) by {
        let position = i as u32;
        let code = codes[i];
        assert(code == unpacked_code(a.spec_bits(), quantization.spec_record(u as int), i) as u8);
        assert(code < levels(a.spec_bits()));
        assert(contribution.ensures(
            (position, code),
            a.spec_entry(position as int, code as int) as u32,
        ));
        assert(contribution.ensures(
            (position, code),
            b.spec_entry(position as int, code as int) as u32,
        ));
    }
    lemma_score_same_entries(a, b, codes, width);
}

/// Preparing one query twice gives prepared queries that score every vector
/// alike, where `contribution` gives one value for one position and code:
/// two lookup tables give every vector one outcome, and two prepared
/// queries of the trivial quantizer are one query.
pub proof fn lemma_preprocess_twice<F: Fn(u32, u8) -> u32>(
    quantization: Quantization,
    lhs: Seq<Scalar>,
    contribution: F,
    first: QuantizationPreprocessed,
    second: QuantizationPreprocessed,
    u: u32,
)
    requires
        quantization.wf(),
        quantization.preprocessed_from(first, lhs, contribution),
        quantization.preprocessed_from(second, lhs, contribution),
        forall|position: u32, code: u8, a: u32, b: u32|
            contribution.ensures((position, code), a) && contribution.ensures((position, code), b)
                ==> a == b,
    ensures
        quantization.tags_match(first),
        quantization.tags_match(second),
        match (first, second) {
            (QuantizationPreprocessed::Trivial(a), QuantizationPreprocessed::Trivial(b)) => a@
                == b@,
            _ => first.spec_table() is Some && second.spec_table() is Some
                && quantization.table_outcome(first.spec_table().unwrap(), u)
                == quantization.table_outcome(second.spec_table().unwrap(), u),
        },
{
    if first.spec_table() is Some {
        lemma_tables_agree(
            quantization,
            contribution,
            first.spec_table().unwrap(),
            second.spec_table().unwrap(),
            u,
        );
    }
}

/// Scoring a vector gives one result: against two preparations of one
/// query, on a container and on what was opened from its artifacts, and
/// when asked again. This holds where `contribution` and `raw` give one
/// value for one argument.
pub proof fn lemma_process_twice<F: Fn(u32, u8) -> u32, G: Fn(u32) -> Distance>(
    created: Quantization,
    opened: Quantization,
    contribution: F,
    raw: G,
    first: QuantizationPreprocessed,
    second: QuantizationPreprocessed,
    u: u32,
    r1: Result<Distance, QueryError>,
    r2: Result<Distance, QueryError>,
)
    requires
        created.wf(),
        opened.spec_train() == created.spec_train(),
        opened.spec_codes() == created.spec_codes(),
        opened.spec_packed_codes() == created.spec_packed_codes(),
        created.tags_match(first) == opened.tags_match(second),
        created.tags_match(first) ==> (first.spec_table() matches Some(a) ==> created.table_built(
            a,
            contribution,
        )),
        opened.tags_match(second) ==> (second.spec_table() matches Some(b) ==> opened.table_built(
            b,
            contribution,
        )),
        forall|position: u32, code: u8, x: u32, y: u32|
            contribution.ensures((position, code), x) && contribution.ensures((position, code), y)
                ==> x == y,
        forall|x: Distance, y: Distance| raw.ensures((u,), x) && raw.ensures((u,), y) ==> x == y,
        created.process_outcome(raw, first, u, r1),
        opened.process_outcome(raw, second, u, r2),
    ensures
        r1 == r2,
{
    lemma_round_trip(created, opened);
    if created.tags_match(first) {
        match (first.spec_table(), second.spec_table()) {
            (Some(a), Some(b)) => {
                assert(created.table_built(b, contribution));
                lemma_tables_agree(created, contribution, a, b, u);
                assert(opened.table_outcome(b, u) == created.table_outcome(b, u));
            },
            _ => {},
        }
    }
}

/// Rotating a vector twice ends the same way, where `rotate` gives one
/// result for one argument: the rotation of a container does not change.
pub proof fn lemma_project_twice<F: Fn(&Vec<Scalar>, &Vec<Scalar>) -> Vec<Scalar>>(
    quantization: Quantization,
    rotate: F,
    lhs: Vec<Scalar>,
    first: Result<Vec<Scalar>, QueryError>,
    second: Result<Vec<Scalar>, QueryError>,
)
    requires
        quantization.project_outcome(rotate, lhs, first),
        quantization.project_outcome(rotate, lhs, second),
        forall|m: Vec<Scalar>, a: Vec<Scalar>, b: Vec<Scalar>|
            rotate.ensures((&m, &lhs), a) && rotate.ensures((&m, &lhs), b) ==> a@ == b@,
    ensures
        match (first, second) {
            (Ok(a), Ok(b)) => a@ == b@,
            (Err(a), Err(b)) => a == b,
            _ => false,
        },
{
}

/// The block of a vector lies inside the block-transposed bytes of `n`
/// vectors.
pub proof fn lemma_block_room(width: int, n: int, id: int)
    requires
        0 <= id < n,
        0 <= width,
    ensures
        (id / 32 + 1) * width * 16 <= blocks_for(n) * width * 16,
{
    let block = id / 32;
    let blocks = blocks_for(n);
    assert(block + 1 <= blocks);
    assert((block + 1) * width * 16 <= blocks * width * 16) by (nonlinear_arith)
        requires
            block + 1 <= blocks,
            0 <= width,
    ;
}

} // verus!
