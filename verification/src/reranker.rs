//! Rerankers: candidates leave nearest first, and exact distances are
//! computed only for those that leave.
//!
//! A reranker is drained by `pop`. Nothing is computed for a candidate
//! before it leaves, so a caller that stops early has paid for no more than
//! it took.

use crate::heap::{precedes, queue_of, sorted, Candidate, CandidateHeap};
use crate::lookup::{Distance, LookupTable};
use crate::packing::levels;
use crate::scalar::Scalar;
use crate::preprocessed::QuantizationPreprocessed;
use crate::container::Quantization;
use crate::quantizer::Quantizer;
use crate::query::{fails_with, QueryError};
use vstd::multiset::Multiset;
use vstd::prelude::*;

verus! {

/// A reranker over candidates that were scored before. The candidates
/// leave in the order of their approximate distances. The first `budget`
/// of them leave with the exact distance, the others with the approximate
/// one.
pub struct FlatReranker<R> {
    heap: CandidateHeap,
    rerank: R,
    budget: usize,
}

impl<R> FlatReranker<R> {
    /// The candidates that have not left, in the order in which they leave.
    pub closed spec fn spec_queue(self) -> Seq<Candidate> {
        self.heap.spec_queue()
    }

    /// The number of candidates that still leave with their exact distance.
    pub closed spec fn spec_budget(self) -> usize {
        self.budget
    }

    /// What computes the exact distance and the payload of a vector.
    pub closed spec fn spec_rerank(self) -> R {
        self.rerank
    }

    /// The exact distance can be asked for every candidate that has not
    /// left.
    pub open spec fn callable<P>(self) -> bool where R: Fn(u32) -> (Distance, P) {
        forall|k: int|
            0 <= k < self.spec_queue().len() ==> self.spec_rerank().requires(
                ((#[trigger] self.spec_queue()[k]).1,),
            )
    }

    /// The queue is sorted.
    pub proof fn lemma_sorted(self)
        ensures
            sorted(self.spec_queue()),
    {
        self.heap.lemma_queue();
    }

    /// A reranker over the given candidates.
    pub fn new(candidates: Vec<Candidate>, rerank: R, budget: usize) -> (r: FlatReranker<R>)
        ensures
            r.spec_queue() == queue_of(candidates@.to_multiset()),
            r.spec_budget() == budget,
            r.spec_rerank() == rerank,
    {
        FlatReranker { heap: CandidateHeap::from_vec(candidates), rerank, budget }
    }

    /// The number of candidates that have not left.
    pub fn len(&self) -> (n: usize)
        ensures
            n == self.spec_queue().len(),
    {
        proof {
            self.heap.lemma_queue();
        }
        self.heap.len()
    }

    /// Takes out the next candidate.
    ///
    /// Returns nothing exactly when no candidate is left. Otherwise the
    /// head of the queue leaves: the result holds its id, the payload that
    /// `rerank` gave for the id, and a distance, which is the one that
    /// `rerank` gave while the budget lasts, and after that the approximate
    /// distance of the candidate.
    pub fn pop<P>(&mut self) -> (r: Option<(Distance, u32, P)>) where R: Fn(u32) -> (Distance, P)
        requires
            old(self).callable::<P>(),
        ensures
            final(self).callable::<P>(),
            final(self).spec_rerank() == old(self).spec_rerank(),
            r is None <==> old(self).spec_queue().len() == 0,
            r is None ==> final(self).spec_queue() == old(self).spec_queue(),
            r is None ==> final(self).spec_budget() == old(self).spec_budget(),
            r matches Some(x) ==> popped(
                old(self).spec_queue()[0],
                old(self).spec_budget(),
                old(self).spec_rerank(),
                x,
            ),
            r is Some ==> final(self).spec_queue() == old(self).spec_queue().drop_first(),
            r is Some ==> final(self).spec_budget() == if old(self).spec_budget() > 0 {
                old(self).spec_budget() - 1
            } else {
                0
            },
    {
        proof {
            self.heap.lemma_queue();
        }
        match self.heap.pop() {
            None => None,
            Some(candidate) => {
                let (rough, u) = candidate;
                assert(old(self).spec_queue()[0] == candidate);
                assert(old(self).spec_rerank().requires((u,)));
                let (exact, payload) = (self.rerank)(u);
                assert(old(self).spec_rerank().ensures((u,), (exact, payload)));
                if self.budget > 0 {
                    self.budget = self.budget - 1;
                    Some((exact, u, payload))
                } else {
                    let out = (rough, u, payload);
                    assert(old(self).spec_rerank().ensures((candidate.1,), (exact, out.2)));
                    Some(out)
                }
            },
        }
    }

    /// Takes out all candidates that are left, in the order in which they
    /// leave.
    pub fn drain<P>(&mut self) -> (out: Vec<(Distance, u32, P)>) where R: Fn(u32) -> (Distance, P)
        requires
            old(self).callable::<P>(),
        ensures
            final(self).spec_queue().len() == 0,
            final(self).spec_rerank() == old(self).spec_rerank(),
            out.len() == old(self).spec_queue().len(),
            forall|k: int|
                0 <= k < out.len() ==> popped(
                    old(self).spec_queue()[k],
                    if k < old(self).spec_budget() {
                        (old(self).spec_budget() - k) as usize
                    } else {
                        0
                    },
                    old(self).spec_rerank(),
                    #[trigger] out@[k],
                ),
    {
        let mut out: Vec<(Distance, u32, P)> = Vec::new();
        let ghost queue = self.spec_queue();
        let ghost budget = self.spec_budget();
        loop
            invariant
                self.callable::<P>(),
                self.spec_rerank() == old(self).spec_rerank(),
                queue == old(self).spec_queue(),
                budget == old(self).spec_budget(),
                out.len() <= queue.len(),
                self.spec_queue() == queue.skip(out.len() as int),
                self.spec_budget() == if out.len() < budget {
                    (budget - out.len()) as usize
                } else {
                    0
                },
                forall|k: int|
                    0 <= k < out.len() ==> popped(
                        queue[k],
                        if k < budget {
                            (budget - k) as usize
                        } else {
                            0
                        },
                        self.spec_rerank(),
                        #[trigger] out@[k],
                    ),
            ensures
                self.spec_queue().len() == 0,
                self.spec_rerank() == old(self).spec_rerank(),
                out.len() == queue.len(),
                forall|k: int|
                    0 <= k < out.len() ==> popped(
                        queue[k],
                        if k < budget {
                            (budget - k) as usize
                        } else {
                            0
                        },
                        self.spec_rerank(),
                        #[trigger] out@[k],
                    ),
            decreases queue.len() - out.len(),
        {
            let ghost before = out@;
            let ghost held = self.spec_queue();
            match self.pop() {
                None => {
                    break ;
                },
                Some(x) => {
                    assert(held[0] == queue[out.len() as int]);
                    assert(held.drop_first() =~= queue.skip(out.len() + 1));
                    out.push(x);
                    assert forall|k: int| 0 <= k < out.len() implies popped(
                        queue[k],
                        if k < budget {
                            (budget - k) as usize
                        } else {
                            0
                        },
                        self.spec_rerank(),
                        #[trigger] out@[k],
                    ) by {
                        if k < before.len() {
                            assert(out@[k] == before[k]);
                        }
                    }
                },
            }
        }
        out
    }
}

/// What leaves a reranker for the candidate `head` at the budget `budget`:
/// the id of the candidate, the payload that `rerank` gave for it, and, as
/// the distance, what `rerank` gave if the budget is not spent, else the
/// approximate distance of the candidate.
pub open spec fn popped<P, R: Fn(u32) -> (Distance, P)>(
    head: Candidate,
    budget: usize,
    rerank: R,
    out: (Distance, u32, P),
) -> bool {
    &&& out.1 == head.1
    &&& budget > 0 ==> rerank.ensures((head.1,), (out.0, out.2))
    &&& budget == 0 ==> out.0 == head.0 && exists|exact: Distance|
        rerank.ensures((head.1,), (exact, out.2))
}

/// The number of candidates of a drain that leave with their exact
/// distance, once `k` have left.
pub open spec fn budget_left(budget: usize, k: int) -> usize {
    if k < budget {
        (budget - k) as usize
    } else {
        0
    }
}

/// A sorted queue is in the order of its distances.
pub proof fn lemma_sorted_distances(queue: Seq<Candidate>)
    requires
        sorted(queue),
    ensures
        forall|i: int, j: int| 0 <= i <= j < queue.len() ==> queue[i].0 <= queue[j].0,
{
    assert forall|i: int, j: int| 0 <= i <= j < queue.len() implies queue[i].0 <= queue[j].0 by {
        assert(precedes(queue[i], queue[j]));
    }
}

/// The order of what a drain gives.
///
/// The ids leave in the order of their approximate distances. Within the
/// budget every distance is the exact one; behind the budget the distances
/// are the approximate ones and never decrease. All distances together
/// never decrease exactly when the exact ones within the budget do not and
/// the last of them is no more than the first approximate one behind it.
pub proof fn lemma_drain_order<P, R: Fn(u32) -> (Distance, P)>(
    queue: Seq<Candidate>,
    budget: usize,
    rerank: R,
    out: Seq<(Distance, u32, P)>,
)
    requires
        sorted(queue),
        out.len() == queue.len(),
        forall|k: int|
            0 <= k < out.len() ==> popped(queue[k], budget_left(budget, k), rerank, #[trigger] out[k]),
    ensures
        forall|k: int| 0 <= k < out.len() ==> (#[trigger] out[k]).1 == queue[k].1,
        forall|i: int, j: int| 0 <= i <= j < queue.len() ==> queue[i].0 <= queue[j].0,
        forall|k: int|
            0 <= k < out.len() && k < budget ==> rerank.ensures(
                ((#[trigger] out[k]).1,),
                (out[k].0, out[k].2),
            ),
        forall|k: int| 0 <= k < out.len() && k >= budget ==> (#[trigger] out[k]).0 == queue[k].0,
        forall|i: int, j: int|
            budget <= i <= j < out.len() ==> (#[trigger] out[i]).0 <= (#[trigger] out[j]).0,
        (forall|i: int, j: int| 0 <= i <= j < out.len() ==> (#[trigger] out[i]).0 <= (
        #[trigger] out[j]).0) <==> ((forall|i: int, j: int|
            0 <= i <= j < out.len() && j < budget ==> (#[trigger] out[i]).0 <= (
            #[trigger] out[j]).0) && (0 < budget < out.len() ==> out[budget - 1].0
            <= queue[budget as int].0)),
{
    lemma_sorted_distances(queue);
    assert forall|k: int| 0 <= k < out.len() implies (#[trigger] out[k]).1 == queue[k].1 by {
        assert(popped(queue[k], budget_left(budget, k), rerank, out[k]));
    }
    assert forall|k: int| 0 <= k < out.len() && k < budget implies rerank.ensures(
        ((#[trigger] out[k]).1,),
        (out[k].0, out[k].2),
    ) by {
        assert(popped(queue[k], budget_left(budget, k), rerank, out[k]));
    }
    assert forall|k: int| 0 <= k < out.len() && k >= budget implies (#[trigger] out[k]).0
        == queue[k].0 by {
        assert(popped(queue[k], budget_left(budget, k), rerank, out[k]));
    }
    assert forall|i: int, j: int| budget <= i <= j < out.len() implies (#[trigger] out[i]).0 <= (
    #[trigger] out[j]).0 by {
        assert(out[i].0 == queue[i].0 && out[j].0 == queue[j].0);
    }
    let all = forall|i: int, j: int|
        0 <= i <= j < out.len() ==> (#[trigger] out[i]).0 <= (#[trigger] out[j]).0;
    let within = forall|i: int, j: int|
        0 <= i <= j < out.len() && j < budget ==> (#[trigger] out[i]).0 <= (#[trigger] out[j]).0;
    let seam = 0 < budget < out.len() ==> out[budget - 1].0 <= queue[budget as int].0;
    if all {
        if 0 < budget < out.len() {
            assert(out[budget - 1].0 <= out[budget as int].0);
            assert(out[budget as int].0 == queue[budget as int].0);
        }
    }
    if within && seam {
        assert forall|i: int, j: int| 0 <= i <= j < out.len() implies (#[trigger] out[i]).0 <= (
        #[trigger] out[j]).0 by {
            if j < budget {
            } else if i >= budget {
            } else {
                assert(out[i].0 <= out[budget - 1].0);
                assert(out[budget as int].0 <= out[j].0);
                assert(out[budget as int].0 == queue[budget as int].0);
            }
        }
    }
}

/// A reranker for a search that finds its candidates as it goes. A
/// candidate is scored when it is put in: by the lookup table on its stored
/// codes, or, where the quantizer stores no codes, by its exact distance.
/// Candidates leave in the order of those scores, each with the exact
/// distance.
pub struct GraphReranker<'a, R> {
    quantization: &'a Quantization,
    table: Option<LookupTable>,
    rerank: R,
    heap: CandidateHeap,
}

impl<'a, R> GraphReranker<'a, R> {
    /// The container whose vectors are candidates.
    pub closed spec fn spec_quantization(self) -> Quantization {
        *self.quantization
    }

    /// The lookup table that scores candidates, where the quantizer stores
    /// codes.
    pub closed spec fn spec_table(self) -> Option<LookupTable> {
        self.table
    }

    /// What computes the exact distance and the payload of a vector.
    pub closed spec fn spec_rerank(self) -> R {
        self.rerank
    }

    /// The candidates that have not left.
    pub closed spec fn spec_held(self) -> Multiset<Candidate> {
        self.heap@
    }

    /// The candidates that have not left, in the order in which they leave.
    pub open spec fn spec_queue(self) -> Seq<Candidate> {
        queue_of(self.spec_held())
    }

    /// The exact distance can be asked for every candidate that has not
    /// left.
    pub open spec fn callable<P>(self) -> bool where R: Fn(u32) -> (Distance, P) {
        forall|c: Candidate| #[trigger]
            self.spec_held().contains(c) ==> self.spec_rerank().requires((c.1,))
    }

    /// The queue is sorted and holds the candidates that have not left.
    pub proof fn lemma_queue(self)
        ensures
            sorted(self.spec_queue()),
            self.spec_queue().to_multiset() == self.spec_held(),
            self.spec_queue().len() == self.spec_held().len(),
    {
        self.heap.lemma_queue();
    }

    /// A reranker without candidates.
    pub fn new(quantization: &'a Quantization, table: Option<LookupTable>, rerank: R) -> (r:
        GraphReranker<'a, R>)
        ensures
            r.spec_quantization() == *quantization,
            r.spec_table() == table,
            r.spec_rerank() == rerank,
            r.spec_held() == Multiset::<Candidate>::empty(),
    {
        GraphReranker { quantization, table, rerank, heap: CandidateHeap::new() }
    }

    /// Puts the vector `u` among the candidates.
    ///
    /// With a lookup table the candidate is scored as the table scores the
    /// stored codes of `u`; this fails, and no candidate is added, exactly
    /// when that scoring fails. Without a table the candidate is scored by
    /// the distance that `rerank` gives for `u`.
    pub fn push<P>(&mut self, u: u32) -> (r: Result<(), QueryError>) where
        R: Fn(u32) -> (Distance, P),

        requires
            old(self).callable::<P>(),
            old(self).spec_rerank().requires((u,)),
        ensures
            final(self).callable::<P>(),
            final(self).spec_rerank() == old(self).spec_rerank(),
            final(self).spec_table() == old(self).spec_table(),
            final(self).spec_quantization() == old(self).spec_quantization(),
            match old(self).spec_table() {
                Some(t) => match old(self).spec_quantization().table_outcome(t, u) {
                    Ok(d) => r is Ok && final(self).spec_held() == old(self).spec_held().insert(
                        (d, u),
                    ),
                    Err(e) => fails_with(r, e) && final(self).spec_held() == old(self).spec_held(),
                },
                None => r is Ok && exists|d: Distance, p: P|
                    old(self).spec_rerank().ensures((u,), (d, p)) && final(self).spec_held()
                        == old(self).spec_held().insert((d, u)),
            },
    {
        broadcast use vstd::multiset::group_multiset_axioms;

        match &self.table {
            Some(t) => {
                match self.quantization.process_table(t, u) {
                    Ok(d) => {
                        self.heap.push((d, u));
                        proof {
                            let before = old(self).spec_held();
                            assert forall|c: Candidate| #[trigger]
                                self.spec_held().contains(c) implies self.spec_rerank().requires(
                                (c.1,),
                            ) by {
                                if c != (d, u) {
                                    assert(before.insert((d, u)).count(c) == before.count(c));
                                    assert(before.contains(c));
                                }
                            }
                        }
                        Ok(())
                    },
                    Err(e) => Err(e),
                }
            },
            None => {
                let (d, p) = (self.rerank)(u);
                self.heap.push((d, u));
                proof {
                    let before = old(self).spec_held();
                    assert forall|c: Candidate| #[trigger]
                        self.spec_held().contains(c) implies self.spec_rerank().requires((c.1,)) by {
                        if c != (d, u) {
                            assert(before.insert((d, u)).count(c) == before.count(c));
                            assert(before.contains(c));
                        }
                    }
                    let f = old(self).spec_rerank();
                    assert(f.ensures((u,), (d, p)) && self.spec_held() == old(
                        self,
                    ).spec_held().insert((d, u)));
                }
                Ok(())
            },
        }
    }

    /// Takes out the candidate that was scored nearest.
    ///
    /// Returns nothing exactly when no candidate is left. Otherwise the
    /// head of the queue leaves, with the distance and the payload that
    /// `rerank` gives for its id.
    pub fn pop<P>(&mut self) -> (r: Option<(Distance, u32, P)>) where R: Fn(u32) -> (Distance, P)
        requires
            old(self).callable::<P>(),
        ensures
            final(self).callable::<P>(),
            final(self).spec_rerank() == old(self).spec_rerank(),
            final(self).spec_table() == old(self).spec_table(),
            final(self).spec_quantization() == old(self).spec_quantization(),
            r is None <==> old(self).spec_held().len() == 0,
            r is None ==> final(self).spec_held() == old(self).spec_held(),
            r matches Some(x) ==> old(self).spec_queue().len() > 0 && x.1 == old(
                self,
            ).spec_queue()[0].1 && old(self).spec_rerank().ensures((x.1,), (x.0, x.2)),
            r is Some ==> final(self).spec_held() == old(self).spec_held().remove(
                old(self).spec_queue()[0],
            ) && final(self).spec_queue() == old(self).spec_queue().drop_first(),
    {
        broadcast use vstd::multiset::group_multiset_axioms;

        match self.heap.pop() {
            None => None,
            Some(candidate) => {
                let (rough, u) = candidate;
                assert(old(self).spec_held().contains(candidate));
                proof {
                    let before = old(self).spec_held();
                    assert forall|c: Candidate| #[trigger]
                        self.spec_held().contains(c) implies self.spec_rerank().requires((c.1,)) by {
                        assert(before.remove(candidate).count(c) <= before.count(c));
                        assert(before.contains(c));
                    }
                }
                let (exact, payload) = (self.rerank)(u);
                Some((exact, u, payload))
            },
        }
    }
}

impl Quantization {
    /// The number of candidates that a flat reranker of this container
    /// gives their exact distance: none for the trivial quantizer, whose
    /// distances are exact already; `sq_rerank_size` for the scalar and
    /// `pq_rerank_size` for the product quantizer.
    pub open spec fn flat_budget(self, sq_rerank_size: u32, pq_rerank_size: u32) -> usize {
        match self.spec_train() {
            Quantizer::Scalar(_) => sq_rerank_size as usize,
            Quantizer::Product(_) => pq_rerank_size as usize,
            _ => 0,
        }
    }

    /// A reranker over the candidates of `heap`, with the budget of the
    /// quantizer; `r` gives the exact distance and the payload of a vector.
    ///
    /// Fails with `UnsupportedVariant` exactly on the quantizer that
    /// rotates vectors.
    pub fn flat_rerank<P, R: Fn(u32) -> (Distance, P)>(
        &self,
        heap: Vec<Candidate>,
        r: R,
        sq_rerank_size: u32,
        pq_rerank_size: u32,
    ) -> (out: Result<FlatReranker<R>, QueryError>)
        ensures
            self.spec_train() is RaBitQ ==> fails_with(out, QueryError::UnsupportedVariant),
            !(self.spec_train() is RaBitQ) ==> (out matches Ok(x) && x.spec_queue() == queue_of(
                heap@.to_multiset(),
            ) && x.spec_rerank() == r && x.spec_budget() == self.flat_budget(
                sq_rerank_size,
                pq_rerank_size,
            )),
    {
        match self.train() {
            Quantizer::Trivial(_) => Ok(FlatReranker::new(heap, r, 0)),
            Quantizer::Scalar(_) => Ok(FlatReranker::new(heap, r, sq_rerank_size as usize)),
            Quantizer::Product(_) => Ok(FlatReranker::new(heap, r, pq_rerank_size as usize)),
            _ => Err(QueryError::UnsupportedVariant),
        }
    }

    /// A reranker over candidates that a coarse index scored, for the
    /// quantizer that rotates vectors: every candidate leaves with its exact
    /// distance.
    ///
    /// Fails with `UnsupportedVariant` exactly on the other quantizers.
    pub fn ivf_projection_rerank<P, R: Fn(u32) -> (Distance, P)>(
        &self,
        rough_distances: Vec<Candidate>,
        r: R,
    ) -> (out: Result<FlatReranker<R>, QueryError>)
        ensures
            !(self.spec_train() is RaBitQ) ==> fails_with(out, QueryError::UnsupportedVariant),
            self.spec_train() is RaBitQ ==> (out matches Ok(x) && x.spec_queue() == queue_of(
                rough_distances@.to_multiset(),
            ) && x.spec_rerank() == r && x.spec_budget() == rough_distances.len()),
    {
        match self.train() {
            Quantizer::RaBitQ(_) => {
                let budget = rough_distances.len();
                Ok(FlatReranker::new(rough_distances, r, budget))
            },
            _ => Err(QueryError::UnsupportedVariant),
        }
    }

    /// The reranker that `graph_rerank` makes for a query: it has no
    /// candidates; for the trivial quantizer it has no table, and for the
    /// scalar and the product quantizer a table built from `contribution`.
    pub open spec fn graph_ready<'a, F: Fn(u32, u8) -> u32, R>(
        self,
        reranker: GraphReranker<'a, R>,
        contribution: F,
        r: R,
    ) -> bool {
        &&& reranker.spec_quantization() == self
        &&& reranker.spec_rerank() == r
        &&& reranker.spec_held() == Multiset::<Candidate>::empty()
        &&& match reranker.spec_table() {
            Some(t) => self.spec_train().spec_coded() && self.table_built(t, contribution),
            None => self.spec_train() is Trivial,
        }
    }

    /// A reranker without candidates for a search that finds them as it
    /// goes. The query `vector` is prepared as `preprocess` prepares it,
    /// with `contribution`; `r` gives the exact distance and the payload of
    /// a vector.
    ///
    /// Fails with `UnsupportedVariant` exactly on the quantizer that rotates
    /// vectors, and otherwise with `DimensionMismatch` exactly when
    /// `vector` has not the dimensions of the quantizer. Otherwise the
    /// reranker scores candidates by the lookup table of the query, and by
    /// `r` for the trivial quantizer.
    pub fn graph_rerank<'a, P, F: Fn(u32, u8) -> u32, R: Fn(u32) -> (Distance, P)>(
        &'a self,
        vector: &Vec<Scalar>,
        contribution: &F,
        r: R,
    ) -> (out: Result<GraphReranker<'a, R>, QueryError>)
        requires
            forall|position: u32, code: u8|
                position < self.spec_train().spec_width() && code < levels(
                    self.spec_train().spec_bits(),
                ) ==> #[trigger] contribution.requires((position, code)),
        ensures
            self.spec_train() is RaBitQ ==> fails_with(out, QueryError::UnsupportedVariant),
            !(self.spec_train() is RaBitQ) && vector.len() != self.spec_train().spec_dims()
                ==> fails_with(out, QueryError::DimensionMismatch),
            !(self.spec_train() is RaBitQ) && vector.len() == self.spec_train().spec_dims() ==> (
            out matches Ok(x) && self.graph_ready(x, *contribution, r)),
    {
        match self.preprocess(vector, contribution) {
            Ok(QuantizationPreprocessed::Trivial(_)) => Ok(GraphReranker::new(self, None, r)),
            Ok(QuantizationPreprocessed::Scalar(t)) => Ok(GraphReranker::new(self, Some(t), r)),
            Ok(QuantizationPreprocessed::Product(t)) => Ok(GraphReranker::new(self, Some(t), r)),
            Ok(QuantizationPreprocessed::RaBit(_)) => Err(QueryError::UnsupportedVariant),
            Err(e) => Err(e),
        }
    }
}

} // verus!
