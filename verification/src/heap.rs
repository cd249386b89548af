//! The candidate heap: scored vector ids, nearest first.
//!
//! Candidates are ordered by distance, the smaller first; of two candidates
//! at one distance the one with the larger id comes first.

use crate::lookup::Distance;
use vstd::multiset::Multiset;
use vstd::prelude::*;
use vstd::relations::{sorted_by, total_ordering};
use vstd::seq_lib::{
    lemma_sorted_unique, to_multiset_build, to_multiset_contains, to_multiset_remove,
    to_multiset_update,
};

verus! {

/// A scored vector id: its distance, then the id.
pub type Candidate = (Distance, u32);

/// `a` comes no later than `b` when candidates are drained.
pub open spec fn precedes(a: Candidate, b: Candidate) -> bool {
    a.0 < b.0 || (a.0 == b.0 && a.1 >= b.1)
}

/// Every candidate comes no later than those behind it.
pub open spec fn sorted(s: Seq<Candidate>) -> bool {
    forall|i: int, j: int| 0 <= i <= j < s.len() ==> precedes(s[i], s[j])
}

/// `c` is one of the candidates `held`, and none of them comes earlier.
pub open spec fn comes_first_of(c: Candidate, held: Multiset<Candidate>) -> bool {
    &&& held.contains(c)
    &&& forall|x: Candidate| held.contains(x) ==> precedes(c, x)
}

/// `c` is one of the candidates `held`, and none of them comes later.
pub open spec fn comes_last_of(c: Candidate, held: Multiset<Candidate>) -> bool {
    &&& held.contains(c)
    &&& forall|x: Candidate| held.contains(x) ==> precedes(x, c)
}

/// The candidates `held` in the order in which they leave: the one sorted
/// sequence that holds each of them as often as `held` does.
pub open spec fn queue_of(held: Multiset<Candidate>) -> Seq<Candidate> {
    choose|s: Seq<Candidate>| sorted(s) && s.to_multiset() == held
}

/// The order of candidates as a relation.
pub open spec fn precedes_relation() -> spec_fn(Candidate, Candidate) -> bool {
    |a: Candidate, b: Candidate| precedes(a, b)
}

/// The order of candidates is total: of two different candidates exactly
/// one comes first.
pub proof fn lemma_precedes_total()
    ensures
        total_ordering(precedes_relation()),
{
    let r = precedes_relation();
    assert forall|x: Candidate| #[trigger] r(x, x) by {}
    assert forall|x: Candidate, y: Candidate| #[trigger] r(x, y) && #[trigger] r(y, x) implies x
        == y by {}
    assert forall|x: Candidate, y: Candidate, z: Candidate| #[trigger]
        r(x, y) && #[trigger] r(y, z) implies r(x, z) by {}
    assert forall|x: Candidate, y: Candidate| #[trigger] r(x, y) || #[trigger] r(y, x) by {}
}

/// Two sorted sequences of the same candidates are one sequence.
pub proof fn lemma_sorted_same(a: Seq<Candidate>, b: Seq<Candidate>)
    requires
        sorted(a),
        sorted(b),
        a.to_multiset() == b.to_multiset(),
    ensures
        a == b,
{
    lemma_precedes_total();
    let r = precedes_relation();
    assert(sorted_by(a, r)) by {
        assert forall|i: int, j: int| 0 <= i < j < a.len() implies #[trigger] r(a[i], a[j]) by {
            assert(precedes(a[i], a[j]));
        }
    }
    assert(sorted_by(b, r)) by {
        assert forall|i: int, j: int| 0 <= i < j < b.len() implies #[trigger] r(b[i], b[j]) by {
            assert(precedes(b[i], b[j]));
        }
    }
    lemma_sorted_unique(a, b, r);
}

/// The candidates of a sequence have their queue: it is sorted and holds
/// the same candidates.
pub proof fn lemma_queue_of(s: Seq<Candidate>)
    ensures
        sorted(queue_of(s.to_multiset())),
        queue_of(s.to_multiset()).to_multiset() == s.to_multiset(),
        queue_of(s.to_multiset()).len() == s.len(),
        sorted(s) ==> queue_of(s.to_multiset()) == s,
{
    lemma_precedes_total();
    let r = precedes_relation();
    let t = s.sort_by(r);
    s.lemma_sort_by_ensures(r);
    assert(sorted(t)) by {
        assert forall|i: int, j: int| 0 <= i <= j < t.len() implies precedes(t[i], t[j]) by {
            if i < j {
                assert(r(t[i], t[j]));
            }
        }
    }
    assert(t.to_multiset() == s.to_multiset());
    let q = queue_of(s.to_multiset());
    assert(sorted(q) && q.to_multiset() == s.to_multiset());
    q.to_multiset_ensures();
    s.to_multiset_ensures();
    if sorted(s) {
        lemma_sorted_same(q, s);
    }
}

/// The candidate that comes first is the head of the queue, and the queue
/// without it is the queue of the others.
pub proof fn lemma_queue_pop(s: Seq<Candidate>, c: Candidate)
    requires
        comes_first_of(c, s.to_multiset()),
    ensures
        queue_of(s.to_multiset()).len() > 0,
        queue_of(s.to_multiset())[0] == c,
        queue_of(s.to_multiset().remove(c)) == queue_of(s.to_multiset()).drop_first(),
{
    let held = s.to_multiset();
    lemma_queue_of(s);
    let q = queue_of(held);
    q.to_multiset_ensures();
    to_multiset_contains(q, c);
    assert(q.contains(c));
    let i = choose|i: int| 0 <= i < q.len() && q[i] == c;
    assert(precedes(q[0], q[i]));
    to_multiset_contains(q, q[0]);
    assert(q.contains(q[0]));
    assert(held.contains(q[0]));
    assert(precedes(c, q[0]));
    assert(q[0] == c);
    let rest = q.drop_first();
    assert(rest =~= q.remove(0));
    to_multiset_remove(q, 0);
    assert(rest.to_multiset() == held.remove(c));
    assert(sorted(rest)) by {
        assert forall|i: int, j: int| 0 <= i <= j < rest.len() implies precedes(
            rest[i],
            rest[j],
        ) by {
            assert(precedes(q[i + 1], q[j + 1]));
        }
    }
    lemma_queue_of(rest);
}

/// `a` and `b` are in the order of a heap: with the nearest at the root,
/// `a` comes no later than `b`; with the farthest at the root, no earlier.
pub open spec fn ordered(nearest_first: bool, a: Candidate, b: Candidate) -> bool {
    if nearest_first {
        precedes(a, b)
    } else {
        precedes(b, a)
    }
}

/// The candidates at `(i - 1) / 2` and at `i` are in order.
pub open spec fn heap_edge(nearest_first: bool, s: Seq<Candidate>, i: int) -> bool {
    ordered(nearest_first, s[(i - 1) / 2], s[i])
}

/// The heap order: every candidate is in order with its parent.
pub open spec fn is_heap(nearest_first: bool, s: Seq<Candidate>) -> bool {
    forall|i: int| 0 < i < s.len() ==> #[trigger] heap_edge(nearest_first, s, i)
}

/// The heap order but for the edge above `hole`, whose children are already
/// in order with its parent.
spec fn heap_but_above(nearest_first: bool, s: Seq<Candidate>, hole: int) -> bool {
    &&& forall|i: int|
        0 < i < s.len() && i != hole ==> #[trigger] heap_edge(nearest_first, s, i)
    &&& forall|i: int|
        0 < i < s.len() && (i - 1) / 2 == hole && hole > 0 ==> ordered(
            nearest_first,
            s[(hole - 1) / 2],
            #[trigger] s[i],
        )
}

/// The heap order but for the edges below `hole`, whose children are already
/// in order with its parent.
spec fn heap_but_below(nearest_first: bool, s: Seq<Candidate>, hole: int) -> bool {
    &&& forall|i: int|
        0 < i < s.len() && (i - 1) / 2 != hole ==> #[trigger] heap_edge(nearest_first, s, i)
    &&& forall|i: int|
        0 < i < s.len() && (i - 1) / 2 == hole && hole > 0 ==> ordered(
            nearest_first,
            s[(hole - 1) / 2],
            #[trigger] s[i],
        )
}

/// In heap order the candidate at the root is in order with every other.
pub proof fn lemma_heap_root_first(nearest_first: bool, s: Seq<Candidate>, i: int)
    requires
        is_heap(nearest_first, s),
        0 <= i < s.len(),
    ensures
        ordered(nearest_first, s[0], s[i]),
    decreases i,
{
    if i > 0 {
        assert(heap_edge(nearest_first, s, i));
        lemma_heap_root_first(nearest_first, s, (i - 1) / 2);
    }
}

/// Whether `a` comes no later than `b`.
pub fn comes_first(a: Candidate, b: Candidate) -> (r: bool)
    ensures
        r == precedes(a, b),
{
    a.0 < b.0 || (a.0 == b.0 && a.1 >= b.1)
}

/// Whether `a` and `b` are in the order of a heap.
fn in_order(nearest_first: bool, a: Candidate, b: Candidate) -> (r: bool)
    ensures
        r == ordered(nearest_first, a, b),
{
    if nearest_first {
        comes_first(a, b)
    } else {
        comes_first(b, a)
    }
}

/// Exchanges two places of a vector.
fn exchange(items: &mut Vec<Candidate>, i: usize, j: usize)
    requires
        i < old(items).len(),
        j < old(items).len(),
    ensures
        final(items)@ == old(items)@.update(i as int, old(items)@[j as int]).update(
            j as int,
            old(items)@[i as int],
        ),
        final(items)@.to_multiset() == old(items)@.to_multiset(),
{
    let a = items[i];
    let b = items[j];
    proof {
        let s = items@;
        to_multiset_update(s, i as int, b);
        to_multiset_update(s.update(i as int, b), j as int, a);
        to_multiset_contains(s, a);
        to_multiset_contains(s, b);
        assert(s.contains(a));
        assert(s.contains(b));
        if i == j {
            assert(s.update(i as int, b).update(j as int, a).to_multiset() =~= s.to_multiset());
        } else {
            assert(s.update(i as int, b)[j as int] == b);
            assert(s.update(i as int, b).update(j as int, a).to_multiset() =~= s.to_multiset());
        }
    }
    items[i] = b;
    items[j] = a;
}

/// Moves the candidate at `start` up until it is in order with its parent.
fn sift_up(items: &mut Vec<Candidate>, start: usize, nearest_first: bool)
    requires
        start < old(items).len(),
        heap_but_above(nearest_first, old(items)@, start as int),
    ensures
        is_heap(nearest_first, final(items)@),
        final(items)@.to_multiset() == old(items)@.to_multiset(),
        final(items).len() == old(items).len(),
{
    let mut i = start;
    while i > 0
        invariant
            i < items.len(),
            items.len() == old(items).len(),
            heap_but_above(nearest_first, items@, i as int),
            items@.to_multiset() == old(items)@.to_multiset(),
        ensures
            is_heap(nearest_first, items@),
            items.len() == old(items).len(),
            items@.to_multiset() == old(items)@.to_multiset(),
        decreases i,
    {
        let parent = (i - 1) / 2;
        if in_order(nearest_first, items[parent], items[i]) {
            assert(heap_edge(nearest_first, items@, i as int));
            break ;
        }
        let ghost s = items@;
        exchange(items, parent, i);
        proof {
            let t = items@;
            assert forall|j: int| 0 < j < t.len() && j != parent implies #[trigger] heap_edge(nearest_first, t,
                j,
            ) by {
                if j != i {
                    assert(heap_edge(nearest_first, s, j));
                }
            }
            assert forall|j: int|
                0 < j < t.len() && (j - 1) / 2 == parent && parent > 0 implies ordered(nearest_first, 
                t[(parent - 1) / 2],
                #[trigger] t[j],
            ) by {
                assert(heap_edge(nearest_first, s, parent as int));
                if j != i {
                    assert(heap_edge(nearest_first, s, j));
                }
            }
        }
        i = parent;
    }
}

/// Moves the candidate at `start` down until it is in order with its
/// children.
fn sift_down(items: &mut Vec<Candidate>, start: usize, nearest_first: bool)
    requires
        start < old(items).len(),
        heap_but_below(nearest_first, old(items)@, start as int),
    ensures
        is_heap(nearest_first, final(items)@),
        final(items)@.to_multiset() == old(items)@.to_multiset(),
        final(items).len() == old(items).len(),
{
    let n = items.len();
    let mut i = start;
    while i < n / 2
        invariant
            n == items.len(),
            i < n,
            items.len() == old(items).len(),
            heap_but_below(nearest_first, items@, i as int),
            items@.to_multiset() == old(items)@.to_multiset(),
        ensures
            is_heap(nearest_first, items@),
            items.len() == old(items).len(),
            items@.to_multiset() == old(items)@.to_multiset(),
        decreases n - i,
    {
        let left = 2 * i + 1;
        let right = left + 1;
        let child = if right < n && in_order(nearest_first, items[right], items[left]) {
            right
        } else {
            left
        };
        let ghost s = items@;
        if in_order(nearest_first, items[i], items[child]) {
            assert forall|j: int| 0 < j < s.len() implies #[trigger] heap_edge(nearest_first, s, j) by {
                if (j - 1) / 2 == i {
                    assert(j == left || j == right);
                }
            }
            break ;
        }
        exchange(items, i, child);
        proof {
            let t = items@;
            assert forall|j: int| 0 < j < t.len() && (j - 1) / 2 != child implies #[trigger] heap_edge(nearest_first, t,
                j,
            ) by {
                if (j - 1) / 2 == i {
                    assert(j == left || j == right);
                } else if j == i {
                    assert(ordered(nearest_first, s[(i - 1) / 2], s[child as int]));
                } else {
                    assert(heap_edge(nearest_first, s, j));
                }
            }
            assert forall|j: int|
                0 < j < t.len() && (j - 1) / 2 == child && child > 0 implies ordered(nearest_first, 
                t[(child - 1) / 2],
                #[trigger] t[j],
            ) by {
                assert(heap_edge(nearest_first, s, j));
            }
        }
        i = child;
    }
    assert(is_heap(nearest_first, items@)) by {
        let s = items@;
        assert forall|j: int| 0 < j < s.len() implies #[trigger] heap_edge(nearest_first, s, j) by {
            if (j - 1) / 2 == i {
                assert(i >= n / 2 ==> false);
            }
        }
    }
}

/// Scored vector ids, of which the nearest leaves first.
pub struct CandidateHeap {
    items: Vec<Candidate>,
}

impl View for CandidateHeap {
    type V = Multiset<Candidate>;

    /// The candidates that the heap holds, each as often as it was put in.
    closed spec fn view(&self) -> Multiset<Candidate> {
        self.items@.to_multiset()
    }
}

impl CandidateHeap {
    /// The candidates stand in heap order.
    #[verifier::type_invariant]
    pub closed spec fn wf(self) -> bool {
        is_heap(true, self.items@)
    }

    /// The candidates in the order in which they leave.
    pub open spec fn spec_queue(self) -> Seq<Candidate> {
        queue_of(self@)
    }

    /// The queue is sorted and holds the candidates of the heap.
    pub proof fn lemma_queue(self)
        ensures
            sorted(self.spec_queue()),
            self.spec_queue().to_multiset() == self@,
            self.spec_queue().len() == self@.len(),
    {
        lemma_queue_of(self.items@);
        self.items@.to_multiset_ensures();
    }

    /// A heap without candidates.
    pub fn new() -> (heap: CandidateHeap)
        ensures
            heap.wf(),
            heap@ == Multiset::<Candidate>::empty(),
            heap.spec_queue() == Seq::<Candidate>::empty(),
    {
        let heap = CandidateHeap { items: Vec::new() };
        assert(heap.items@.to_multiset() =~= Multiset::<Candidate>::empty()) by {
            heap.items@.to_multiset_ensures();
            assert(heap.items@.to_multiset().len() == 0);
        }
        proof {
            lemma_queue_of(heap.items@);
            assert(heap.spec_queue() =~= Seq::<Candidate>::empty());
        }
        heap
    }

    /// The number of candidates.
    pub fn len(&self) -> (n: usize)
        ensures
            n == self@.len(),
    {
        proof {
            self.items@.to_multiset_ensures();
        }
        self.items.len()
    }

    /// Whether the heap holds no candidate.
    pub fn is_empty(&self) -> (r: bool)
        ensures
            r == (self@.len() == 0),
    {
        self.len() == 0
    }

    /// Puts a candidate into the heap.
    pub fn push(&mut self, candidate: Candidate)
        ensures
            final(self).wf(),
            final(self)@ == old(self)@.insert(candidate),
    {
        proof {
            use_type_invariant(&*self);
        }
        let mut items: Vec<Candidate> = Vec::new();
        core::mem::swap(&mut self.items, &mut items);
        let ghost before = items@;
        items.push(candidate);
        proof {
            to_multiset_build(before, candidate);
            let s = items@;
            assert forall|i: int| 0 < i < s.len() && i != s.len() - 1 implies #[trigger] heap_edge(true, s,
                i,
            ) by {
                assert(heap_edge(true, before, i));
            }
        }
        let last = items.len() - 1;
        sift_up(&mut items, last, true);
        self.items = items;
    }

    /// The candidate that leaves next, if there is one: a candidate of the
    /// heap that comes no later than any other.
    pub fn peek(&self) -> (r: Option<Candidate>)
        ensures
            r is None <==> self@.len() == 0,
            r matches Some(c) ==> comes_first_of(c, self@) && self.spec_queue().len() > 0
                && self.spec_queue()[0] == c,
    {
        proof {
            use_type_invariant(self);
            self.items@.to_multiset_ensures();
        }
        if self.items.len() == 0 {
            None
        } else {
            let c = self.items[0];
            proof {
                let s = self.items@;
                assert(s.contains(c));
                assert forall|x: Candidate| self@.contains(x) implies precedes(c, x) by {
                    to_multiset_contains(s, x);
                    let i = choose|i: int| 0 <= i < s.len() && s[i] == x;
                    lemma_heap_root_first(true, s, i);
                }
                lemma_queue_pop(s, c);
            }
            Some(c)
        }
    }

    /// Takes out the candidate that comes first.
    ///
    /// Returns nothing exactly when the heap is empty. Otherwise the result
    /// is a candidate of the heap that comes no later than any other, and
    /// the heap holds it once less.
    pub fn pop(&mut self) -> (r: Option<Candidate>)
        ensures
            final(self).wf(),
            r is None <==> old(self)@.len() == 0,
            r is None ==> final(self)@ == old(self)@,
            r matches Some(c) ==> comes_first_of(c, old(self)@) && final(self)@ == old(
                self,
            )@.remove(c),
            r matches Some(c) ==> old(self).spec_queue().len() > 0 && old(self).spec_queue()[0]
                == c && final(self).spec_queue() == old(self).spec_queue().drop_first(),
    {
        proof {
            use_type_invariant(&*self);
            self.items@.to_multiset_ensures();
        }
        if self.items.len() == 0 {
            return None;
        }
        let mut items: Vec<Candidate> = Vec::new();
        core::mem::swap(&mut self.items, &mut items);
        let ghost s = items@;
        let first = items[0];
        proof {
            assert(s.contains(first));
            assert forall|x: Candidate| s.to_multiset().contains(x) implies precedes(first, x) by {
                to_multiset_contains(s, x);
                let i = choose|i: int| 0 <= i < s.len() && s[i] == x;
                lemma_heap_root_first(true, s, i);
            }
            lemma_queue_pop(s, first);
        }
        let last = items.pop().unwrap();
        proof {
            assert(items@ =~= s.remove(s.len() - 1));
            to_multiset_remove(s, s.len() - 1);
        }
        if items.len() > 0 {
            let ghost t = items@;
            items[0] = last;
            proof {
                to_multiset_update(t, 0, last);
                assert(items@.to_multiset() =~= s.to_multiset().remove(first));
                let u = items@;
                assert forall|i: int| 0 < i < u.len() && (i - 1) / 2 != 0 implies #[trigger] heap_edge(true, u,
                    i,
                ) by {
                    assert(heap_edge(true, s, i));
                }
            }
            sift_down(&mut items, 0, true);
        } else {
            assert(items@.to_multiset() =~= s.to_multiset().remove(first));
        }
        self.items = items;
        Some(first)
    }

    /// A heap of the given candidates.
    pub fn from_vec(candidates: Vec<Candidate>) -> (heap: CandidateHeap)
        ensures
            heap.wf(),
            heap@ == candidates@.to_multiset(),
    {
        let mut heap = CandidateHeap::new();
        let mut i: usize = 0;
        assert(candidates@.subrange(0, 0) =~= Seq::<Candidate>::empty());
        assert(Seq::<Candidate>::empty().to_multiset() =~= Multiset::<Candidate>::empty()) by {
            Seq::<Candidate>::empty().to_multiset_ensures();
            assert(Seq::<Candidate>::empty().to_multiset().len() == 0);
        }
        while i < candidates.len()
            invariant
                i <= candidates.len(),
                heap.wf(),
                heap@ == candidates@.subrange(0, i as int).to_multiset(),
            decreases candidates.len() - i,
        {
            proof {
                to_multiset_build(candidates@.subrange(0, i as int), candidates@[i as int]);
                assert(candidates@.subrange(0, i as int).push(candidates@[i as int])
                    =~= candidates@.subrange(0, i + 1));
            }
            heap.push(candidates[i]);
            i += 1;
        }
        assert(candidates@.subrange(0, i as int) =~= candidates@);
        heap
    }

    /// Drains the heap: all its candidates, each before those that come no
    /// earlier.
    pub fn into_sorted_vec(self) -> (drained: Vec<Candidate>)
        ensures
            sorted(drained@),
            drained@.to_multiset() == self@,
            drained@ == self.spec_queue(),
    {
        broadcast use vstd::multiset::group_multiset_axioms;

        let mut heap = self;
        let mut drained: Vec<Candidate> = Vec::new();
        proof {
            drained@.to_multiset_ensures();
            assert(drained@.to_multiset() =~= Multiset::<Candidate>::empty());
            assert(drained@.to_multiset().add(heap@) =~= self@);
        }
        loop
            invariant
                sorted(drained@),
                forall|k: int, x: Candidate|
                    #![trigger drained@[k], heap@.contains(x)]
                    0 <= k < drained.len() && heap@.contains(x) ==> precedes(drained@[k], x),
                drained@.to_multiset().add(heap@) == self@,
            ensures
                sorted(drained@),
                drained@.to_multiset() == self@,
            decreases heap@.len(),
        {
            let ghost before = drained@;
            let ghost held = heap@;
            match heap.pop() {
                None => {
                    assert(held =~= Multiset::<Candidate>::empty());
                    assert(drained@.to_multiset().add(held) =~= drained@.to_multiset());
                    break ;
                },
                Some(c) => {
                    drained.push(c);
                    proof {
                        to_multiset_build(before, c);
                        assert(drained@.to_multiset().add(heap@) =~= before.to_multiset().add(held));
                        assert forall|i: int, j: int|
                            0 <= i <= j < drained@.len() implies precedes(
                            drained@[i],
                            drained@[j],
                        ) by {
                            if j < before.len() {
                                assert(precedes(before[i], before[j]));
                            } else if i < before.len() {
                                assert(held.contains(c));
                                assert(precedes(before[i], c));
                            }
                        }
                        assert forall|k: int, x: Candidate|
                            #![trigger drained@[k], heap@.contains(x)]
                            0 <= k < drained.len() && heap@.contains(x) implies precedes(
                            drained@[k],
                            x,
                        ) by {
                            assert(held.contains(x));
                            if k < before.len() {
                                assert(precedes(before[k], x));
                            }
                        }
                    }
                },
            }
        }
        proof {
            lemma_queue_of(drained@);
        }
        drained
    }
}

/// The nearest of the candidates put in, up to a fixed number of them. The
/// one of them that comes last is at hand, and is the one that gives way
/// when a nearer candidate arrives.
pub struct BoundedHeap {
    items: Vec<Candidate>,
    capacity: usize,
}

/// What a bounded heap is: the candidates that it holds, each as often as
/// it was kept, and the number of candidates that it has room for.
pub struct BoundedView {
    pub held: Multiset<Candidate>,
    pub capacity: nat,
}

impl View for BoundedHeap {
    type V = BoundedView;

    closed spec fn view(&self) -> BoundedView {
        BoundedView { held: self.items@.to_multiset(), capacity: self.capacity as nat }
    }
}

impl BoundedHeap {
    /// The candidates stand in heap order, the last at the root, and are
    /// no more than the heap has room for.
    #[verifier::type_invariant]
    pub closed spec fn wf(self) -> bool {
        &&& is_heap(false, self.items@)
        &&& self.items.len() <= self.capacity
    }

    /// A heap without candidates, with room for `capacity` of them.
    pub fn new(capacity: usize) -> (heap: BoundedHeap)
        ensures
            heap.wf(),
            heap@.held == Multiset::<Candidate>::empty(),
            heap@.capacity == capacity,
    {
        let heap = BoundedHeap { items: Vec::new(), capacity };
        assert(heap.items@.to_multiset() =~= Multiset::<Candidate>::empty()) by {
            heap.items@.to_multiset_ensures();
            assert(heap.items@.to_multiset().len() == 0);
        }
        heap
    }

    /// The number of candidates.
    pub fn len(&self) -> (n: usize)
        ensures
            n == self@.held.len(),
            n <= self@.capacity,
    {
        proof {
            use_type_invariant(self);
            self.items@.to_multiset_ensures();
        }
        self.items.len()
    }

    /// The number of candidates that the heap has room for.
    pub fn capacity(&self) -> (n: usize)
        ensures
            n == self@.capacity,
    {
        self.capacity
    }

    /// The candidate that comes last, if there is one.
    pub fn worst(&self) -> (r: Option<Candidate>)
        ensures
            r is None <==> self@.held.len() == 0,
            r matches Some(c) ==> comes_last_of(c, self@.held),
    {
        proof {
            use_type_invariant(self);
            self.items@.to_multiset_ensures();
        }
        if self.items.len() == 0 {
            None
        } else {
            let c = self.items[0];
            proof {
                let s = self.items@;
                assert(s.contains(c));
                assert forall|x: Candidate| self@.held.contains(x) implies precedes(x, c) by {
                    to_multiset_contains(s, x);
                    let i = choose|i: int| 0 <= i < s.len() && s[i] == x;
                    lemma_heap_root_first(false, s, i);
                }
            }
            Some(c)
        }
    }

    /// Puts a candidate into the heap. If the heap was full, the candidate
    /// that then comes last, of those held and the new one, is dropped and
    /// returned; otherwise nothing is.
    pub fn push(&mut self, candidate: Candidate) -> (dropped: Option<Candidate>)
        ensures
            final(self).wf(),
            final(self)@.capacity == old(self)@.capacity,
            dropped is None <==> old(self)@.held.len() < old(self)@.capacity,
            dropped is None ==> final(self)@.held == old(self)@.held.insert(candidate),
            dropped matches Some(d) ==> comes_last_of(d, old(self)@.held.insert(candidate)),
            dropped matches Some(d) ==> final(self)@.held == old(self)@.held.insert(
                candidate,
            ).remove(d),
    {
        broadcast use vstd::multiset::group_multiset_axioms;

        proof {
            use_type_invariant(&*self);
            self.items@.to_multiset_ensures();
        }
        let ghost held = self.items@.to_multiset();
        if self.items.len() < self.capacity {
            let mut items: Vec<Candidate> = Vec::new();
            core::mem::swap(&mut self.items, &mut items);
            let ghost before = items@;
            items.push(candidate);
            proof {
                to_multiset_build(before, candidate);
                let s = items@;
                assert forall|i: int|
                    0 < i < s.len() && i != s.len() - 1 implies #[trigger] heap_edge(
                    false,
                    s,
                    i,
                ) by {
                    assert(heap_edge(false, before, i));
                }
            }
            let last = items.len() - 1;
            sift_up(&mut items, last, false);
            self.items = items;
            return None;
        }
        if self.items.len() == 0 {
            assert(held.insert(candidate).remove(candidate) =~= held);
            assert forall|x: Candidate| held.insert(candidate).contains(x) implies precedes(
                x,
                candidate,
            ) by {
                if x != candidate {
                    assert(held.insert(candidate).count(x) == held.count(x));
                }
            }
            return Some(candidate);
        }
        let worst = self.items[0];
        proof {
            let s = self.items@;
            assert(s.contains(worst));
            assert forall|x: Candidate| held.contains(x) implies precedes(x, worst) by {
                to_multiset_contains(s, x);
                let i = choose|i: int| 0 <= i < s.len() && s[i] == x;
                lemma_heap_root_first(false, s, i);
            }
        }
        if comes_first(worst, candidate) {
            proof {
                assert(held.insert(candidate).remove(candidate) =~= held);
                assert forall|x: Candidate| held.insert(candidate).contains(x) implies precedes(
                    x,
                    candidate,
                ) by {
                    if x != candidate {
                        assert(held.insert(candidate).count(x) == held.count(x));
                        assert(precedes(x, worst));
                    }
                }
            }
            return Some(candidate);
        }
        let mut items: Vec<Candidate> = Vec::new();
        core::mem::swap(&mut self.items, &mut items);
        let ghost before = items@;
        items[0] = candidate;
        proof {
            to_multiset_update(before, 0, candidate);
            let u = items@;
            assert forall|i: int|
                0 < i < u.len() && (i - 1) / 2 != 0 implies #[trigger] heap_edge(false, u, i) by {
                assert(heap_edge(false, before, i));
            }
            assert forall|x: Candidate| held.insert(candidate).contains(x) implies precedes(
                x,
                worst,
            ) by {
                if x != candidate {
                    assert(held.insert(candidate).count(x) == held.count(x));
                }
            }
        }
        sift_down(&mut items, 0, false);
        self.items = items;
        Some(worst)
    }

    /// The candidates of the heap, in no particular order.
    pub fn into_vec(self) -> (candidates: Vec<Candidate>)
        ensures
            candidates@.to_multiset() == self@.held,
    {
        self.items
    }
}

/// `held` are the nearest of the candidates `all`, as many as there is room
/// for: they are among `all`, they are `capacity` of them or all of them,
/// and none that is left out comes earlier than one that is held.
pub open spec fn nearest_of(
    held: Multiset<Candidate>,
    all: Multiset<Candidate>,
    capacity: nat,
) -> bool {
    &&& held.subset_of(all)
    &&& held.len() == if all.len() < capacity {
        all.len()
    } else {
        capacity
    }
    &&& forall|x: Candidate, y: Candidate|
        #![trigger all.sub(held).contains(x), held.contains(y)]
        all.sub(held).contains(x) && held.contains(y) ==> precedes(y, x)
}

/// A bounded heap holds the nearest of all candidates that were put in: if
/// it did before a candidate is put in as `push` does, it does after.
pub proof fn lemma_bounded_keeps_nearest(
    held: Multiset<Candidate>,
    all: Multiset<Candidate>,
    capacity: nat,
    candidate: Candidate,
    dropped: Option<Candidate>,
    after: Multiset<Candidate>,
)
    requires
        nearest_of(held, all, capacity),
        dropped is None <==> held.len() < capacity,
        dropped is None ==> after == held.insert(candidate),
        dropped matches Some(d) ==> comes_last_of(d, held.insert(candidate)) && after
            == held.insert(candidate).remove(d),
    ensures
        nearest_of(after, all.insert(candidate), capacity),
{
    broadcast use vstd::multiset::group_multiset_axioms;

    let more = all.insert(candidate);
    let left = all.sub(held);
    assert(left.len() == all.len() - held.len());
    match dropped {
        None => {
            assert(left.len() == 0);
            assert(left =~= Multiset::<Candidate>::empty());
            assert(more.sub(after) =~= Multiset::<Candidate>::empty()) by {
                assert forall|v: Candidate| more.sub(after).count(v) == 0 by {
                    assert(left.count(v) == 0);
                }
            }
            assert(after.subset_of(more)) by {
                assert forall|v: Candidate| after.count(v) <= more.count(v) by {
                    assert(left.count(v) == 0);
                }
            }
        },
        Some(d) => {
            let both = held.insert(candidate);
            assert(both.contains(d));
            assert(after.len() == held.len());
            assert(after.subset_of(more)) by {
                assert forall|v: Candidate| after.count(v) <= more.count(v) by {
                    assert(held.count(v) <= all.count(v));
                }
            }
            assert forall|x: Candidate, y: Candidate|
                #![trigger more.sub(after).contains(x), after.contains(y)]
                more.sub(after).contains(x) && after.contains(y) implies precedes(y, x) by {
                assert(both.contains(y)) by {
                    assert(after.count(y) <= both.count(y));
                }
                assert(precedes(y, d));
                if x != d {
                    assert(after.count(x) == both.count(x));
                    assert(left.count(x) == more.sub(after).count(x)) by {
                        assert(held.count(x) <= all.count(x));
                    }
                    assert(left.contains(x));
                    if held.contains(y) {
                    } else {
                        assert(y == candidate);
                        assert(d != candidate) by {
                            if d == candidate {
                                assert(after =~= held);
                            }
                        }
                        assert(held.contains(d));
                        assert(precedes(d, x));
                    }
                }
            }
        },
    }
}

} // verus!
