use quantization::heap::{comes_first, BoundedHeap, CandidateHeap};

#[test]
fn nearer_candidate_comes_first() {
    assert!(comes_first((1, 9), (2, 0)));
    assert!(!comes_first((2, 0), (1, 9)));
}

#[test]
fn larger_id_comes_first_at_one_distance() {
    assert!(comes_first((5, 7), (5, 3)));
    assert!(!comes_first((5, 3), (5, 7)));
    assert!(comes_first((5, 3), (5, 3)));
}

#[test]
fn empty_heap_gives_nothing() {
    let mut heap = CandidateHeap::new();
    assert!(heap.is_empty());
    assert_eq!(heap.len(), 0);
    assert_eq!(heap.peek(), None);
    assert_eq!(heap.pop(), None);
}

#[test]
fn heap_pops_nearest_first() {
    let mut heap = CandidateHeap::new();
    for c in [(5u64, 1u32), (3, 2), (9, 3), (1, 4), (3, 5)] {
        heap.push(c);
    }
    assert_eq!(heap.len(), 5);
    assert_eq!(heap.peek(), Some((1, 4)));
    assert_eq!(heap.pop(), Some((1, 4)));
    assert_eq!(heap.pop(), Some((3, 5)));
    assert_eq!(heap.pop(), Some((3, 2)));
    assert_eq!(heap.pop(), Some((5, 1)));
    assert_eq!(heap.pop(), Some((9, 3)));
    assert_eq!(heap.pop(), None);
}

#[test]
fn heap_keeps_equal_candidates() {
    let heap = CandidateHeap::from_vec(vec![(2, 2), (2, 2), (1, 0)]);
    assert_eq!(heap.into_sorted_vec(), vec![(1, 0), (2, 2), (2, 2)]);
}

#[test]
fn drained_heap_is_sorted() {
    let mut candidates = Vec::new();
    let mut x: u64 = 12345;
    for id in 0..500u32 {
        x = x.wrapping_mul(6364136223846793005).wrapping_add(1442695040888963407);
        candidates.push(((x >> 33) % 50, id));
    }
    let drained = CandidateHeap::from_vec(candidates.clone()).into_sorted_vec();
    assert_eq!(drained.len(), candidates.len());
    for w in drained.windows(2) {
        assert!(w[0].0 < w[1].0 || (w[0].0 == w[1].0 && w[0].1 > w[1].1));
    }
    let mut expected = candidates;
    expected.sort_by(|a, b| a.0.cmp(&b.0).then(b.1.cmp(&a.1)));
    assert_eq!(drained, expected);
}

#[test]
fn bounded_heap_keeps_what_fits() {
    let mut heap = BoundedHeap::new(3);
    assert_eq!(heap.capacity(), 3);
    assert_eq!(heap.worst(), None);
    assert_eq!(heap.push((5, 1)), None);
    assert_eq!(heap.push((9, 2)), None);
    assert_eq!(heap.push((7, 3)), None);
    assert_eq!(heap.len(), 3);
    assert_eq!(heap.worst(), Some((9, 2)));
}

#[test]
fn bounded_heap_drops_the_last_when_full() {
    let mut heap = BoundedHeap::new(2);
    assert_eq!(heap.push((5, 1)), None);
    assert_eq!(heap.push((9, 2)), None);
    assert_eq!(heap.push((7, 3)), Some((9, 2)));
    assert_eq!(heap.worst(), Some((7, 3)));
    assert_eq!(heap.push((8, 4)), Some((8, 4)));
    assert_eq!(heap.push((7, 9)), Some((7, 3)));
    assert_eq!(heap.push((7, 9)), Some((7, 9)));
    assert_eq!(heap.worst(), Some((7, 9)));
    assert_eq!(heap.push((7, 2)), Some((7, 2)));
    assert_eq!(heap.len(), 2);
    let mut kept = heap.into_vec();
    kept.sort();
    assert_eq!(kept, vec![(5, 1), (7, 9)]);
}

#[test]
fn bounded_heap_without_room_drops_everything() {
    let mut heap = BoundedHeap::new(0);
    assert_eq!(heap.push((1, 1)), Some((1, 1)));
    assert_eq!(heap.len(), 0);
    assert_eq!(heap.worst(), None);
    assert!(heap.into_vec().is_empty());
}

#[test]
fn bounded_heap_holds_the_nearest_of_all() {
    let mut candidates = Vec::new();
    let mut x: u64 = 99;
    for id in 0..300u32 {
        x = x.wrapping_mul(6364136223846793005).wrapping_add(1442695040888963407);
        candidates.push(((x >> 33) % 40, id));
    }
    for capacity in [1usize, 10, 299, 300, 400] {
        let mut heap = BoundedHeap::new(capacity);
        for &c in &candidates {
            heap.push(c);
        }
        let kept = CandidateHeap::from_vec(heap.into_vec()).into_sorted_vec();
        let mut all = CandidateHeap::from_vec(candidates.clone()).into_sorted_vec();
        all.truncate(capacity);
        assert_eq!(kept, all);
    }
}
