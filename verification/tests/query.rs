use quantization::lookup::LookupTable;
use quantization::options::{
    DistanceKind, QuantizationOptions, ScalarQuantizationOptions, VectorKind, VectorOptions,
};
use quantization::preprocessed::QuantizationPreprocessed;
use quantization::container::Quantization;
use quantization::quantizer::{
    ProductQuantizer, Quantizer, RaBitQuantizer, ScalarQuantizer, TrivialQuantizer,
};
use quantization::query::QueryError;
use quantization::scalar::Scalar;

fn s(x: f32) -> Scalar {
    Scalar::from_bits(x.to_bits())
}

fn f(x: Scalar) -> f32 {
    f32::from_bits(x.to_bits())
}

fn codes(n: usize, width: usize, levels: usize) -> Vec<Vec<u8>> {
    (0..n).map(|id| (0..width).map(|i| ((id * 3 + i * 7) % levels) as u8).collect()).collect()
}

fn product(dims: u32, bits: u32, n: usize) -> (Quantization, Vec<Vec<u8>>) {
    let encoded = codes(n, dims as usize, 1 << bits);
    let centroids = vec![s(0.0); (dims as usize) << bits];
    let train = Quantizer::Product(ProductQuantizer::new(dims, 1, bits, centroids).unwrap());
    (Quantization::from_codes(train, &encoded).unwrap(), encoded)
}

fn trivial(dims: u32) -> Quantization {
    let train = Quantizer::Trivial(TrivialQuantizer::new(dims).unwrap());
    Quantization::from_codes(train, &Vec::new()).unwrap()
}

fn rabitq(dims: u32) -> Quantization {
    let rotation: Vec<Scalar> = (0..dims * dims)
        .map(|k| if k / dims + k % dims == dims - 1 { s(-1.0) } else { s(0.0) })
        .collect();
    let train = Quantizer::RaBitQ(RaBitQuantizer::new(dims, rotation).unwrap());
    Quantization::from_codes(train, &Vec::new()).unwrap()
}

fn contribution(position: u32, code: u8) -> u32 {
    position * 1000 + (code as u32) * (code as u32) + 1
}

fn expected(encoded: &Vec<u8>) -> u64 {
    encoded.iter().enumerate().map(|(p, &c)| contribution(p as u32, c) as u64).sum()
}

fn no_raw(_: u32) -> u64 {
    panic!("asked for a raw distance")
}

fn query(dims: usize) -> Vec<Scalar> {
    vec![s(0.5); dims]
}

#[test]
fn preprocess_of_trivial_is_the_query() {
    let q = trivial(3);
    let lhs = vec![s(1.0), s(-2.0), s(3.5)];
    match q.preprocess(&lhs, &contribution).unwrap() {
        QuantizationPreprocessed::Trivial(x) => assert_eq!(x, lhs),
        _ => panic!("not prepared for the trivial quantizer"),
    }
}

#[test]
fn preprocess_builds_a_table_of_the_shape_of_the_codes() {
    let (q, _) = product(3, 2, 4);
    match q.preprocess(&query(3), &contribution).unwrap() {
        QuantizationPreprocessed::Product(t) => {
            assert_eq!(t.width(), 3);
            assert_eq!(t.bits(), 2);
            for p in 0..3 {
                for c in 0..4 {
                    assert_eq!(t.entry(p, c), contribution(p, c));
                }
            }
        }
        _ => panic!("not prepared for the product quantizer"),
    }
}

#[test]
fn preprocess_refuses_rabitq_and_other_dimensions() {
    assert_eq!(
        rabitq(3).preprocess(&query(3), &contribution).err(),
        Some(QueryError::UnsupportedVariant)
    );
    assert_eq!(
        rabitq(3).preprocess(&query(2), &contribution).err(),
        Some(QueryError::UnsupportedVariant)
    );
    assert_eq!(
        trivial(3).preprocess(&query(2), &contribution).err(),
        Some(QueryError::DimensionMismatch)
    );
    let (q, _) = product(3, 2, 4);
    assert_eq!(
        q.preprocess(&query(4), &contribution).err(),
        Some(QueryError::DimensionMismatch)
    );
}

#[test]
fn project_rotates_for_rabitq_alone() {
    let rotate = |m: &Vec<Scalar>, v: &Vec<Scalar>| -> Vec<Scalar> {
        let n = v.len();
        (0..n).map(|r| s((0..n).map(|c| f(m[r * n + c]) * f(v[c])).sum())).collect()
    };
    let lhs = vec![s(1.0), s(2.0), s(3.0)];
    let q = rabitq(3);
    let first = q.project(&lhs, &rotate).unwrap();
    let second = q.project(&lhs, &rotate).unwrap();
    assert_eq!(first, vec![s(-3.0), s(-2.0), s(-1.0)]);
    assert_eq!(first, second);
    assert_eq!(q.project(&query(2), &rotate).err(), Some(QueryError::DimensionMismatch));
    assert_eq!(trivial(3).project(&lhs, &rotate).err(), Some(QueryError::UnsupportedVariant));
    let (p, _) = product(3, 2, 4);
    assert_eq!(p.project(&lhs, &rotate).err(), Some(QueryError::UnsupportedVariant));
}

#[test]
fn project_refuses_a_rotation_of_other_dimensions() {
    let shorten = |_: &Vec<Scalar>, v: &Vec<Scalar>| -> Vec<Scalar> { v[1..].to_vec() };
    assert_eq!(
        rabitq(3).project(&query(3), &shorten).err(),
        Some(QueryError::DimensionMismatch)
    );
}

#[test]
fn projection_preprocess_keeps_rotation_and_distance() {
    let rotate = |_: &Vec<Scalar>, v: &Vec<Scalar>| -> Vec<Scalar> {
        v.iter().rev().copied().collect()
    };
    let lhs = vec![s(1.0), s(2.0)];
    match rabitq(2).projection_preprocess(&lhs, 77, &rotate).unwrap() {
        QuantizationPreprocessed::RaBit(x) => {
            assert_eq!(x.projected, vec![s(2.0), s(1.0)]);
            assert_eq!(x.distance, 77);
        }
        _ => panic!("not prepared for rotation"),
    }
    assert_eq!(
        trivial(2).projection_preprocess(&lhs, 77, &rotate).err(),
        Some(QueryError::UnsupportedVariant)
    );
    assert_eq!(
        rabitq(3).projection_preprocess(&lhs, 77, &rotate).err(),
        Some(QueryError::DimensionMismatch)
    );
}

#[test]
fn process_sums_the_table_over_the_stored_codes() {
    for bits in [1u32, 2, 4, 8] {
        let (q, encoded) = product(5, bits, 40);
        let p = q.preprocess(&query(5), &contribution).unwrap();
        for id in 0..40u32 {
            assert_eq!(q.process(&no_raw, &p, id), Ok(expected(&encoded[id as usize])));
        }
        assert_eq!(q.process(&no_raw, &p, 40), Err(QueryError::OutOfRange));
    }
}

#[test]
fn process_of_trivial_and_rabitq_asks_for_the_raw_distance() {
    let raw = |u: u32| -> u64 { 1000 + u as u64 };
    let q = trivial(2);
    let p = q.preprocess(&query(2), &contribution).unwrap();
    assert_eq!(q.process(&raw, &p, 7), Ok(1007));
    let r = rabitq(2);
    let rotate = |_: &Vec<Scalar>, v: &Vec<Scalar>| -> Vec<Scalar> { v.clone() };
    let p = r.projection_preprocess(&query(2), 3, &rotate).unwrap();
    assert_eq!(r.process(&raw, &p, 9), Ok(1009));
}

#[test]
fn process_refuses_a_query_prepared_for_another_kind() {
    let (q, _) = product(2, 4, 3);
    let t = trivial(2);
    let for_trivial = t.preprocess(&query(2), &contribution).unwrap();
    let for_product = q.preprocess(&query(2), &contribution).unwrap();
    assert_eq!(q.process(&no_raw, &for_trivial, 0), Err(QueryError::TagMismatch));
    assert_eq!(t.process(&no_raw, &for_product, 0), Err(QueryError::TagMismatch));
    let table = LookupTable::build(2, 4, &contribution).unwrap();
    let for_scalar = QuantizationPreprocessed::Scalar(table);
    assert_eq!(q.process(&no_raw, &for_scalar, 0), Err(QueryError::TagMismatch));
}

#[test]
fn process_refuses_a_table_of_another_shape() {
    let (q, _) = product(2, 4, 3);
    let narrow = QuantizationPreprocessed::Product(
        LookupTable::build(1, 4, &contribution).unwrap(),
    );
    assert_eq!(q.process(&no_raw, &narrow, 0), Err(QueryError::DimensionMismatch));
    let coarse = QuantizationPreprocessed::Product(
        LookupTable::build(2, 2, &contribution).unwrap(),
    );
    assert_eq!(q.process(&no_raw, &coarse, 0), Err(QueryError::DimensionMismatch));
    assert_eq!(q.process(&no_raw, &coarse, 99), Err(QueryError::DimensionMismatch));
}

#[test]
fn process_of_the_midpoint_query_against_the_midpoint_vector_is_zero() {
    let vectors: Vec<Vec<Scalar>> =
        [0.0f32, 1.0, 2.0].iter().map(|&x| vec![s(x); 4]).collect();
    let options = VectorOptions { dims: 4, v: VectorKind::Vecf32, d: DistanceKind::L2 };
    let scalar = QuantizationOptions::Scalar(ScalarQuantizationOptions { bits: 8 });
    let encode = |q: &Quantizer, v: &Vec<Scalar>| -> Vec<u8> {
        match q {
            Quantizer::Scalar(x) => (0..v.len())
                .map(|j| {
                    let (min, max) = (f(x.min()[j]), f(x.max()[j]));
                    ((f(v[j]) - min) * 255.0 / (max - min)).round() as u8
                })
                .collect(),
            _ => panic!("not a scalar quantizer"),
        }
    };
    let no_fit = |_: &Vec<Vec<Scalar>>| -> Vec<Scalar> { panic!("asked to fit") };
    let q = Quantization::create(options, scalar, &vectors, &no_fit, &encode).unwrap();
    let (min, max) = match q.train() {
        Quantizer::Scalar(x) => (x.min().clone(), x.max().clone()),
        _ => panic!("not a scalar quantizer"),
    };
    let lhs = vec![s(1.0); 4];
    let squares = |position: u32, code: u8| -> u32 {
        let j = position as usize;
        let grid = f(min[j]) + code as f32 * (f(max[j]) - f(min[j])) / 255.0;
        let d = f(lhs[j]) - grid;
        (d * d * 1000.0).round() as u32
    };
    let p = q.preprocess(&lhs, &squares).unwrap();
    assert_eq!(q.process(&no_raw, &p, 1), Ok(0));
    assert_eq!(q.process(&no_raw, &p, 0), Ok(4000));
    assert_eq!(q.process(&no_raw, &p, 2), Ok(4000));
}

#[test]
fn preprocess_twice_scores_alike() {
    let (q, _) = product(5, 4, 40);
    let first = q.preprocess(&query(5), &contribution).unwrap();
    let second = q.preprocess(&query(5), &contribution).unwrap();
    for id in 0..41u32 {
        assert_eq!(q.process(&no_raw, &first, id), q.process(&no_raw, &second, id));
    }
}

#[test]
fn push_batch_appends_ids_with_their_distances() {
    let (q, encoded) = product(5, 2, 40);
    let p = q.preprocess(&query(5), &contribution).unwrap();
    let mut heap = vec![(1u64, 999u32)];
    assert_eq!(q.push_batch(&no_raw, &p, 3..9, &mut heap, false, false), Ok(()));
    let mut want = vec![(1u64, 999u32)];
    for id in 3..9u32 {
        want.push((expected(&encoded[id as usize]), id));
    }
    assert_eq!(heap, want);
}

#[test]
fn push_batch_of_an_empty_range_adds_nothing() {
    let (q, _) = product(5, 4, 40);
    let p = q.preprocess(&query(5), &contribution).unwrap();
    let mut heap = Vec::new();
    assert_eq!(q.push_batch(&no_raw, &p, 7..7, &mut heap, true, true), Ok(()));
    assert_eq!(q.push_batch(&no_raw, &p, 50..50, &mut heap, true, true), Ok(()));
    #[allow(clippy::reversed_empty_ranges)]
    let backwards = 9..3;
    assert_eq!(q.push_batch(&no_raw, &p, backwards, &mut heap, false, false), Ok(()));
    assert!(heap.is_empty());
}

#[test]
fn push_batch_refuses_ids_that_are_not_stored() {
    let (q, _) = product(5, 4, 40);
    let p = q.preprocess(&query(5), &contribution).unwrap();
    let mut heap = vec![(1u64, 1u32)];
    for fast in [false, true] {
        assert_eq!(q.push_batch(&no_raw, &p, 30..41, &mut heap, fast, fast), Err(QueryError::OutOfRange));
        assert_eq!(heap, vec![(1u64, 1u32)]);
    }
    assert_eq!(q.push_batch(&no_raw, &p, 30..40, &mut heap, true, true), Ok(()));
    assert_eq!(heap.len(), 11);
}

#[test]
fn push_batch_of_trivial_scores_by_the_raw_distance() {
    let raw = |u: u32| -> u64 { 1000 - 3 * u as u64 };
    let t = trivial(2);
    let for_trivial = t.preprocess(&query(2), &contribution).unwrap();
    let mut heap = vec![(1u64, 999u32)];
    for fast in [false, true] {
        assert_eq!(t.push_batch(&raw, &for_trivial, 4..7, &mut heap, fast, fast), Ok(()));
    }
    assert_eq!(
        heap,
        vec![(1, 999), (988, 4), (985, 5), (982, 6), (988, 4), (985, 5), (982, 6)]
    );
}

#[test]
fn push_batch_of_trivial_with_an_empty_range_adds_nothing() {
    let t = trivial(2);
    let for_trivial = t.preprocess(&query(2), &contribution).unwrap();
    let mut heap = vec![(1u64, 999u32)];
    assert_eq!(t.push_batch(&no_raw, &for_trivial, 5..5, &mut heap, false, false), Ok(()));
    #[allow(clippy::reversed_empty_ranges)]
    let backwards = 9..3;
    assert_eq!(t.push_batch(&no_raw, &for_trivial, backwards, &mut heap, true, true), Ok(()));
    assert_eq!(heap, vec![(1u64, 999u32)]);
}

#[test]
fn push_batch_refuses_rabitq_and_other_kinds() {
    let t = trivial(2);
    let for_trivial = t.preprocess(&query(2), &contribution).unwrap();
    let mut heap = Vec::new();
    let r = rabitq(2);
    let rotate = |_: &Vec<Scalar>, v: &Vec<Scalar>| -> Vec<Scalar> { v.clone() };
    let for_rabitq = r.projection_preprocess(&query(2), 0, &rotate).unwrap();
    assert_eq!(
        r.push_batch(&no_raw, &for_rabitq, 0..1, &mut heap, false, false),
        Err(QueryError::UnsupportedVariant)
    );
    assert_eq!(
        r.push_batch(&no_raw, &for_rabitq, 1..1, &mut heap, false, false),
        Err(QueryError::UnsupportedVariant)
    );
    assert_eq!(
        r.push_batch(&no_raw, &for_trivial, 0..1, &mut heap, false, false),
        Err(QueryError::TagMismatch)
    );
    let (q, _) = product(2, 4, 3);
    assert_eq!(
        q.push_batch(&no_raw, &for_trivial, 0..1, &mut heap, false, false),
        Err(QueryError::TagMismatch)
    );
    let for_product = q.preprocess(&query(2), &contribution).unwrap();
    assert_eq!(
        t.push_batch(&no_raw, &for_product, 0..1, &mut heap, false, false),
        Err(QueryError::TagMismatch)
    );
    let narrow = QuantizationPreprocessed::Product(
        LookupTable::build(1, 4, &contribution).unwrap(),
    );
    assert_eq!(
        q.push_batch(&no_raw, &narrow, 0..1, &mut heap, false, false),
        Err(QueryError::DimensionMismatch)
    );
    assert!(heap.is_empty());
}

#[test]
fn fast_scan_gives_the_distances_of_the_codes_path() {
    for n in [1usize, 31, 32, 33, 100] {
        let (q, encoded) = product(6, 4, n);
        let p = q.preprocess(&query(6), &contribution).unwrap();
        for (start, end) in [(0, n), (0, 1), (n - 1, n), (n / 2, n), (n / 3, n / 3 + n / 2)] {
            let (start, end) = (start as u32, end as u32);
            let mut slow = Vec::new();
            let mut fast = Vec::new();
            assert_eq!(q.push_batch(&no_raw, &p, start..end, &mut slow, false, false), Ok(()));
            assert_eq!(q.push_batch(&no_raw, &p, start..end, &mut fast, true, true), Ok(()));
            assert_eq!(slow, fast);
            assert_eq!(slow.len() as u32, end - start);
            for (k, &(d, id)) in fast.iter().enumerate() {
                assert_eq!(id, start + k as u32);
                assert_eq!(d, expected(&encoded[id as usize]));
            }
        }
    }
}

#[test]
fn fast_scan_flag_is_per_quantizer_kind() {
    let encoded = codes(40, 3, 16);
    let max = vec![s(1.0); 3];
    let min = vec![s(0.0); 3];
    let train = Quantizer::Scalar(ScalarQuantizer::new(3, 4, max, min).unwrap());
    let q = Quantization::from_codes(train, &encoded).unwrap();
    let p = q.preprocess(&query(3), &contribution).unwrap();
    let mut a = Vec::new();
    let mut b = Vec::new();
    let mut c = Vec::new();
    assert_eq!(q.push_batch(&no_raw, &p, 0..40, &mut a, true, false), Ok(()));
    assert_eq!(q.push_batch(&no_raw, &p, 0..40, &mut b, false, true), Ok(()));
    assert_eq!(q.push_batch(&no_raw, &p, 0..40, &mut c, false, false), Ok(()));
    assert_eq!(a, b);
    assert_eq!(a, c);
    assert_eq!(a[5], (expected(&encoded[5]), 5));
}

#[test]
fn opened_container_scores_as_the_created_one() {
    for bits in [1u32, 2, 4, 8] {
        let (created, _) = product(5, bits, 40);
        let opened = Quantization::open(
            created.train().clone(),
            created.codes().clone(),
            created.packed_codes().clone(),
        )
        .unwrap();
        let pc = created.preprocess(&query(5), &contribution).unwrap();
        let po = opened.preprocess(&query(5), &contribution).unwrap();
        for id in 0..41u32 {
            assert_eq!(opened.process(&no_raw, &po, id), created.process(&no_raw, &pc, id));
        }
        let mut a = Vec::new();
        let mut b = Vec::new();
        assert_eq!(created.push_batch(&no_raw, &pc, 0..40, &mut a, true, true), Ok(()));
        assert_eq!(opened.push_batch(&no_raw, &po, 0..40, &mut b, false, false), Ok(()));
        assert_eq!(a, b);
    }
    let raw = |u: u32| -> u64 { 7 * u as u64 };
    let created = trivial(3);
    let opened =
        Quantization::open(created.train().clone(), Vec::new(), Vec::new()).unwrap();
    let pc = created.preprocess(&query(3), &contribution).unwrap();
    let po = opened.preprocess(&query(3), &contribution).unwrap();
    assert_eq!(opened.process(&raw, &po, 5), created.process(&raw, &pc, 5));
}
