use quantization::options::{
    DistanceKind, ProductQuantizationOptions, QuantizationOptions, RaBitQuantizationOptions,
    ScalarQuantizationOptions, TrivialQuantizationOptions, VectorKind, VectorOptions,
};
use quantization::quantizer::{
    nearest, ProductQuantizer, Quantizer, RaBitQuantizer, ScalarQuantizer, TrainError,
    TrivialQuantizer,
};
use quantization::scalar::Scalar;

fn s(x: f32) -> Scalar {
    Scalar::from_bits(x.to_bits())
}

fn vectors(rows: &[&[f32]]) -> Vec<Vec<Scalar>> {
    rows.iter().map(|r| r.iter().map(|&x| s(x)).collect()).collect()
}

fn options(dims: u32) -> VectorOptions {
    VectorOptions { dims, v: VectorKind::Vecf32, d: DistanceKind::L2 }
}

fn trivial() -> QuantizationOptions {
    QuantizationOptions::Trivial(TrivialQuantizationOptions {})
}

fn scalar(bits: u32) -> QuantizationOptions {
    QuantizationOptions::Scalar(ScalarQuantizationOptions { bits })
}

fn product(ratio: u32, bits: u32) -> QuantizationOptions {
    QuantizationOptions::Product(ProductQuantizationOptions { ratio, bits })
}

fn rabitq() -> QuantizationOptions {
    QuantizationOptions::RaBitQ(RaBitQuantizationOptions {})
}

fn no_fit(_: &Vec<Vec<Scalar>>) -> Vec<Scalar> {
    panic!("asked to fit")
}

fn zeros(n: usize) -> Vec<Scalar> {
    vec![s(0.0); n]
}

fn train(
    o: VectorOptions,
    q: QuantizationOptions,
    v: &Vec<Vec<Scalar>>,
) -> Result<Quantizer, TrainError> {
    let fit = |_: &Vec<Vec<Scalar>>| -> Vec<Scalar> {
        match q {
            QuantizationOptions::Product(p) => zeros((1usize << p.bits) * o.dims as usize),
            QuantizationOptions::RaBitQ(_) => zeros((o.dims * o.dims) as usize),
            _ => panic!("asked to fit"),
        }
    };
    Quantizer::train(o, q, v, &fit)
}

fn error_of(r: Result<Quantizer, TrainError>) -> TrainError {
    match r {
        Ok(_) => panic!("training succeeded"),
        Err(e) => e,
    }
}

#[test]
fn train_trivial_records_the_dimensions() {
    let v = vectors(&[&[1.0, 2.0, 3.0]]);
    let q = train(options(3), trivial(), &v).unwrap();
    assert!(matches!(q, Quantizer::Trivial(_)));
    assert_eq!(q.dims(), 3);
    assert!(!q.coded());
    assert_eq!(q.bits(), 0);
    assert_eq!(q.width(), 0);
    assert_eq!(q.bytes(), 0);
}

#[test]
fn train_scalar_finds_the_range_of_every_component() {
    let v = vectors(&[&[1.0, -2.0, 0.0], &[-1.0, 5.0, 0.0], &[0.5, 3.0, -0.0]]);
    let q = train(options(3), scalar(4), &v).unwrap();
    match &q {
        Quantizer::Scalar(x) => {
            assert_eq!(x.dims(), 3);
            assert_eq!(x.bits(), 4);
            assert_eq!(x.width(), 3);
            assert_eq!(x.bytes(), 2);
            assert_eq!(x.min(), &vec![s(-1.0), s(-2.0), s(-0.0)]);
            assert_eq!(x.max(), &vec![s(1.0), s(5.0), s(0.0)]);
        }
        _ => panic!("not a scalar quantizer"),
    }
    assert!(q.coded());
    assert_eq!(q.bits(), 4);
    assert_eq!(q.width(), 3);
    assert_eq!(q.bytes(), 2);
}

#[test]
fn train_scalar_on_one_vector_has_empty_ranges() {
    let v = vectors(&[&[4.0, 7.0]]);
    match train(options(2), scalar(8), &v).unwrap() {
        Quantizer::Scalar(x) => {
            assert_eq!(x.min(), &vec![s(4.0), s(7.0)]);
            assert_eq!(x.max(), &vec![s(4.0), s(7.0)]);
        }
        _ => panic!("not a scalar quantizer"),
    }
}

#[test]
fn scalar_bytes_for_every_width() {
    let v = vectors(&[&[0.0; 9]]);
    for (bits, bytes) in [(1u32, 2u32), (2, 3), (4, 5), (8, 9)] {
        let q = train(options(9), scalar(bits), &v).unwrap();
        assert_eq!(q.bytes(), bytes);
    }
}

#[test]
fn train_product_groups_the_components() {
    let v = vectors(&[&[0.0; 10]]);
    let q = train(options(10), product(3, 4), &v).unwrap();
    match &q {
        Quantizer::Product(x) => {
            assert_eq!(x.dims(), 10);
            assert_eq!(x.ratio(), 3);
            assert_eq!(x.bits(), 4);
            assert_eq!(x.width(), 4);
            assert_eq!(x.bytes(), 2);
        }
        _ => panic!("not a product quantizer"),
    }
    assert_eq!(q.width(), 4);
    assert_eq!(q.bytes(), 2);
}

#[test]
fn train_product_twice_gives_one_shape() {
    let v = vectors(&[
        &[0.0, 0.0, 1.0, 1.0],
        &[0.1, 0.0, 1.0, 0.9],
        &[5.0, 5.0, 3.0, 3.0],
        &[5.1, 5.0, 3.0, 3.1],
        &[9.0, 9.0, 7.0, 7.0],
        &[9.0, 9.1, 7.1, 7.0],
        &[2.0, 8.0, 4.0, 6.0],
        &[2.0, 8.1, 4.1, 6.0],
    ]);
    let means = |vectors: &Vec<Vec<Scalar>>| -> Vec<Scalar> {
        let mut centroids = Vec::new();
        for code in 0..4 {
            for j in 0..4 {
                let a = f32::from_bits(vectors[2 * code][j].to_bits());
                let b = f32::from_bits(vectors[2 * code + 1][j].to_bits());
                centroids.push(s((a + b) / 2.0));
            }
        }
        centroids
    };
    let a = Quantizer::train(options(4), product(2, 2), &v, &means).unwrap();
    let b = Quantizer::train(options(4), product(2, 2), &v, &means).unwrap();
    match (&a, &b) {
        (Quantizer::Product(x), Quantizer::Product(y)) => {
            assert_eq!(x.centroids(), y.centroids());
            assert_eq!(x.centroids().len(), 16);
            assert_eq!(x.centroids()[0], s(0.05));
            assert_eq!(x.centroids()[15], s(6.0));
        }
        _ => panic!("not product quantizers"),
    }
    for q in [&a, &b] {
        assert_eq!(q.dims(), 4);
        assert_eq!(q.width(), 2);
        assert_eq!(q.bits(), 2);
        assert_eq!(q.bytes(), 1);
    }
}

#[test]
fn train_rabitq_records_the_dimensions() {
    let v = vectors(&[&[1.0, 2.0]]);
    let q = train(options(2), rabitq(), &v).unwrap();
    assert!(matches!(q, Quantizer::RaBitQ(_)));
    assert_eq!(q.dims(), 2);
    assert!(!q.coded());
}

#[test]
fn train_refuses_no_dimensions() {
    let v = vectors(&[&[]]);
    for o in [trivial(), scalar(4), product(1, 4), rabitq(), scalar(3), product(0, 3)] {
        assert_eq!(error_of(train(options(0), o, &v)), TrainError::InvalidDimensions);
    }
}

#[test]
fn train_refuses_other_code_widths() {
    let v = vectors(&[&[1.0]]);
    for bits in [0u32, 3, 5, 6, 7, 9, 16, 32] {
        assert_eq!(
            error_of(train(options(1), scalar(bits), &v)),
            TrainError::UnsupportedBits
        );
        assert_eq!(
            error_of(train(options(1), product(1, bits), &v)),
            TrainError::UnsupportedBits
        );
        assert_eq!(
            error_of(train(options(1), product(0, bits), &v)),
            TrainError::UnsupportedBits
        );
    }
}

#[test]
fn train_refuses_empty_groups() {
    let v = vectors(&[&[1.0]]);
    assert_eq!(
        error_of(train(options(1), product(0, 4), &v)),
        TrainError::InvalidRatio
    );
    assert_eq!(
        error_of(train(options(1), product(0, 4), &Vec::new())),
        TrainError::InvalidRatio
    );
}

#[test]
fn train_refuses_no_vectors() {
    for o in [trivial(), scalar(4), product(1, 4), rabitq()] {
        assert_eq!(
            error_of(train(options(2), o, &Vec::new())),
            TrainError::EmptyVectors
        );
    }
}

#[test]
fn train_refuses_vectors_of_other_dimensions() {
    let v = vectors(&[&[1.0, 2.0], &[1.0], &[1.0, 2.0]]);
    for o in [trivial(), scalar(4), product(1, 4), rabitq()] {
        assert_eq!(error_of(train(options(2), o, &v)), TrainError::DimensionMismatch);
    }
}

#[test]
fn quantizers_are_made_from_their_parts() {
    assert!(TrivialQuantizer::new(0).is_none());
    assert_eq!(TrivialQuantizer::new(3).unwrap().dims(), 3);
    assert!(RaBitQuantizer::new(0, zeros(0)).is_none());
    assert!(RaBitQuantizer::new(3, zeros(8)).is_none());
    assert_eq!(RaBitQuantizer::new(3, zeros(9)).unwrap().dims(), 3);
    assert_eq!(RaBitQuantizer::new(3, zeros(9)).unwrap().rotation(), &zeros(9));
    assert!(ProductQuantizer::new(0, 1, 4, zeros(0)).is_none());
    assert!(ProductQuantizer::new(4, 0, 4, zeros(64)).is_none());
    assert!(ProductQuantizer::new(4, 2, 3, zeros(32)).is_none());
    assert!(ProductQuantizer::new(4, 2, 4, zeros(63)).is_none());
    assert!(ProductQuantizer::new(4, 2, 4, zeros(64)).is_some());
    assert_eq!(ProductQuantizer::new(5, 2, 8, zeros(5 * 256)).unwrap().width(), 3);
    assert!(ScalarQuantizer::new(2, 4, vec![s(1.0), s(1.0)], vec![s(0.0), s(0.0)]).is_some());
    assert!(ScalarQuantizer::new(2, 4, vec![s(1.0)], vec![s(0.0), s(0.0)]).is_none());
    assert!(ScalarQuantizer::new(2, 4, vec![s(1.0), s(1.0)], vec![s(0.0)]).is_none());
    assert!(ScalarQuantizer::new(2, 5, vec![s(1.0), s(1.0)], vec![s(0.0), s(0.0)]).is_none());
    assert!(ScalarQuantizer::new(0, 4, vec![], vec![]).is_none());
    assert!(ScalarQuantizer::new(2, 4, vec![s(1.0), s(-1.0)], vec![s(0.0), s(0.0)]).is_none());
}

#[test]
fn cloned_quantizer_keeps_its_parts() {
    let v = vectors(&[&[1.0, -2.0], &[-1.0, 5.0]]);
    let q = train(options(2), scalar(2), &v).unwrap();
    match (&q, &q.clone()) {
        (Quantizer::Scalar(a), Quantizer::Scalar(b)) => {
            assert_eq!(a.dims(), b.dims());
            assert_eq!(a.bits(), b.bits());
            assert_eq!(a.min(), b.min());
            assert_eq!(a.max(), b.max());
        }
        _ => panic!("not scalar quantizers"),
    }
}

#[test]
fn nearest_is_the_first_of_the_least() {
    assert_eq!(nearest(&Vec::new()), None);
    assert_eq!(nearest(&vec![7]), Some(0));
    assert_eq!(nearest(&vec![7, 3, 9, 3]), Some(1));
    assert_eq!(nearest(&vec![2, 2, 2]), Some(0));
    assert_eq!(nearest(&vec![9, 8, 7, 0]), Some(3));
}

#[test]
fn product_encode_picks_the_nearest_centroid_of_every_group() {
    let x = ProductQuantizer::new(6, 2, 2, zeros(24)).unwrap();
    let centroids = [[0.0f32, 10.0, 20.0, 30.0], [5.0, 5.0, 1.0, 0.0], [3.0, 2.0, 1.0, 1.0]];
    let target = [19.0f32, 4.0, 1.0];
    let distance = |group: u32, code: u8| -> u64 {
        let d = centroids[group as usize][code as usize] - target[group as usize];
        (d * d * 16.0) as u64
    };
    assert_eq!(x.encode(&distance), vec![2, 0, 2]);
}

#[test]
fn product_encode_asks_once_for_each_group_and_code() {
    let x = ProductQuantizer::new(3, 1, 1, zeros(6)).unwrap();
    let asked = std::cell::RefCell::new(Vec::new());
    let distance = |group: u32, code: u8| -> u64 {
        asked.borrow_mut().push((group, code));
        0
    };
    assert_eq!(x.encode(&distance), vec![0, 0, 0]);
    assert_eq!(*asked.borrow(), vec![(0, 0), (0, 1), (1, 0), (1, 1), (2, 0), (2, 1)]);
}

#[test]
fn binarize_packs_the_signs() {
    let x = RaBitQuantizer::new(10, zeros(100)).unwrap();
    let rotated: Vec<Scalar> =
        [1.0f32, -1.0, 0.0, -0.0, 3.5, -2.0, f32::INFINITY, f32::NEG_INFINITY, -7.0, 7.0]
            .iter()
            .map(|&v| s(v))
            .collect();
    assert_eq!(x.binarize(&rotated), Some(vec![0b0101_0101, 0b0000_0010]));
    assert_eq!(x.binarize(&rotated[1..].to_vec()), None);
}

#[test]
fn train_keeps_what_was_fitted() {
    let v = vectors(&[&[1.0, 2.0], &[3.0, 4.0]]);
    let fit = |vectors: &Vec<Vec<Scalar>>| -> Vec<Scalar> { vectors.concat() };
    match Quantizer::train(options(2), rabitq(), &v, &fit).unwrap() {
        Quantizer::RaBitQ(x) => assert_eq!(x.rotation(), &vec![s(1.0), s(2.0), s(3.0), s(4.0)]),
        _ => panic!("not a rotating quantizer"),
    }
    match Quantizer::train(options(2), product(1, 1), &v, &fit).unwrap() {
        Quantizer::Product(x) => assert_eq!(x.centroids(), &vec![s(1.0), s(2.0), s(3.0), s(4.0)]),
        _ => panic!("not a product quantizer"),
    }
}

#[test]
fn train_refuses_parameters_of_another_number() {
    let v = vectors(&[&[1.0, 2.0], &[3.0, 4.0]]);
    let fit = |vectors: &Vec<Vec<Scalar>>| -> Vec<Scalar> { vectors.concat() };
    assert_eq!(
        error_of(Quantizer::train(options(2), product(1, 2), &v, &fit)),
        TrainError::MalformedParameters
    );
    let short = |_: &Vec<Vec<Scalar>>| -> Vec<Scalar> { zeros(3) };
    assert_eq!(
        error_of(Quantizer::train(options(2), rabitq(), &v, &short)),
        TrainError::MalformedParameters
    );
}

#[test]
fn train_does_not_fit_trivial_and_scalar() {
    let v = vectors(&[&[1.0, 2.0]]);
    assert!(Quantizer::train(options(2), trivial(), &v, &no_fit).is_ok());
    assert!(Quantizer::train(options(2), scalar(4), &v, &no_fit).is_ok());
    assert_eq!(
        error_of(Quantizer::train(options(2), product(1, 3), &v, &no_fit)),
        TrainError::UnsupportedBits
    );
    assert_eq!(
        error_of(Quantizer::train(options(3), rabitq(), &v, &no_fit)),
        TrainError::DimensionMismatch
    );
}

#[test]
fn product_centroid_is_the_part_of_a_group() {
    let centroids: Vec<Scalar> = (0..20).map(|k| s(k as f32)).collect();
    let x = ProductQuantizer::new(5, 2, 2, centroids).unwrap();
    assert_eq!(x.width(), 3);
    assert_eq!(x.group_range(0), (0, 2));
    assert_eq!(x.group_range(1), (2, 4));
    assert_eq!(x.group_range(2), (4, 5));
    assert_eq!(x.centroid(0, 0), &[s(0.0), s(1.0)]);
    assert_eq!(x.centroid(0, 2), &[s(4.0)]);
    assert_eq!(x.centroid(3, 1), &[s(17.0), s(18.0)]);
    assert_eq!(x.centroid(3, 2), &[s(19.0)]);
}
