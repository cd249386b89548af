use quantization::fast_scan::pack;
use quantization::options::{
    DistanceKind, ProductQuantizationOptions, QuantizationOptions, RaBitQuantizationOptions,
    ScalarQuantizationOptions, TrivialQuantizationOptions, VectorKind, VectorOptions,
};
use quantization::packing::{pack_codes, unpack_codes};
use quantization::container::{CreateError, OpenError, Quantization};
use quantization::quantizer::{ProductQuantizer, Quantizer, TrainError, TrivialQuantizer};
use quantization::scalar::Scalar;

fn s(x: f32) -> Scalar {
    Scalar::from_bits(x.to_bits())
}

fn options(dims: u32) -> VectorOptions {
    VectorOptions { dims, v: VectorKind::Vecf32, d: DistanceKind::L2 }
}

fn scalar(bits: u32) -> QuantizationOptions {
    QuantizationOptions::Scalar(ScalarQuantizationOptions { bits })
}

fn encode(q: &Quantizer, v: &Vec<Scalar>) -> Vec<u8> {
    match q {
        Quantizer::Scalar(x) => {
            let top = ((1u32 << x.bits()) - 1) as f32;
            (0..v.len())
                .map(|j| {
                    let min = f32::from_bits(x.min()[j].to_bits());
                    let max = f32::from_bits(x.max()[j].to_bits());
                    let value = f32::from_bits(v[j].to_bits());
                    let w = ((value - min) * top / (max - min)).round() as u32;
                    w.min(top as u32) as u8
                })
                .collect()
        }
        Quantizer::Product(x) => (0..x.width()).map(|g| (g % (1 << x.bits())) as u8).collect(),
        _ => panic!("this quantizer stores no codes"),
    }
}

fn codes(n: usize, width: usize, levels: usize) -> Vec<Vec<u8>> {
    (0..n).map(|id| (0..width).map(|i| ((id * 3 + i * 7) % levels) as u8).collect()).collect()
}

fn product(dims: u32, ratio: u32, bits: u32) -> Quantizer {
    let centroids = vec![s(0.0); (dims as usize) << bits];
    Quantizer::Product(ProductQuantizer::new(dims, ratio, bits, centroids).unwrap())
}

fn fit(vectors: &Vec<Vec<Scalar>>) -> Vec<Scalar> {
    let dims = vectors[0].len();
    vec![s(0.0); dims * dims]
}

#[test]
fn create_encodes_the_midpoint_at_the_middle_of_the_grid() {
    let vectors: Vec<Vec<Scalar>> =
        [0.0f32, 1.0, 2.0].iter().map(|&x| vec![s(x); 4]).collect();
    let q = Quantization::create(options(4), scalar(8), &vectors, &fit, &encode).unwrap();
    assert_eq!(q.len(), 3);
    assert_eq!(q.record(0), &[0u8; 4]);
    assert_eq!(q.record(1), &[128u8; 4]);
    assert_eq!(q.record(2), &[255u8; 4]);
    assert_eq!(q.codes(), &vec![0, 0, 0, 0, 128, 128, 128, 128, 255, 255, 255, 255]);
    assert!(q.packed_codes().is_empty());
}

#[test]
fn create_reports_the_error_of_training() {
    let vectors = vec![vec![s(1.0)]];
    let r = Quantization::create(options(1), scalar(3), &vectors, &fit, &encode);
    assert_eq!(r.err(), Some(CreateError::Train(TrainError::UnsupportedBits)));
    let r = Quantization::create(options(2), scalar(4), &vectors, &fit, &encode);
    assert_eq!(r.err(), Some(CreateError::Train(TrainError::DimensionMismatch)));
    let r = Quantization::create(options(1), scalar(4), &Vec::new(), &fit, &encode);
    assert_eq!(r.err(), Some(CreateError::Train(TrainError::EmptyVectors)));
}

#[test]
fn create_refuses_codes_that_the_quantizer_does_not_produce() {
    let vectors = vec![vec![s(1.0), s(2.0)]];
    let short = |_: &Quantizer, _: &Vec<Scalar>| vec![0u8];
    let r = Quantization::create(options(2), scalar(4), &vectors, &fit, &short);
    assert_eq!(r.err(), Some(CreateError::MalformedCodes));
    let wide = |_: &Quantizer, _: &Vec<Scalar>| vec![0u8, 16];
    let r = Quantization::create(options(2), scalar(4), &vectors, &fit, &wide);
    assert_eq!(r.err(), Some(CreateError::MalformedCodes));
}

#[test]
fn create_stores_no_codes_for_trivial_and_rabitq() {
    let vectors = vec![vec![s(1.0), s(2.0)], vec![s(3.0), s(4.0)]];
    let never = |_: &Quantizer, _: &Vec<Scalar>| -> Vec<u8> { panic!("asked for codes") };
    for o in [
        QuantizationOptions::Trivial(TrivialQuantizationOptions {}),
        QuantizationOptions::RaBitQ(RaBitQuantizationOptions {}),
    ] {
        let q = Quantization::create(options(2), o, &vectors, &fit, &never).unwrap();
        assert_eq!(q.len(), 0);
        assert!(q.codes().is_empty());
        assert!(q.packed_codes().is_empty());
    }
}

#[test]
fn create_with_product_options_packs_what_encode_gives() {
    let vectors: Vec<Vec<Scalar>> = (0..3).map(|_| vec![s(0.0); 5]).collect();
    let o = QuantizationOptions::Product(ProductQuantizationOptions { ratio: 2, bits: 2 });
    let fit = |_: &Vec<Vec<Scalar>>| -> Vec<Scalar> { vec![s(0.0); 20] };
    let q = Quantization::create(options(5), o, &vectors, &fit, &encode).unwrap();
    assert_eq!(q.len(), 3);
    for id in 0..3 {
        assert_eq!(unpack_codes(2, q.record(id), 3), vec![0u8, 1, 2]);
    }
}

#[test]
fn from_codes_packs_every_vector_for_every_width() {
    for (bits, levels) in [(1u32, 2usize), (2, 4), (4, 16), (8, 256)] {
        for n in [0usize, 1, 32, 33] {
            let width = 5usize;
            let encoded = codes(n, width, levels);
            let q = Quantization::from_codes(product(5, 1, bits), &encoded).unwrap();
            assert_eq!(q.len() as usize, n);
            let bytes = q.train().bytes() as usize;
            assert_eq!(q.codes().len(), n * bytes);
            let mut expected = Vec::new();
            for id in 0..n {
                expected.extend(pack_codes(bits, &encoded[id]).unwrap());
                assert_eq!(unpack_codes(bits, q.record(id as u32), width as u32), encoded[id]);
            }
            assert_eq!(q.codes(), &expected);
            if bits == 4 {
                assert_eq!(q.packed_codes(), &pack(width as u32, &encoded).unwrap());
                assert_eq!(q.packed_codes().len(), (n + 31) / 32 * width * 16);
            } else {
                assert!(q.packed_codes().is_empty());
            }
        }
    }
}

#[test]
fn from_codes_refuses_malformed_codes() {
    let r = Quantization::from_codes(product(4, 2, 4), &vec![vec![1u8, 2, 3]]);
    assert_eq!(r.err(), Some(CreateError::MalformedCodes));
    let r = Quantization::from_codes(product(4, 2, 4), &vec![vec![1u8, 16]]);
    assert_eq!(r.err(), Some(CreateError::MalformedCodes));
    let trivial = Quantizer::Trivial(TrivialQuantizer::new(4).unwrap());
    let r = Quantization::from_codes(trivial.clone(), &vec![vec![1u8]]);
    assert_eq!(r.err(), Some(CreateError::MalformedCodes));
    assert!(Quantization::from_codes(trivial, &Vec::new()).is_ok());
}

#[test]
fn open_gives_back_what_was_created() {
    for (bits, levels) in [(1u32, 2usize), (2, 4), (4, 16), (8, 256)] {
        for n in [0usize, 1, 32, 33] {
            let encoded = codes(n, 6, levels);
            let created = Quantization::from_codes(product(6, 1, bits), &encoded).unwrap();
            let opened = Quantization::open(
                created.train().clone(),
                created.codes().clone(),
                created.packed_codes().clone(),
            )
            .unwrap();
            assert_eq!(opened.len(), created.len());
            assert_eq!(opened.codes(), created.codes());
            assert_eq!(opened.packed_codes(), created.packed_codes());
            for id in 0..n as u32 {
                assert_eq!(opened.record(id), created.record(id));
            }
        }
    }
}

#[test]
fn open_refuses_codes_that_are_no_whole_records() {
    let r = Quantization::open(product(6, 1, 8), vec![0u8; 13], Vec::new());
    assert_eq!(r.err(), Some(OpenError::MalformedCodes));
    let trivial = Quantizer::Trivial(TrivialQuantizer::new(4).unwrap());
    let r = Quantization::open(trivial, vec![0u8], Vec::new());
    assert_eq!(r.err(), Some(OpenError::MalformedCodes));
}

#[test]
fn open_refuses_packed_codes_that_do_not_fit_the_codes() {
    let encoded = codes(5, 6, 16);
    let created = Quantization::from_codes(product(6, 1, 4), &encoded).unwrap();
    let train = created.train().clone();
    let codes = created.codes().clone();
    let packed = created.packed_codes().clone();

    let r = Quantization::open(train.clone(), codes.clone(), Vec::new());
    assert_eq!(r.err(), Some(OpenError::MalformedPackedCodes));

    let mut changed = packed.clone();
    changed[17] ^= 0x10;
    let r = Quantization::open(train.clone(), codes.clone(), changed);
    assert_eq!(r.err(), Some(OpenError::MalformedPackedCodes));

    let mut longer = packed.clone();
    longer.push(0);
    let r = Quantization::open(train.clone(), codes.clone(), longer);
    assert_eq!(r.err(), Some(OpenError::MalformedPackedCodes));

    assert!(Quantization::open(train, codes, packed).is_ok());

    let r = Quantization::open(product(6, 1, 8), vec![0u8; 12], vec![0u8]);
    assert_eq!(r.err(), Some(OpenError::MalformedPackedCodes));
    let trivial = Quantizer::Trivial(TrivialQuantizer::new(4).unwrap());
    let r = Quantization::open(trivial, Vec::new(), vec![0u8]);
    assert_eq!(r.err(), Some(OpenError::MalformedPackedCodes));
}

#[test]
fn create_reports_parameters_of_another_number() {
    let vectors = vec![vec![s(1.0), s(2.0)]];
    let o = QuantizationOptions::Product(ProductQuantizationOptions { ratio: 1, bits: 4 });
    let short = |_: &Vec<Vec<Scalar>>| -> Vec<Scalar> { vec![s(0.0); 31] };
    let r = Quantization::create(options(2), o, &vectors, &short, &encode);
    assert_eq!(r.err(), Some(CreateError::Train(TrainError::MalformedParameters)));
}
