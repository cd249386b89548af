use quantization::scalar::Scalar;

fn s(x: f32) -> Scalar {
    Scalar::from_bits(x.to_bits())
}

#[test]
fn scalar_keeps_its_bits() {
    assert_eq!(Scalar::from_bits(0x3f80_0000).to_bits(), 0x3f80_0000);
    assert_eq!(s(1.0).to_bits(), 0x3f80_0000);
}

#[test]
fn order_key_follows_the_total_order() {
    let ascending = [
        f32::NEG_INFINITY,
        -2.5,
        -1.0,
        -f32::MIN_POSITIVE,
        -0.0,
        0.0,
        f32::MIN_POSITIVE,
        1.0,
        2.5,
        f32::INFINITY,
        f32::NAN,
    ];
    for i in 0..ascending.len() {
        for j in 0..ascending.len() {
            let expected = ascending[i].total_cmp(&ascending[j]).is_le();
            assert_eq!(s(ascending[i]).le(s(ascending[j])), expected);
            assert_eq!(
                s(ascending[i]).order_key() <= s(ascending[j]).order_key(),
                expected
            );
        }
    }
}

#[test]
fn order_key_of_known_patterns() {
    assert_eq!(Scalar::from_bits(0).order_key(), 0x8000_0000);
    assert_eq!(Scalar::from_bits(0x8000_0000).order_key(), 0x7fff_ffff);
    assert_eq!(Scalar::from_bits(0xffff_ffff).order_key(), 0);
    assert_eq!(Scalar::from_bits(0x7fff_ffff).order_key(), 0xffff_ffff);
}

#[test]
fn min_and_max_pick_by_the_total_order() {
    assert_eq!(s(1.0).min(s(-3.0)), s(-3.0));
    assert_eq!(s(1.0).max(s(-3.0)), s(1.0));
    assert_eq!(s(-0.0).min(s(0.0)), s(-0.0));
    assert_eq!(s(-0.0).max(s(0.0)), s(0.0));
    assert_eq!(s(2.0).min(s(2.0)), s(2.0));
}
