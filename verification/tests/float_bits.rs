use spark_model::float_bits::{comes_before, greater, max_float, nan, order_key, NEG_INFINITY};

#[test]
fn negative_infinity_is_below_every_number() {
    assert!(comes_before((-1.0f32).to_bits(), NEG_INFINITY));
    assert!(comes_before(f32::MIN.to_bits(), NEG_INFINITY));
    assert!(!comes_before(NEG_INFINITY, NEG_INFINITY));
}

#[test]
fn order_is_that_of_floats_with_nan_first() {
    let values: [f32; 12] = [
        f32::NEG_INFINITY,
        f32::MIN,
        -1.5,
        -f32::MIN_POSITIVE,
        -1e-45,
        -0.0,
        0.0,
        1e-45,
        0.25,
        7.0,
        f32::MAX,
        f32::INFINITY,
    ];
    for x in values {
        assert!(comes_before(f32::NAN.to_bits(), x.to_bits()));
        assert!(!comes_before(x.to_bits(), f32::NAN.to_bits()));
        assert!(!greater(x.to_bits(), f32::NAN.to_bits()));
        for y in values {
            assert_eq!(comes_before(x.to_bits(), y.to_bits()), x > y, "{x} {y}");
            assert_eq!(greater(x.to_bits(), y.to_bits()), x > y, "{x} {y}");
            assert_eq!(
                order_key(x.to_bits()) == order_key(y.to_bits()),
                x == y,
                "{x} {y}"
            );
        }
    }
}

#[test]
fn both_zeros_have_one_place() {
    assert_eq!(order_key((-0.0f32).to_bits()), 0);
    assert_eq!(order_key(0.0f32.to_bits()), 0);
}

#[test]
fn nan_is_told_from_infinity() {
    assert!(nan(f32::NAN.to_bits()));
    assert!(nan((-f32::NAN).to_bits()));
    assert!(!nan(f32::INFINITY.to_bits()));
    assert!(!nan(NEG_INFINITY));
}

#[test]
fn the_larger_float_ignores_nan() {
    let bits = |x: f32| x.to_bits();
    assert_eq!(max_float(bits(1.0), bits(2.0)), bits(2.0));
    assert_eq!(max_float(bits(-1.0), bits(-2.0)), bits(-1.0));
    assert_eq!(max_float(bits(f32::NAN), bits(3.0)), bits(3.0));
    assert_eq!(max_float(bits(3.0), bits(f32::NAN)), bits(3.0));
}
