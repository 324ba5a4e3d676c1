use spark_model::bytes::{f32_bytes, f32_from_bf16_bytes, f32_from_bytes, i32_bytes};
use spark_model::quant::{
    bf16_bytes, block_amaxes, e2m1_code, to_e2m1_rne, AMAX_FLOOR_E4M3, AMAX_FLOOR_E8M0,
};

fn bits(v: &[f32]) -> Vec<u32> {
    v.iter().map(|x| x.to_bits()).collect()
}

#[test]
fn bf16_rounds_to_nearest_even() {
    // 1.0, a tie down to even, a tie up to even, just above a tie, a negative
    let v = [0x3F80_0000u32, 0x3F80_8000, 0x3F81_8000, 0x3F80_8001, 0xC020_7FFF];
    assert_eq!(
        bf16_bytes(&v),
        vec![0x80, 0x3F, 0x80, 0x3F, 0x82, 0x3F, 0x81, 0x3F, 0x20, 0xC0]
    );
}

#[test]
fn bf16_carries_into_the_exponent() {
    assert_eq!(bf16_bytes(&[0x3FFF_FFFF]), vec![0x00, 0x40]);
    assert_eq!(bf16_bytes(&[f32::MAX.to_bits()]), vec![0x80, 0x7F]);
}

#[test]
fn bf16_wraps_for_the_topmost_patterns() {
    assert_eq!(bf16_bytes(&[0xFFFF_FFFF]), vec![0x00, 0x00]);
}

#[test]
fn what_bf16_holds_comes_back() {
    let v = bits(&[0.0, -0.0, 1.5, -3.0, 256.0, f32::INFINITY]);
    assert_eq!(f32_from_bf16_bytes(&bf16_bytes(&v)), v);
}

#[test]
fn words_come_back() {
    let v = bits(&[0.1, -7.25, f32::MIN_POSITIVE]);
    assert_eq!(f32_from_bytes(&f32_bytes(&v)), v);
    assert_eq!(f32_bytes(&[0x0102_0304]), vec![4, 3, 2, 1]);
    assert_eq!(i32_bytes(&[-1, 258]), vec![255, 255, 255, 255, 2, 1, 0, 0]);
    assert_eq!(f32_from_bytes(&[1, 0, 0, 0, 9]), vec![1]);
}

#[test]
fn the_grid_is_kept() {
    for (code, v) in [0.0f32, 0.5, 1.0, 1.5, 2.0, 3.0, 4.0, 6.0].into_iter().enumerate() {
        assert_eq!(e2m1_code(v.to_bits()) as usize, code);
        assert_eq!(to_e2m1_rne(v.to_bits()), v.to_bits());
        assert_eq!(to_e2m1_rne((-v).to_bits()), (-v).to_bits());
    }
}

#[test]
fn ties_go_to_the_even_code() {
    let round = |x: f32| f32::from_bits(to_e2m1_rne(x.to_bits()));
    assert_eq!(round(0.25), 0.0);
    assert_eq!(round(0.75), 1.0);
    assert_eq!(round(1.25), 1.0);
    assert_eq!(round(1.75), 2.0);
    assert_eq!(round(2.5), 2.0);
    assert_eq!(round(3.5), 4.0);
    assert_eq!(round(5.0), 4.0);
    assert_eq!(round(-2.5), -2.0);
}

#[test]
fn between_ties_the_nearer_value_wins() {
    let round = |x: f32| f32::from_bits(to_e2m1_rne(x.to_bits()));
    assert_eq!(round(0.2500001), 0.5);
    assert_eq!(round(0.74), 0.5);
    assert_eq!(round(2.51), 3.0);
    assert_eq!(round(5.01), 6.0);
    assert_eq!(round(1e30), 6.0);
    assert_eq!(round(f32::NEG_INFINITY), -6.0);
    assert_eq!(round(1e-40), 0.0);
}

#[test]
fn rounding_twice_is_rounding_once() {
    for x in [0.3f32, -0.9, 1.3, 2.7, -4.4, 5.9, 123.0] {
        let once = to_e2m1_rne(x.to_bits());
        assert_eq!(to_e2m1_rne(once), once);
    }
}

#[test]
fn nan_becomes_a_zero_of_its_sign() {
    assert_eq!(to_e2m1_rne(0x7FC0_0000), 0);
    assert_eq!(to_e2m1_rne(0xFFC0_0001), 0x8000_0000);
}

#[test]
fn floors_are_what_they_are_said_to_be() {
    assert_eq!(f32::from_bits(AMAX_FLOOR_E8M0), 6.0 * 2f32.powi(-126));
    assert_eq!(f32::from_bits(AMAX_FLOOR_E4M3), 6.0 * 2f32.powi(-9));
}

#[test]
fn each_block_has_its_largest_magnitude() {
    let x = bits(&[1.0, -3.0, 2.0, 0.0, 0.0, f32::NAN, -0.5]);
    assert_eq!(
        block_amaxes(&x, 3, AMAX_FLOOR_E4M3),
        vec![3.0f32.to_bits(), AMAX_FLOOR_E4M3, 0.5f32.to_bits()]
    );
    assert_eq!(block_amaxes(&x, 100, 0), vec![3.0f32.to_bits()]);
    assert_eq!(block_amaxes(&[], 4, 0), Vec::<u32>::new());
}

#[test]
fn rounding_is_odd_and_keeps_the_order() {
    let v = [
        0.0f32, 1e-40, 0.25, 0.26, 0.5, 0.74, 0.75, 1.0, 1.25, 1.3, 1.75, 2.4, 2.5, 2.6, 3.5, 4.9, 5.0, 5.1, 6.0, 1e9,
        f32::INFINITY,
    ];
    let round = |x: f32| f32::from_bits(to_e2m1_rne(x.to_bits()));
    for (i, &x) in v.iter().enumerate() {
        assert_eq!(to_e2m1_rne((-x).to_bits()), (-round(x)).to_bits());
        for &y in &v[i..] {
            assert!(round(x) <= round(y));
            assert!(round(-y) <= round(-x));
        }
    }
    assert_eq!(to_e2m1_rne(0x7FC0_0000), 0);
    assert_eq!(to_e2m1_rne(0xFFC0_0000), 0x8000_0000);
}
