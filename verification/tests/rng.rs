use raytracer::rng::{unit_bits, unit_float_bits, SIGN_EXP};

#[test]
fn unit_bits_of_zero_is_one() {
    assert_eq!(unit_bits(0), SIGN_EXP);
    assert_eq!(f32::from_bits(unit_bits(0)), 1.0);
}

#[test]
fn unit_bits_of_max_is_just_below_two() {
    assert_eq!(unit_bits(u32::MAX), 0x3FFF_FFFF);
    let f = f32::from_bits(unit_bits(u32::MAX));
    assert!(f < 2.0 && f > 1.99999);
}

#[test]
fn unit_bits_keeps_the_top_23_bits() {
    assert_eq!(unit_bits(0x8000_0000), 0x3FC0_0000);
    assert_eq!(f32::from_bits(unit_bits(0x8000_0000)), 1.5);
    assert_eq!(unit_bits(0x0000_01FF), SIGN_EXP);
    assert_eq!(unit_bits(0x0000_0200), SIGN_EXP | 1);
}

#[test]
fn random_floats_lie_in_unit_interval() {
    for _ in 0..1000 {
        let bits = unit_float_bits().expect("random source");
        assert_eq!(bits >> 23, 127);
        let f = f32::from_bits(bits) - 1.0;
        assert!((0.0..1.0).contains(&f));
    }
}
