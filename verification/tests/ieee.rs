use bubble_lib::ieee::{value_eq, value_lt};

fn samples() -> Vec<f32> {
    vec![
        0.0,
        -0.0,
        1.0,
        -1.0,
        0.5,
        -0.5,
        1.5e-45,
        -1.5e-45,
        f32::MIN_POSITIVE,
        f32::MAX,
        f32::MIN,
        f32::INFINITY,
        f32::NEG_INFINITY,
        f32::NAN,
        -f32::NAN,
        f32::from_bits(0x7f80_0001),
        f32::from_bits(0xffc0_0001),
        3.0,
        100.0,
        -100.0,
    ]
}

#[test]
fn value_lt_agrees_with_f32_less_than() {
    for a in samples() {
        for b in samples() {
            assert_eq!(value_lt(a.to_bits(), b.to_bits()), a < b, "{:?} < {:?}", a, b);
        }
    }
}

#[test]
fn value_eq_agrees_with_f32_equality() {
    for a in samples() {
        for b in samples() {
            assert_eq!(value_eq(a.to_bits(), b.to_bits()), a == b, "{:?} == {:?}", a, b);
        }
    }
}

#[test]
fn zeros_are_equal_and_nan_is_not_equal_to_itself() {
    assert!(value_eq(0.0f32.to_bits(), (-0.0f32).to_bits()));
    assert!(!value_lt((-0.0f32).to_bits(), 0.0f32.to_bits()));
    assert!(!value_eq(f32::NAN.to_bits(), f32::NAN.to_bits()));
    assert!(value_lt((-2.0f32).to_bits(), (-1.0f32).to_bits()));
    assert!(!value_lt((-1.0f32).to_bits(), (-2.0f32).to_bits()));
}
