use meetings::measure::{Measure, INFINITY_BITS, NEG_INFINITY_BITS};

fn m(x: f32) -> Measure {
    Measure { bits: x.to_bits() }
}

#[test]
fn measures_compare_as_their_numbers() {
    let numbers = vec![
        f32::NEG_INFINITY,
        f32::MIN,
        -1.5,
        -1.0,
        -f32::MIN_POSITIVE,
        -1e-45,
        -0.0,
        0.0,
        1e-45,
        f32::MIN_POSITIVE,
        0.005,
        0.2,
        0.5,
        1.0,
        2.0,
        f32::MAX,
        f32::INFINITY,
        f32::NAN,
        -f32::NAN,
    ];
    for a in &numbers {
        for b in &numbers {
            assert_eq!(m(*a).lt(&m(*b)), *a < *b);
            assert_eq!(m(*a).gt(&m(*b)), *a > *b);
        }
        assert_eq!(m(*a).is_nan(), a.is_nan());
    }
}

#[test]
fn measures_compare_on_many_patterns() {
    let mut x: u32 = 12345;
    let mut y: u32 = 987654321;
    for _ in 0..200000 {
        x = x.wrapping_mul(1664525).wrapping_add(1013904223);
        y = y.wrapping_mul(22695477).wrapping_add(1);
        let a = f32::from_bits(x);
        let b = f32::from_bits(y);
        assert_eq!(Measure { bits: x }.lt(&Measure { bits: y }), a < b);
        assert_eq!(Measure { bits: x }.is_nan(), a.is_nan());
    }
}

#[test]
fn the_two_zeros_are_the_same_number() {
    assert!(!m(0.0).lt(&m(-0.0)));
    assert!(!m(-0.0).lt(&m(0.0)));
}

#[test]
fn infinities_have_their_patterns() {
    assert_eq!(f32::INFINITY.to_bits(), INFINITY_BITS);
    assert_eq!(f32::NEG_INFINITY.to_bits(), NEG_INFINITY_BITS);
}
