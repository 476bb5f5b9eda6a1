use stats::Binary64;

fn samples() -> Vec<f64> {
    let mut xs = vec![
        f64::NEG_INFINITY,
        f64::MIN,
        -1e300,
        -2.0,
        -1.5,
        -1.0000000000000002,
        -1.0,
        -0.5,
        -f64::MIN_POSITIVE,
        -2.2250738585072009e-308,
        -1e-320,
        -5e-324,
        -0.0,
        0.0,
        5e-324,
        1e-320,
        2.2250738585072009e-308,
        f64::MIN_POSITIVE,
        0.1,
        0.5,
        1.0,
        1.0000000000000002,
        1.5,
        2.0,
        1e300,
        f64::MAX,
        f64::INFINITY,
    ];
    let mut state: u64 = 0x9e37_79b9_7f4a_7c15;
    while xs.len() < 200 {
        state = state.wrapping_mul(6364136223846793005).wrapping_add(1442695040888963407);
        let x = f64::from_bits(state);
        if !x.is_nan() {
            xs.push(x);
        }
    }
    xs
}

fn key(x: f64) -> i64 {
    Binary64::from_bits(x.to_bits()).key()
}

#[test]
fn bits_round_trip() {
    for x in samples() {
        let b = Binary64::from_bits(x.to_bits());
        assert_eq!(x.to_bits(), b.to_bits());
        assert_eq!(x.to_bits(), b.bits);
    }
    assert_eq!(0x3ff0_0000_0000_0000, Binary64::from_bits(1.0f64.to_bits()).to_bits());
}

#[test]
fn key_order_is_numeric_order() {
    let xs = samples();
    for &a in &xs {
        for &b in &xs {
            assert_eq!(a < b, key(a) < key(b), "{a:?} {b:?}");
            assert_eq!(a == b, key(a) == key(b), "{a:?} {b:?}");
            assert_eq!(a > b, key(a) > key(b), "{a:?} {b:?}");
        }
    }
}

#[test]
fn key_of_known_encodings() {
    assert_eq!(0, key(0.0));
    assert_eq!(0, key(-0.0));
    assert_eq!(1, key(5e-324));
    assert_eq!(-1, key(-5e-324));
    assert_eq!(0x3ff0_0000_0000_0000, key(1.0));
    assert_eq!(-0x3ff0_0000_0000_0000, key(-1.0));
    assert_eq!(0x7ff0_0000_0000_0000, key(f64::INFINITY));
    assert_eq!(-0x7ff0_0000_0000_0000, key(f64::NEG_INFINITY));
    assert_eq!(0x7fef_ffff_ffff_ffff, key(f64::MAX));
    assert_eq!(i64::MAX, Binary64::from_bits(0x7fff_ffff_ffff_ffff).key());
    assert_eq!(-i64::MAX, Binary64::from_bits(0xffff_ffff_ffff_ffff).key());
}

#[test]
fn is_nan_agrees_with_the_hardware() {
    for x in samples() {
        assert!(!Binary64::from_bits(x.to_bits()).is_nan());
    }
    assert!(Binary64::from_bits(f64::NAN.to_bits()).is_nan());
    assert!(Binary64::from_bits((-f64::NAN).to_bits()).is_nan());
    assert!(Binary64::from_bits(0x7ff0_0000_0000_0001).is_nan());
    assert!(Binary64::from_bits(0xfff0_0000_0000_0001).is_nan());
    assert!(Binary64::from_bits(0x7fff_ffff_ffff_ffff).is_nan());
    assert!(Binary64::from_bits(0xffff_ffff_ffff_ffff).is_nan());
    assert!(!Binary64::from_bits(0x7ff0_0000_0000_0000).is_nan());
    assert!(!Binary64::from_bits(0xfff0_0000_0000_0000).is_nan());
    let mut state: u64 = 42;
    for _ in 0..10_000 {
        state = state.wrapping_mul(6364136223846793005).wrapping_add(1442695040888963407);
        // Keep the exponent bits set so that NaNs are common.
        let bits = state | 0x7ff0_0000_0000_0000;
        assert_eq!(f64::from_bits(bits).is_nan(), Binary64::from_bits(bits).is_nan());
        assert_eq!(f64::from_bits(state).is_nan(), Binary64::from_bits(state).is_nan());
    }
}

#[test]
fn equality_is_equality_of_encodings() {
    let plus = Binary64::from_bits(0.0f64.to_bits());
    let minus = Binary64::from_bits((-0.0f64).to_bits());
    assert_ne!(plus, minus);
    assert_eq!(plus.key(), minus.key());
    assert_eq!(plus, Binary64 { bits: 0 });
}
