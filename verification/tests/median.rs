use stats::{contains_nan, median, Binary64};

fn encode(xs: &[f64]) -> Vec<Binary64> {
    xs.iter().map(|x| Binary64::from_bits(x.to_bits())).collect()
}

fn median_value(xs: &[f64]) -> Option<f64> {
    median(&encode(xs)).map(|m| f64::from_bits(m.to_bits()))
}

#[test]
fn median_of_empty_is_none() {
    assert_eq!(None, median(&[]));
    assert_eq!(None, median_value(&[]));
}

#[test]
fn median_of_single_element_is_that_element() {
    assert_eq!(Some(0.0), median_value(&[0.0]));
    assert_eq!(Some(7.25), median_value(&[7.25]));
    assert_eq!(Some(-3.0), median_value(&[-3.0]));
}

#[test]
fn median_of_even_length_is_lower_central_element() {
    assert_eq!(Some(0.0), median_value(&[0.0, 0.5, -1.0, 1.0]));
    assert_eq!(Some(1.0), median_value(&[2.0, 1.0]));
    assert_eq!(Some(1.0), median_value(&[1.0, 2.0]));
    assert_eq!(Some(3.0), median_value(&[6.0, 1.0, 4.0, 3.0, 2.0, 5.0]));
}

#[test]
fn median_of_odd_length_is_middle_element() {
    assert_eq!(Some(2.0), median_value(&[1.0, 2.0, 3.0]));
    assert_eq!(Some(2.0), median_value(&[3.0, 1.0, 2.0]));
    assert_eq!(Some(10.0), median_value(&[50.0, 10.0, 5.0, 20.0, 1.0]));
}

#[test]
fn median_is_not_an_average() {
    let m = median_value(&[1.0, 2.0]).unwrap();
    assert_ne!(1.5, m);
    assert_eq!(1.0, m);
    let m = median_value(&[10.0, 0.0, 30.0, 20.0]).unwrap();
    assert_eq!(10.0, m);
}

#[test]
fn median_is_an_element_of_the_input() {
    let inputs: Vec<Vec<f64>> = vec![
        vec![4.0],
        vec![4.0, -4.0],
        vec![0.1, 0.2, 0.3, 0.4],
        vec![1e300, -1e300, 5e-324, 0.0, -0.0, 2.5],
        vec![f64::INFINITY, f64::NEG_INFINITY, 1.0, 2.0, 3.0, 4.0, 5.0, 6.0],
    ];
    for xs in inputs {
        let encoded = encode(&xs);
        let m = median(&encoded).unwrap();
        assert!(encoded.contains(&m));
    }
}

#[test]
fn median_leaves_input_unchanged() {
    let xs = vec![0.0, 0.5, -1.0, 1.0, -0.0, 3.0];
    let encoded = encode(&xs);
    let before = encoded.clone();
    let _ = median(&encoded);
    assert_eq!(before, encoded);
    assert_eq!(encode(&xs), encoded);
}

#[test]
fn median_breaks_ties_by_position() {
    // Both zeros are equal numbers; the one found first stands first.
    let plus = Binary64::from_bits(0.0f64.to_bits());
    let minus = Binary64::from_bits((-0.0f64).to_bits());
    assert_eq!(Some(plus), median(&[plus, minus]));
    assert_eq!(Some(minus), median(&[minus, plus]));
    assert_eq!(Some(minus), median(&[plus, minus, minus, plus]));
    assert_eq!(Some(plus), median(&[minus, plus, plus, minus]));
}

#[test]
fn median_orders_negative_values_and_infinities() {
    assert_eq!(Some(-2.0), median_value(&[-1.0, -2.0, -3.0]));
    assert_eq!(Some(0.0), median_value(&[f64::INFINITY, 0.0, f64::NEG_INFINITY]));
    assert_eq!(
        Some(f64::NEG_INFINITY),
        median_value(&[f64::INFINITY, f64::NEG_INFINITY])
    );
    assert_eq!(Some(-5e-324), median_value(&[5e-324, -5e-324, -1.0, 1.0]));
}

#[test]
fn median_agrees_with_sorting_the_values() {
    let mut state: u64 = 0x1234_5678_9abc_def0;
    for len in 1..40usize {
        let mut xs: Vec<f64> = Vec::new();
        while xs.len() < len {
            state = state.wrapping_mul(6364136223846793005).wrapping_add(1442695040888963407);
            let x = f64::from_bits(state);
            if !x.is_nan() {
                xs.push(x);
            }
        }
        let mut sorted = xs.clone();
        sorted.sort_by(|a, b| a.partial_cmp(b).unwrap());
        let middle = len / 2;
        let expected = if len % 2 == 0 { sorted[middle - 1] } else { sorted[middle] };
        assert_eq!(Some(expected.to_bits()), median(&encode(&xs)).map(|m| m.to_bits()));
    }
}

#[test]
fn contains_nan_finds_a_nan_anywhere() {
    assert!(!contains_nan(&[]));
    assert!(!contains_nan(&encode(&[0.0, 1.0, f64::INFINITY, f64::NEG_INFINITY])));
    assert!(contains_nan(&encode(&[f64::NAN])));
    assert!(contains_nan(&encode(&[0.0, 1.0, f64::NAN])));
    assert!(contains_nan(&encode(&[f64::NAN, 0.0, 1.0])));
    assert!(contains_nan(&encode(&[0.0, -f64::NAN, 1.0])));
}
