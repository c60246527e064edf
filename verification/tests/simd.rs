use tsdb_engine::compression::simd::{
    batch_delta, batch_delta_of_delta, batch_xor_values, scalar_batch_dod, scalar_delta_i64,
    scalar_xor_f64,
};

#[test]
fn delta_matches_scalar() {
    let timestamps: Vec<i64> = (0..1000).map(|i| i * 1_000_000 + i * i).collect();
    let scalar = scalar_delta_i64(&timestamps);
    let result = batch_delta(&timestamps);
    assert_eq!(scalar, result);
}

#[test]
fn dod_matches_scalar() {
    let timestamps: Vec<i64> = (0..1000).map(|i| i * 1_000_000 + i * i * 3).collect();
    let scalar = scalar_batch_dod(&timestamps);
    let result = batch_delta_of_delta(&timestamps);
    assert_eq!(scalar, result);
}

#[test]
fn xor_matches_scalar() {
    let values: Vec<u64> = (0..1000).map(|i| (25.0 + i as f64 * 0.01).to_bits()).collect();
    let scalar = scalar_xor_f64(&values);
    let result = batch_xor_values(&values);
    assert_eq!(scalar, result);
}

#[test]
fn handles_small_inputs() {
    assert_eq!(batch_delta_of_delta(&[1, 2]), Vec::<i64>::new());
    assert_eq!(batch_delta_of_delta(&[]), Vec::<i64>::new());
    assert_eq!(batch_xor_values(&[1.0f64.to_bits()]), Vec::<u64>::new());
    assert_eq!(batch_delta(&[1]), Vec::<i64>::new());
}

#[test]
fn constant_interval_dod_is_zero() {
    let timestamps: Vec<i64> = (0..100).map(|i| i * 1000).collect();
    let dods = batch_delta_of_delta(&timestamps);
    assert!(dods.iter().all(|&d| d == 0));
}

#[test]
fn differences_of_known_values() {
    assert_eq!(batch_delta(&[3, 5, 4, 4, 10, -1]), vec![2, -1, 0, 6, -11]);
    assert_eq!(batch_delta_of_delta(&[3, 5, 4, 4, 10, -1]), vec![-3, 1, 6, -17]);
    assert_eq!(batch_xor_values(&[0b1100, 0b1010, 0b1010]), vec![0b0110, 0]);
    assert_eq!(scalar_delta_i64(&[]), Vec::<i64>::new());
    assert_eq!(scalar_xor_f64(&[]), Vec::<u64>::new());
    assert_eq!(scalar_batch_dod(&[1, 2]), Vec::<i64>::new());
}

#[test]
fn differences_are_modulo_the_word_size() {
    assert_eq!(batch_delta(&[i64::MIN, i64::MAX, i64::MIN]), vec![-1, 1]);
    assert_eq!(scalar_batch_dod(&[i64::MIN, i64::MAX, i64::MIN]), vec![2]);
}
