use mpicd::bench::{generate_complex_vec, Random, RANDOM_MODULUS, RANDOM_MULTIPLIER};

#[test]
fn random_sequence_exact() {
    let mut r = Random::new(1);
    assert_eq!(r.value(), 503);
    assert_eq!(r.value(), 253009);
    assert_eq!(r.value(), (503 * 253009) % RANDOM_MODULUS);
}

#[test]
fn random_large_seed_matches_reduced_seed() {
    // Seeds are equivalent modulo the modulus: the sequences coincide.
    let mut a = Random::new(3);
    let mut b = Random::new(3 + RANDOM_MODULUS);
    for _ in 0..5 {
        assert_eq!(a.value(), b.value());
    }
    assert_eq!(RANDOM_MULTIPLIER, 503);
}

#[test]
fn generated_vector_counts_up() {
    let cv = generate_complex_vec(100, 7);
    let flat: Vec<i32> = cv.0.iter().flatten().copied().collect();
    let expect: Vec<i32> = (0..100).collect();
    assert_eq!(flat, expect);
}

#[test]
fn generated_vector_is_partitioned() {
    let cv = generate_complex_vec(50, 1);
    let total: usize = cv.0.iter().map(|r| r.len()).sum();
    assert_eq!(total, 50);
    assert!(cv.0.iter().all(|r| !r.is_empty()));
}
