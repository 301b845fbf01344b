use omnirecall::similarity::{cosine_similarity, dot_product, isqrt, SCORE_SCALE};

#[test]
fn test_cosine_similarity() {
    let a = vec![1000, 0, 0];
    let b = vec![1000, 0, 0];
    assert!((cosine_similarity(&a, &b) - SCORE_SCALE).abs() < SCORE_SCALE / 1000);

    let c = vec![0, 1000, 0];
    assert!((cosine_similarity(&a, &c) - 0).abs() < SCORE_SCALE / 1000);
}

#[test]
fn self_similarity_is_exactly_one() {
    let a = vec![3, -7, 12, 40];
    assert_eq!(cosine_similarity(&a, &a), SCORE_SCALE);
}

#[test]
fn similarity_is_symmetric() {
    let a = vec![1000, 250, -75];
    let b = vec![-40, 900, 333];
    assert_eq!(cosine_similarity(&a, &b), cosine_similarity(&b, &a));
}

#[test]
fn orthogonal_vectors_score_zero() {
    let a = vec![1000, 0];
    let b = vec![0, 777];
    assert_eq!(cosine_similarity(&a, &b), 0);
}

#[test]
fn mismatched_dimensions_score_zero() {
    let a = vec![1000, 0, 0];
    let b = vec![1000, 0];
    assert_eq!(cosine_similarity(&a, &b), 0);
    assert_eq!(cosine_similarity(&b, &a), 0);
}

#[test]
fn empty_and_zero_vectors_score_zero() {
    let e: Vec<i64> = vec![];
    assert_eq!(cosine_similarity(&e, &e), 0);
    let z = vec![0, 0, 0];
    let a = vec![1000, 0, 0];
    assert_eq!(cosine_similarity(&z, &a), 0);
    assert_eq!(cosine_similarity(&a, &z), 0);
}

#[test]
fn known_similarity_value() {
    // cos([1, 0, 0], [0.9, 0.1, 0]) = 0.9 / sqrt(0.82) = 0.99388...;
    // with floor square roots: 900000 * 1e6 / (1000 * 905) = 994475.
    let a = vec![1000, 0, 0];
    let b = vec![900, 100, 0];
    assert_eq!(cosine_similarity(&a, &b), 994_475);
}

#[test]
fn dot_product_matches_by_hand() {
    let a = vec![2, -3, 4];
    let b = vec![5, 7, -1];
    assert_eq!(dot_product(&a, &b), 2 * 5 - 3 * 7 - 4);
}

#[test]
fn isqrt_exact_values() {
    assert_eq!(isqrt(0), 0);
    assert_eq!(isqrt(1), 1);
    assert_eq!(isqrt(3), 1);
    assert_eq!(isqrt(4), 2);
    assert_eq!(isqrt(820_000), 905);
    assert_eq!(isqrt(u64::MAX), 4_294_967_295);
}
