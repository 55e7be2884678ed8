use memory_store::similarity::{cosine_similarity, dot_product, SCORE_SCALE};

#[test]
fn identical_unit_vectors_score_one() {
    let a: Vec<i64> = vec![1_000_000, 0, 0];
    assert_eq!(cosine_similarity(&a, &a), SCORE_SCALE);
}

#[test]
fn parallel_vectors_score_one() {
    let a: Vec<i64> = vec![500_000, 0, 0];
    let b: Vec<i64> = vec![1_000_000, 0, 0];
    assert_eq!(cosine_similarity(&a, &b), SCORE_SCALE);
}

#[test]
fn orthogonal_vectors_score_zero() {
    let a: Vec<i64> = vec![1_000_000, 0];
    let b: Vec<i64> = vec![0, 1_000_000];
    assert_eq!(cosine_similarity(&a, &b), 0);
}

#[test]
fn opposite_vectors_score_minus_one() {
    let a: Vec<i64> = vec![1_000_000, 0];
    let b: Vec<i64> = vec![-1_000_000, 0];
    assert_eq!(cosine_similarity(&a, &b), -SCORE_SCALE);
}

#[test]
fn zero_magnitude_scores_zero() {
    let a: Vec<i64> = vec![0, 0];
    let b: Vec<i64> = vec![1_000_000, 0];
    assert_eq!(cosine_similarity(&a, &b), 0);
    assert_eq!(cosine_similarity(&b, &a), 0);
    assert_eq!(cosine_similarity(&a, &a), 0);
}

#[test]
fn dot_product_exact_value() {
    let a: Vec<i64> = vec![1, 2, 3];
    let b: Vec<i64> = vec![4, -5, 6];
    assert_eq!(dot_product(&a, &b), 4 - 10 + 18);
}

#[test]
fn halfway_vectors_score_near_cosine() {
    // 45 degrees: cosine is sqrt(2)/2; the fixed-point result with an
    // exact integer square root lands within a thousandth of it
    let a: Vec<i64> = vec![1_000_000, 0];
    let b: Vec<i64> = vec![1_000_000, 1_000_000];
    let s = cosine_similarity(&a, &b);
    assert!((s - 707_106).abs() < 1_000, "score was {s}");
}
