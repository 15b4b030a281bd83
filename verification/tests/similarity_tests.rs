use mem0_rust::errors::MemoryError;
use mem0_rust::similarity::{cosine_similarity, integer_sqrt, COMPONENT_ONE, SCORE_ONE};

const ONE: i32 = 1_000_000_000;

#[test]
fn cosine_of_known_vectors() {
    assert_eq!(cosine_similarity(&[ONE, 0], &[ONE, ONE]).unwrap(), 707_106);
    assert_eq!(cosine_similarity(&[600_000_000, 800_000_000], &[ONE, 0]).unwrap(), 600_000);
    assert_eq!(cosine_similarity(&[600_000_000, 800_000_000], &[0, ONE]).unwrap(), 800_000);
    assert_eq!(
        cosine_similarity(&[600_000_000, 800_000_000], &[800_000_000, 600_000_000]).unwrap(),
        960_000
    );
    assert_eq!(cosine_similarity(&[ONE / 2; 4], &[ONE, 0, 0, 0]).unwrap(), 500_000);
    assert_eq!(cosine_similarity(&[1, 2, 3], &[3, 2, 1]).unwrap(), 714_285);
}

#[test]
fn cosine_of_orthogonal_vectors_is_zero() {
    assert_eq!(cosine_similarity(&[ONE, 0], &[0, ONE]).unwrap(), 0);
    assert_eq!(
        cosine_similarity(&[600_000_000, 800_000_000], &[-800_000_000, 600_000_000]).unwrap(),
        0
    );
}

#[test]
fn cosine_of_opposed_vectors_is_negative() {
    assert_eq!(cosine_similarity(&[ONE, 0], &[-ONE, 0]).unwrap(), -1_000_000);
    assert_eq!(
        cosine_similarity(&[600_000_000, 800_000_000], &[600_000_000, -800_000_000]).unwrap(),
        -280_000
    );
    assert_eq!(
        cosine_similarity(&[i32::MIN, i32::MIN], &[i32::MAX, i32::MAX]).unwrap(),
        -SCORE_ONE
    );
}

#[test]
fn cosine_is_symmetric() {
    let vectors: Vec<Vec<i32>> = vec![
        vec![ONE, 0, 0],
        vec![577_350_269, 577_350_269, 577_350_269],
        vec![-300_000_000, 400_000_000, 1_200_000_000],
        vec![1, 2, 3],
        vec![0, 0, 0],
        vec![i32::MAX, i32::MIN, 17],
    ];
    for a in &vectors {
        for b in &vectors {
            assert_eq!(
                cosine_similarity(a, b).unwrap(),
                cosine_similarity(b, a).unwrap()
            );
        }
    }
}

#[test]
fn cosine_of_a_vector_with_itself_is_one() {
    let vectors: Vec<Vec<i32>> = vec![
        vec![ONE, 0, 0],
        vec![577_350_269, 577_350_269, 577_350_269],
        vec![-300_000_000, 400_000_000, 1_200_000_000],
        vec![1],
        vec![1, 1],
        vec![i32::MAX, i32::MIN, 17],
    ];
    for a in &vectors {
        assert_eq!(cosine_similarity(a, a).unwrap(), SCORE_ONE);
    }
}

#[test]
fn cosine_with_a_zero_vector_is_zero() {
    assert_eq!(cosine_similarity(&[0, 0], &[ONE, 0]).unwrap(), 0);
    assert_eq!(cosine_similarity(&[ONE, 0], &[0, 0]).unwrap(), 0);
    assert_eq!(cosine_similarity(&[0, 0], &[0, 0]).unwrap(), 0);
    assert_eq!(cosine_similarity(&[], &[]).unwrap(), 0);
}

#[test]
fn cosine_of_vectors_of_a_few_units_is_fine() {
    assert_eq!(cosine_similarity(&[1, 1], &[1, 0]).unwrap(), 707_106);
    assert_eq!(cosine_similarity(&[7, 0], &[5, 5]).unwrap(), 707_106);
    assert_eq!(cosine_similarity(&[3, 4], &[4, 3]).unwrap(), 960_000);
    assert_eq!(cosine_similarity(&[707_106_781, 707_106_781], &[ONE, 0]).unwrap(), 707_106);
}

#[test]
fn cosine_of_a_long_and_a_short_vector_is_fine() {
    assert_eq!(cosine_similarity(&[i32::MAX; 3], &[1, 0, 0]).unwrap(), 577_350);
}

#[test]
fn cosine_of_different_lengths_is_a_mismatch() {
    let failed = cosine_similarity(&[1, 2, 3], &[1, 2]);
    assert_eq!(
        failed,
        Err(MemoryError::DimensionMismatch { expected: 3, actual: 2 })
    );
    let other = cosine_similarity(&[], &[5]);
    assert_eq!(
        other,
        Err(MemoryError::DimensionMismatch { expected: 0, actual: 1 })
    );
}

#[test]
fn cosine_takes_long_vectors_of_extreme_components() {
    let a: Vec<i32> = vec![i32::MIN; 100_000];
    let b: Vec<i32> = vec![i32::MAX; 100_000];
    assert_eq!(cosine_similarity(&a, &a).unwrap(), SCORE_ONE);
    assert_eq!(cosine_similarity(&a, &b).unwrap(), -SCORE_ONE);
}

#[test]
fn integer_sqrt_rounds_down() {
    assert_eq!(integer_sqrt(0), 0);
    assert_eq!(integer_sqrt(1), 1);
    assert_eq!(integer_sqrt(2), 1);
    assert_eq!(integer_sqrt(3), 1);
    assert_eq!(integer_sqrt(4), 2);
    assert_eq!(integer_sqrt(99), 9);
    assert_eq!(integer_sqrt(100), 10);
    assert_eq!(integer_sqrt(200_000_000), 14_142);
    assert_eq!(integer_sqrt(1_000_000_000_000), 1_000_000);
    assert_eq!(integer_sqrt(u128::MAX), u64::MAX);
    assert_eq!(integer_sqrt((u64::MAX as u128) * (u64::MAX as u128)), u64::MAX);
    assert_eq!(integer_sqrt((u64::MAX as u128) * (u64::MAX as u128) - 1), u64::MAX - 1);
}

#[test]
fn units_are_billionths_and_millionths() {
    assert_eq!(COMPONENT_ONE, 1_000_000_000);
    assert_eq!(SCORE_ONE, 1_000_000);
}

fn float_cosine(a: &[i32], b: &[i32]) -> f64 {
    let dot: f64 = a.iter().zip(b.iter()).map(|(x, y)| f64::from(*x) * f64::from(*y)).sum();
    let na: f64 = a.iter().map(|x| f64::from(*x) * f64::from(*x)).sum();
    let nb: f64 = b.iter().map(|x| f64::from(*x) * f64::from(*x)).sum();
    if na == 0.0 || nb == 0.0 {
        0.0
    } else {
        dot / (na.sqrt() * nb.sqrt())
    }
}

#[test]
fn cosine_agrees_with_the_floating_point_formula() {
    let vectors: Vec<Vec<i32>> = vec![
        vec![ONE, 0, 0, 0],
        vec![ONE / 2, ONE / 2, ONE / 2, ONE / 2],
        vec![707_106_781, -707_106_781, 0, 0],
        vec![-100_000_000, 200_000_000, -300_000_000, 932_700_000],
        vec![1, 1, 0, 0],
        vec![3, -4, 12, 0],
        vec![-9, 1, 5, -2],
        vec![i32::MAX, -1_500_000_000, i32::MIN, 1],
    ];
    for a in &vectors {
        for b in &vectors {
            let counted = f64::from(cosine_similarity(a, b).unwrap()) / 1_000_000.0;
            let exact = float_cosine(a, b);
            assert!((counted - exact).abs() < 1.5e-6, "{} against {}", counted, exact);
        }
    }
}
