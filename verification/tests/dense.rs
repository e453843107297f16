use vek::vecs::DenseVector;
use vek::vecs::Distances;
use vek::vecs::Transformations;

#[test]
fn dense_cosine_exact() {
    let a = DenseVector { value: vec![600_000, 800_000] };
    let b = DenseVector { value: vec![100_000, 50_000] };
    assert_eq!(a.cosine(&b), 100_000_000_000i128);
    assert_eq!(b.cosine(&a), 100_000_000_000i128);
}

#[test]
fn dense_norm_exact() {
    let v = DenseVector { value: vec![600_000, 800_000] };
    assert_eq!(v.norm(), 1_000_000);
}

#[test]
fn dense_sad_and_ssd_exact() {
    let a = DenseVector { value: vec![600_000, 800_000] };
    let b = DenseVector { value: vec![100_000, 50_000] };
    assert_eq!(a.sad(&b), 1_250_000);
    assert_eq!(a.ssd(&b), 812_500_000_000i128);
    assert_eq!(a.euclidean(&b), 901_387);
}

#[test]
fn dense_normalize_exact() {
    let v = DenseVector { value: vec![3_000_000, 4_000_000] };
    let u = v.normalize();
    assert_eq!(u.value, vec![600_000, 800_000]);
}

#[test]
fn dense_normalize_negative_weight() {
    let v = DenseVector { value: vec![-3_000_000, 4_000_000] };
    let u = v.normalize();
    assert_eq!(u.value, vec![-600_000, 800_000]);
}

#[test]
fn dense_add_sub() {
    let a = DenseVector { value: vec![100, -200, 300] };
    let b = DenseVector { value: vec![10, 20, -30] };
    assert_eq!(a.add(&b).value, vec![110, -180, 270]);
    assert_eq!(a.sub(&b).value, vec![90, -220, 330]);
}
