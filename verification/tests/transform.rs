use vek::vecs::SparseVector;
use vek::vecs::Transformations;

fn sv(id: &str, index: Vec<u32>, value: Vec<i64>) -> SparseVector {
    SparseVector::new(id.to_string(), index, value).unwrap()
}

#[test]
fn sparse_normalize_exact() {
    let v = sv("v", vec![4, 9], vec![3_000_000, 4_000_000]);
    let u = v.normalize();
    assert_eq!(u.id, "v");
    assert_eq!(u.index, vec![4, 9]);
    assert_eq!(u.value, vec![600_000, 800_000]);
}

#[test]
fn sparse_normalize_rounds_toward_zero() {
    let v = sv("v", vec![1, 2], vec![-1, 1]);
    // the norm of (-1, 1) rounds down to 1, so each weight scales by SCALE
    let u = v.normalize();
    assert_eq!(u.value, vec![-1_000_000, 1_000_000]);
}

#[test]
fn sparse_add_merges_feature_union() {
    let a = sv("a", vec![1, 3], vec![100, 300]);
    let b = sv("b", vec![2, 3], vec![20, 30]);
    let s = a.add(&b);
    assert_eq!(s.id, "a");
    assert_eq!(s.index, vec![1, 2, 3]);
    assert_eq!(s.value, vec![100, 20, 330]);
}

#[test]
fn sparse_sub_merges_feature_union() {
    let a = sv("a", vec![1, 3], vec![100, 300]);
    let b = sv("b", vec![2, 3], vec![20, 30]);
    let d = a.sub(&b);
    assert_eq!(d.index, vec![1, 2, 3]);
    assert_eq!(d.value, vec![100, -20, 270]);
}

#[test]
fn sparse_add_commutes_on_weights() {
    let a = sv("a", vec![1, 5], vec![7, -2]);
    let b = sv("b", vec![5, 8], vec![4, 9]);
    let ab = a.add(&b);
    let ba = b.add(&a);
    assert_eq!(ab.index, ba.index);
    assert_eq!(ab.value, ba.value);
}
