use vek::vecs::Distances;
use vek::vecs::InvalidVector;
use vek::vecs::SparseVector;

fn sv(id: &str, index: Vec<u32>, value: Vec<i64>) -> SparseVector {
    SparseVector::new(id.to_string(), index, value).unwrap()
}

#[test]
fn kernel_self_is_squared_norm() {
    // a unit-normalized vector (0.6, 0.8) in micro-units scores SCALE^2
    let v = sv("v", vec![1, 2], vec![600_000, 800_000]);
    assert_eq!(v.cosine(&v), 1_000_000_000_000i128);
}

#[test]
fn kernel_self_not_normalized() {
    let v = sv("v", vec![3, 7], vec![300_000, 400_000]);
    assert_eq!(v.cosine(&v), 250_000_000_000i128);
}

#[test]
fn kernel_commutes() {
    let x = sv("x", vec![1, 2], vec![600_000, 800_000]);
    let y = sv("y", vec![1, 3], vec![600_000, 800_000]);
    assert_eq!(x.cosine(&y), 360_000_000_000i128);
    assert_eq!(y.cosine(&x), 360_000_000_000i128);
}

#[test]
fn kernel_disjoint_is_zero() {
    let a = sv("a", vec![1, 3, 5], vec![100, 200, 300]);
    let b = sv("b", vec![2, 4, 6], vec![100, 200, 300]);
    assert_eq!(a.cosine(&b), 0);
    assert_eq!(b.cosine(&a), 0);
}

#[test]
fn kernel_negative_weights() {
    let a = sv("a", vec![1], vec![-500_000]);
    let b = sv("b", vec![1], vec![400_000]);
    assert_eq!(a.cosine(&b), -200_000_000_000i128);
}

#[test]
fn norm_exact() {
    let v = sv("v", vec![1, 2], vec![600_000, 800_000]);
    assert_eq!(v.norm(), 1_000_000);
}

#[test]
fn norm_rounds_down() {
    let v = sv("v", vec![1, 2], vec![1, 1]);
    // sqrt(2) rounds down to 1
    assert_eq!(v.norm(), 1);
}

#[test]
fn sad_exact() {
    let a = sv("a", vec![1, 2, 9], vec![600_000, 800_000, 5]);
    let b = sv("b", vec![1, 2], vec![100_000, 50_000]);
    assert_eq!(a.sad(&b), 1_250_000);
}

#[test]
fn ssd_exact() {
    let a = sv("a", vec![1, 2], vec![600_000, 800_000]);
    let b = sv("b", vec![1, 2, 4], vec![100_000, 50_000, 7]);
    assert_eq!(a.ssd(&b), 812_500_000_000i128);
}

#[test]
fn euclidean_root_applied_once_over_full_sum() {
    let a = sv("a", vec![1, 2], vec![600_000, 800_000]);
    let b = sv("b", vec![1, 2], vec![100_000, 50_000]);
    // floor(sqrt(500000^2 + 750000^2)), not a sum of per-term roots
    assert_eq!(a.euclidean(&b), 901_387);
    assert_eq!(a.sad(&b), 1_250_000);
}

#[test]
fn new_rejects_length_mismatch() {
    let r = SparseVector::new("v".to_string(), vec![1, 2], vec![10]);
    assert_eq!(r.unwrap_err(), InvalidVector::LengthMismatch);
}

#[test]
fn new_rejects_empty() {
    let r = SparseVector::new("v".to_string(), vec![], vec![]);
    assert_eq!(r.unwrap_err(), InvalidVector::Empty);
}

#[test]
fn new_rejects_unsorted_indices() {
    let r = SparseVector::new("v".to_string(), vec![2, 1], vec![10, 20]);
    assert_eq!(r.unwrap_err(), InvalidVector::NotAscending);
}

#[test]
fn new_rejects_duplicate_indices() {
    let r = SparseVector::new("v".to_string(), vec![1, 1], vec![10, 20]);
    assert_eq!(r.unwrap_err(), InvalidVector::NotAscending);
}

#[test]
fn new_rejects_weight_out_of_range() {
    let r = SparseVector::new("v".to_string(), vec![1], vec![0x4000_0001]);
    assert_eq!(r.unwrap_err(), InvalidVector::WeightOutOfRange);
}

#[test]
fn new_accepts_well_formed() {
    let v = SparseVector::new("v".to_string(), vec![1, 5, 9], vec![-10, 0, 10]).unwrap();
    assert_eq!(v.id, "v");
    assert_eq!(v.index, vec![1, 5, 9]);
    assert_eq!(v.value, vec![-10, 0, 10]);
}
