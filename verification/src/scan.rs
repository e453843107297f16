//! Corpus-wide scan: one ranked result per reference vector.
//!
//! The corpus is read-only for the whole run, so the per-reference passes are
//! independent and may execute sequentially or fan out over a worker pool.

use vstd::prelude::*;

use rayon::iter::IntoParallelRefIterator;
use rayon::iter::ParallelIterator;

use crate::topk::SimilarityResult;
use crate::topk::lemma_selection_deterministic;
use crate::topk::result_matches;
use crate::topk::topn;
use crate::vecs::SparseVector;

verus! {

/// Every result slot matches the selection for the reference vector at the
/// same corpus position.
pub open spec fn results_match(res: Seq<SimilarityResult>, cs: Seq<SparseVector>, n: int, k: int) -> bool {
    &&& res.len() == n
    &&& forall|i: int| 0 <= i < n ==> result_matches(#[trigger] res[i], cs[i], cs, k)
}

/// Scans the first `n` corpus members as reference vectors, in corpus order.
pub fn scan_prefix(products: &Vec<SparseVector>, n: usize, k: usize) -> (res: Vec<SimilarityResult>)
    requires
        n <= products@.len(),
        forall|j: int| 0 <= j < products@.len() ==> (#[trigger] products@[j]).well_formed(),
    ensures
        results_match(res@, products@, n as int, k as int),
{
    let mut out: Vec<SimilarityResult> = Vec::new();
    let mut i: usize = 0;
    while i < n
        invariant
            0 <= i <= n,
            out@.len() == i as int,
            forall|q: int| 0 <= q < i as int
                ==> result_matches(#[trigger] out@[q], products@[q], products@, k as int),
        decreases n - i,
    {
        let r = topn(&products[i], products, k);
        out.push(r);
        i = i + 1;
    }
    out
}

/// Scans every corpus member as a reference vector, sequentially.
pub fn scan(products: &Vec<SparseVector>, k: usize) -> (res: Vec<SimilarityResult>)
    requires
        forall|j: int| 0 <= j < products@.len() ==> (#[trigger] products@[j]).well_formed(),
    ensures
        results_match(res@, products@, products@.len() as int, k as int),
{
    let n: usize = products.len();
    scan_prefix(products, n, k)
}

/// Scans every corpus member as a reference vector, fanning the independent
/// per-reference passes out over a worker pool; the collected order is the
/// corpus order.
///
/// Relies on rayon's `par_iter`, `map` and `collect`: collecting a mapped
/// indexed parallel iterator into a `Vec` applies the closure to every
/// element and keeps the original order. The closure only calls the verified
/// `topn`, whose contract gives each slot's match with the selection.
#[verifier::external_body]
pub fn scan_parallel(products: &Vec<SparseVector>, k: usize) -> (res: Vec<SimilarityResult>)
    requires
        forall|j: int| 0 <= j < products@.len() ==> (#[trigger] products@[j]).well_formed(),
    ensures
        results_match(res@, products@, products@.len() as int, k as int),
{
    products.par_iter().map(|reference| topn(reference, products, k)).collect()
}

/// Law: a scan over an unchanged corpus always produces identical results,
/// id for id and score for score, whichever way the passes were scheduled.
pub proof fn lemma_scan_idempotent(
    r1: Seq<SimilarityResult>,
    r2: Seq<SimilarityResult>,
    cs: Seq<SparseVector>,
    n: int,
    k: int,
)
    requires
        results_match(r1, cs, n, k),
        results_match(r2, cs, n, k),
    ensures
        r1.len() == r2.len(),
        forall|i: int| 0 <= i < r1.len()
            ==> (#[trigger] r1[i]).id@ == r2[i].id@
                && r1[i].ranked@.len() == r2[i].ranked@.len(),
        forall|i: int, q: int| 0 <= i < r1.len() && 0 <= q < r1[i].ranked@.len()
            ==> (#[trigger] r1[i].ranked@[q]).id@ == r2[i].ranked@[q].id@
                && r1[i].ranked@[q].score == r2[i].ranked@[q].score,
{
    assert forall|i: int| 0 <= i < r1.len() implies (#[trigger] r1[i]).id@ == r2[i].id@
        && r1[i].ranked@.len() == r2[i].ranked@.len() by {
        lemma_selection_deterministic(r1[i], r2[i], cs[i], cs, k);
    }
    assert forall|i: int, q: int| 0 <= i < r1.len() && 0 <= q < r1[i].ranked@.len() implies (
    #[trigger] r1[i].ranked@[q]).id@ == r2[i].ranked@[q].id@
        && r1[i].ranked@[q].score == r2[i].ranked@[q].score by {
        lemma_selection_deterministic(r1[i], r2[i], cs[i], cs, k);
    }
}

} // verus!
