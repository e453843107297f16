use vek::scan::scan;
use vek::scan::scan_parallel;
use vek::scan::scan_prefix;
use vek::topk::DEFAULT_K;
use vek::topk::SimilarityResult;
use vek::vecs::SparseVector;

fn sv(id: &str, index: Vec<u32>, value: Vec<i64>) -> SparseVector {
    SparseVector::new(id.to_string(), index, value).unwrap()
}

fn abc_corpus() -> Vec<SparseVector> {
    vec![
        sv("X", vec![1, 2], vec![600_000, 800_000]),
        sv("Y", vec![1, 3], vec![600_000, 800_000]),
        sv("Z", vec![2, 3], vec![600_000, 800_000]),
    ]
}

fn same_results(a: &[SimilarityResult], b: &[SimilarityResult]) -> bool {
    a.len() == b.len()
        && a.iter().zip(b.iter()).all(|(x, y)| {
            x.id == y.id
                && x.ranked.len() == y.ranked.len()
                && x.ranked.iter().zip(y.ranked.iter()).all(|(c, d)| c.id == d.id && c.score == d.score)
        })
}

#[test]
fn scan_covers_whole_corpus_in_order() {
    let corpus = abc_corpus();
    let results = scan(&corpus, 2);
    assert_eq!(results.len(), 3);
    assert_eq!(results[0].id, "X");
    assert_eq!(results[1].id, "Y");
    assert_eq!(results[2].id, "Z");
    assert_eq!(results[0].ranked[0].id, "Z");
    assert_eq!(results[0].ranked[0].score, 480_000_000_000i128);
    assert_eq!(results[0].ranked[1].id, "Y");
    assert_eq!(results[0].ranked[1].score, 360_000_000_000i128);
    assert_eq!(results[1].ranked[0].id, "Z");
    assert_eq!(results[1].ranked[0].score, 640_000_000_000i128);
    assert_eq!(results[2].ranked[0].id, "Y");
    assert_eq!(results[2].ranked[0].score, 640_000_000_000i128);
}

#[test]
fn scan_parallel_matches_sequential() {
    let corpus = abc_corpus();
    let seq = scan(&corpus, DEFAULT_K);
    let par = scan_parallel(&corpus, DEFAULT_K);
    assert!(same_results(&seq, &par));
    // and the parallel run really ranks the two others per reference
    assert_eq!(par.len(), 3);
    for r in &par {
        assert_eq!(r.ranked.len(), 2);
    }
}

#[test]
fn rerun_is_identical() {
    let corpus = abc_corpus();
    let first = scan(&corpus, 2);
    let second = scan(&corpus, 2);
    assert!(same_results(&first, &second));
    let par_again = scan_parallel(&corpus, 2);
    assert!(same_results(&first, &par_again));
}

#[test]
fn scan_prefix_limits_references() {
    let corpus = abc_corpus();
    let results = scan_prefix(&corpus, 1, 50);
    assert_eq!(results.len(), 1);
    assert_eq!(results[0].id, "X");
    assert_eq!(results[0].ranked.len(), 2);
}

#[test]
fn scan_empty_corpus() {
    let corpus: Vec<SparseVector> = Vec::new();
    let results = scan(&corpus, DEFAULT_K);
    assert!(results.is_empty());
}
