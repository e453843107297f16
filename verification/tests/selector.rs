use vek::topk::topn;
use vek::vecs::SparseVector;

fn sv(id: &str, index: Vec<u32>, value: Vec<i64>) -> SparseVector {
    SparseVector::new(id.to_string(), index, value).unwrap()
}

fn abc_corpus() -> Vec<SparseVector> {
    vec![
        sv("X", vec![1, 2], vec![600_000, 800_000]),
        sv("Y", vec![1, 3], vec![600_000, 800_000]),
        sv("Z", vec![2, 3], vec![600_000, 800_000]),
    ]
}

#[test]
fn scenario_three_vectors_k2() {
    let corpus = abc_corpus();
    let res = topn(&corpus[0], &corpus, 2);
    assert_eq!(res.id, "X");
    assert_eq!(res.ranked.len(), 2);
    assert_eq!(res.ranked[0].id, "Z");
    assert_eq!(res.ranked[0].score, 480_000_000_000i128);
    assert_eq!(res.ranked[1].id, "Y");
    assert_eq!(res.ranked[1].score, 360_000_000_000i128);
}

#[test]
fn small_corpus_fills_below_k() {
    // with 3 vectors and K=50 every result ranks exactly the 2 others,
    // with no placeholder entries
    let corpus = abc_corpus();
    for reference in &corpus {
        let res = topn(reference, &corpus, 50);
        assert_eq!(res.ranked.len(), 2);
        for c in &res.ranked {
            assert_ne!(c.id, res.id);
            assert!(c.id == "X" || c.id == "Y" || c.id == "Z");
        }
    }
}

#[test]
fn isolated_reference_scores_zero() {
    let corpus = vec![
        sv("R", vec![10], vec![1_000_000]),
        sv("A", vec![1, 2], vec![600_000, 800_000]),
        sv("B", vec![2, 3], vec![600_000, 800_000]),
    ];
    let res = topn(&corpus[0], &corpus, 50);
    assert_eq!(res.ranked.len(), 2);
    for c in &res.ranked {
        assert_eq!(c.score, 0);
        assert_ne!(c.id, "R");
    }
}

#[test]
fn corpus_of_one_yields_empty_ranking() {
    let corpus = vec![sv("R", vec![1], vec![1_000_000])];
    let res = topn(&corpus[0], &corpus, 50);
    assert_eq!(res.id, "R");
    assert!(res.ranked.is_empty());
}

#[test]
fn ranking_is_non_increasing() {
    let corpus = vec![
        sv("r", vec![1, 2, 3], vec![500_000, 500_000, 500_000]),
        sv("a", vec![1], vec![100_000]),
        sv("b", vec![2], vec![900_000]),
        sv("c", vec![3], vec![400_000]),
        sv("d", vec![4], vec![800_000]),
    ];
    let res = topn(&corpus[0], &corpus, 3);
    assert_eq!(res.ranked.len(), 3);
    for w in res.ranked.windows(2) {
        assert!(w[0].score >= w[1].score);
    }
    assert_eq!(res.ranked[0].id, "b");
    assert_eq!(res.ranked[1].id, "c");
    assert_eq!(res.ranked[2].id, "a");
}

#[test]
fn ties_prefer_earlier_corpus_position() {
    let corpus = vec![
        sv("r", vec![1], vec![500_000]),
        sv("first", vec![1], vec![300_000]),
        sv("second", vec![1], vec![300_000]),
        sv("third", vec![1], vec![300_000]),
    ];
    let res = topn(&corpus[0], &corpus, 2);
    assert_eq!(res.ranked.len(), 2);
    assert_eq!(res.ranked[0].id, "first");
    assert_eq!(res.ranked[1].id, "second");
}

#[test]
fn negative_scores_never_enter() {
    let corpus = vec![
        sv("r", vec![1], vec![500_000]),
        sv("neg", vec![1], vec![-300_000]),
        sv("pos", vec![1], vec![200_000]),
    ];
    let res = topn(&corpus[0], &corpus, 50);
    assert_eq!(res.ranked.len(), 1);
    assert_eq!(res.ranked[0].id, "pos");
}

#[test]
fn k_zero_keeps_nothing() {
    let corpus = abc_corpus();
    let res = topn(&corpus[0], &corpus, 0);
    assert!(res.ranked.is_empty());
}

#[test]
fn reference_outside_corpus_ranks_everyone() {
    let corpus = abc_corpus();
    let outside = sv("W", vec![1, 2, 3], vec![500_000, 500_000, 500_000]);
    let res = topn(&outside, &corpus, 50);
    assert_eq!(res.id, "W");
    assert_eq!(res.ranked.len(), 3);
}
