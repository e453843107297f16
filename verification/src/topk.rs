//! Bounded top-K selection: for one reference vector, keep the K
//! highest-scoring other corpus members without sorting the whole corpus.
//!
//! Ties on the score are broken deterministically in favour of the earlier
//! corpus position, and candidates with a negative score never enter the
//! result, mirroring a selection seeded with zero-score sentinel slots.

use vstd::prelude::*;

use crate::vecs::Distances;
use crate::vecs::SparseVector;
use crate::vecs::dot_from;
use crate::vecs::min_int;

verus! {

/// Default cap on the number of candidates kept per reference vector.
pub const DEFAULT_K: usize = 50;

/// A scored corpus member produced while scanning.
pub struct Candidate {
    pub id: String,
    pub score: i128,
}

/// The ranked outcome of one reference vector's scan: up to K candidates,
/// ordered by non-increasing score.
pub struct SimilarityResult {
    pub id: String,
    pub ranked: Vec<Candidate>,
}

/// Kernel score between a reference vector and a corpus member.
pub open spec fn score_at(rv: SparseVector, c: SparseVector) -> int {
    dot_from(rv.index@, rv.value@, c.index@, c.value@, 0, 0)
}

/// Corpus member `j` competes for a slot: it is not the reference itself
/// (compared by id) and its score is not below the sentinel level zero.
pub open spec fn is_eligible(rv: SparseVector, cs: Seq<SparseVector>, j: int) -> bool {
    &&& 0 <= j < cs.len()
    &&& cs[j].id@ != rv.id@
    &&& score_at(rv, cs[j]) >= 0
}

/// Number of eligible corpus members among the first `upto`.
pub open spec fn n_eligible(rv: SparseVector, cs: Seq<SparseVector>, upto: int) -> int
    decreases upto
        when 0 <= upto
{
    if upto <= 0 {
        0
    } else if is_eligible(rv, cs, upto - 1) {
        n_eligible(rv, cs, upto - 1) + 1
    } else {
        n_eligible(rv, cs, upto - 1)
    }
}

/// Insert the entry `e` (a corpus position paired with its score) into a list
/// ordered by non-increasing score, placing it after every entry whose score
/// ties with it: among equal scores the earlier corpus position wins.
pub open spec fn insert_desc(s: Seq<(int, int)>, e: (int, int)) -> Seq<(int, int)>
    decreases s.len(),
{
    if s.len() == 0 {
        seq![e]
    } else if s[0].1 >= e.1 {
        seq![s[0]] + insert_desc(s.drop_first(), e)
    } else {
        seq![e] + s
    }
}

/// The ranked entries after the first `upto` corpus members were offered,
/// keeping at most `k` of them.
pub open spec fn topk_seq(rv: SparseVector, cs: Seq<SparseVector>, k: int, upto: int) -> Seq<(int, int)>
    decreases upto
        when 0 <= upto
{
    if upto <= 0 {
        Seq::empty()
    } else if is_eligible(rv, cs, upto - 1) {
        let ins = insert_desc(
            topk_seq(rv, cs, k, upto - 1),
            (upto - 1, score_at(rv, cs[upto - 1])),
        );
        if ins.len() <= k {
            ins
        } else {
            ins.take(k)
        }
    } else {
        topk_seq(rv, cs, k, upto - 1)
    }
}

/// The full selection for one reference vector against the whole corpus.
pub open spec fn selection(rv: SparseVector, cs: Seq<SparseVector>, k: int) -> Seq<(int, int)> {
    topk_seq(rv, cs, k, cs.len() as int)
}

/// Scores never increase along the list.
pub open spec fn sorted_desc(s: Seq<(int, int)>) -> bool {
    forall|p: int, q: int| 0 <= p < q < s.len() ==> s[p].1 >= s[q].1
}

/// Every entry names an eligible corpus position below `upto` and carries
/// exactly that member's score.
pub open spec fn good_entries(rv: SparseVector, cs: Seq<SparseVector>, upto: int, s: Seq<(int, int)>) -> bool {
    forall|i: int| 0 <= i < s.len() ==> {
        &&& is_eligible(rv, cs, (#[trigger] s[i]).0)
        &&& s[i].0 < upto
        &&& s[i].1 == score_at(rv, cs[s[i].0])
    }
}

/// No corpus position occurs twice.
pub open spec fn distinct_positions(s: Seq<(int, int)>) -> bool {
    forall|p: int, q: int| 0 <= p < q < s.len() ==> s[p].0 != s[q].0
}

/// What `topn` promises of its result: the id is the reference's, and the
/// ranked entries are exactly the selection, id for id and score for score.
pub open spec fn result_matches(res: SimilarityResult, rv: SparseVector, cs: Seq<SparseVector>, k: int) -> bool {
    let s = selection(rv, cs, k);
    &&& res.id@ == rv.id@
    &&& res.ranked@.len() == s.len()
    &&& forall|i: int| 0 <= i < s.len() ==> {
        &&& (#[trigger] res.ranked@[i]).id@ == cs[s[i].0].id@
        &&& res.ranked@[i].score as int == s[i].1
    }
}

proof fn lemma_insert_desc_props(s: Seq<(int, int)>, e: (int, int))
    ensures
        insert_desc(s, e).len() == s.len() + 1,
        forall|i: int| 0 <= i < insert_desc(s, e).len()
            ==> (#[trigger] insert_desc(s, e)[i]) == e || s.contains(insert_desc(s, e)[i]),
        insert_desc(s, e).contains(e),
        forall|x: (int, int)| #[trigger] s.contains(x) ==> insert_desc(s, e).contains(x),
    decreases s.len(),
{
    if s.len() == 0 {
        assert(insert_desc(s, e)[0] == e);
    } else if s[0].1 >= e.1 {
        lemma_insert_desc_props(s.drop_first(), e);
        let ins = insert_desc(s, e);
        let rec = insert_desc(s.drop_first(), e);
        assert forall|i: int| 0 <= i < ins.len() implies (#[trigger] ins[i]) == e || s.contains(
            ins[i],
        ) by {
            if i == 0 {
                assert(ins[0] == s[0]);
                assert(s.contains(s[0]));
            } else {
                assert(ins[i] == rec[i - 1]);
                if rec[i - 1] == e {
                } else {
                    let w = choose|w: int| 0 <= w < s.drop_first().len() && s.drop_first()[w] == rec[i - 1];
                    assert(s[w + 1] == rec[i - 1]);
                }
            }
        }
        let we = choose|w: int| 0 <= w < rec.len() && rec[w] == e;
        assert(ins[we + 1] == e);
        assert(ins.contains(e));
        assert forall|x: (int, int)| #[trigger] s.contains(x) implies ins.contains(x) by {
            let w = choose|w: int| 0 <= w < s.len() && s[w] == x;
            if w == 0 {
                assert(ins[0] == x);
            } else {
                assert(s.drop_first()[w - 1] == x);
                assert(s.drop_first().contains(x));
                let w2 = choose|w2: int| 0 <= w2 < rec.len() && rec[w2] == x;
                assert(ins[w2 + 1] == x);
            }
        }
    } else {
        let ins = insert_desc(s, e);
        assert(ins[0] == e);
        assert forall|i: int| 0 <= i < ins.len() implies (#[trigger] ins[i]) == e || s.contains(
            ins[i],
        ) by {
            if i > 0 {
                assert(ins[i] == s[i - 1]);
            }
        }
        assert forall|x: (int, int)| #[trigger] s.contains(x) implies ins.contains(x) by {
            let w = choose|w: int| 0 <= w < s.len() && s[w] == x;
            assert(ins[w + 1] == x);
        }
    }
}

proof fn lemma_insert_desc_sorted(s: Seq<(int, int)>, e: (int, int))
    requires
        sorted_desc(s),
    ensures
        sorted_desc(insert_desc(s, e)),
    decreases s.len(),
{
    if s.len() == 0 {
    } else if s[0].1 >= e.1 {
        assert(sorted_desc(s.drop_first()));
        lemma_insert_desc_sorted(s.drop_first(), e);
        lemma_insert_desc_props(s.drop_first(), e);
        let ins = insert_desc(s, e);
        let rec = insert_desc(s.drop_first(), e);
        assert forall|p: int, q: int| 0 <= p < q < ins.len() implies ins[p].1 >= ins[q].1 by {
            if p == 0 {
                assert(ins[0] == s[0]);
                assert(ins[q] == rec[q - 1]);
                if rec[q - 1] == e {
                } else {
                    let w = choose|w: int|
                        0 <= w < s.drop_first().len() && s.drop_first()[w] == rec[q - 1];
                    assert(s[w + 1] == rec[q - 1]);
                }
            } else {
                assert(ins[p] == rec[p - 1]);
                assert(ins[q] == rec[q - 1]);
            }
        }
    } else {
        let ins = insert_desc(s, e);
        assert forall|p: int, q: int| 0 <= p < q < ins.len() implies ins[p].1 >= ins[q].1 by {
            if p > 0 {
                assert(ins[p] == s[p - 1]);
            }
            assert(ins[q] == s[q - 1]);
        }
    }
}

/// Inserting at the first index whose score is strictly below the new score
/// is exactly what `insert_desc` does.
proof fn lemma_insert_desc_at(s: Seq<(int, int)>, e: (int, int), p: int)
    requires
        0 <= p <= s.len(),
        forall|q: int| 0 <= q < p ==> (#[trigger] s[q]).1 >= e.1,
        p < s.len() ==> s[p].1 < e.1,
    ensures
        insert_desc(s, e) == s.insert(p, e),
    decreases s.len(),
{
    if s.len() == 0 {
        assert(insert_desc(s, e) =~= s.insert(0, e));
    } else if p == 0 {
        assert(s[0].1 < e.1);
        assert(insert_desc(s, e) =~= s.insert(0, e));
    } else {
        assert(s[0].1 >= e.1);
        lemma_insert_desc_at(s.drop_first(), e, p - 1);
        assert(insert_desc(s, e) =~= s.insert(p, e));
    }
}

/// Structural facts of the selection, all at once: its length is the number
/// of eligible members capped at `k`, scores never increase along it, every
/// entry is an eligible member's position with its exact score, and no
/// position repeats.
pub proof fn lemma_topk_seq_props(rv: SparseVector, cs: Seq<SparseVector>, k: int, upto: int)
    requires
        0 <= upto <= cs.len(),
        0 <= k,
    ensures
        topk_seq(rv, cs, k, upto).len() == min_int(k, n_eligible(rv, cs, upto)),
        sorted_desc(topk_seq(rv, cs, k, upto)),
        good_entries(rv, cs, upto, topk_seq(rv, cs, k, upto)),
        distinct_positions(topk_seq(rv, cs, k, upto)),
    decreases upto,
{
    if upto > 0 {
        lemma_topk_seq_props(rv, cs, k, upto - 1);
        let prev = topk_seq(rv, cs, k, upto - 1);
        let cur = topk_seq(rv, cs, k, upto);
        if is_eligible(rv, cs, upto - 1) {
            let e = (upto - 1, score_at(rv, cs[upto - 1]));
            let ins = insert_desc(prev, e);
            lemma_insert_desc_props(prev, e);
            lemma_insert_desc_sorted(prev, e);
            assert forall|i: int| 0 <= i < ins.len() implies {
                &&& is_eligible(rv, cs, (#[trigger] ins[i]).0)
                &&& ins[i].0 < upto
                &&& ins[i].1 == score_at(rv, cs[ins[i].0])
            } by {
                if ins[i] == e {
                } else {
                    let w = choose|w: int| 0 <= w < prev.len() && prev[w] == ins[i];
                }
            }
            assert forall|i: int| 0 <= i < prev.len() implies (#[trigger] prev[i]).0 != e.0 by {
                assert(prev[i].0 < upto - 1);
            }
            lemma_insert_desc_distinct(prev, e);
            if ins.len() <= k {
                assert(cur == ins);
            } else {
                assert(cur == ins.take(k));
                assert(forall|i: int| 0 <= i < cur.len() ==> cur[i] == ins[i]);
            }
        }
    }
}

/// Inserting an entry whose position is fresh keeps the positions distinct.
proof fn lemma_insert_desc_distinct(prev: Seq<(int, int)>, e: (int, int))
    requires
        distinct_positions(prev),
        forall|i: int| 0 <= i < prev.len() ==> (#[trigger] prev[i]).0 != e.0,
    ensures
        distinct_positions(insert_desc(prev, e)),
    decreases prev.len(),
{
    let ins = insert_desc(prev, e);
    if prev.len() == 0 {
    } else if prev[0].1 >= e.1 {
        let tail = prev.drop_first();
        let rec = insert_desc(tail, e);
        assert(distinct_positions(tail));
        assert forall|i: int| 0 <= i < tail.len() implies (#[trigger] tail[i]).0 != e.0 by {
            assert(tail[i] == prev[i + 1]);
        }
        lemma_insert_desc_distinct(tail, e);
        lemma_insert_desc_props(tail, e);
        assert forall|p: int, q: int| 0 <= p < q < ins.len() implies ins[p].0 != ins[q].0 by {
            if p == 0 {
                assert(ins[0] == prev[0]);
                assert(ins[q] == rec[q - 1]);
                if rec[q - 1] == e {
                } else {
                    let w = choose|w: int| 0 <= w < tail.len() && tail[w] == rec[q - 1];
                    assert(prev[w + 1] == rec[q - 1]);
                }
            } else {
                assert(ins[p] == rec[p - 1]);
                assert(ins[q] == rec[q - 1]);
            }
        }
    } else {
        assert forall|p: int, q: int| 0 <= p < q < ins.len() implies ins[p].0 != ins[q].0 by {
            if p > 0 {
                assert(ins[p] == prev[p - 1]);
            }
            assert(ins[q] == prev[q - 1]);
        }
    }
}

/// At most `upto` members can be eligible among the first `upto`.
pub proof fn lemma_n_eligible_le(rv: SparseVector, cs: Seq<SparseVector>, upto: int)
    requires
        0 <= upto,
    ensures
        0 <= n_eligible(rv, cs, upto) <= upto,
    decreases upto,
{
    if upto > 0 {
        lemma_n_eligible_le(rv, cs, upto - 1);
    }
}

proof fn lemma_n_eligible_excludes(rv: SparseVector, cs: Seq<SparseVector>, r: int, upto: int)
    requires
        0 <= r < upto,
        cs[r].id@ == rv.id@,
    ensures
        n_eligible(rv, cs, upto) <= upto - 1,
    decreases upto,
{
    if upto - 1 == r {
        lemma_n_eligible_le(rv, cs, upto - 1);
        assert(!is_eligible(rv, cs, upto - 1));
    } else {
        lemma_n_eligible_excludes(rv, cs, r, upto - 1);
    }
}

/// Law: when the reference vector itself stands at some corpus position, the
/// selection holds at most `min(k, corpus size - 1)` entries.
pub proof fn lemma_selection_len_bound(rv: SparseVector, cs: Seq<SparseVector>, k: int, r: int)
    requires
        0 <= k,
        0 <= r < cs.len(),
        cs[r].id@ == rv.id@,
    ensures
        selection(rv, cs, k).len() <= min_int(k, cs.len() - 1),
{
    lemma_topk_seq_props(rv, cs, k, cs.len() as int);
    lemma_n_eligible_excludes(rv, cs, r, cs.len() as int);
}

/// Some entry of `s` carries corpus position `j`.
pub open spec fn seq_has_pos(s: Seq<(int, int)>, j: int) -> bool {
    exists|i: int| 0 <= i < s.len() && s[i].0 == j
}

/// Every entry of `s` scores at least `sc`.
pub open spec fn dominates(s: Seq<(int, int)>, sc: int) -> bool {
    forall|i: int| 0 <= i < s.len() ==> (#[trigger] s[i]).1 >= sc
}

/// Law: the selection keeps the best. An eligible corpus member left out
/// scores at most every retained entry, and a slot stays unfilled only when
/// every eligible member is already retained.
pub proof fn lemma_selection_dominates(rv: SparseVector, cs: Seq<SparseVector>, k: int, upto: int)
    requires
        0 <= upto <= cs.len(),
        0 <= k,
    ensures
        forall|j: int| #[trigger] is_eligible(rv, cs, j) && j < upto
            && !seq_has_pos(topk_seq(rv, cs, k, upto), j)
            ==> dominates(topk_seq(rv, cs, k, upto), score_at(rv, cs[j])),
        topk_seq(rv, cs, k, upto).len() < k ==> forall|j: int| #[trigger] is_eligible(rv, cs, j)
            && j < upto ==> seq_has_pos(topk_seq(rv, cs, k, upto), j),
    decreases upto,
{
    if upto > 0 {
        lemma_selection_dominates(rv, cs, k, upto - 1);
        lemma_topk_seq_props(rv, cs, k, upto - 1);
        lemma_topk_seq_props(rv, cs, k, upto);
        let prev = topk_seq(rv, cs, k, upto - 1);
        let cur = topk_seq(rv, cs, k, upto);
        if is_eligible(rv, cs, upto - 1) {
            let e = (upto - 1, score_at(rv, cs[upto - 1]));
            let ins = insert_desc(prev, e);
            lemma_insert_desc_props(prev, e);
            lemma_insert_desc_sorted(prev, e);
            assert forall|i: int| 0 <= i < prev.len() implies (#[trigger] prev[i]).0 != e.0 by {
                assert(prev[i].0 < upto - 1);
            }
            lemma_insert_desc_distinct(prev, e);
            if ins.len() <= k {
                assert(cur == ins);
            } else {
                assert(cur == ins.take(k));
            }
            // a slot stays unfilled only when every eligible member is kept
            assert forall|j: int| cur.len() < k && #[trigger] is_eligible(rv, cs, j) && j
                < upto implies seq_has_pos(cur, j) by {
                assert(ins.len() <= k);
                assert(cur == ins);
                if j == upto - 1 {
                    let pe = choose|p: int| 0 <= p < ins.len() && ins[p] == e;
                    assert(cur[pe].0 == j);
                } else {
                    assert(prev.len() < k);
                    assert(seq_has_pos(prev, j));
                    let w = choose|w: int| 0 <= w < prev.len() && prev[w].0 == j;
                    assert(prev.contains(prev[w]));
                    assert(ins.contains(prev[w]));
                    let w2 = choose|p: int| 0 <= p < ins.len() && ins[p] == prev[w];
                    assert(cur[w2].0 == j);
                }
            }
            // a member left out scores at most every retained entry
            assert forall|j: int| #[trigger] is_eligible(rv, cs, j) && j < upto && !seq_has_pos(
                cur,
                j,
            ) implies dominates(cur, score_at(rv, cs[j])) by {
                let sj = score_at(rv, cs[j]);
                if j == upto - 1 {
                    let pe = choose|p: int| 0 <= p < ins.len() && ins[p] == e;
                    if ins.len() <= k {
                        assert(cur[pe] == e);
                        assert(seq_has_pos(cur, j));
                    } else {
                        if pe < k {
                            assert(cur[pe] == e);
                            assert(seq_has_pos(cur, j));
                        }
                        assert forall|i: int| 0 <= i < cur.len() implies (#[trigger] cur[i]).1
                            >= sj by {
                            assert(cur[i] == ins[i]);
                            assert(ins[i].1 >= ins[pe].1);
                        }
                    }
                } else if seq_has_pos(prev, j) {
                    let w = choose|w: int| 0 <= w < prev.len() && prev[w].0 == j;
                    let x = prev[w];
                    assert(x.1 == score_at(rv, cs[x.0]));
                    assert(prev.contains(x));
                    assert(ins.contains(x));
                    let wx = choose|p: int| 0 <= p < ins.len() && ins[p] == x;
                    if ins.len() <= k {
                        assert(cur[wx] == x);
                        assert(seq_has_pos(cur, j));
                    } else {
                        if wx < k {
                            assert(cur[wx] == x);
                            assert(seq_has_pos(cur, j));
                        }
                        assert forall|i: int| 0 <= i < cur.len() implies (#[trigger] cur[i]).1
                            >= sj by {
                            assert(cur[i] == ins[i]);
                            assert(ins[i].1 >= ins[wx].1);
                        }
                    }
                } else {
                    // j was already left out: the previous selection dominates
                    // it, and it was full, so the new one dominates it too
                    assert(dominates(prev, sj));
                    if prev.len() < k {
                        assert(seq_has_pos(prev, j));
                    }
                    assert(prev.len() == k);
                    assert(ins.len() == k + 1);
                    assert(cur == ins.take(k));
                    assert forall|i: int| 0 <= i < cur.len() implies (#[trigger] cur[i]).1 >= sj by {
                        assert(cur[i] == ins[i]);
                        if ins[i] == e {
                            // the truncated entry stems from the previous
                            // selection, which dominates sj; sortedness then
                            // carries the bound to the kept copy of e
                            assert(ins[k].0 != ins[i].0);
                            assert(prev.contains(ins[k]));
                            let w2 = choose|w: int| 0 <= w < prev.len() && prev[w] == ins[k];
                            assert(prev[w2].1 >= sj);
                            assert(ins[i].1 >= ins[k].1);
                        } else {
                            assert(prev.contains(ins[i]));
                            let w2 = choose|w: int| 0 <= w < prev.len() && prev[w] == ins[i];
                            assert(prev[w2].1 >= sj);
                        }
                    }
                }
            }
        } else {
            assert(cur == prev);
            assert forall|j: int| #[trigger] is_eligible(rv, cs, j) && j < upto && !seq_has_pos(
                cur,
                j,
            ) implies dominates(cur, score_at(rv, cs[j])) by {
                assert(j < upto - 1);
            }
        }
    }
}

/// Law: the selection is a mathematical function of the corpus, the reference
/// vector and the cap, so any two results that match it agree, id for id and
/// score for score.
pub proof fn lemma_selection_deterministic(
    r1: SimilarityResult,
    r2: SimilarityResult,
    rv: SparseVector,
    cs: Seq<SparseVector>,
    k: int,
)
    requires
        result_matches(r1, rv, cs, k),
        result_matches(r2, rv, cs, k),
    ensures
        r1.id@ == r2.id@,
        r1.ranked@.len() == r2.ranked@.len(),
        forall|i: int| 0 <= i < r1.ranked@.len()
            ==> (#[trigger] r1.ranked@[i]).id@ == r2.ranked@[i].id@
                && r1.ranked@[i].score == r2.ranked@[i].score,
{
}

/// For one reference vector, the K highest-scoring other corpus members, by
/// non-increasing score; ties prefer the earlier corpus position, and
/// candidates scoring below zero never appear.
pub fn topn(reference: &SparseVector, products: &Vec<SparseVector>, k: usize) -> (res: SimilarityResult)
    requires
        reference.well_formed(),
        forall|j: int| 0 <= j < products@.len() ==> (#[trigger] products@[j]).well_formed(),
    ensures
        result_matches(res, *reference, products@, k as int),
        res.ranked@.len() <= min_int(k as int, n_eligible(*reference, products@, products@.len() as int)),
        forall|p: int, q: int| 0 <= p < q < res.ranked@.len()
            ==> (#[trigger] res.ranked@[p]).score >= (#[trigger] res.ranked@[q]).score,
        forall|i: int| 0 <= i < res.ranked@.len() ==> (#[trigger] res.ranked@[i]).id@ != reference.id@,
{
    let ghost cs = products@;
    let ghost rv = *reference;
    let ghost kk = k as int;
    let mut best: Vec<(usize, i128)> = Vec::new();
    let mut j: usize = 0;
    while j < products.len()
        invariant
            0 <= j <= cs.len(),
            best@.len() == topk_seq(rv, cs, kk, j as int).len(),
            forall|i: int| 0 <= i < best@.len() ==> {
                &&& (#[trigger] best@[i]).0 as int == topk_seq(rv, cs, kk, j as int)[i].0
                &&& best@[i].1 as int == topk_seq(rv, cs, kk, j as int)[i].1
            },
        decreases cs.len() - j,
    {
        let ghost prev = topk_seq(rv, cs, kk, j as int);
        proof {
            lemma_topk_seq_props(rv, cs, kk, j as int);
        }
        let cand = &products[j];
        let s: i128 = reference.cosine(cand);
        if s >= 0 && cand.id != reference.id {
            assert(is_eligible(rv, cs, j as int));
            let ghost e = (j as int, score_at(rv, cs[j as int]));
            let mut p: usize = 0;
            while p < best.len() && best[p].1 >= s
                invariant
                    0 <= p <= best@.len(),
                    forall|q: int| 0 <= q < p ==> (#[trigger] best@[q]).1 >= s,
                decreases best@.len() - p,
            {
                p = p + 1;
            }
            proof {
                assert forall|q: int| 0 <= q < p as int implies (#[trigger] prev[q]).1 >= e.1 by {
                    assert(best@[q].1 >= s);
                    assert(best@[q].1 as int == prev[q].1);
                }
                if (p as int) < prev.len() {
                    assert(best@[p as int].1 as int == prev[p as int].1);
                }
                lemma_insert_desc_at(prev, e, p as int);
            }
            best.insert(p, (j, s));
            assert(forall|i: int| 0 <= i < best@.len() ==> {
                &&& (#[trigger] best@[i]).0 as int == insert_desc(prev, e)[i].0
                &&& best@[i].1 as int == insert_desc(prev, e)[i].1
            });
            if best.len() > k {
                let _ = best.pop();
                assert(forall|i: int| 0 <= i < best@.len() ==> {
                    &&& (#[trigger] best@[i]).0 as int == insert_desc(prev, e).take(kk)[i].0
                    &&& best@[i].1 as int == insert_desc(prev, e).take(kk)[i].1
                });
            }
        }
        j = j + 1;
    }
    let ghost fin = selection(rv, cs, kk);
    proof {
        lemma_topk_seq_props(rv, cs, kk, cs.len() as int);
    }
    let mut ranked: Vec<Candidate> = Vec::new();
    let mut i: usize = 0;
    while i < best.len()
        invariant
            0 <= i <= best@.len(),
            ranked@.len() == i as int,
            forall|q: int| 0 <= q < i as int ==> {
                &&& (#[trigger] ranked@[q]).id@ == cs[fin[q].0].id@
                &&& ranked@[q].score as int == fin[q].1
            },
        decreases best@.len() - i,
    {
        assert(is_eligible(rv, cs, fin[i as int].0));
        let entry: (usize, i128) = best[i];
        let name: String = products[entry.0].id.clone();
        ranked.push(Candidate { id: name, score: entry.1 });
        i = i + 1;
    }
    SimilarityResult { id: reference.id.clone(), ranked }
}

} // verus!
