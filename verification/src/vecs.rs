//! Sparse and dense fixed-point vector models and their distance functions.
//!
//! Weights are integers in micro-units (`crate::SCALE` stands for 1.0) and are
//! kept within `crate::WEIGHT_BOUND`, so every merge-join accumulation below
//! fits in `i128` for vectors of any representable length.

use vstd::prelude::*;

use crate::math::floor_sqrt;
use crate::math::isqrt;
use crate::math::lemma_floor_sqrt_at_least;

verus! {

/// Why a vector was rejected at construction time.
#[derive(Clone, Copy, Debug, PartialEq, Eq, Structural)]
pub enum InvalidVector {
    /// The index and value sequences have different lengths.
    LengthMismatch,
    /// The vector has no component at all.
    Empty,
    /// The feature ids are not strictly ascending.
    NotAscending,
    /// A weight lies outside the fixed-point range.
    WeightOutOfRange,
}

/// A weighted feature vector stored as parallel sequences: `index` holds the
/// feature ids in strictly ascending order and `value` the weight of each.
#[derive(Debug)]
pub struct SparseVector {
    pub id: String,
    pub index: Vec<u32>,
    pub value: Vec<i64>,
}

/// A vector stored as one weight per position.
#[derive(Debug)]
pub struct DenseVector {
    pub value: Vec<i64>,
}

/// Feature ids strictly increase along the sequence (hence no duplicates).
pub open spec fn strictly_ascending(s: Seq<u32>) -> bool {
    forall|i: int, j: int| 0 <= i < j < s.len() ==> s[i] < s[j]
}

/// Every weight lies within the fixed-point range.
pub open spec fn bounded_weights(s: Seq<i64>) -> bool {
    forall|i: int| 0 <= i < s.len() ==> -crate::WEIGHT_BOUND <= #[trigger] s[i] <= crate::WEIGHT_BOUND
}

/// No feature id occurs in both index sequences.
pub open spec fn disjoint_indices(a: Seq<u32>, b: Seq<u32>) -> bool {
    forall|p: int, q: int| 0 <= p < a.len() && 0 <= q < b.len() ==> a[p] != b[q]
}

pub open spec fn abs_val(x: int) -> int {
    if x < 0 {
        -x
    } else {
        x
    }
}

pub open spec fn min_int(a: int, b: int) -> int {
    if a <= b {
        a
    } else {
        b
    }
}

/// Merge-join dot product of the suffixes starting at cursors `i` and `j`.
pub open spec fn dot_from(ai: Seq<u32>, av: Seq<i64>, bi: Seq<u32>, bv: Seq<i64>, i: int, j: int) -> int
    decreases ai.len() - i + bi.len() - j
        when 0 <= i && 0 <= j
{
    if i >= ai.len() || j >= bi.len() {
        0
    } else if ai[i] == bi[j] {
        av[i] * bv[j] + dot_from(ai, av, bi, bv, i + 1, j + 1)
    } else if ai[i] < bi[j] {
        dot_from(ai, av, bi, bv, i + 1, j)
    } else {
        dot_from(ai, av, bi, bv, i, j + 1)
    }
}

/// Merge-join sum of absolute differences over matching feature ids.
pub open spec fn sad_from(ai: Seq<u32>, av: Seq<i64>, bi: Seq<u32>, bv: Seq<i64>, i: int, j: int) -> int
    decreases ai.len() - i + bi.len() - j
        when 0 <= i && 0 <= j
{
    if i >= ai.len() || j >= bi.len() {
        0
    } else if ai[i] == bi[j] {
        abs_val(av[i] - bv[j]) + sad_from(ai, av, bi, bv, i + 1, j + 1)
    } else if ai[i] < bi[j] {
        sad_from(ai, av, bi, bv, i + 1, j)
    } else {
        sad_from(ai, av, bi, bv, i, j + 1)
    }
}

/// Merge-join sum of squared differences over matching feature ids.
pub open spec fn ssd_from(ai: Seq<u32>, av: Seq<i64>, bi: Seq<u32>, bv: Seq<i64>, i: int, j: int) -> int
    decreases ai.len() - i + bi.len() - j
        when 0 <= i && 0 <= j
{
    if i >= ai.len() || j >= bi.len() {
        0
    } else if ai[i] == bi[j] {
        (av[i] - bv[j]) * (av[i] - bv[j]) + ssd_from(ai, av, bi, bv, i + 1, j + 1)
    } else if ai[i] < bi[j] {
        ssd_from(ai, av, bi, bv, i + 1, j)
    } else {
        ssd_from(ai, av, bi, bv, i, j + 1)
    }
}

/// Sum of squared weights of the suffix starting at `i`.
pub open spec fn sq_sum(vs: Seq<i64>, i: int) -> int
    decreases vs.len() - i
        when 0 <= i
{
    if i >= vs.len() {
        0
    } else {
        vs[i] * vs[i] + sq_sum(vs, i + 1)
    }
}

/// Positional dot product of two dense weight sequences from `i` on.
pub open spec fn ddot_from(a: Seq<i64>, b: Seq<i64>, i: int) -> int
    decreases a.len() - i
        when 0 <= i
{
    if i >= a.len() || i >= b.len() {
        0
    } else {
        a[i] * b[i] + ddot_from(a, b, i + 1)
    }
}

/// Positional sum of absolute differences from `i` on.
pub open spec fn dsad_from(a: Seq<i64>, b: Seq<i64>, i: int) -> int
    decreases a.len() - i
        when 0 <= i
{
    if i >= a.len() || i >= b.len() {
        0
    } else {
        abs_val(a[i] - b[i]) + dsad_from(a, b, i + 1)
    }
}

/// Positional sum of squared differences from `i` on.
pub open spec fn dssd_from(a: Seq<i64>, b: Seq<i64>, i: int) -> int
    decreases a.len() - i
        when 0 <= i
{
    if i >= a.len() || i >= b.len() {
        0
    } else {
        (a[i] - b[i]) * (a[i] - b[i]) + dssd_from(a, b, i + 1)
    }
}

/// Distance and similarity measures between two vectors of one shape.
///
/// `cosine` is the similarity kernel consumed by the top-K scan: it reads as a
/// cosine score when both vectors are L2-normalized in fixed point, and as a
/// raw dot product otherwise.
pub trait Distances: Sized {
    /// Structural invariant a vector must satisfy before it is measured.
    spec fn valid(&self) -> bool;

    /// Whether the two vectors may be compared at all.
    spec fn comparable(&self, other: &Self) -> bool;

    /// Mathematical sum of squared weights.
    spec fn sq_norm_spec(&self) -> int;

    /// Mathematical dot product over matching features.
    spec fn dot_spec(&self, other: &Self) -> int;

    /// Mathematical sum of absolute differences over matching features.
    spec fn sad_spec(&self, other: &Self) -> int;

    /// Mathematical sum of squared differences over matching features.
    spec fn ssd_spec(&self, other: &Self) -> int;

    /// Euclidean length of the vector, rounded down to an integer.
    fn norm(&self) -> (r: u64)
        requires
            self.valid(),
        ensures
            r as int == floor_sqrt(self.sq_norm_spec()),
    ;

    /// Sum of absolute differences.
    fn sad(&self, other: &Self) -> (r: i128)
        requires
            self.valid(),
            other.valid(),
            self.comparable(other),
        ensures
            r as int == self.sad_spec(other),
    ;

    /// Euclidean distance, i.e. the rounded-down square root of `ssd`,
    /// applied exactly once over the fully accumulated sum.
    fn euclidean(&self, other: &Self) -> (r: u64)
        requires
            self.valid(),
            other.valid(),
            self.comparable(other),
        ensures
            r as int == floor_sqrt(self.ssd_spec(other)),
    ;

    /// Sum of squared differences.
    fn ssd(&self, other: &Self) -> (r: i128)
        requires
            self.valid(),
            other.valid(),
            self.comparable(other),
        ensures
            r as int == self.ssd_spec(other),
    ;

    /// The similarity kernel: the dot product over matching features.
    fn cosine(&self, other: &Self) -> (r: i128)
        requires
            self.valid(),
            other.valid(),
            self.comparable(other),
        ensures
            r as int == self.dot_spec(other),
    ;
}

impl SparseVector {
    /// Structural invariant: aligned parallel sequences, at least one
    /// component, strictly ascending feature ids, weights in range.
    pub open spec fn well_formed(&self) -> bool {
        &&& self.index@.len() == self.value@.len()
        &&& self.index@.len() >= 1
        &&& strictly_ascending(self.index@)
        &&& bounded_weights(self.value@)
    }

    /// The rejection reported for ill-formed inputs, by check order.
    pub open spec fn rejection(index: Seq<u32>, value: Seq<i64>) -> InvalidVector {
        if index.len() != value.len() {
            InvalidVector::LengthMismatch
        } else if index.len() == 0 {
            InvalidVector::Empty
        } else if !strictly_ascending(index) {
            InvalidVector::NotAscending
        } else {
            InvalidVector::WeightOutOfRange
        }
    }

    /// Whether `new` accepts the given parallel sequences.
    pub open spec fn acceptable(index: Seq<u32>, value: Seq<i64>) -> bool {
        &&& index.len() == value.len()
        &&& index.len() >= 1
        &&& strictly_ascending(index)
        &&& bounded_weights(value)
    }

    /// Builds a vector from parallel index/value sequences, rejecting any
    /// input that violates the structural invariant.
    pub fn new(id: String, index: Vec<u32>, value: Vec<i64>) -> (r: Result<SparseVector, InvalidVector>)
        ensures
            r is Ok <==> Self::acceptable(index@, value@),
            match r {
                Ok(v) => v.id@ == id@ && v.index@ == index@ && v.value@ == value@
                    && v.well_formed(),
                Err(e) => e == Self::rejection(index@, value@),
            },
    {
        if index.len() != value.len() {
            return Err(InvalidVector::LengthMismatch);
        }
        if index.len() == 0 {
            return Err(InvalidVector::Empty);
        }
        let mut k: usize = 1;
        while k < index.len()
            invariant
                1 <= k <= index@.len(),
                forall|a: int, b: int| 0 <= a < b < k ==> index@[a] < index@[b],
            decreases index@.len() - k,
        {
            if index[k - 1] >= index[k] {
                assert(!strictly_ascending(index@));
                return Err(InvalidVector::NotAscending);
            }
            assert forall|a: int, b: int| 0 <= a < b < k + 1 implies index@[a] < index@[b] by {
                if b == k && a < k - 1 {
                    assert(index@[a] < index@[k - 1]);
                }
            }
            k = k + 1;
        }
        let mut k: usize = 0;
        while k < value.len()
            invariant
                0 <= k <= value@.len(),
                forall|a: int| 0 <= a < k ==> -crate::WEIGHT_BOUND <= #[trigger] value@[a] <= crate::WEIGHT_BOUND,
            decreases value@.len() - k,
        {
            if value[k] > crate::WEIGHT_BOUND || value[k] < -crate::WEIGHT_BOUND {
                assert(!bounded_weights(value@));
                return Err(InvalidVector::WeightOutOfRange);
            }
            k = k + 1;
        }
        Ok(SparseVector { id, index, value })
    }
}

impl DenseVector {
    /// Structural invariant: at least one component, weights in range.
    pub open spec fn well_formed(&self) -> bool {
        &&& self.value@.len() >= 1
        &&& bounded_weights(self.value@)
    }
}

impl Distances for SparseVector {
    open spec fn valid(&self) -> bool {
        self.well_formed()
    }

    open spec fn comparable(&self, other: &Self) -> bool {
        true
    }

    open spec fn sq_norm_spec(&self) -> int {
        sq_sum(self.value@, 0)
    }

    open spec fn dot_spec(&self, other: &Self) -> int {
        dot_from(self.index@, self.value@, other.index@, other.value@, 0, 0)
    }

    open spec fn sad_spec(&self, other: &Self) -> int {
        sad_from(self.index@, self.value@, other.index@, other.value@, 0, 0)
    }

    open spec fn ssd_spec(&self, other: &Self) -> int {
        ssd_from(self.index@, self.value@, other.index@, other.value@, 0, 0)
    }

    fn norm(&self) -> (r: u64) {
        let mut acc: i128 = 0;
        let mut i: usize = 0;
        while i < self.value.len()
            invariant
                0 <= i <= self.value@.len(),
                acc + sq_sum(self.value@, i as int) == sq_sum(self.value@, 0),
                0 <= acc as int <= (i as int) * 0x1000_0000_0000_0000,
            decreases self.value@.len() - i,
        {
            let v: i64 = self.value[i];
            proof {
                assert(0 <= (v as int) * (v as int) <= 0x1000_0000_0000_0000) by (nonlinear_arith)
                    requires
                        -0x4000_0000 <= v as int <= 0x4000_0000,
                ;
            }
            acc = acc + (v as i128) * (v as i128);
            i = i + 1;
        }
        let r = isqrt(acc as u128);
        r
    }

    fn sad(&self, other: &Self) -> (r: i128) {
        let mut acc: i128 = 0;
        let mut i: usize = 0;
        let mut j: usize = 0;
        while i < self.index.len() && j < other.index.len()
            invariant
                0 <= i <= self.index@.len(),
                0 <= j <= other.index@.len(),
                acc + sad_from(self.index@, self.value@, other.index@, other.value@, i as int, j as int)
                    == sad_from(self.index@, self.value@, other.index@, other.value@, 0, 0),
                0 <= acc as int <= min_int(i as int, j as int) * 0x1_0000_0000,
            decreases self.index@.len() - i + other.index@.len() - j,
        {
            let x: u32 = self.index[i];
            let y: u32 = other.index[j];
            if x == y {
                let d: i64 = self.value[i] - other.value[j];
                let t: i64 = if d < 0 {
                    -d
                } else {
                    d
                };
                acc = acc + t as i128;
                i = i + 1;
                j = j + 1;
            } else if x < y {
                i = i + 1;
            } else {
                j = j + 1;
            }
        }
        acc
    }

    fn euclidean(&self, other: &Self) -> (r: u64) {
        let s: i128 = self.ssd(other);
        let n: usize = self.index.len();
        proof {
            lemma_ssd_from_bounds(self.index@, self.value@, other.index@, other.value@, 0, 0);
            assert(s as int <= (n as int) * 0x4000_0000_0000_0000);
        }
        isqrt(s as u128)
    }

    fn ssd(&self, other: &Self) -> (r: i128) {
        let mut acc: i128 = 0;
        let mut i: usize = 0;
        let mut j: usize = 0;
        while i < self.index.len() && j < other.index.len()
            invariant
                0 <= i <= self.index@.len(),
                0 <= j <= other.index@.len(),
                acc + ssd_from(self.index@, self.value@, other.index@, other.value@, i as int, j as int)
                    == ssd_from(self.index@, self.value@, other.index@, other.value@, 0, 0),
                0 <= acc as int <= min_int(i as int, j as int) * 0x4000_0000_0000_0000,
            decreases self.index@.len() - i + other.index@.len() - j,
        {
            let x: u32 = self.index[i];
            let y: u32 = other.index[j];
            if x == y {
                let d: i64 = self.value[i] - other.value[j];
                proof {
                    assert(0 <= (d as int) * (d as int) <= 0x4000_0000_0000_0000) by (nonlinear_arith)
                        requires
                            -0x8000_0000 <= d as int <= 0x8000_0000,
                    ;
                }
                acc = acc + (d as i128) * (d as i128);
                i = i + 1;
                j = j + 1;
            } else if x < y {
                i = i + 1;
            } else {
                j = j + 1;
            }
        }
        acc
    }

    fn cosine(&self, other: &Self) -> (r: i128) {
        let mut acc: i128 = 0;
        let mut i: usize = 0;
        let mut j: usize = 0;
        while i < self.index.len() && j < other.index.len()
            invariant
                0 <= i <= self.index@.len(),
                0 <= j <= other.index@.len(),
                acc + dot_from(self.index@, self.value@, other.index@, other.value@, i as int, j as int)
                    == dot_from(self.index@, self.value@, other.index@, other.value@, 0, 0),
                -(min_int(i as int, j as int) * 0x1000_0000_0000_0000) <= acc as int,
                acc as int <= min_int(i as int, j as int) * 0x1000_0000_0000_0000,
            decreases self.index@.len() - i + other.index@.len() - j,
        {
            let x: u32 = self.index[i];
            let y: u32 = other.index[j];
            if x == y {
                let a: i64 = self.value[i];
                let b: i64 = other.value[j];
                proof {
                    assert(-0x1000_0000_0000_0000 <= (a as int) * (b as int) <= 0x1000_0000_0000_0000)
                        by (nonlinear_arith)
                        requires
                            -0x4000_0000 <= a as int <= 0x4000_0000,
                            -0x4000_0000 <= b as int <= 0x4000_0000,
                    ;
                }
                acc = acc + (a as i128) * (b as i128);
                i = i + 1;
                j = j + 1;
            } else if x < y {
                i = i + 1;
            } else {
                j = j + 1;
            }
        }
        acc
    }
}

impl Distances for DenseVector {
    open spec fn valid(&self) -> bool {
        self.well_formed()
    }

    open spec fn comparable(&self, other: &Self) -> bool {
        self.value@.len() == other.value@.len()
    }

    open spec fn sq_norm_spec(&self) -> int {
        sq_sum(self.value@, 0)
    }

    open spec fn dot_spec(&self, other: &Self) -> int {
        ddot_from(self.value@, other.value@, 0)
    }

    open spec fn sad_spec(&self, other: &Self) -> int {
        dsad_from(self.value@, other.value@, 0)
    }

    open spec fn ssd_spec(&self, other: &Self) -> int {
        dssd_from(self.value@, other.value@, 0)
    }

    fn norm(&self) -> (r: u64) {
        let mut acc: i128 = 0;
        let mut i: usize = 0;
        while i < self.value.len()
            invariant
                0 <= i <= self.value@.len(),
                acc + sq_sum(self.value@, i as int) == sq_sum(self.value@, 0),
                0 <= acc as int <= (i as int) * 0x1000_0000_0000_0000,
            decreases self.value@.len() - i,
        {
            let v: i64 = self.value[i];
            proof {
                assert(0 <= (v as int) * (v as int) <= 0x1000_0000_0000_0000) by (nonlinear_arith)
                    requires
                        -0x4000_0000 <= v as int <= 0x4000_0000,
                ;
            }
            acc = acc + (v as i128) * (v as i128);
            i = i + 1;
        }
        let r = isqrt(acc as u128);
        r
    }

    fn sad(&self, other: &Self) -> (r: i128) {
        let mut acc: i128 = 0;
        let mut i: usize = 0;
        while i < self.value.len()
            invariant
                0 <= i <= self.value@.len(),
                acc + dsad_from(self.value@, other.value@, i as int)
                    == dsad_from(self.value@, other.value@, 0),
                0 <= acc as int <= (i as int) * 0x1_0000_0000,
            decreases self.value@.len() - i,
        {
            let d: i64 = self.value[i] - other.value[i];
            let t: i64 = if d < 0 {
                -d
            } else {
                d
            };
            acc = acc + t as i128;
            i = i + 1;
        }
        acc
    }

    fn euclidean(&self, other: &Self) -> (r: u64) {
        let s: i128 = self.ssd(other);
        let n: usize = self.value.len();
        proof {
            lemma_dssd_from_bounds(self.value@, other.value@, 0);
            assert(s as int <= (n as int) * 0x4000_0000_0000_0000);
        }
        isqrt(s as u128)
    }

    fn ssd(&self, other: &Self) -> (r: i128) {
        let mut acc: i128 = 0;
        let mut i: usize = 0;
        while i < self.value.len()
            invariant
                0 <= i <= self.value@.len(),
                acc + dssd_from(self.value@, other.value@, i as int)
                    == dssd_from(self.value@, other.value@, 0),
                0 <= acc as int <= (i as int) * 0x4000_0000_0000_0000,
            decreases self.value@.len() - i,
        {
            let d: i64 = self.value[i] - other.value[i];
            proof {
                assert(0 <= (d as int) * (d as int) <= 0x4000_0000_0000_0000) by (nonlinear_arith)
                    requires
                        -0x8000_0000 <= d as int <= 0x8000_0000,
                ;
            }
            acc = acc + (d as i128) * (d as i128);
            i = i + 1;
        }
        acc
    }

    fn cosine(&self, other: &Self) -> (r: i128) {
        let mut acc: i128 = 0;
        let mut i: usize = 0;
        while i < self.value.len()
            invariant
                0 <= i <= self.value@.len(),
                acc + ddot_from(self.value@, other.value@, i as int)
                    == ddot_from(self.value@, other.value@, 0),
                -((i as int) * 0x1000_0000_0000_0000) <= acc as int,
                acc as int <= (i as int) * 0x1000_0000_0000_0000,
            decreases self.value@.len() - i,
        {
            let a: i64 = self.value[i];
            let b: i64 = other.value[i];
            proof {
                assert(-0x1000_0000_0000_0000 <= (a as int) * (b as int) <= 0x1000_0000_0000_0000)
                    by (nonlinear_arith)
                    requires
                        -0x4000_0000 <= a as int <= 0x4000_0000,
                        -0x4000_0000 <= b as int <= 0x4000_0000,
                ;
            }
            acc = acc + (a as i128) * (b as i128);
            i = i + 1;
        }
        acc
    }
}

/// The squared-difference sum is non-negative and at most one squared-range
/// unit per remaining matching pair.
pub proof fn lemma_ssd_from_bounds(ai: Seq<u32>, av: Seq<i64>, bi: Seq<u32>, bv: Seq<i64>, i: int, j: int)
    requires
        0 <= i <= ai.len(),
        0 <= j <= bi.len(),
        av.len() == ai.len(),
        bv.len() == bi.len(),
        bounded_weights(av),
        bounded_weights(bv),
    ensures
        0 <= ssd_from(ai, av, bi, bv, i, j),
        ssd_from(ai, av, bi, bv, i, j) <= (ai.len() - i) * 0x4000_0000_0000_0000,
    decreases ai.len() - i + bi.len() - j,
{
    if i < ai.len() && j < bi.len() {
        if ai[i] == bi[j] {
            lemma_ssd_from_bounds(ai, av, bi, bv, i + 1, j + 1);
            let d = av[i] - bv[j];
            assert(0 <= d * d <= 0x4000_0000_0000_0000) by (nonlinear_arith)
                requires
                    -0x8000_0000 <= d <= 0x8000_0000,
            ;
        } else if ai[i] < bi[j] {
            lemma_ssd_from_bounds(ai, av, bi, bv, i + 1, j);
        } else {
            lemma_ssd_from_bounds(ai, av, bi, bv, i, j + 1);
        }
    }
}

/// Dense analogue of `lemma_ssd_from_bounds`.
pub proof fn lemma_dssd_from_bounds(a: Seq<i64>, b: Seq<i64>, i: int)
    requires
        0 <= i <= a.len(),
        bounded_weights(a),
        bounded_weights(b),
    ensures
        0 <= dssd_from(a, b, i),
        dssd_from(a, b, i) <= (a.len() - i) * 0x4000_0000_0000_0000,
    decreases a.len() - i,
{
    if i < a.len() && i < b.len() {
        lemma_dssd_from_bounds(a, b, i + 1);
        let d = a[i] - b[i];
        assert(0 <= d * d <= 0x4000_0000_0000_0000) by (nonlinear_arith)
            requires
                -0x8000_0000 <= d <= 0x8000_0000,
        ;
    }
}

proof fn lemma_dot_self_from(iseq: Seq<u32>, vseq: Seq<i64>, i: int)
    requires
        0 <= i <= vseq.len(),
        iseq.len() == vseq.len(),
    ensures
        dot_from(iseq, vseq, iseq, vseq, i, i) == sq_sum(vseq, i),
    decreases vseq.len() - i,
{
    if i < iseq.len() {
        lemma_dot_self_from(iseq, vseq, i + 1);
    }
}

/// Law: the kernel applied to a vector and itself is its squared norm.
pub proof fn lemma_kernel_self_is_sq_norm(v: &SparseVector)
    requires
        v.index@.len() == v.value@.len(),
    ensures
        v.dot_spec(v) == v.sq_norm_spec(),
{
    lemma_dot_self_from(v.index@, v.value@, 0);
}

proof fn lemma_dot_comm_from(ai: Seq<u32>, av: Seq<i64>, bi: Seq<u32>, bv: Seq<i64>, i: int, j: int)
    requires
        0 <= i <= ai.len(),
        0 <= j <= bi.len(),
    ensures
        dot_from(ai, av, bi, bv, i, j) == dot_from(bi, bv, ai, av, j, i),
    decreases ai.len() - i + bi.len() - j,
{
    if i < ai.len() && j < bi.len() {
        if ai[i] == bi[j] {
            lemma_dot_comm_from(ai, av, bi, bv, i + 1, j + 1);
        } else if ai[i] < bi[j] {
            lemma_dot_comm_from(ai, av, bi, bv, i + 1, j);
        } else {
            lemma_dot_comm_from(ai, av, bi, bv, i, j + 1);
        }
    }
}

/// Law: the kernel is symmetric in its two arguments, exactly.
pub proof fn lemma_kernel_commutes(a: &SparseVector, b: &SparseVector)
    ensures
        a.dot_spec(b) == b.dot_spec(a),
{
    lemma_dot_comm_from(a.index@, a.value@, b.index@, b.value@, 0, 0);
}

proof fn lemma_dot_disjoint_from(ai: Seq<u32>, av: Seq<i64>, bi: Seq<u32>, bv: Seq<i64>, i: int, j: int)
    requires
        0 <= i <= ai.len(),
        0 <= j <= bi.len(),
        disjoint_indices(ai, bi),
    ensures
        dot_from(ai, av, bi, bv, i, j) == 0,
    decreases ai.len() - i + bi.len() - j,
{
    if i < ai.len() && j < bi.len() {
        if ai[i] < bi[j] {
            lemma_dot_disjoint_from(ai, av, bi, bv, i + 1, j);
        } else {
            lemma_dot_disjoint_from(ai, av, bi, bv, i, j + 1);
        }
    }
}

/// Law: the kernel of two vectors with disjoint feature sets is zero.
pub proof fn lemma_kernel_disjoint(a: &SparseVector, b: &SparseVector)
    requires
        disjoint_indices(a.index@, b.index@),
    ensures
        a.dot_spec(b) == 0,
{
    lemma_dot_disjoint_from(a.index@, a.value@, b.index@, b.value@, 0, 0);
}

/// Fixed-point division of a weight by a norm, rounded toward zero.
pub open spec fn scaled_unit(x: int, nrm: int) -> int {
    if x >= 0 {
        (x * crate::SCALE) / nrm
    } else {
        -(((-x) * crate::SCALE) / nrm)
    }
}

/// Structure-changing operations on one vector shape.
pub trait Transformations: Sized {
    /// Structural invariant required of the operand vectors.
    spec fn valid(&self) -> bool;

    /// Sum of squared weights, the basis of normalization.
    spec fn norm_base(&self) -> int;

    /// Whether componentwise sums and differences stay in the weight range.
    spec fn combinable(&self, other: &Self) -> bool;

    /// `self` is the fixed-point unit-normalization of `v`: each weight of
    /// `v`, scaled by `SCALE` and divided by the rounded-down norm of `v`.
    spec fn normalized_of(&self, v: &Self) -> bool;

    /// `self` carries, feature for feature, the sum of the weights of `a`
    /// and `b`.
    spec fn sum_of(&self, a: &Self, b: &Self) -> bool;

    /// `self` carries, feature for feature, the weight of `a` minus the
    /// weight of `b`.
    spec fn diff_of(&self, a: &Self, b: &Self) -> bool;

    /// Scales the vector so that its weights read against `SCALE` as the
    /// unit vector of `self`, rounding each weight toward zero.
    fn normalize(&self) -> (r: Self)
        requires
            self.valid(),
            self.norm_base() > 0,
        ensures
            r.normalized_of(self),
            r.valid(),
    ;

    /// Componentwise vector addition.
    fn add(&self, other: &Self) -> (r: Self)
        requires
            self.valid(),
            other.valid(),
            self.combinable(other),
        ensures
            r.sum_of(self, other),
            r.valid(),
    ;

    /// Componentwise vector subtraction.
    fn sub(&self, other: &Self) -> (r: Self)
        requires
            self.valid(),
            other.valid(),
            self.combinable(other),
        ensures
            r.diff_of(self, other),
            r.valid(),
    ;
}

/// Every suffix sum of squares is non-negative.
pub proof fn lemma_sq_sum_nonneg(vs: Seq<i64>, i: int)
    requires
        0 <= i <= vs.len(),
    ensures
        0 <= sq_sum(vs, i),
    decreases vs.len() - i,
{
    if i < vs.len() {
        lemma_sq_sum_nonneg(vs, i + 1);
        let v = vs[i];
        assert(0 <= v * v) by (nonlinear_arith);
    }
}

/// Each single squared weight is at most the whole sum of squares.
pub proof fn lemma_sq_sum_elem(vs: Seq<i64>, j: int, idx: int)
    requires
        0 <= j <= idx < vs.len(),
    ensures
        vs[idx] * vs[idx] <= sq_sum(vs, j),
    decreases idx - j,
{
    if j == idx {
        lemma_sq_sum_nonneg(vs, idx + 1);
    } else {
        lemma_sq_sum_elem(vs, j + 1, idx);
        let v = vs[j];
        assert(0 <= v * v) by (nonlinear_arith);
    }
}

/// Whether `key` occurs among the feature ids.
pub open spec fn has_key(is: Seq<u32>, key: u32) -> bool {
    exists|i: int| 0 <= i < is.len() && is[i] == key
}

/// The weight carried for feature `key` (zero when absent), scanning from `i`.
pub open spec fn lookup_from(is: Seq<u32>, vs: Seq<i64>, key: u32, i: int) -> int
    decreases is.len() - i
        when 0 <= i
{
    if i >= is.len() {
        0
    } else if is[i] == key {
        vs[i] as int
    } else {
        lookup_from(is, vs, key, i + 1)
    }
}

/// The weight carried for feature `key`, or zero when the key is absent.
pub open spec fn lookup(is: Seq<u32>, vs: Seq<i64>, key: u32) -> int {
    lookup_from(is, vs, key, 0)
}

/// Appending a fresh key leaves every other lookup unchanged and makes the
/// fresh key's lookup the appended weight.
proof fn lemma_lookup_push(is: Seq<u32>, vs: Seq<i64>, k: u32, w: i64, key: u32, i: int)
    requires
        0 <= i <= is.len(),
        is.len() == vs.len(),
        forall|p: int| 0 <= p < is.len() ==> is[p] != k,
    ensures
        lookup_from(is.push(k), vs.push(w), key, i) == if key == k {
            w as int
        } else {
            lookup_from(is, vs, key, i)
        },
    decreases is.len() - i,
{
    if i < is.len() {
        assert(is.push(k)[i] == is[i]);
        assert(vs.push(w)[i] == vs[i]);
        if is[i] == key {
            assert(lookup_from(is.push(k), vs.push(w), key, i) == vs[i] as int);
            assert(lookup_from(is, vs, key, i) == vs[i] as int);
        } else {
            lemma_lookup_push(is, vs, k, w, key, i + 1);
            assert(lookup_from(is.push(k), vs.push(w), key, i) == lookup_from(
                is.push(k),
                vs.push(w),
                key,
                i + 1,
            ));
            assert(lookup_from(is, vs, key, i) == lookup_from(is, vs, key, i + 1));
        }
    } else {
        assert(is.push(k)[i] == k);
        assert(vs.push(w)[i] == w);
        if key == k {
            assert(lookup_from(is.push(k), vs.push(w), key, i) == w as int);
        } else {
            assert(lookup_from(is.push(k), vs.push(w), key, i) == lookup_from(
                is.push(k),
                vs.push(w),
                key,
                i + 1,
            ));
            assert(lookup_from(is.push(k), vs.push(w), key, i + 1) == 0);
            assert(lookup_from(is, vs, key, i) == 0);
        }
    }
}

/// A key that occurs nowhere carries weight zero.
proof fn lemma_lookup_absent(is: Seq<u32>, vs: Seq<i64>, key: u32, i: int)
    requires
        0 <= i <= is.len(),
        forall|p: int| 0 <= p < is.len() ==> is[p] != key,
    ensures
        lookup_from(is, vs, key, i) == 0,
    decreases is.len() - i,
{
    if i < is.len() {
        lemma_lookup_absent(is, vs, key, i + 1);
    }
}

/// With strictly ascending keys, looking a held key up yields its own slot.
proof fn lemma_lookup_at(is: Seq<u32>, vs: Seq<i64>, p: int, i: int)
    requires
        0 <= i <= p < is.len(),
        strictly_ascending(is),
    ensures
        lookup_from(is, vs, is[p], i) == vs[p],
    decreases p - i,
{
    if i < p {
        assert(is[i] < is[p]);
        lemma_lookup_at(is, vs, p, i + 1);
    }
}

/// Key membership after appending one key.
proof fn lemma_has_key_push(is: Seq<u32>, k: u32, key: u32)
    ensures
        has_key(is.push(k), key) <==> (key == k || has_key(is, key)),
{
    if has_key(is.push(k), key) {
        let w = choose|w: int| 0 <= w < is.push(k).len() && is.push(k)[w] == key;
        if w < is.len() {
            assert(is[w] == key);
        }
    }
    if key == k {
        assert(is.push(k)[is.len() as int] == k);
    }
    if has_key(is, key) {
        let w = choose|w: int| 0 <= w < is.len() && is[w] == key;
        assert(is.push(k)[w] == key);
    }
}

impl Transformations for DenseVector {
    open spec fn valid(&self) -> bool {
        self.well_formed()
    }

    open spec fn norm_base(&self) -> int {
        sq_sum(self.value@, 0)
    }

    open spec fn combinable(&self, other: &Self) -> bool {
        &&& self.value@.len() == other.value@.len()
        &&& forall|i: int| 0 <= i < self.value@.len()
            ==> -crate::WEIGHT_BOUND <= #[trigger] self.value@[i] + other.value@[i] <= crate::WEIGHT_BOUND
                && -crate::WEIGHT_BOUND <= self.value@[i] - other.value@[i] <= crate::WEIGHT_BOUND
    }

    open spec fn normalized_of(&self, v: &Self) -> bool {
        &&& self.value@.len() == v.value@.len()
        &&& forall|i: int| 0 <= i < v.value@.len()
            ==> #[trigger] self.value@[i] == scaled_unit(v.value@[i] as int, floor_sqrt(sq_sum(v.value@, 0)))
    }

    open spec fn sum_of(&self, a: &Self, b: &Self) -> bool {
        &&& self.value@.len() == a.value@.len()
        &&& forall|i: int| 0 <= i < a.value@.len()
            ==> #[trigger] self.value@[i] == a.value@[i] + b.value@[i]
    }

    open spec fn diff_of(&self, a: &Self, b: &Self) -> bool {
        &&& self.value@.len() == a.value@.len()
        &&& forall|i: int| 0 <= i < a.value@.len()
            ==> #[trigger] self.value@[i] == a.value@[i] - b.value@[i]
    }

    fn normalize(&self) -> (r: Self) {
        let nrm: u64 = self.norm();
        proof {
            lemma_floor_sqrt_at_least(sq_sum(self.value@, 0), 1);
        }
        let mut out: Vec<i64> = Vec::new();
        let mut i: usize = 0;
        while i < self.value.len()
            invariant
                0 <= i <= self.value@.len(),
                out@.len() == i as int,
                forall|q: int| 0 <= q < i as int
                    ==> #[trigger] out@[q] == scaled_unit(self.value@[q] as int, nrm as int)
                        && -crate::SCALE <= out@[q] <= crate::SCALE,
            decreases self.value@.len() - i,
        {
            let v: i64 = self.value[i];
            let m: u64 = if v < 0 {
                (-v) as u64
            } else {
                v as u64
            };
            proof {
                lemma_sq_sum_elem(self.value@, 0, i as int);
                assert((m as int) * (m as int) == (v as int) * (v as int)) by (nonlinear_arith)
                    requires
                        m as int == abs_val(v as int),
                ;
                lemma_floor_sqrt_at_least(sq_sum(self.value@, 0), m as int);
            }
            let q: u64 = (m * 1_000_000) / nrm;
            proof {
                assert((m as int) * 1_000_000 / (nrm as int) <= 1_000_000) by (nonlinear_arith)
                    requires
                        1 <= nrm as int,
                        0 <= m as int <= nrm as int,
                ;
            }
            let w: i64 = if v < 0 {
                -(q as i64)
            } else {
                q as i64
            };
            out.push(w);
            i = i + 1;
        }
        DenseVector { value: out }
    }

    fn add(&self, other: &Self) -> (r: Self) {
        let mut out: Vec<i64> = Vec::new();
        let mut i: usize = 0;
        while i < self.value.len()
            invariant
                0 <= i <= self.value@.len(),
                out@.len() == i as int,
                forall|q: int| 0 <= q < i as int
                    ==> #[trigger] out@[q] == self.value@[q] + other.value@[q],
            decreases self.value@.len() - i,
        {
            out.push(self.value[i] + other.value[i]);
            i = i + 1;
        }
        DenseVector { value: out }
    }

    fn sub(&self, other: &Self) -> (r: Self) {
        let mut out: Vec<i64> = Vec::new();
        let mut i: usize = 0;
        while i < self.value.len()
            invariant
                0 <= i <= self.value@.len(),
                out@.len() == i as int,
                forall|q: int| 0 <= q < i as int
                    ==> #[trigger] out@[q] == self.value@[q] - other.value@[q],
            decreases self.value@.len() - i,
        {
            out.push(self.value[i] - other.value[i]);
            i = i + 1;
        }
        DenseVector { value: out }
    }
}

impl SparseVector {
    /// Merge-union of two sorted feature lists: one entry per feature id of
    /// either operand, carrying the sum of the operands' weights for that id
    /// (the second operand's weight negated when `negate` holds).
    fn merge_weights(&self, other: &Self, negate: bool) -> (r: (Vec<u32>, Vec<i64>))
        requires
            self.well_formed(),
            other.well_formed(),
            self.combinable(other),
        ensures
            r.0@.len() == r.1@.len(),
            r.0@.len() >= 1,
            strictly_ascending(r.0@),
            bounded_weights(r.1@),
            forall|key: u32| #[trigger] lookup(r.0@, r.1@, key) == lookup(
                self.index@,
                self.value@,
                key,
            ) + (if negate {
                -lookup(other.index@, other.value@, key)
            } else {
                lookup(other.index@, other.value@, key)
            }),
            forall|key: u32| #[trigger] has_key(r.0@, key) <==> (has_key(self.index@, key)
                || has_key(other.index@, key)),
    {
        let ghost ai = self.index@;
        let ghost av = self.value@;
        let ghost bi = other.index@;
        let ghost bv = other.value@;
        let mut oi: Vec<u32> = Vec::new();
        let mut ov: Vec<i64> = Vec::new();
        let mut i: usize = 0;
        let mut j: usize = 0;
        while i < self.index.len() || j < other.index.len()
            invariant
                0 <= i <= ai.len(),
                0 <= j <= bi.len(),
                oi@.len() == ov@.len(),
                strictly_ascending(oi@),
                bounded_weights(ov@),
                forall|p: int| 0 <= p < oi@.len() && i < ai.len() ==> #[trigger] oi@[p] < ai[i as int],
                forall|p: int| 0 <= p < oi@.len() && j < bi.len() ==> #[trigger] oi@[p] < bi[j as int],
                forall|key: u32| #[trigger] lookup(oi@, ov@, key) == lookup(
                    ai.take(i as int),
                    av.take(i as int),
                    key,
                ) + (if negate {
                    -lookup(bi.take(j as int), bv.take(j as int), key)
                } else {
                    lookup(bi.take(j as int), bv.take(j as int), key)
                }),
                forall|key: u32| #[trigger] has_key(oi@, key) <==> (has_key(ai.take(i as int), key)
                    || has_key(bi.take(j as int), key)),
            decreases ai.len() - i + bi.len() - j,
        {
            let ghost oi0 = oi@;
            let ghost ov0 = ov@;
            if j >= other.index.len() || (i < self.index.len() && self.index[i] < other.index[j]) {
                let ka: u32 = self.index[i];
                let wa: i64 = self.value[i];
                proof {
                    // ka occurs nowhere in the other operand
                    assert forall|q: int| 0 <= q < bi.len() implies bi[q] != ka by {
                        if q < j as int {
                            if bi[q] == ka {
                                assert(bi.take(j as int)[q] == ka);
                                assert(has_key(bi.take(j as int), ka));
                                assert(has_key(oi0, ka));
                                let p = choose|p: int| 0 <= p < oi0.len() && oi0[p] == ka;
                                assert(oi0[p] < ai[i as int]);
                            }
                        } else if q > j as int {
                            assert(bi[j as int] < bi[q]);
                        }
                    }
                    lemma_lookup_absent(bi, bv, ka, 0);
                    lemma_lookup_at(ai, av, i as int, 0);
                    assert(lookup(ai, av, ka) == wa as int);
                    assert(lookup(bi, bv, ka) == 0);
                }
                oi.push(ka);
                ov.push(wa);
                i = i + 1;
                proof {
                    let ii = i as int;
                    assert(ai.take(ii) =~= ai.take(ii - 1).push(ka));
                    assert(av.take(ii) =~= av.take(ii - 1).push(wa));
                    assert forall|p: int| #![trigger ai.take(ii - 1)[p]] 0 <= p < ai.take(ii - 1).len() implies ai.take(ii - 1)[p]
                        != ka by {
                        assert(ai[p] < ai[ii - 1]);
                    }
                    assert forall|p: int, q: int| 0 <= p < q < oi@.len() implies oi@[p] < oi@[q] by {
                        if q == oi@.len() - 1 {
                            assert(oi0[p] < ka);
                        }
                    }
                    assert forall|key: u32| #[trigger] lookup(oi@, ov@, key) == lookup(
                        ai.take(ii),
                        av.take(ii),
                        key,
                    ) + (if negate {
                        -lookup(bi.take(j as int), bv.take(j as int), key)
                    } else {
                        lookup(bi.take(j as int), bv.take(j as int), key)
                    }) by {
                        lemma_lookup_push(oi0, ov0, ka, wa, key, 0);
                        lemma_lookup_push(ai.take(ii - 1), av.take(ii - 1), ka, wa, key, 0);
                        assert(lookup(oi0, ov0, key) == lookup(
                            ai.take(ii - 1),
                            av.take(ii - 1),
                            key,
                        ) + (if negate {
                            -lookup(bi.take(j as int), bv.take(j as int), key)
                        } else {
                            lookup(bi.take(j as int), bv.take(j as int), key)
                        }));
                        if key == ka {
                            assert forall|p: int| #![trigger bi.take(j as int)[p]] 0 <= p < bi.take(j as int).len() implies bi.take(
                                j as int,
                            )[p] != ka by {
                                assert(bi.take(j as int)[p] == bi[p]);
                            }
                            lemma_lookup_absent(bi.take(j as int), bv.take(j as int), ka, 0);
                        }
                    }
                    assert forall|key: u32| #[trigger] has_key(oi@, key) <==> (has_key(
                        ai.take(ii),
                        key,
                    ) || has_key(bi.take(j as int), key)) by {
                        lemma_has_key_push(oi0, ka, key);
                        lemma_has_key_push(ai.take(ii - 1), ka, key);
                        assert(has_key(oi0, key) <==> (has_key(ai.take(ii - 1), key) || has_key(
                            bi.take(j as int),
                            key,
                        )));
                    }
                }
            } else if i >= self.index.len() || other.index[j] < self.index[i] {
                let kb: u32 = other.index[j];
                let vb: i64 = other.value[j];
                let wb: i64 = if negate {
                    -vb
                } else {
                    vb
                };
                proof {
                    // kb occurs nowhere in self
                    assert forall|q: int| 0 <= q < ai.len() implies ai[q] != kb by {
                        if q < i as int {
                            if ai[q] == kb {
                                assert(ai.take(i as int)[q] == kb);
                                assert(has_key(ai.take(i as int), kb));
                                assert(has_key(oi0, kb));
                                let p = choose|p: int| 0 <= p < oi0.len() && oi0[p] == kb;
                                assert(oi0[p] < bi[j as int]);
                            }
                        } else if q > i as int {
                            assert(ai[i as int] < ai[q]);
                        }
                    }
                    lemma_lookup_absent(ai, av, kb, 0);
                    lemma_lookup_at(bi, bv, j as int, 0);
                    assert(lookup(ai, av, kb) == 0);
                    assert(lookup(bi, bv, kb) == vb as int);
                }
                oi.push(kb);
                ov.push(wb);
                j = j + 1;
                proof {
                    let jj = j as int;
                    assert(bi.take(jj) =~= bi.take(jj - 1).push(kb));
                    assert(bv.take(jj) =~= bv.take(jj - 1).push(vb));
                    assert forall|p: int| #![trigger bi.take(jj - 1)[p]] 0 <= p < bi.take(jj - 1).len() implies bi.take(jj - 1)[p]
                        != kb by {
                        assert(bi[p] < bi[jj - 1]);
                    }
                    assert forall|p: int, q: int| 0 <= p < q < oi@.len() implies oi@[p] < oi@[q] by {
                        if q == oi@.len() - 1 {
                            assert(oi0[p] < kb);
                        }
                    }
                    assert forall|key: u32| #[trigger] lookup(oi@, ov@, key) == lookup(
                        ai.take(i as int),
                        av.take(i as int),
                        key,
                    ) + (if negate {
                        -lookup(bi.take(jj), bv.take(jj), key)
                    } else {
                        lookup(bi.take(jj), bv.take(jj), key)
                    }) by {
                        lemma_lookup_push(oi0, ov0, kb, wb, key, 0);
                        lemma_lookup_push(bi.take(jj - 1), bv.take(jj - 1), kb, vb, key, 0);
                        assert(lookup(oi0, ov0, key) == lookup(
                            ai.take(i as int),
                            av.take(i as int),
                            key,
                        ) + (if negate {
                            -lookup(bi.take(jj - 1), bv.take(jj - 1), key)
                        } else {
                            lookup(bi.take(jj - 1), bv.take(jj - 1), key)
                        }));
                        if key == kb {
                            assert forall|p: int| #![trigger ai.take(i as int)[p]] 0 <= p < ai.take(i as int).len() implies ai.take(
                                i as int,
                            )[p] != kb by {
                                assert(ai.take(i as int)[p] == ai[p]);
                            }
                            lemma_lookup_absent(ai.take(i as int), av.take(i as int), kb, 0);
                        }
                    }
                    assert forall|key: u32| #[trigger] has_key(oi@, key) <==> (has_key(
                        ai.take(i as int),
                        key,
                    ) || has_key(bi.take(jj), key)) by {
                        lemma_has_key_push(oi0, kb, key);
                        lemma_has_key_push(bi.take(jj - 1), kb, key);
                        assert(has_key(oi0, key) <==> (has_key(ai.take(i as int), key) || has_key(
                            bi.take(jj - 1),
                            key,
                        )));
                    }
                }
            } else {
                let kc: u32 = self.index[i];
                let va: i64 = self.value[i];
                let vb: i64 = other.value[j];
                let wc: i64 = if negate {
                    va - vb
                } else {
                    va + vb
                };
                assert(other.index@[j as int] == kc);
                proof {
                    lemma_lookup_at(ai, av, i as int, 0);
                    lemma_lookup_at(bi, bv, j as int, 0);
                    assert(lookup(ai, av, kc) == va as int);
                    assert(lookup(bi, bv, kc) == vb as int);
                }
                oi.push(kc);
                ov.push(wc);
                i = i + 1;
                j = j + 1;
                proof {
                    let ii = i as int;
                    let jj = j as int;
                    assert(ai.take(ii) =~= ai.take(ii - 1).push(kc));
                    assert(av.take(ii) =~= av.take(ii - 1).push(va));
                    assert(bi.take(jj) =~= bi.take(jj - 1).push(kc));
                    assert(bv.take(jj) =~= bv.take(jj - 1).push(vb));
                    assert forall|p: int| #![trigger ai.take(ii - 1)[p]] 0 <= p < ai.take(ii - 1).len() implies ai.take(ii - 1)[p]
                        != kc by {
                        assert(ai[p] < ai[ii - 1]);
                    }
                    assert forall|p: int| #![trigger bi.take(jj - 1)[p]] 0 <= p < bi.take(jj - 1).len() implies bi.take(jj - 1)[p]
                        != kc by {
                        assert(bi[p] < bi[jj - 1]);
                    }
                    assert forall|p: int, q: int| 0 <= p < q < oi@.len() implies oi@[p] < oi@[q] by {
                        if q == oi@.len() - 1 {
                            assert(oi0[p] < kc);
                        }
                    }
                    assert forall|key: u32| #[trigger] lookup(oi@, ov@, key) == lookup(
                        ai.take(ii),
                        av.take(ii),
                        key,
                    ) + (if negate {
                        -lookup(bi.take(jj), bv.take(jj), key)
                    } else {
                        lookup(bi.take(jj), bv.take(jj), key)
                    }) by {
                        lemma_lookup_push(oi0, ov0, kc, wc, key, 0);
                        lemma_lookup_push(ai.take(ii - 1), av.take(ii - 1), kc, va, key, 0);
                        lemma_lookup_push(bi.take(jj - 1), bv.take(jj - 1), kc, vb, key, 0);
                        assert(lookup(oi0, ov0, key) == lookup(
                            ai.take(ii - 1),
                            av.take(ii - 1),
                            key,
                        ) + (if negate {
                            -lookup(bi.take(jj - 1), bv.take(jj - 1), key)
                        } else {
                            lookup(bi.take(jj - 1), bv.take(jj - 1), key)
                        }));
                    }
                    assert forall|key: u32| #[trigger] has_key(oi@, key) <==> (has_key(
                        ai.take(ii),
                        key,
                    ) || has_key(bi.take(jj), key)) by {
                        lemma_has_key_push(oi0, kc, key);
                        lemma_has_key_push(ai.take(ii - 1), kc, key);
                        lemma_has_key_push(bi.take(jj - 1), kc, key);
                        assert(has_key(oi0, key) <==> (has_key(ai.take(ii - 1), key) || has_key(
                            bi.take(jj - 1),
                            key,
                        )));
                    }
                }
            }
        }
        proof {
            assert(ai.take(i as int) =~= ai);
            assert(av.take(i as int) =~= av);
            assert(bi.take(j as int) =~= bi);
            assert(bv.take(j as int) =~= bv);
            assert(has_key(ai, ai[0]));
            assert(has_key(oi@, ai[0]));
            let p = choose|p: int| 0 <= p < oi@.len() && oi@[p] == ai[0];
        }
        (oi, ov)
    }
}

impl Transformations for SparseVector {
    open spec fn valid(&self) -> bool {
        self.well_formed()
    }

    open spec fn norm_base(&self) -> int {
        sq_sum(self.value@, 0)
    }

    open spec fn combinable(&self, other: &Self) -> bool {
        forall|key: u32|
            #![trigger lookup(self.index@, self.value@, key), lookup(other.index@, other.value@, key)]
            -crate::WEIGHT_BOUND <= lookup(self.index@, self.value@, key) + lookup(
                other.index@,
                other.value@,
                key,
            ) <= crate::WEIGHT_BOUND && -crate::WEIGHT_BOUND <= lookup(
                self.index@,
                self.value@,
                key,
            ) - lookup(other.index@, other.value@, key) <= crate::WEIGHT_BOUND
    }

    open spec fn normalized_of(&self, v: &Self) -> bool {
        &&& self.id@ == v.id@
        &&& self.index@ == v.index@
        &&& self.value@.len() == v.value@.len()
        &&& forall|i: int| 0 <= i < v.value@.len()
            ==> #[trigger] self.value@[i] == scaled_unit(
                v.value@[i] as int,
                floor_sqrt(sq_sum(v.value@, 0)),
            )
    }

    open spec fn sum_of(&self, a: &Self, b: &Self) -> bool {
        &&& self.id@ == a.id@
        &&& self.index@.len() == self.value@.len()
        &&& strictly_ascending(self.index@)
        &&& forall|key: u32| #[trigger] lookup(self.index@, self.value@, key) == lookup(
            a.index@,
            a.value@,
            key,
        ) + lookup(b.index@, b.value@, key)
        &&& forall|key: u32| #[trigger] has_key(self.index@, key) <==> (has_key(a.index@, key)
            || has_key(b.index@, key))
    }

    open spec fn diff_of(&self, a: &Self, b: &Self) -> bool {
        &&& self.id@ == a.id@
        &&& self.index@.len() == self.value@.len()
        &&& strictly_ascending(self.index@)
        &&& forall|key: u32| #[trigger] lookup(self.index@, self.value@, key) == lookup(
            a.index@,
            a.value@,
            key,
        ) - lookup(b.index@, b.value@, key)
        &&& forall|key: u32| #[trigger] has_key(self.index@, key) <==> (has_key(a.index@, key)
            || has_key(b.index@, key))
    }

    fn normalize(&self) -> (r: Self) {
        let nrm: u64 = self.norm();
        proof {
            lemma_floor_sqrt_at_least(sq_sum(self.value@, 0), 1);
        }
        let mut oi: Vec<u32> = Vec::new();
        let mut ov: Vec<i64> = Vec::new();
        let mut i: usize = 0;
        while i < self.value.len()
            invariant
                0 <= i <= self.value@.len(),
                oi@.len() == i as int,
                ov@.len() == i as int,
                forall|q: int| 0 <= q < i as int ==> #[trigger] oi@[q] == self.index@[q],
                forall|q: int| 0 <= q < i as int
                    ==> #[trigger] ov@[q] == scaled_unit(self.value@[q] as int, nrm as int)
                        && -crate::SCALE <= ov@[q] <= crate::SCALE,
            decreases self.value@.len() - i,
        {
            let v: i64 = self.value[i];
            let m: u64 = if v < 0 {
                (-v) as u64
            } else {
                v as u64
            };
            proof {
                lemma_sq_sum_elem(self.value@, 0, i as int);
                assert((m as int) * (m as int) == (v as int) * (v as int)) by (nonlinear_arith)
                    requires
                        m as int == abs_val(v as int),
                ;
                lemma_floor_sqrt_at_least(sq_sum(self.value@, 0), m as int);
            }
            let q: u64 = (m * 1_000_000) / nrm;
            proof {
                assert((m as int) * 1_000_000 / (nrm as int) <= 1_000_000) by (nonlinear_arith)
                    requires
                        1 <= nrm as int,
                        0 <= m as int <= nrm as int,
                ;
            }
            let w: i64 = if v < 0 {
                -(q as i64)
            } else {
                q as i64
            };
            oi.push(self.index[i]);
            ov.push(w);
            i = i + 1;
        }
        proof {
            assert(oi@ =~= self.index@);
        }
        let name: String = self.id.clone();
        SparseVector { id: name, index: oi, value: ov }
    }

    fn add(&self, other: &Self) -> (r: Self) {
        let merged = self.merge_weights(other, false);
        let name: String = self.id.clone();
        SparseVector { id: name, index: merged.0, value: merged.1 }
    }

    fn sub(&self, other: &Self) -> (r: Self) {
        let merged = self.merge_weights(other, true);
        let name: String = self.id.clone();
        SparseVector { id: name, index: merged.0, value: merged.1 }
    }
}

} // verus!
