//! Pairwise similarity between sparse vectors and bounded top-K
//! neighbor lists.
//!
//! Scores are fixed-point naturals with scale `SCALE`. Cosine divides
//! the dot product by both L2 norms, each taken at `SCALE` precision
//! through an integer square root; Jaccard uses the union size of the
//! nonzero index sets. Both are clamped to `SCALE`, so a score of
//! `SCALE` means 1.0.

use vstd::prelude::*;
use vstd::arithmetic::div_mod::lemma_fundamental_div_mod;
use vstd::arithmetic::mul::lemma_mul_upper_bound;
use vstd::arithmetic::mul::lemma_mul_inequality;
use crate::Metric;
use crate::SCALE;
use crate::sparse::Entry;
use crate::sparse::find_w;
use crate::sparse::sorted_by_idx;
use crate::sparse::lemma_find_w_occurs;
use crate::sparse::lemma_sorted_len;

verus! {

/// Largest product of two weights: both factors are at most `u16::MAX`.
pub const MAX_WW: u64 = 0xfffe_0001;

/// The weight stored for index `x`, or zero when the index is absent.
pub open spec fn w_of(s: Seq<Entry>, x: u32) -> nat {
    match find_w(s, x) {
        Some(w) => w as nat,
        None => 0,
    }
}

/// Dot product of two sparse vectors: the sum, over the entries of
/// `a`, of the entry weight times the weight `b` stores at the same
/// index.
pub open spec fn dot_s(a: Seq<Entry>, b: Seq<Entry>) -> nat
    decreases a.len(),
{
    if a.len() == 0 {
        0
    } else {
        dot_s(a.drop_last(), b) + (a.last().weight as nat) * w_of(b, a.last().idx)
    }
}

/// Squared L2 norm of a sparse vector: the sum of squared weights.
pub open spec fn norm2_s(a: Seq<Entry>) -> nat
    decreases a.len(),
{
    if a.len() == 0 {
        0
    } else {
        norm2_s(a.drop_last()) + (a.last().weight as nat) * (a.last().weight as nat)
    }
}

/// Size of the intersection of the nonzero index sets: how many
/// entries of `a` have an index that also occurs in `b`.
pub open spec fn inter_s(a: Seq<Entry>, b: Seq<Entry>) -> nat
    decreases a.len(),
{
    if a.len() == 0 {
        0
    } else {
        inter_s(a.drop_last(), b) + (if find_w(b, a.last().idx).is_some() {
            1nat
        } else {
            0nat
        })
    }
}

/// No index of `a` occurs in `b`.
pub open spec fn disjoint_s(a: Seq<Entry>, b: Seq<Entry>) -> bool {
    forall|t: int| 0 <= t < a.len() ==> (#[trigger] find_w(b, a[t].idx)).is_none()
}

/// The dot product is at most one maximal product per entry of `a`.
pub proof fn lemma_dot_bound(a: Seq<Entry>, b: Seq<Entry>)
    ensures
        dot_s(a, b) <= a.len() * (MAX_WW as nat),
    decreases a.len(),
{
    if a.len() > 0 {
        lemma_dot_bound(a.drop_last(), b);
        lemma_mul_upper_bound(a.last().weight as int, 0xffff, w_of(b, a.last().idx) as int, 0xffff);
        assert((a.len() - 1) * (MAX_WW as int) + MAX_WW as int == a.len() * (MAX_WW as int))
            by (nonlinear_arith);
    }
}

/// The squared norm is at most one maximal square per entry.
pub proof fn lemma_norm2_bound(a: Seq<Entry>)
    ensures
        norm2_s(a) <= a.len() * (MAX_WW as nat),
    decreases a.len(),
{
    if a.len() > 0 {
        lemma_norm2_bound(a.drop_last());
        lemma_mul_upper_bound(a.last().weight as int, 0xffff, a.last().weight as int, 0xffff);
        assert((a.len() - 1) * (MAX_WW as int) + MAX_WW as int == a.len() * (MAX_WW as int))
            by (nonlinear_arith);
    }
}

/// The intersection size never exceeds the length of `a`.
pub proof fn lemma_inter_le(a: Seq<Entry>, b: Seq<Entry>)
    ensures
        inter_s(a, b) <= a.len(),
    decreases a.len(),
{
    if a.len() > 0 {
        lemma_inter_le(a.drop_last(), b);
    }
}

/// Disjoint vectors have zero dot product and zero intersection.
pub proof fn lemma_disjoint_zero(a: Seq<Entry>, b: Seq<Entry>)
    requires
        disjoint_s(a, b),
    ensures
        dot_s(a, b) == 0,
        inter_s(a, b) == 0,
    decreases a.len(),
{
    if a.len() > 0 {
        assert(forall|t: int|
            0 <= t < a.drop_last().len() ==> a.drop_last()[t] == a[t]);
        lemma_disjoint_zero(a.drop_last(), b);
        assert(find_w(b, a[a.len() - 1].idx).is_none());
    }
}

/// Integer square root: the largest natural whose square does not
/// exceed `n`.
pub open spec fn isqrt_s(n: nat) -> nat
    decreases n,
{
    if n == 0 {
        0
    } else {
        let r = isqrt_s((n - 1) as nat);
        if (r + 1) * (r + 1) <= n {
            r + 1
        } else {
            r
        }
    }
}

/// `isqrt_s(n)` squares to at most `n`, and its successor squares past `n`.
pub proof fn lemma_isqrt_bounds(n: nat)
    ensures
        isqrt_s(n) * isqrt_s(n) <= n,
        n < (isqrt_s(n) + 1) * (isqrt_s(n) + 1),
    decreases n,
{
    if n > 0 {
        lemma_isqrt_bounds((n - 1) as nat);
        let r = isqrt_s((n - 1) as nat);
        if (r + 1) * (r + 1) <= n {
            assert(isqrt_s(n) == r + 1);
            assert(n - 1 < (r + 1) * (r + 1));
            assert(n < ((r + 1) + 1) * ((r + 1) + 1)) by (nonlinear_arith)
                requires n <= (r + 1) * (r + 1), r >= 0;
        } else {
            assert(isqrt_s(n) == r);
            assert(r * r <= n - 1);
            assert(n < (r + 1) * (r + 1));
        }
    } else {
        assert(isqrt_s(0nat) == 0);
        assert(0nat * 0nat <= n);
        assert(n < (0nat + 1) * (0nat + 1)) by (nonlinear_arith)
            requires n == 0nat;
    }
}

/// Any natural `r` with `r*r <= n < (r+1)*(r+1)` is the integer square root.
pub proof fn lemma_isqrt_unique(n: nat, r: nat)
    requires
        r * r <= n,
        n < (r + 1) * (r + 1),
    ensures
        r == isqrt_s(n),
{
    let q = isqrt_s(n);
    lemma_isqrt_bounds(n);
    if r < q {
        assert((r + 1) * (r + 1) <= q * q) by (nonlinear_arith)
            requires r + 1 <= q;
        assert(false);
    }
    if q < r {
        assert((q + 1) * (q + 1) <= r * r) by (nonlinear_arith)
            requires q + 1 <= r;
        assert(false);
    }
}

/// Integer square root by binary search over the answer.
pub fn isqrt(n: u128) -> (r: u64)
    ensures
        r as nat == isqrt_s(n as nat),
        (r as nat) * (r as nat) <= n as nat,
        (n as nat) < ((r as nat) + 1) * ((r as nat) + 1),
{
    let mut lo: u128 = 0;
    let mut hi: u128 = 0x1_0000_0000_0000_0000;
    proof {
        assert((hi as int) * (hi as int) > n as int) by (nonlinear_arith)
            requires hi == 0x1_0000_0000_0000_0000u128, n <= u128::MAX;
    }
    while hi - lo > 1
        invariant
            0 <= lo < hi <= 0x1_0000_0000_0000_0000,
            (lo as int) * (lo as int) <= n as int,
            (n as int) < (hi as int) * (hi as int),
        decreases hi - lo,
    {
        let mid: u128 = lo + (hi - lo) / 2;
        assert(lo < mid < hi);
        let q: u128 = n / mid;
        proof {
            lemma_fundamental_div_mod(n as int, mid as int);
            if mid <= q {
                assert((mid as int) * (mid as int) <= (mid as int) * (q as int))
                    by (nonlinear_arith)
                    requires 0 < mid as int, mid as int <= q as int;
                assert((mid as int) * (q as int) <= n as int) by (nonlinear_arith)
                    requires
                        n as int == (q as int) * (mid as int) + (n as int) % (mid as int),
                        0 <= (n as int) % (mid as int);
            } else {
                assert(n as int == (q as int) * (mid as int) + (n as int) % (mid as int));
                assert((n as int) < ((q as int) + 1) * (mid as int)) by (nonlinear_arith)
                    requires
                        n as int == (q as int) * (mid as int) + (n as int) % (mid as int),
                        (n as int) % (mid as int) < mid as int;
                assert(((q as int) + 1) * (mid as int) <= (mid as int) * (mid as int))
                    by (nonlinear_arith)
                    requires (q as int) + 1 <= mid as int, 0 < mid as int;
            }
        }
        if mid <= q {
            lo = mid;
        } else {
            hi = mid;
        }
    }
    proof {
        assert(hi == lo + 1);
        lemma_isqrt_unique(n as nat, lo as nat);
        assert(lo < 0x1_0000_0000_0000_0000);
    }
    lo as u64
}

/// Clamp a fixed-point score to at most `SCALE`.
pub open spec fn cap_scale(q: nat) -> nat {
    if q > SCALE as nat {
        SCALE as nat
    } else {
        q
    }
}

/// Cosine similarity in fixed point. Each L2 norm is computed at
/// `SCALE` precision — `isqrt(norm2 * SCALE^2)` is the norm times
/// `SCALE`, floored — and the score is the dot product scaled by
/// `SCALE^3` over the product of the two scaled norms. The two floors
/// make the result approximate `SCALE * dot / (||a|| * ||b||)` with a
/// relative error below a few parts in `SCALE`, rounding upward, so
/// the quotient is clamped at `SCALE` (exact cosine never exceeds 1).
/// Zero when either vector is empty of weight.
pub open spec fn cosine_s(a: Seq<Entry>, b: Seq<Entry>) -> nat {
    if norm2_s(a) == 0 || norm2_s(b) == 0 {
        0
    } else {
        let den = isqrt_s(norm2_s(a) * (SCALE as nat) * (SCALE as nat)) * isqrt_s(
            norm2_s(b) * (SCALE as nat) * (SCALE as nat),
        );
        cap_scale(dot_s(a, b) * (SCALE as nat) * (SCALE as nat) * (SCALE as nat) / den)
    }
}

/// Jaccard similarity in fixed point: intersection size times `SCALE`
/// divided by union size, ignoring weights; zero when either vector is
/// empty.
pub open spec fn jaccard_s(a: Seq<Entry>, b: Seq<Entry>) -> nat {
    if a.len() == 0 || b.len() == 0 {
        0
    } else {
        cap_scale(
            inter_s(a, b) * (SCALE as nat) / ((a.len() + b.len() - inter_s(a, b)) as nat),
        )
    }
}

/// Similarity of two sparse vectors under the selected metric.
pub open spec fn sim_s(m: Metric, a: Seq<Entry>, b: Seq<Entry>) -> nat {
    match m {
        Metric::Cosine => cosine_s(a, b),
        Metric::Jaccard => jaccard_s(a, b),
    }
}

/// Every similarity score is at most `SCALE`.
pub proof fn lemma_sim_le_scale(m: Metric, a: Seq<Entry>, b: Seq<Entry>)
    ensures
        sim_s(m, a, b) <= SCALE as nat,
{
}

/// Disjoint vectors are never similar.
pub proof fn lemma_disjoint_sim_zero(m: Metric, a: Seq<Entry>, b: Seq<Entry>)
    requires
        disjoint_s(a, b),
    ensures
        sim_s(m, a, b) == 0,
{
    lemma_disjoint_zero(a, b);
    assert(dot_s(a, b) * (SCALE as nat) == 0);
    assert(inter_s(a, b) * (SCALE as nat) == 0);
    match m {
        Metric::Cosine => {
            if norm2_s(a) != 0 && norm2_s(b) != 0 {
                assert(dot_s(a, b) * (SCALE as nat) * (SCALE as nat) * (SCALE as nat) == 0)
                    by (nonlinear_arith)
                    requires dot_s(a, b) == 0;
                let pa = norm2_s(a) * (SCALE as nat) * (SCALE as nat);
                let pb = norm2_s(b) * (SCALE as nat) * (SCALE as nat);
                assert(norm2_s(a) * (SCALE as nat) * (SCALE as nat) >= 1) by (nonlinear_arith)
                    requires norm2_s(a) >= 1, (SCALE as nat) >= 1;
                assert(norm2_s(b) * (SCALE as nat) * (SCALE as nat) >= 1) by (nonlinear_arith)
                    requires norm2_s(b) >= 1, (SCALE as nat) >= 1;
                lemma_isqrt_bounds(pa);
                lemma_isqrt_bounds(pb);
                let da = isqrt_s(pa);
                let db = isqrt_s(pb);
                if da == 0 {
                    assert(pa < 1) by (nonlinear_arith)
                        requires pa < (da + 1) * (da + 1), da == 0nat;
                    assert(false);
                }
                if db == 0 {
                    assert(pb < 1) by (nonlinear_arith)
                        requires pb < (db + 1) * (db + 1), db == 0nat;
                    assert(false);
                }
                assert(da * db >= 1) by (nonlinear_arith)
                    requires da >= 1, db >= 1;
                vstd::arithmetic::div_mod::lemma_div_basics((da * db) as int);
            }
        },
        Metric::Jaccard => {
            if a.len() != 0 && b.len() != 0 {
                lemma_inter_le(a, b);
                let un = (a.len() + b.len() - inter_s(a, b)) as nat;
                assert(un >= 1);
                vstd::arithmetic::div_mod::lemma_div_basics(un as int);
            }
        },
    }
}

/// Dot product of two sorted sparse vectors.
pub fn dot_weights(a: &Vec<Entry>, b: &Vec<Entry>) -> (r: u64)
    requires
        sorted_by_idx(a@),
        sorted_by_idx(b@),
    ensures
        r as nat == dot_s(a@, b@),
{
    proof {
        lemma_sorted_len(a@);
    }
    let mut sum: u64 = 0;
    let mut t: usize = 0;
    while t < a.len()
        invariant
            0 <= t <= a@.len() <= 0x1_0000_0000,
            sorted_by_idx(b@),
            sum as nat == dot_s(a@.take(t as int), b@),
        decreases a.len() - t,
    {
        let e = a[t];
        let wb = match crate::sparse::find_weight(b, e.idx) {
            Some(w) => w,
            None => 0,
        };
        proof {
            lemma_dot_bound(a@.take(t as int), b@);
            assert((t as int) * (MAX_WW as int) + MAX_WW as int <= 0x1_0000_0000 * (
            MAX_WW as int)) by (nonlinear_arith)
                requires 0 <= (t as int), (t as int) < 0x1_0000_0000;
            lemma_mul_upper_bound(e.weight as int, 0xffff, wb as int, 0xffff);
            assert(a@.take(t + 1 as int).drop_last() =~= a@.take(t as int));
            assert(a@.take(t + 1 as int).last() == a@[t as int]);
            assert(w_of(b@, e.idx) == wb as nat);
        }
        sum = sum + (e.weight as u64) * (wb as u64);
        t = t + 1;
    }
    proof {
        assert(a@.take(a@.len() as int) =~= a@);
    }
    sum
}

/// Squared L2 norm of a sorted sparse vector.
pub fn norm2_of(a: &Vec<Entry>) -> (r: u64)
    requires
        sorted_by_idx(a@),
    ensures
        r as nat == norm2_s(a@),
{
    proof {
        lemma_sorted_len(a@);
    }
    let mut sum: u64 = 0;
    let mut t: usize = 0;
    while t < a.len()
        invariant
            0 <= t <= a@.len() <= 0x1_0000_0000,
            sum as nat == norm2_s(a@.take(t as int)),
        decreases a.len() - t,
    {
        let e = a[t];
        proof {
            lemma_norm2_bound(a@.take(t as int));
            assert((t as int) * (MAX_WW as int) + MAX_WW as int <= 0x1_0000_0000 * (
            MAX_WW as int)) by (nonlinear_arith)
                requires 0 <= (t as int), (t as int) < 0x1_0000_0000;
            lemma_mul_upper_bound(e.weight as int, 0xffff, e.weight as int, 0xffff);
            assert(a@.take(t + 1 as int).drop_last() =~= a@.take(t as int));
            assert(a@.take(t + 1 as int).last() == a@[t as int]);
        }
        sum = sum + (e.weight as u64) * (e.weight as u64);
        t = t + 1;
    }
    proof {
        assert(a@.take(a@.len() as int) =~= a@);
    }
    sum
}

/// Intersection size of the nonzero index sets of two sorted vectors.
pub fn inter_count(a: &Vec<Entry>, b: &Vec<Entry>) -> (r: u64)
    requires
        sorted_by_idx(a@),
        sorted_by_idx(b@),
    ensures
        r as nat == inter_s(a@, b@),
        r as nat <= a@.len(),
{
    proof {
        lemma_sorted_len(a@);
        lemma_inter_le(a@, b@);
    }
    let mut count: u64 = 0;
    let mut t: usize = 0;
    while t < a.len()
        invariant
            0 <= t <= a@.len() <= 0x1_0000_0000,
            sorted_by_idx(b@),
            count as nat == inter_s(a@.take(t as int), b@),
        decreases a.len() - t,
    {
        let e = a[t];
        let hit = crate::sparse::find_contains(b, e.idx);
        proof {
            lemma_inter_le(a@.take(t as int), b@);
            assert(a@.take(t + 1 as int).drop_last() =~= a@.take(t as int));
            assert(a@.take(t + 1 as int).last() == a@[t as int]);
        }
        if hit {
            count = count + 1;
        }
        t = t + 1;
    }
    proof {
        assert(a@.take(a@.len() as int) =~= a@);
    }
    count
}

/// One neighbor candidate: an index and its fixed-point score.
#[derive(Clone, Copy, Debug, PartialEq, Eq, Structural)]
pub struct Scored {
    pub idx: u32,
    pub score: u128,
}

/// Ranking order of neighbor entries: higher score first, and at equal
/// scores the lower index first, so rankings are deterministic.
pub open spec fn ranks_before(x: Scored, y: Scored) -> bool {
    x.score > y.score || (x.score == y.score && x.idx < y.idx)
}

/// The sequence is strictly ordered by rank: descending score with the
/// low-index tie-break.
pub open spec fn ranked(s: Seq<Scored>) -> bool {
    forall|a: int, b: int| 0 <= a < b < s.len() ==> ranks_before(#[trigger] s[a], #[trigger] s[b])
}

/// Insert `x` into a ranked sequence at its rank position.
pub open spec fn ins_ranked(l: Seq<Scored>, x: Scored) -> Seq<Scored>
    decreases l.len(),
{
    if l.len() == 0 {
        seq![x]
    } else if ranks_before(x, l[0]) {
        seq![x] + l
    } else {
        seq![l[0]] + ins_ranked(l.skip(1), x)
    }
}

/// Keep only the first `k` elements.
pub open spec fn capped(l: Seq<Scored>, k: nat) -> Seq<Scored> {
    if l.len() <= k {
        l
    } else {
        l.take(k as int)
    }
}

/// Insert `x` at its rank and drop whatever falls past position `k`.
pub open spec fn push_capped_s(l: Seq<Scored>, x: Scored, k: nat) -> Seq<Scored> {
    capped(ins_ranked(l, x), k)
}

/// Inserting an entry with a fresh index into a ranked sequence keeps
/// it ranked, grows it by one, and adds exactly that entry.
pub proof fn lemma_ins_ranked(l: Seq<Scored>, x: Scored)
    requires
        ranked(l),
        forall|t: int| 0 <= t < l.len() ==> (#[trigger] l[t].idx) != x.idx,
    ensures
        ins_ranked(l, x).len() == l.len() + 1,
        ranked(ins_ranked(l, x)),
        forall|e: Scored| #[trigger] ins_ranked(l, x).contains(e) <==> (l.contains(e) || e == x),
    decreases l.len(),
{
    let r = ins_ranked(l, x);
    if l.len() == 0 {
        assert(r[0] == x);
        assert forall|e: Scored| #[trigger] r.contains(e) <==> (l.contains(e) || e == x) by {
            if r.contains(e) {
                let t = choose|t: int| 0 <= t < r.len() && r[t] == e;
                assert(e == x);
            }
            if e == x {
                assert(r[0] == e);
            }
        }
    } else if ranks_before(x, l[0]) {
        assert forall|a: int, b: int| 0 <= a < b < r.len() implies ranks_before(r[a], r[b]) by {
            if a == 0 {
                assert(r[a] == x && r[b] == l[b - 1]);
            } else {
                assert(r[a] == l[a - 1] && r[b] == l[b - 1]);
            }
        }
        assert forall|e: Scored| #[trigger] r.contains(e) <==> (l.contains(e) || e == x) by {
            if r.contains(e) {
                let t = choose|t: int| 0 <= t < r.len() && r[t] == e;
                if t == 0 {
                    assert(e == x);
                } else {
                    assert(l[t - 1] == e);
                }
            }
            if e == x {
                assert(r[0] == e);
            }
            if l.contains(e) {
                let t = choose|t: int| 0 <= t < l.len() && l[t] == e;
                assert(r[t + 1] == e);
            }
        }
    } else {
        let lt = l.skip(1);
        assert(forall|t: int| 0 <= t < lt.len() ==> (#[trigger] lt[t]) == l[t + 1]);
        lemma_ins_ranked(lt, x);
        let rt = ins_ranked(lt, x);
        assert(r == seq![l[0]] + rt);
        // The head ranks before x because their indices differ and x
        // does not rank before the head.
        assert(ranks_before(l[0], x));
        assert forall|a: int, b: int| 0 <= a < b < r.len() implies ranks_before(r[a], r[b]) by {
            if a > 0 {
                assert(r[a] == rt[a - 1] && r[b] == rt[b - 1]);
            } else {
                assert(r[b] == rt[b - 1]);
                assert(rt.contains(rt[b - 1]));
                let e = rt[b - 1];
                assert(lt.contains(e) || e == x);
                if lt.contains(e) {
                    let t = choose|t: int| 0 <= t < lt.len() && lt[t] == e;
                    assert(l[t + 1] == e);
                    assert(ranks_before(l[0], e));
                }
            }
        }
        assert forall|e: Scored| #[trigger] r.contains(e) <==> (l.contains(e) || e == x) by {
            if r.contains(e) {
                let t = choose|t: int| 0 <= t < r.len() && r[t] == e;
                if t == 0 {
                    assert(l[0] == e);
                } else {
                    assert(rt[t - 1] == e);
                    assert(rt.contains(e));
                    if lt.contains(e) {
                        let t2 = choose|t2: int| 0 <= t2 < lt.len() && lt[t2] == e;
                        assert(l[t2 + 1] == e);
                    }
                }
            }
            if e == x {
                assert(rt.contains(e));
                let t = choose|t: int| 0 <= t < rt.len() && rt[t] == e;
                assert(r[t + 1] == e);
            }
            if l.contains(e) {
                let t = choose|t: int| 0 <= t < l.len() && l[t] == e;
                if t == 0 {
                    assert(r[0] == e);
                } else {
                    assert(lt[t - 1] == e);
                    assert(lt.contains(e));
                    assert(rt.contains(e));
                    let t2 = choose|t2: int| 0 <= t2 < rt.len() && rt[t2] == e;
                    assert(r[t2 + 1] == e);
                }
            }
        }
    }
}

/// `ins_ranked` in terms of the first position `j` where `x` outranks
/// the resident entry: the result is `l` with `x` inserted at `j`.
pub proof fn lemma_ins_at(l: Seq<Scored>, x: Scored, j: int)
    requires
        ranked(l),
        0 <= j <= l.len(),
        forall|i: int| 0 <= i < j ==> !ranks_before(x, #[trigger] l[i]),
        j < l.len() ==> ranks_before(x, l[j]),
    ensures
        ins_ranked(l, x) == l.insert(j, x),
    decreases j,
{
    let r = ins_ranked(l, x);
    if j == 0 {
        if l.len() == 0 {
            assert(r =~= l.insert(0, x));
        } else {
            assert(ranks_before(x, l[0]));
            assert(r =~= l.insert(0, x));
        }
    } else {
        assert(!ranks_before(x, l[0]));
        let lt = l.skip(1);
        assert(forall|i: int| 0 <= i < lt.len() ==> (#[trigger] lt[i]) == l[i + 1]);
        lemma_ins_at(lt, x, j - 1);
        assert(r =~= l.insert(j, x));
    }
}

/// Ranked order survives truncation.
pub proof fn lemma_capped_ranked(l: Seq<Scored>, k: nat)
    requires
        ranked(l),
    ensures
        ranked(capped(l, k)),
        capped(l, k).len() <= k,
        forall|e: Scored| #[trigger] capped(l, k).contains(e) ==> l.contains(e),
{
    let c = capped(l, k);
    assert forall|e: Scored| #[trigger] c.contains(e) implies l.contains(e) by {
        if c.contains(e) {
            let t = choose|t: int| 0 <= t < c.len() && c[t] == e;
            assert(l[t] == e);
        }
    }
}

/// Inserts `x` into the ranked list `list`, dropping whatever falls
/// past position `k`.
pub fn push_capped(list: &mut Vec<Scored>, x: Scored, k: usize)
    requires
        ranked(old(list)@),
        old(list)@.len() <= k,
        forall|t: int| 0 <= t < old(list)@.len() ==> (#[trigger] old(list)@[t].idx) != x.idx,
    ensures
        final(list)@ == push_capped_s(old(list)@, x, k as nat),
{
    let ghost l = list@;
    let mut j: usize = 0;
    while j < list.len() && !(x.score > list[j].score || (x.score == list[j].score && x.idx
        < list[j].idx))
        invariant
            0 <= j <= list@.len(),
            list@ == l,
            forall|i: int| 0 <= i < j ==> !ranks_before(x, #[trigger] l[i]),
        decreases list.len() - j,
    {
        j = j + 1;
    }
    proof {
        lemma_ins_at(l, x, j as int);
        lemma_ins_ranked(l, x);
    }
    list.insert(j, x);
    if list.len() > k {
        list.truncate(k);
        proof {
            assert(list@ =~= capped(ins_ranked(l, x), k as nat));
        }
    }
}

/// Similarity of two sorted sparse vectors under `m`, in fixed point.
pub fn similarity(m: Metric, a: &Vec<Entry>, b: &Vec<Entry>) -> (r: u64)
    requires
        sorted_by_idx(a@),
        sorted_by_idx(b@),
    ensures
        r as nat == sim_s(m, a@, b@),
        r <= SCALE,
{
    match m {
        Metric::Cosine => {
            let na = norm2_of(a);
            let nb = norm2_of(b);
            if na == 0 || nb == 0 {
                0
            } else {
                let d = dot_weights(a, b);
                let s2: u128 = (SCALE as u128) * (SCALE as u128);
                proof {
                    lemma_norm2_bound(a@);
                    lemma_norm2_bound(b@);
                    lemma_sorted_len(a@);
                    lemma_sorted_len(b@);
                    lemma_mul_inequality(a@.len() as int, 0x1_0000_0000, MAX_WW as int);
                    lemma_mul_inequality(b@.len() as int, 0x1_0000_0000, MAX_WW as int);
                    assert(na as nat <= 0x1_0000_0000 * (MAX_WW as nat));
                    assert(nb as nat <= 0x1_0000_0000 * (MAX_WW as nat));
                    lemma_mul_upper_bound(
                        na as int,
                        0x1_0000_0000 * (MAX_WW as int),
                        s2 as int,
                        1_000_000_000_000,
                    );
                    lemma_mul_upper_bound(
                        nb as int,
                        0x1_0000_0000 * (MAX_WW as int),
                        s2 as int,
                        1_000_000_000_000,
                    );
                }
                let pa: u128 = (na as u128) * s2;
                let pb: u128 = (nb as u128) * s2;
                let da = isqrt(pa);
                let db = isqrt(pb);
                proof {
                    if da == 0 {
                        assert((pa as nat) < 1) by (nonlinear_arith)
                            requires
                                (pa as nat) < ((da as nat) + 1) * ((da as nat) + 1),
                                da as nat == 0nat;
                        assert((na as nat) * (s2 as nat) >= 1) by (nonlinear_arith)
                            requires na as nat >= 1, s2 as nat >= 1;
                        assert(false);
                    }
                    if db == 0 {
                        assert((pb as nat) < 1) by (nonlinear_arith)
                            requires
                                (pb as nat) < ((db as nat) + 1) * ((db as nat) + 1),
                                db as nat == 0nat;
                        assert((nb as nat) * (s2 as nat) >= 1) by (nonlinear_arith)
                            requires nb as nat >= 1, s2 as nat >= 1;
                        assert(false);
                    }
                    lemma_mul_upper_bound(
                        da as int,
                        0xffff_ffff_ffff_ffff,
                        db as int,
                        0xffff_ffff_ffff_ffff,
                    );
                    lemma_mul_upper_bound(d as int, 0xffff_ffff_ffff_ffff, SCALE as int, 1_000_000);
                    lemma_mul_upper_bound(
                        (d as int) * (SCALE as int),
                        0xffff_ffff_ffff_ffff * 1_000_000int,
                        s2 as int,
                        1_000_000_000_000,
                    );
                    // The exec products group differently from the
                    // specification's left-to-right ones.
                    assert((na as nat) * ((SCALE as nat) * (SCALE as nat)) == norm2_s(a@) * (
                    SCALE as nat) * (SCALE as nat)) by (nonlinear_arith)
                        requires na as nat == norm2_s(a@);
                    assert((nb as nat) * ((SCALE as nat) * (SCALE as nat)) == norm2_s(b@) * (
                    SCALE as nat) * (SCALE as nat)) by (nonlinear_arith)
                        requires nb as nat == norm2_s(b@);
                    assert((d as nat) * (SCALE as nat) * ((SCALE as nat) * (SCALE as nat))
                        == dot_s(a@, b@) * (SCALE as nat) * (SCALE as nat) * (SCALE as nat))
                        by (nonlinear_arith)
                        requires d as nat == dot_s(a@, b@);
                }
                let den: u128 = (da as u128) * (db as u128);
                let num: u128 = (d as u128) * (SCALE as u128) * s2;
                proof {
                    assert((da as nat) * (db as nat) >= 1) by (nonlinear_arith)
                        requires da as nat >= 1, db as nat >= 1;
                    assert(den >= 1);
                }
                let q: u128 = num / den;
                if q > SCALE as u128 {
                    SCALE
                } else {
                    q as u64
                }
            }
        },
        Metric::Jaccard => {
            if a.len() == 0 || b.len() == 0 {
                0
            } else {
                let it = inter_count(a, b);
                proof {
                    lemma_sorted_len(a@);
                    lemma_sorted_len(b@);
                }
                let un: u64 = a.len() as u64 + b.len() as u64 - it;
                let q: u128 = (it as u128) * (SCALE as u128) / (un as u128);
                if q > SCALE as u128 {
                    SCALE
                } else {
                    q as u64
                }
            }
        },
    }
}

/// Two indices share at least one co-occurring coordinate.
pub open spec fn shares(rs: Seq<Seq<Entry>>, u: int, v: int) -> bool {
    exists|x: u32| (#[trigger] find_w(rs[u], x)).is_some() && find_w(rs[v], x).is_some()
}

/// Indices that share nothing have disjoint nonzero coordinates.
pub proof fn lemma_not_shares_disjoint(rs: Seq<Seq<Entry>>, u: int, v: int)
    requires
        !shares(rs, u, v),
    ensures
        disjoint_s(rs[u], rs[v]),
{
    assert forall|t: int| 0 <= t < rs[u].len() implies (#[trigger] find_w(
        rs[v],
        rs[u][t].idx,
    )).is_none() by {
        lemma_find_w_occurs(rs[u], rs[u][t].idx);
        if find_w(rs[v], rs[u][t].idx).is_some() {
            assert(find_w(rs[u], rs[u][t].idx).is_some());
            assert(false);
        }
    }
}

/// The neighbor list of `u` after considering candidates `0..n`:
/// each candidate `v` other than `u` with a nonzero similarity is
/// inserted at its rank, and the list is capped at `k`.
pub open spec fn nb_fold(rs: Seq<Seq<Entry>>, u: int, m: Metric, k: nat, n: int) -> Seq<Scored>
    decreases n,
{
    if n <= 0 {
        Seq::<Scored>::empty()
    } else {
        let prev = nb_fold(rs, u, m, k, n - 1);
        let v = n - 1;
        let s = sim_s(m, rs[u], rs[v]);
        if v != u && s > 0 {
            push_capped_s(prev, Scored { idx: v as u32, score: s as u128 }, k)
        } else {
            prev
        }
    }
}

/// The top-K neighbor list of index `u` over all candidates.
pub open spec fn spec_nb(rs: Seq<Seq<Entry>>, u: int, m: Metric, k: nat) -> Seq<Scored> {
    nb_fold(rs, u, m, k, rs.len() as int)
}

/// The full neighbor table: one list per index of the axis.
pub open spec fn spec_table(rs: Seq<Seq<Entry>>, m: Metric, k: nat) -> Seq<Seq<Scored>> {
    Seq::new(rs.len(), |u: int| spec_nb(rs, u, m, k))
}

/// Sequence-of-sequences view of a vector of neighbor lists.
pub open spec fn table_view(t: Seq<Vec<Scored>>) -> Seq<Seq<Scored>> {
    Seq::new(t.len(), |i: int| t[i]@)
}

/// Structure of a neighbor fold: ranked, capped at `k`, and every
/// element is a candidate below `n`, distinct from `u`, carrying its
/// exact nonzero similarity score.
pub proof fn lemma_nb_fold_props(rs: Seq<Seq<Entry>>, u: int, m: Metric, k: nat, n: int)
    requires
        0 <= n <= 0x1_0000_0000,
    ensures
        ranked(nb_fold(rs, u, m, k, n)),
        nb_fold(rs, u, m, k, n).len() <= k,
        forall|e: Scored| #[trigger] nb_fold(rs, u, m, k, n).contains(e) ==> {
            &&& (e.idx as int) < n
            &&& (e.idx as int) != u
            &&& e.score == sim_s(m, rs[u], rs[e.idx as int])
            &&& 0 < e.score <= SCALE as nat
        },
    decreases n,
{
    if n > 0 {
        lemma_nb_fold_props(rs, u, m, k, n - 1);
        let prev = nb_fold(rs, u, m, k, n - 1);
        let v = n - 1;
        let s = sim_s(m, rs[u], rs[v]);
        let f = nb_fold(rs, u, m, k, n);
        if v != u && s > 0 {
            let x = Scored { idx: v as u32, score: s as u128 };
            lemma_sim_le_scale(m, rs[u], rs[v]);
            assert((x.idx as int) == v);
            assert forall|t: int| 0 <= t < prev.len() implies (#[trigger] prev[t].idx) != x.idx by {
                assert(prev.contains(prev[t]));
            }
            lemma_ins_ranked(prev, x);
            lemma_capped_ranked(ins_ranked(prev, x), k);
            assert forall|e: Scored| #[trigger] f.contains(e) implies {
                &&& (e.idx as int) < n
                &&& (e.idx as int) != u
                &&& e.score == sim_s(m, rs[u], rs[e.idx as int])
                &&& 0 < e.score <= SCALE as nat
            } by {
                assert(ins_ranked(prev, x).contains(e));
                if !prev.contains(e) {
                    assert(e == x);
                }
            }
        }
    }
}

/// If every candidate's similarity agrees between two axis views, the
/// neighbor folds agree as well.
pub proof fn lemma_nb_fold_same_sims(
    rs1: Seq<Seq<Entry>>,
    rs2: Seq<Seq<Entry>>,
    u: int,
    m: Metric,
    k: nat,
    n: int,
)
    requires
        forall|v: int| 0 <= v < n ==> sim_s(m, rs1[u], #[trigger] rs1[v]) == sim_s(
            m,
            rs2[u],
            rs2[v],
        ),
    ensures
        nb_fold(rs1, u, m, k, n) == nb_fold(rs2, u, m, k, n),
    decreases n,
{
    if n > 0 {
        lemma_nb_fold_same_sims(rs1, rs2, u, m, k, n - 1);
    }
}

/// Candidates whose similarity is zero leave the fold unchanged.
pub proof fn lemma_nb_fold_extend_zero(
    rs: Seq<Seq<Entry>>,
    u: int,
    m: Metric,
    k: nat,
    n1: int,
    n2: int,
)
    requires
        0 <= n1 <= n2,
        forall|v: int| n1 <= v < n2 ==> sim_s(m, rs[u], #[trigger] rs[v]) == 0,
    ensures
        nb_fold(rs, u, m, k, n2) == nb_fold(rs, u, m, k, n1),
    decreases n2 - n1,
{
    if n1 < n2 {
        lemma_nb_fold_extend_zero(rs, u, m, k, n1, n2 - 1);
    }
}

/// Every index of `rs` that stores coordinate `x` is marked.
pub open spec fn marked_for(rs: Seq<Seq<Entry>>, marks: Seq<bool>, x: u32) -> bool {
    forall|v: int| 0 <= v < rs.len() ==> ((#[trigger] find_w(rs[v], x)).is_some() ==> marks[v])
}

/// Top-K neighbor list of index `u`, found through an inverted-index
/// pass: only indices that co-occur with `u` in some column of the
/// co-view are considered, which bounds the work by the co-occurrence
/// structure instead of the full index space.
pub fn nb_list(
    view: &Vec<Vec<Entry>>,
    coview: &Vec<Vec<Entry>>,
    u: usize,
    m: Metric,
    k: usize,
) -> (out: Vec<Scored>)
    requires
        crate::sparse::axis_pair_wf(
            crate::sparse::lists_view(view@),
            crate::sparse::lists_view(coview@),
        ),
        u < view@.len(),
    ensures
        out@ == spec_nb(crate::sparse::lists_view(view@), u as int, m, k as nat),
{
    let ghost rs = crate::sparse::lists_view(view@);
    let ghost cs = crate::sparse::lists_view(coview@);
    let n = view.len();
    let mut marks: Vec<bool> = Vec::new();
    let mut j: usize = 0;
    while j < n
        invariant
            marks@.len() == j <= n,
        decreases n - j,
    {
        marks.push(false);
        j = j + 1;
    }
    let mut t: usize = 0;
    while t < view[u].len()
        invariant
            u < view@.len() == n,
            rs == crate::sparse::lists_view(view@),
            cs == crate::sparse::lists_view(coview@),
            crate::sparse::axis_pair_wf(rs, cs),
            marks@.len() == n,
            0 <= t <= rs[u as int].len(),
            forall|tt: int| 0 <= tt < t ==> marked_for(rs, marks@, (#[trigger] rs[u as int][tt]).idx),
        decreases rs[u as int].len() - t,
    {
        let e = view[u][t];
        let i = e.idx as usize;
        proof {
            assert(rs[u as int][t as int] == e);
            assert((e.idx as nat) < cs.len());
        }
        let col = &coview[i];
        let mut q: usize = 0;
        while q < col.len()
            invariant
                u < view@.len() == n,
                rs == crate::sparse::lists_view(view@),
                cs == crate::sparse::lists_view(coview@),
                crate::sparse::axis_pair_wf(rs, cs),
                marks@.len() == n,
                (i as int) < cs.len(),
                col@ == cs[i as int],
                0 <= q <= col@.len(),
                forall|tt: int| 0 <= tt < t ==> marked_for(rs, marks@, (#[trigger] rs[u as int][tt]).idx),
                forall|qq: int| 0 <= qq < q ==> marks@[(#[trigger] col@[qq]).idx as int],
            decreases col.len() - q,
        {
            let ce = col[q];
            proof {
                assert(cs[i as int][q as int] == ce);
                assert((ce.idx as nat) < rs.len());
            }
            let ghost marks0 = marks@;
            marks.set(ce.idx as usize, true);
            proof {
                assert forall|tt: int| 0 <= tt < t implies marked_for(
                    rs,
                    marks@,
                    (#[trigger] rs[u as int][tt]).idx,
                ) by {
                    assert(marked_for(rs, marks0, rs[u as int][tt].idx));
                    assert forall|v: int|
                        0 <= v < rs.len() && (#[trigger] find_w(rs[v], rs[u as int][tt].idx)).is_some()
                        implies marks@[v] by {
                        assert(marks0[v]);
                    }
                }
            }
            q = q + 1;
        }
        proof {
            // Everything that stores coordinate i is now marked: the
            // column of i lists exactly those indices.
            assert forall|v: int|
                0 <= v < rs.len() && (#[trigger] find_w(rs[v], e.idx)).is_some()
                implies marks@[v] by {
                assert(find_w(rs[v], e.idx) == find_w(cs[e.idx as int], v as u32));
                lemma_find_w_occurs(cs[e.idx as int], v as u32);
                let qq = choose|qq: int|
                    0 <= qq < cs[e.idx as int].len() && (#[trigger] cs[e.idx as int][qq].idx)
                        == v as u32;
                assert(marks@[cs[e.idx as int][qq].idx as int]);
            }
            assert(marked_for(rs, marks@, e.idx));
        }
        t = t + 1;
    }
    proof {
        // An unmarked candidate shares no coordinate with u, so its
        // similarity is zero.
        assert forall|v: int| 0 <= v < n && !marks@[v] implies sim_s(m, rs[u as int], #[trigger] rs[v])
            == 0 by {
            if shares(rs, u as int, v) {
                let x = choose|x: u32|
                    (#[trigger] find_w(rs[u as int], x)).is_some() && find_w(rs[v], x).is_some();
                lemma_find_w_occurs(rs[u as int], x);
                let tt = choose|tt: int|
                    0 <= tt < rs[u as int].len() && (#[trigger] rs[u as int][tt].idx) == x;
                assert(marked_for(rs, marks@, rs[u as int][tt].idx));
                assert(false);
            }
            lemma_not_shares_disjoint(rs, u as int, v);
            lemma_disjoint_sim_zero(m, rs[u as int], rs[v]);
        }
    }
    let mut out: Vec<Scored> = Vec::new();
    let mut v: usize = 0;
    while v < n
        invariant
            u < view@.len() == n,
            rs == crate::sparse::lists_view(view@),
            cs == crate::sparse::lists_view(coview@),
            crate::sparse::axis_pair_wf(rs, cs),
            marks@.len() == n,
            0 <= v <= n,
            out@ == nb_fold(rs, u as int, m, k as nat, v as int),
            forall|vv: int| 0 <= vv < n && !marks@[vv] ==> sim_s(m, rs[u as int], #[trigger] rs[vv])
                == 0,
        decreases n - v,
    {
        proof {
            lemma_nb_fold_props(rs, u as int, m, k as nat, v as int);
        }
        if marks[v] && v != u {
            proof {
                assert(sorted_by_idx(rs[u as int]));
                assert(sorted_by_idx(rs[v as int]));
            }
            let s = similarity(m, &view[u], &view[v]);
            if s > 0 {
                let x = Scored { idx: v as u32, score: s as u128 };
                proof {
                    assert forall|tt: int| 0 <= tt < out@.len() implies (#[trigger] out@[tt].idx)
                        != x.idx by {
                        assert(out@.contains(out@[tt]));
                    }
                }
                push_capped(&mut out, x, k);
            }
        }
        v = v + 1;
    }
    out
}

/// Computes the full neighbor table for one axis. The index space is
/// walked in fixed chunks of `ceil(n / workers)` indices, the unit a
/// parallel deployment would hand each worker; every partition yields
/// the same table, because each list depends only on the axis views.
pub fn compute_all(
    view: &Vec<Vec<Entry>>,
    coview: &Vec<Vec<Entry>>,
    m: Metric,
    k: usize,
    workers: usize,
) -> (out: Vec<Vec<Scored>>)
    requires
        crate::sparse::axis_pair_wf(
            crate::sparse::lists_view(view@),
            crate::sparse::lists_view(coview@),
        ),
        workers >= 1,
    ensures
        table_view(out@) == spec_table(crate::sparse::lists_view(view@), m, k as nat),
{
    let ghost rs = crate::sparse::lists_view(view@);
    let n = view.len();
    proof {
        assert(rs.len() == view@.len());
        assert(n <= 0x1_0000_0000);
        vstd::arithmetic::div_mod::lemma_div_basics_5(n as int, workers as int);
        assert((n as int) / (workers as int) <= n as int);
    }
    let mut chunkraw = n / workers;
    if n % workers != 0 {
        proof {
            assert((n as int) % 1int == 0) by (nonlinear_arith);
            assert(workers >= 2);
            vstd::arithmetic::div_mod::lemma_div_is_ordered_by_denominator(
                n as int,
                2,
                workers as int,
            );
        }
        chunkraw = chunkraw + 1;
    }
    proof {
        lemma_fundamental_div_mod(n as int, workers as int);
        if n > 0 && chunkraw == 0 {
            assert(n as int == (workers as int) * ((n as int) / (workers as int)) + (n as int)
                % (workers as int));
            assert((workers as int) * 0int == 0) by (nonlinear_arith);
            assert(false);
        }
    }
    let chunk = if chunkraw > n {
        n
    } else {
        chunkraw
    };
    let mut out: Vec<Vec<Scored>> = Vec::new();
    let mut u: usize = 0;
    while u < n
        invariant
            n == view@.len() <= 0x1_0000_0000,
            rs == crate::sparse::lists_view(view@),
            crate::sparse::axis_pair_wf(rs, crate::sparse::lists_view(coview@)),
            n > 0 ==> chunk >= 1,
            chunk <= n,
            0 <= u <= n,
            out@.len() == u,
            forall|i: int| 0 <= i < u ==> (#[trigger] out@[i])@ == spec_nb(rs, i, m, k as nat),
        decreases n - u,
    {
        let stop = if u <= n - chunk {
            u + chunk
        } else {
            n
        };
        while u < stop
            invariant
                n == view@.len() <= 0x1_0000_0000,
                rs == crate::sparse::lists_view(view@),
                crate::sparse::axis_pair_wf(rs, crate::sparse::lists_view(coview@)),
                0 <= u <= stop <= n,
                out@.len() == u,
                forall|i: int| 0 <= i < u ==> (#[trigger] out@[i])@ == spec_nb(rs, i, m, k as nat),
            decreases stop - u,
        {
            let nb = nb_list(view, coview, u, m, k);
            out.push(nb);
            u = u + 1;
        }
    }
    proof {
        assert(table_view(out@) =~= spec_table(rs, m, k as nat));
    }
    out
}

} // verus!
