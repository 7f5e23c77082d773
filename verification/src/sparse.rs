//! Compressed sparse storage of the user-item interaction graph.
//!
//! A matrix holds one sorted entry list per row (user) and, mirrored,
//! one per column (item), so that both axes can be scanned in index
//! order. All mutation goes through `insert_or_accumulate`, which keeps
//! the two views consistent and combines duplicate coordinates under a
//! merge policy.

use vstd::prelude::*;
use crate::MergePolicy;

verus! {

/// One nonzero of the matrix: a neighbor index and its weight.
#[derive(Clone, Copy, Debug, PartialEq, Eq, Structural)]
pub struct Entry {
    pub idx: u32,
    pub weight: u16,
}

/// The entry indices are strictly increasing.
pub open spec fn sorted_by_idx(s: Seq<Entry>) -> bool {
    forall|a: int, b: int| 0 <= a < b < s.len() ==> s[a].idx < s[b].idx
}

/// Every entry index lies below `bound`.
pub open spec fn entries_below(s: Seq<Entry>, bound: nat) -> bool {
    forall|t: int| 0 <= t < s.len() ==> (#[trigger] s[t].idx as nat) < bound
}

/// Every entry carries a nonzero weight.
pub open spec fn weights_positive(s: Seq<Entry>) -> bool {
    forall|t: int| 0 <= t < s.len() ==> (#[trigger] s[t].weight) >= 1
}

/// The weight stored for index `x`, if any (first match).
pub open spec fn find_w(s: Seq<Entry>, x: u32) -> Option<u16>
    decreases s.len(),
{
    if s.len() == 0 {
        None
    } else if s[0].idx == x {
        Some(s[0].weight)
    } else {
        find_w(s.skip(1), x)
    }
}

/// `find_w` answers `Some` exactly on the indices that occur in `s`,
/// and when the index occurrence is unique it returns that weight.
pub proof fn lemma_find_w_occurs(s: Seq<Entry>, x: u32)
    ensures
        find_w(s, x).is_some() <==> exists|t: int| 0 <= t < s.len() && (#[trigger] s[t].idx) == x,
        find_w(s, x) matches Some(w) ==> exists|t: int|
            0 <= t < s.len() && (#[trigger] s[t].idx) == x && s[t].weight == w,
    decreases s.len(),
{
    if s.len() > 0 {
        if s[0].idx == x {
        } else {
            lemma_find_w_occurs(s.skip(1), x);
            if find_w(s, x).is_some() {
                let t = choose|t: int| 0 <= t < s.skip(1).len() && (#[trigger] s.skip(1)[t].idx) == x;
                assert(s[t + 1].idx == x);
            }
            if exists|t: int| 0 <= t < s.len() && (#[trigger] s[t].idx) == x {
                let t = choose|t: int| 0 <= t < s.len() && (#[trigger] s[t].idx) == x;
                assert(s.skip(1)[t - 1].idx == x);
            }
            if find_w(s, x).is_some() {
                let fw = find_w(s, x).unwrap();
                let t = choose|t: int|
                    0 <= t < s.skip(1).len() && (#[trigger] s.skip(1)[t].idx) == x
                        && s.skip(1)[t].weight == fw;
                assert(s[t + 1].idx == x && s[t + 1].weight == fw);
            }
        }
    }
}

/// In a list whose prefix before `t` misses `x`, `find_w` returns the
/// entry at `t` when that entry's index is `x`.
pub proof fn lemma_find_w_at(s: Seq<Entry>, t: int)
    requires
        0 <= t < s.len(),
        forall|j: int| 0 <= j < t ==> (#[trigger] s[j].idx) != s[t].idx,
    ensures
        find_w(s, s[t].idx) == Some(s[t].weight),
    decreases t,
{
    if t > 0 {
        assert(s.skip(1)[t - 1] == s[t]);
        assert(forall|j: int| 0 <= j < t - 1 ==> (#[trigger] s.skip(1)[j].idx) == s[j + 1].idx);
        lemma_find_w_at(s.skip(1), t - 1);
    }
}

/// Sorted entry lists have distinct indices, so indexing below `t`
/// never repeats `s[t].idx`; `find_w` then reads the entry itself.
pub proof fn lemma_find_w_sorted_at(s: Seq<Entry>, t: int)
    requires
        sorted_by_idx(s),
        0 <= t < s.len(),
    ensures
        find_w(s, s[t].idx) == Some(s[t].weight),
{
    lemma_find_w_at(s, t);
}

/// Strictly increasing `u32` indices bound the length of a list:
/// position `t` holds an index of at least `t`.
pub proof fn lemma_sorted_index_lb(s: Seq<Entry>, t: int)
    requires
        sorted_by_idx(s),
        0 <= t < s.len(),
    ensures
        s[t].idx >= t,
    decreases t,
{
    if t > 0 {
        lemma_sorted_index_lb(s, t - 1);
    }
}

/// A sorted entry list has at most `u32::MAX + 1` entries.
pub proof fn lemma_sorted_len(s: Seq<Entry>)
    requires
        sorted_by_idx(s),
    ensures
        s.len() <= 0x1_0000_0000,
{
    if s.len() > 0x1_0000_0000 {
        lemma_sorted_index_lb(s, 0x1_0000_0000);
    }
}

/// The weight that results from merging a new weight `w` with the
/// prior weight at the same coordinate, if any. `Sum` saturates at the
/// weight type's maximum.
pub open spec fn merged_weight(prior: Option<u16>, w: u16, p: MergePolicy) -> u16 {
    match prior {
        None => w,
        Some(pw) => match p {
            MergePolicy::Overwrite => w,
            MergePolicy::Sum => if pw + w > 0xffff { 0xffff } else { (pw + w) as u16 },
            MergePolicy::Max => if pw >= w { pw } else { w },
        },
    }
}

/// The sorted list after writing weight `w` at index `x` under policy
/// `p`: an existing entry for `x` is merged in place, a missing one is
/// inserted at its sorted position.
pub open spec fn upsert_s(s: Seq<Entry>, x: u32, w: u16, p: MergePolicy) -> Seq<Entry>
    decreases s.len(),
{
    if s.len() == 0 {
        seq![Entry { idx: x, weight: w }]
    } else if s[0].idx == x {
        seq![Entry { idx: x, weight: merged_weight(Some(s[0].weight), w, p) }] + s.skip(1)
    } else if x < s[0].idx {
        seq![Entry { idx: x, weight: w }] + s
    } else {
        seq![s[0]] + upsert_s(s.skip(1), x, w, p)
    }
}

/// How `upsert_s` acts on a sorted list, stated through `find_w`:
/// the written index now carries the merged weight, every other index
/// is untouched, sortedness, bounds and positivity are preserved, and
/// the length grows exactly when the index was absent.
pub proof fn lemma_upsert(s: Seq<Entry>, x: u32, w: u16, p: MergePolicy)
    requires
        sorted_by_idx(s),
    ensures
        sorted_by_idx(upsert_s(s, x, w, p)),
        find_w(upsert_s(s, x, w, p), x) == Some(merged_weight(find_w(s, x), w, p)),
        forall|y: u32| y != x ==> #[trigger] find_w(upsert_s(s, x, w, p), y) == find_w(s, y),
        upsert_s(s, x, w, p).len() == s.len() + (if find_w(s, x).is_some() { 0int } else { 1 }),
        forall|b: nat| entries_below(s, b) && (x as nat) < b ==> entries_below(upsert_s(s, x, w, p), b),
        weights_positive(s) && w >= 1 ==> weights_positive(upsert_s(s, x, w, p)),
    decreases s.len(),
{
    let r = upsert_s(s, x, w, p);
    if s.len() == 0 {
        assert(r[0].idx == x && r[0].weight == w);
        assert(r.skip(1) =~= Seq::<Entry>::empty());
        assert forall|y: u32| y != x implies #[trigger] find_w(r, y) == find_w(s, y) by {
            assert(find_w(r, y) == find_w(r.skip(1), y));
            assert(find_w(r.skip(1), y) == None::<u16>);
        }
    } else if s[0].idx == x {
        assert(r.skip(1) =~= s.skip(1));
        assert forall|a: int, b: int| 0 <= a < b < r.len() implies r[a].idx < r[b].idx by {
            if a > 0 {
                assert(r[a] == s[a] && r[b] == s[b]);
            } else {
                assert(r[b] == s[b]);
            }
        }
    } else if x < s[0].idx {
        assert(r.skip(1) =~= s);
        // No entry of the sorted list can hold x: all indices are at least s[0].idx.
        lemma_find_w_occurs(s, x);
        if find_w(s, x).is_some() {
            let t = choose|t: int| 0 <= t < s.len() && (#[trigger] s[t].idx) == x;
            if t > 0 {
                assert(s[0].idx < s[t].idx);
            }
            assert(false);
        }
        assert forall|a: int, b: int| 0 <= a < b < r.len() implies r[a].idx < r[b].idx by {
            if a > 0 {
                assert(r[a] == s[a - 1] && r[b] == s[b - 1]);
            } else {
                if b > 1 {
                    assert(s[0].idx < s[b - 1].idx);
                }
                assert(r[b] == s[b - 1]);
            }
        }
    } else {
        // x > s[0].idx: the head is kept and the tail is rewritten.
        let rt = upsert_s(s.skip(1), x, w, p);
        lemma_upsert(s.skip(1), x, w, p);
        assert(r == seq![s[0]] + rt);
        assert(r.skip(1) =~= rt);
        // Sortedness: the head index is below x and below every tail index.
        assert forall|a: int, b: int| 0 <= a < b < r.len() implies r[a].idx < r[b].idx by {
            if a > 0 {
                assert(r[a] == rt[a - 1] && r[b] == rt[b - 1]);
            } else {
                assert(r[b] == rt[b - 1]);
                lemma_find_w_occurs(rt, rt[b - 1].idx);
                lemma_find_w_sorted_at(rt, b - 1);
                if rt[b - 1].idx != x {
                    lemma_find_w_occurs(s.skip(1), rt[b - 1].idx);
                    let t = choose|t: int|
                        0 <= t < s.skip(1).len() && (#[trigger] s.skip(1)[t].idx) == rt[b - 1].idx;
                    assert(s[t + 1].idx == rt[b - 1].idx);
                    assert(s[0].idx < s[t + 1].idx);
                }
            }
        }
        assert(find_w(r, x) == find_w(rt, x));
        assert(find_w(s, x) == find_w(s.skip(1), x));
        assert forall|y: u32| y != x implies #[trigger] find_w(r, y) == find_w(s, y) by {
            if y == s[0].idx {
            } else {
                assert(find_w(r, y) == find_w(rt, y));
                assert(find_w(s, y) == find_w(s.skip(1), y));
            }
        }
        assert forall|b: nat| entries_below(s, b) && (x as nat) < b implies entries_below(r, b) by {
            assert(entries_below(s.skip(1), b));
            assert(entries_below(rt, b));
            assert forall|t: int| 0 <= t < r.len() implies (#[trigger] r[t].idx as nat) < b by {
                if t > 0 {
                    assert(r[t] == rt[t - 1]);
                }
            }
        }
        if weights_positive(s) && w >= 1 {
            assert(weights_positive(s.skip(1)));
            assert forall|t: int| 0 <= t < r.len() implies (#[trigger] r[t].weight) >= 1 by {
                if t > 0 {
                    assert(r[t] == rt[t - 1]);
                }
            }
        }
    }
}

/// `upsert_s` in terms of a split position `j`: merge in place when the
/// entry at `j` already holds `x`, insert before `j` otherwise.
pub proof fn lemma_upsert_at(s: Seq<Entry>, x: u32, w: u16, p: MergePolicy, j: int)
    requires
        sorted_by_idx(s),
        0 <= j <= s.len(),
        forall|i: int| 0 <= i < j ==> (#[trigger] s[i].idx) < x,
        j < s.len() ==> s[j].idx >= x,
    ensures
        j < s.len() && s[j].idx == x ==> upsert_s(s, x, w, p) == s.update(
            j,
            Entry { idx: x, weight: merged_weight(Some(s[j].weight), w, p) },
        ),
        j == s.len() || s[j].idx > x ==> upsert_s(s, x, w, p) == s.insert(
            j,
            Entry { idx: x, weight: w },
        ),
    decreases j,
{
    let r = upsert_s(s, x, w, p);
    if j == 0 {
        if s.len() == 0 {
            assert(r =~= s.insert(0, Entry { idx: x, weight: w }));
        } else if s[0].idx == x {
            assert(r =~= s.update(0, Entry { idx: x, weight: merged_weight(Some(s[0].weight), w, p) }));
        } else {
            assert(x < s[0].idx);
            assert(r =~= s.insert(0, Entry { idx: x, weight: w }));
        }
    } else {
        assert(s[0].idx < x);
        let st = s.skip(1);
        assert(forall|i: int| 0 <= i < j - 1 ==> (#[trigger] st[i].idx) == s[i + 1].idx);
        lemma_upsert_at(st, x, w, p, j - 1);
        if j < s.len() && s[j].idx == x {
            assert(st[j - 1] == s[j]);
            assert(r =~= s.update(j, Entry { idx: x, weight: merged_weight(Some(s[j].weight), w, p) }));
        } else {
            assert(r =~= s.insert(j, Entry { idx: x, weight: w }));
        }
    }
}

/// Builds the sorted list that stores weight `w` at index `x` of `v`
/// under policy `p`, leaving `v` itself untouched.
pub fn upsert_new(v: &Vec<Entry>, x: u32, w: u16, p: MergePolicy) -> (out: Vec<Entry>)
    requires
        sorted_by_idx(v@),
    ensures
        out@ == upsert_s(v@, x, w, p),
{
    let ghost s = v@;
    let mut j: usize = 0;
    while j < v.len() && v[j].idx < x
        invariant
            0 <= j <= v.len(),
            v@ == s,
            sorted_by_idx(s),
            forall|i: int| 0 <= i < j ==> (#[trigger] s[i].idx) < x,
        decreases v.len() - j,
    {
        j = j + 1;
    }
    proof {
        lemma_upsert_at(s, x, w, p, j as int);
    }
    let mut out: Vec<Entry> = Vec::new();
    let mut t: usize = 0;
    while t < j
        invariant
            0 <= t <= j <= v.len(),
            v@ == s,
            out@ == s.take(t as int),
        decreases j - t,
    {
        let e = v[t];
        out.push(e);
        proof {
            assert(out@ =~= s.take(t + 1 as int));
        }
        t = t + 1;
    }
    let skip_old: bool = j < v.len() && v[j].idx == x;
    let newent: Entry = if skip_old {
        let merged: u16 = match p {
            MergePolicy::Overwrite => w,
            MergePolicy::Sum => {
                let sum: u32 = v[j].weight as u32 + w as u32;
                if sum > 0xffff {
                    0xffff
                } else {
                    sum as u16
                }
            },
            MergePolicy::Max => if v[j].weight >= w {
                v[j].weight
            } else {
                w
            },
        };
        Entry { idx: x, weight: merged }
    } else {
        Entry { idx: x, weight: w }
    };
    proof {
        if skip_old {
            assert(newent == Entry { idx: x, weight: merged_weight(Some(s[j as int].weight), w, p) });
        }
    }
    out.push(newent);
    if skip_old {
        t = j + 1;
    } else {
        t = j;
    }
    let ghost mid = out@;
    while t < v.len()
        invariant
            j <= v.len(),
            (if skip_old { j + 1 } else { j as int }) <= t <= v.len(),
            v@ == s,
            out@ == mid + s.subrange((if skip_old { j + 1 } else { j as int }), t as int),
        decreases v.len() - t,
    {
        let e = v[t];
        out.push(e);
        proof {
            let lo: int = if skip_old { j + 1 } else { j as int };
            assert(out@ =~= mid + s.subrange(lo, t + 1 as int));
        }
        t = t + 1;
    }
    proof {
        let lo: int = if skip_old { j + 1 } else { j as int };
        if skip_old {
            assert(out@ =~= s.update(j as int, Entry { idx: x, weight: merged_weight(Some(s[j as int].weight), w, p) }));
        } else {
            assert(out@ =~= s.insert(j as int, Entry { idx: x, weight: w }));
        }
    }
    out
}

/// Every list of `rs` is sorted with indices below `cobound` and
/// strictly positive weights.
pub open spec fn axis_wf(rs: Seq<Seq<Entry>>, cobound: nat) -> bool {
    forall|u: int| 0 <= u < rs.len() ==> sorted_by_idx(#[trigger] rs[u]) && entries_below(
        rs[u],
        cobound,
    ) && weights_positive(rs[u])
}

/// The row view and the column view describe the same coordinates:
/// looking up item `x` in row `u` equals looking up user `u` in
/// column `x`.
pub open spec fn consistent(rs: Seq<Seq<Entry>>, cs: Seq<Seq<Entry>>) -> bool {
    forall|u: int, x: u32| 0 <= u < rs.len() && (x as nat) < cs.len() ==> #[trigger] find_w(
        rs[u],
        x,
    ) == find_w(cs[x as int], u as u32)
}

/// A well-formed pair of axis views: both sorted, bounded, positive
/// and mirror-consistent, with index spaces that fit `u32`.
pub open spec fn axis_pair_wf(rs: Seq<Seq<Entry>>, cs: Seq<Seq<Entry>>) -> bool {
    &&& rs.len() <= 0x1_0000_0000
    &&& cs.len() <= 0x1_0000_0000
    &&& axis_wf(rs, cs.len())
    &&& axis_wf(cs, rs.len())
    &&& consistent(rs, cs)
    &&& consistent(cs, rs)
}

/// Sparse user-item interaction matrix with mirrored row and column
/// storage.
pub struct SparseMatrix {
    pub rows: Vec<Vec<Entry>>,
    pub cols: Vec<Vec<Entry>>,
}

/// Sequence-of-sequences view of a vector of entry lists.
pub open spec fn lists_view(v: Seq<Vec<Entry>>) -> Seq<Seq<Entry>> {
    Seq::new(v.len(), |u: int| v[u]@)
}

impl SparseMatrix {
    /// Mathematical view of the rows: one entry sequence per user.
    pub open spec fn rows_view(self) -> Seq<Seq<Entry>> {
        lists_view(self.rows@)
    }

    /// Mathematical view of the columns: one entry sequence per item.
    pub open spec fn cols_view(self) -> Seq<Seq<Entry>> {
        lists_view(self.cols@)
    }

    /// Structural invariant: both axes sorted, bounded, positive and
    /// mirror-consistent, with index spaces that fit `u32` and a
    /// counter equal to the number of nonzeros.
    pub open spec fn wf(self) -> bool {
        axis_pair_wf(self.rows_view(), self.cols_view())
    }

    /// An empty matrix with no users and no items.
    pub fn new() -> (m: SparseMatrix)
        ensures
            m.wf(),
            m.rows_view() == Seq::<Seq<Entry>>::empty(),
            m.cols_view() == Seq::<Seq<Entry>>::empty(),
    {
        let m = SparseMatrix { rows: Vec::new(), cols: Vec::new() };
        proof {
            assert(m.rows_view() =~= Seq::<Seq<Entry>>::empty());
            assert(m.cols_view() =~= Seq::<Seq<Entry>>::empty());
        }
        m
    }

    /// Number of user rows.
    pub fn n_rows(&self) -> (n: usize)
        ensures
            n == self.rows_view().len(),
    {
        self.rows.len()
    }

    /// Number of item columns.
    pub fn n_cols(&self) -> (n: usize)
        ensures
            n == self.cols_view().len(),
    {
        self.cols.len()
    }

    /// The sorted nonzero entries of row `u`, smallest item index first.
    pub fn row(&self, u: usize) -> (r: &Vec<Entry>)
        requires
            u < self.rows_view().len(),
        ensures
            r@ == self.rows_view()[u as int],
    {
        &self.rows[u]
    }

    /// The sorted nonzero entries of column `i`, smallest user index first.
    pub fn column(&self, i: usize) -> (r: &Vec<Entry>)
        requires
            i < self.cols_view().len(),
        ensures
            r@ == self.cols_view()[i as int],
    {
        &self.cols[i]
    }

    /// Nonzero count of row `u` (`by_row`) or column `u`, in constant time.
    pub fn degree(&self, u: usize, by_row: bool) -> (d: usize)
        requires
            by_row ==> u < self.rows_view().len(),
            !by_row ==> u < self.cols_view().len(),
        ensures
            by_row ==> d == self.rows_view()[u as int].len(),
            !by_row ==> d == self.cols_view()[u as int].len(),
    {
        if by_row {
            self.rows[u].len()
        } else {
            self.cols[u].len()
        }
    }

    /// Appends an empty user row.
    pub fn push_row(&mut self)
        requires
            old(self).wf(),
            old(self).rows_view().len() < 0x1_0000_0000,
        ensures
            final(self).wf(),
            final(self).rows_view() == old(self).rows_view().push(Seq::<Entry>::empty()),
            final(self).cols_view() == old(self).cols_view(),
    {
        self.rows.push(Vec::new());
        proof {
            let rs0 = old(self).rows_view();
            let rs = self.rows_view();
            assert(rs =~= rs0.push(Seq::<Entry>::empty()));
            assert(self.cols_view() =~= old(self).cols_view());
            let cs = self.cols_view();
            assert forall|u: int, x: u32| 0 <= u < rs.len() && (x as nat) < cs.len() implies #[trigger] find_w(rs[u], x) == find_w(cs[x as int], u as u32) by {
                if u < rs0.len() {
                    assert(rs[u] == rs0[u]);
                } else {
                    assert(rs[u] == Seq::<Entry>::empty());
                    lemma_find_w_occurs(cs[x as int], u as u32);
                    if find_w(cs[x as int], u as u32).is_some() {
                        let t = choose|t: int|
                            0 <= t < cs[x as int].len() && (#[trigger] cs[x as int][t].idx) == u as u32;
                        assert((cs[x as int][t].idx as nat) < rs0.len());
                    }
                }
            }
        }
    }

    /// Appends an empty item column.
    pub fn push_col(&mut self)
        requires
            old(self).wf(),
            old(self).cols_view().len() < 0x1_0000_0000,
        ensures
            final(self).wf(),
            final(self).cols_view() == old(self).cols_view().push(Seq::<Entry>::empty()),
            final(self).rows_view() == old(self).rows_view(),
    {
        self.cols.push(Vec::new());
        proof {
            let cs0 = old(self).cols_view();
            let cs = self.cols_view();
            assert(cs =~= cs0.push(Seq::<Entry>::empty()));
            assert(self.rows_view() =~= old(self).rows_view());
            let rs = self.rows_view();
            assert forall|u: int, x: u32| 0 <= u < cs.len() && (x as nat) < rs.len() implies #[trigger] find_w(cs[u], x) == find_w(rs[x as int], u as u32) by {
                if u < cs0.len() {
                    assert(cs[u] == cs0[u]);
                } else {
                    assert(cs[u] == Seq::<Entry>::empty());
                    lemma_find_w_occurs(rs[x as int], u as u32);
                    if find_w(rs[x as int], u as u32).is_some() {
                        let t = choose|t: int|
                            0 <= t < rs[x as int].len() && (#[trigger] rs[x as int][t].idx) == u as u32;
                        assert((rs[x as int][t].idx as nat) < cs0.len());
                    }
                }
            }
        }
    }

    /// Writes weight `w` for the pair (user `u`, item `i`) under the
    /// merge policy `p`, updating both the row and the column view.
    pub fn insert_or_accumulate(&mut self, u: usize, i: usize, w: u16, p: MergePolicy)
        requires
            old(self).wf(),
            u < old(self).rows_view().len(),
            i < old(self).cols_view().len(),
            w >= 1,
        ensures
            final(self).wf(),
            final(self).rows_view() == old(self).rows_view().update(
                u as int,
                upsert_s(old(self).rows_view()[u as int], i as u32, w, p),
            ),
            final(self).cols_view() == old(self).cols_view().update(
                i as int,
                upsert_s(old(self).cols_view()[i as int], u as u32, w, p),
            ),
    {
        let ghost rs0 = old(self).rows_view();
        let ghost cs0 = old(self).cols_view();
        let xi: u32 = i as u32;
        let xu: u32 = u as u32;
        proof {
            assert(sorted_by_idx(rs0[u as int]));
            assert(rs0[u as int] == self.rows@[u as int]@);
            assert(sorted_by_idx(cs0[i as int]));
            assert(cs0[i as int] == self.cols@[i as int]@);
        }
        let new_row = upsert_new(&self.rows[u], xi, w, p);
        self.rows.set(u, new_row);
        let new_col = upsert_new(&self.cols[i], xu, w, p);
        self.cols.set(i, new_col);
        proof {
            lemma_upsert(rs0[u as int], xi, w, p);
            let rs = self.rows_view();
            let cs = self.cols_view();
            lemma_upsert(cs0[i as int], xu, w, p);
            assert(rs =~= rs0.update(u as int, upsert_s(rs0[u as int], xi, w, p)));
            assert(cs =~= cs0.update(i as int, upsert_s(cs0[i as int], xu, w, p)));
            assert forall|v: int, x: u32| 0 <= v < rs.len() && (x as nat) < cs.len() implies #[trigger] find_w(rs[v], x) == find_w(cs[x as int], v as u32) by {
                assert(find_w(rs0[v], x) == find_w(cs0[x as int], v as u32));
                if v == u {
                    if x == xi {
                    } else {
                        assert(find_w(rs[v], x) == find_w(rs0[v], x));
                        if x as int == i as int {
                        } else {
                            assert(find_w(cs[x as int], v as u32) == find_w(cs0[x as int], v as u32));
                        }
                    }
                } else {
                    assert(rs[v] == rs0[v]);
                    if x as int == i as int {
                        assert(find_w(cs[x as int], v as u32) == find_w(cs0[x as int], v as u32));
                    } else {
                        assert(cs[x as int] == cs0[x as int]);
                    }
                }
            }
            assert forall|v: int, x: u32| 0 <= v < cs.len() && (x as nat) < rs.len() implies #[trigger] find_w(cs[v], x) == find_w(rs[x as int], v as u32) by {
                assert(find_w(cs0[v], x) == find_w(rs0[x as int], v as u32));
                if v == i {
                    if x == xu {
                    } else {
                        assert(find_w(cs[v], x) == find_w(cs0[v], x));
                        if x as int == u as int {
                        } else {
                            assert(find_w(rs[x as int], v as u32) == find_w(rs0[x as int], v as u32));
                        }
                    }
                } else {
                    assert(cs[v] == cs0[v]);
                    if x as int == u as int {
                        assert(find_w(rs[x as int], v as u32) == find_w(rs0[x as int], v as u32));
                    } else {
                        assert(rs[x as int] == rs0[x as int]);
                    }
                }
            }
        }
    }
}

/// Whether the sorted list `v` holds an entry for index `x`.
pub fn find_contains(v: &Vec<Entry>, x: u32) -> (r: bool)
    requires
        sorted_by_idx(v@),
    ensures
        r == find_w(v@, x).is_some(),
{
    find_weight(v, x).is_some()
}

/// Looks up the weight stored for index `x` in the sorted list `v`,
/// by binary search over the entry indices.
pub fn find_weight(v: &Vec<Entry>, x: u32) -> (r: Option<u16>)
    requires
        sorted_by_idx(v@),
    ensures
        r == find_w(v@, x),
{
    let mut lo: usize = 0;
    let mut hi: usize = v.len();
    while lo < hi
        invariant
            0 <= lo <= hi <= v@.len(),
            sorted_by_idx(v@),
            forall|t: int| 0 <= t < lo ==> (#[trigger] v@[t].idx) < x,
            forall|t: int| hi <= t < v@.len() ==> (#[trigger] v@[t].idx) > x,
        decreases hi - lo,
    {
        let mid = lo + (hi - lo) / 2;
        let e = v[mid];
        if e.idx == x {
            proof {
                assert forall|t: int| 0 <= t < mid implies (#[trigger] v@[t].idx) != x by {
                    assert(v@[t].idx < v@[mid as int].idx);
                }
                lemma_find_w_at(v@, mid as int);
            }
            return Some(e.weight);
        } else if e.idx < x {
            proof {
                assert forall|t: int| 0 <= t <= mid implies (#[trigger] v@[t].idx) < x by {
                    if t < mid {
                        assert(v@[t].idx < v@[mid as int].idx);
                    }
                }
            }
            lo = mid + 1;
        } else {
            proof {
                assert forall|t: int| mid <= t < v@.len() implies (#[trigger] v@[t].idx) > x by {
                    if t > mid {
                        assert(v@[mid as int].idx < v@[t].idx);
                    }
                }
            }
            hi = mid;
        }
    }
    proof {
        lemma_find_w_occurs(v@, x);
        if find_w(v@, x).is_some() {
            let t = choose|t: int| 0 <= t < v@.len() && (#[trigger] v@[t].idx) == x;
            assert(false);
        }
    }
    None
}

} // verus!
