//! The trained model: id mappings, the interaction matrix, and the
//! cached neighbor table, together with fit, recommend and predict.
//!
//! Building from a batch is specified as a fold over the interaction
//! records: each record resolves (or appends) its user and item index
//! and merges its weight into the matrix under the configured policy.

use vstd::prelude::*;
use crate::Axis;
use crate::Metric;
use crate::MergePolicy;
use crate::RecError;
use crate::SCALE;
use crate::engine::Scored;
use crate::engine::compute_all;
use crate::engine::lemma_nb_fold_props;
use crate::engine::push_capped;
use crate::engine::push_capped_s;
use crate::engine::ranked;
use crate::engine::spec_nb;
use crate::engine::spec_table;
use crate::engine::table_view;
use crate::sparse::Entry;
use crate::sparse::SparseMatrix;
use crate::sparse::find_w;
use crate::sparse::lemma_find_w_at;
use crate::sparse::lemma_find_w_occurs;
use crate::sparse::sorted_by_idx;
use crate::sparse::upsert_s;

verus! {

/// One raw interaction record. The optional timestamp is provenance
/// only: record order within a batch, not time, decides merge order.
#[derive(Clone, Copy, Debug)]
pub struct Interaction {
    pub user_id: u64,
    pub item_id: u64,
    pub weight: u16,
    pub timestamp: Option<u64>,
}

/// Index of the first occurrence of `id`, or -1 when absent.
pub open spec fn idx_of(ids: Seq<u64>, id: u64) -> int
    decreases ids.len(),
{
    if ids.len() == 0 {
        -1
    } else if ids[0] == id {
        0
    } else {
        let r = idx_of(ids.skip(1), id);
        if r < 0 {
            -1
        } else {
            r + 1
        }
    }
}

/// All ids are pairwise distinct.
pub open spec fn distinct_ids(ids: Seq<u64>) -> bool {
    forall|a: int, b: int| 0 <= a < b < ids.len() ==> ids[a] != ids[b]
}

/// `idx_of` finds an occurrence exactly when one exists, and it finds
/// the first one.
pub proof fn lemma_idx_of(ids: Seq<u64>, id: u64)
    ensures
        idx_of(ids, id) == -1 <==> !ids.contains(id),
        idx_of(ids, id) >= 0 ==> 0 <= idx_of(ids, id) < ids.len() && ids[idx_of(ids, id)] == id
            && (forall|j: int| 0 <= j < idx_of(ids, id) ==> ids[j] != id),
    decreases ids.len(),
{
    if ids.len() > 0 {
        lemma_idx_of(ids.skip(1), id);
        assert(forall|t: int| 0 <= t < ids.skip(1).len() ==> (#[trigger] ids.skip(1)[t]) == ids[
            t + 1
        ]);
        if ids[0] != id {
            if ids.contains(id) {
                let t = choose|t: int| 0 <= t < ids.len() && ids[t] == id;
                assert(ids.skip(1)[t - 1] == id);
                assert(ids.skip(1).contains(id));
            }
            if ids.skip(1).contains(id) {
                let t = choose|t: int| 0 <= t < ids.skip(1).len() && ids.skip(1)[t] == id;
                assert(ids[t + 1] == id);
            }
            if idx_of(ids.skip(1), id) >= 0 {
                let r = idx_of(ids.skip(1), id);
                assert(idx_of(ids, id) == r + 1);
                assert(ids[r + 1] == id);
                assert forall|j: int| 0 <= j < r + 1 implies ids[j] != id by {
                    if j > 0 {
                        assert(ids.skip(1)[j - 1] != id);
                    }
                }
            }
        }
    }
}

/// Finds the index assigned to `id`, if any.
pub fn find_id(ids: &Vec<u64>, id: u64) -> (r: Option<usize>)
    ensures
        match r {
            Some(t) => idx_of(ids@, id) == t as int,
            None => idx_of(ids@, id) == -1,
        },
{
    let mut t: usize = 0;
    while t < ids.len()
        invariant
            0 <= t <= ids@.len(),
            forall|j: int| 0 <= j < t ==> ids@[j] != id,
        decreases ids.len() - t,
    {
        if ids[t] == id {
            proof {
                lemma_idx_of(ids@, id);
                assert(ids@.contains(id));
                let f = idx_of(ids@, id);
                if f < t as int {
                    assert(ids@[f] == id);
                    assert(false);
                }
                if f > t as int {
                    assert(ids@[t as int] != id);
                    assert(false);
                }
            }
            return Some(t);
        }
        t = t + 1;
    }
    proof {
        lemma_idx_of(ids@, id);
        if ids@.contains(id) {
            let j = choose|j: int| 0 <= j < ids@.len() && ids@[j] == id;
            assert(false);
        }
    }
    None
}

/// The build state threaded through a batch: id tables and the two
/// mirrored axis views of the matrix.
pub ghost struct BuildSt {
    pub users: Seq<u64>,
    pub items: Seq<u64>,
    pub rows: Seq<Seq<Entry>>,
    pub cols: Seq<Seq<Entry>>,
}

/// The empty build state.
pub open spec fn empty_st() -> BuildSt {
    BuildSt {
        users: Seq::<u64>::empty(),
        items: Seq::<u64>::empty(),
        rows: Seq::<Seq<Entry>>::empty(),
        cols: Seq::<Seq<Entry>>::empty(),
    }
}

/// One record applied to the build state: unseen ids get the next free
/// index (append-only), and the weight is merged at the resolved
/// coordinates under policy `p`.
pub open spec fn step_s(st: BuildSt, r: Interaction, p: MergePolicy) -> BuildSt {
    let u0 = idx_of(st.users, r.user_id);
    let users = if u0 >= 0 {
        st.users
    } else {
        st.users.push(r.user_id)
    };
    let rows0 = if u0 >= 0 {
        st.rows
    } else {
        st.rows.push(Seq::<Entry>::empty())
    };
    let u = if u0 >= 0 {
        u0
    } else {
        st.users.len() as int
    };
    let i0 = idx_of(st.items, r.item_id);
    let items = if i0 >= 0 {
        st.items
    } else {
        st.items.push(r.item_id)
    };
    let cols0 = if i0 >= 0 {
        st.cols
    } else {
        st.cols.push(Seq::<Entry>::empty())
    };
    let i = if i0 >= 0 {
        i0
    } else {
        st.items.len() as int
    };
    BuildSt {
        users,
        items,
        rows: rows0.update(u, upsert_s(rows0[u], i as u32, r.weight, p)),
        cols: cols0.update(i, upsert_s(cols0[i], u as u32, r.weight, p)),
    }
}

/// A whole batch applied in record order.
pub open spec fn fold_s(st: BuildSt, recs: Seq<Interaction>, p: MergePolicy) -> BuildSt
    decreases recs.len(),
{
    if recs.len() == 0 {
        st
    } else {
        step_s(fold_s(st, recs.drop_last(), p), recs.last(), p)
    }
}

/// Every record carries a nonzero weight.
pub open spec fn batch_ok(recs: Seq<Interaction>) -> bool {
    forall|t: int| 0 <= t < recs.len() ==> (#[trigger] recs[t].weight) >= 1
}

/// The id assignment of the fold, taken on its own: which user table
/// results from a batch.
pub open spec fn users_fold(ids: Seq<u64>, recs: Seq<Interaction>) -> Seq<u64>
    decreases recs.len(),
{
    if recs.len() == 0 {
        ids
    } else {
        let prev = users_fold(ids, recs.drop_last());
        if idx_of(prev, recs.last().user_id) >= 0 {
            prev
        } else {
            prev.push(recs.last().user_id)
        }
    }
}

/// Likewise for item ids.
pub open spec fn items_fold(ids: Seq<u64>, recs: Seq<Interaction>) -> Seq<u64>
    decreases recs.len(),
{
    if recs.len() == 0 {
        ids
    } else {
        let prev = items_fold(ids, recs.drop_last());
        if idx_of(prev, recs.last().item_id) >= 0 {
            prev
        } else {
            prev.push(recs.last().item_id)
        }
    }
}

/// The id components of the fold depend on the batch ids alone.
pub proof fn lemma_fold_ids(st: BuildSt, recs: Seq<Interaction>, p: MergePolicy)
    ensures
        fold_s(st, recs, p).users == users_fold(st.users, recs),
        fold_s(st, recs, p).items == items_fold(st.items, recs),
    decreases recs.len(),
{
    if recs.len() > 0 {
        lemma_fold_ids(st, recs.drop_last(), p);
    }
}

/// Whether both id spaces of the fold stay within the index capacity.
pub open spec fn cap_ok(st: BuildSt, recs: Seq<Interaction>, p: MergePolicy) -> bool {
    &&& fold_s(st, recs, p).users.len() <= 0x1_0000_0000
    &&& fold_s(st, recs, p).items.len() <= 0x1_0000_0000
}

/// Id tables only grow along a batch, and later prefixes extend
/// earlier ones.
pub proof fn lemma_users_fold_grows(ids: Seq<u64>, recs: Seq<Interaction>)
    ensures
        users_fold(ids, recs).len() >= ids.len(),
        items_fold(ids, recs).len() >= ids.len(),
    decreases recs.len(),
{
    if recs.len() > 0 {
        lemma_users_fold_grows(ids, recs.drop_last());
    }
}

/// Folding a batch equals folding a prefix and then the rest.
pub proof fn lemma_fold_split(st: BuildSt, recs: Seq<Interaction>, p: MergePolicy, t: int)
    requires
        0 <= t <= recs.len(),
    ensures
        fold_s(st, recs, p) == fold_s(fold_s(st, recs.take(t), p), recs.skip(t), p),
    decreases recs.len() - t,
{
    if t == recs.len() {
        assert(recs.take(t) =~= recs);
        assert(recs.skip(t) =~= Seq::<Interaction>::empty());
    } else {
        lemma_fold_split(st, recs, p, t + 1);
        let a = fold_s(st, recs.take(t), p);
        assert(recs.take(t + 1).drop_last() =~= recs.take(t));
        assert(recs.take(t + 1).last() == recs[t]);
        assert(fold_s(st, recs.take(t + 1), p) == step_s(a, recs[t], p));
        let b = recs.skip(t);
        let c = recs.skip(t + 1);
        assert(b.len() == recs.len() - t);
        assert forall|j: int| 0 <= j < c.len() implies (#[trigger] c[j]) == b[j + 1] by {}
        lemma_fold_skip_head(a, b, p);
        assert(b.skip(1) =~= c);
        assert(b[0] == recs[t]);
    }
}

/// Folding a nonempty batch is one step and then the rest.
#[verifier::rlimit(60)]
pub proof fn lemma_fold_skip_head(st: BuildSt, recs: Seq<Interaction>, p: MergePolicy)
    requires
        recs.len() > 0,
    ensures
        fold_s(st, recs, p) == fold_s(step_s(st, recs[0], p), recs.skip(1), p),
    decreases recs.len(),
{
    if recs.len() == 1 {
        assert(recs.drop_last() =~= Seq::<Interaction>::empty());
        assert(recs.skip(1) =~= Seq::<Interaction>::empty());
        assert(fold_s(st, recs.drop_last(), p) == st);
        assert(recs.last() == recs[0]);
        assert(fold_s(st, recs, p) == step_s(st, recs[0], p));
        assert(fold_s(step_s(st, recs[0], p), recs.skip(1), p) == step_s(st, recs[0], p));
    } else {
        lemma_fold_skip_head(st, recs.drop_last(), p);
        assert(recs.drop_last()[0] == recs[0]);
        assert(recs.drop_last().skip(1) =~= recs.skip(1).drop_last());
        assert(recs.skip(1).last() == recs.last());
        assert(fold_s(st, recs, p) == step_s(fold_s(st, recs.drop_last(), p), recs.last(), p));
        assert(recs.skip(1).len() > 0);
        assert(fold_s(step_s(st, recs[0], p), recs.skip(1), p) == step_s(
            fold_s(step_s(st, recs[0], p), recs.skip(1).drop_last(), p),
            recs.skip(1).last(),
            p,
        ));
    }
}

/// The well-formedness carried through the build: id tables match the
/// matrix dimensions and are distinct, and the matrix pair is sound.
pub open spec fn st_wf(st: BuildSt) -> bool {
    &&& st.rows.len() == st.users.len()
    &&& st.cols.len() == st.items.len()
    &&& distinct_ids(st.users)
    &&& distinct_ids(st.items)
    &&& crate::sparse::axis_pair_wf(st.rows, st.cols)
}

/// Applies a validated batch to the id tables and the matrix, in
/// record order. Returns false — leaving everything untouched — when
/// the batch would overflow the index capacity of either axis.
pub fn apply_records(
    user_ids: &mut Vec<u64>,
    item_ids: &mut Vec<u64>,
    matrix: &mut SparseMatrix,
    recs: &Vec<Interaction>,
    p: MergePolicy,
) -> (ok: bool)
    requires
        old(matrix).wf(),
        old(matrix).rows_view().len() == old(user_ids)@.len(),
        old(matrix).cols_view().len() == old(item_ids)@.len(),
        distinct_ids(old(user_ids)@),
        distinct_ids(old(item_ids)@),
        batch_ok(recs@),
    ensures
        ({
            let st0 = BuildSt {
                users: old(user_ids)@,
                items: old(item_ids)@,
                rows: old(matrix).rows_view(),
                cols: old(matrix).cols_view(),
            };
            let stf = fold_s(st0, recs@, p);
            &&& ok == cap_ok(st0, recs@, p)
            &&& (ok ==> {
                &&& final(user_ids)@ == stf.users
                &&& final(item_ids)@ == stf.items
                &&& final(matrix).rows_view() == stf.rows
                &&& final(matrix).cols_view() == stf.cols
                &&& final(matrix).wf()
                &&& st_wf(stf)
            })
            &&& (!ok ==> {
                &&& final(user_ids)@ == old(user_ids)@
                &&& final(item_ids)@ == old(item_ids)@
                &&& *final(matrix) == *old(matrix)
            })
        }),
{
    let ghost st0 = BuildSt {
        users: old(user_ids)@,
        items: old(item_ids)@,
        rows: old(matrix).rows_view(),
        cols: old(matrix).cols_view(),
    };
    // First pass: simulate the id assignment alone, to learn whether
    // the batch fits the index capacity before touching any state.
    let mut sim_users: Vec<u64> = Vec::new();
    let mut j: usize = 0;
    while j < user_ids.len()
        invariant
            j <= user_ids@.len(),
            sim_users@ == user_ids@.take(j as int),
        decreases user_ids.len() - j,
    {
        let v = user_ids[j];
        sim_users.push(v);
        proof {
            assert(sim_users@ =~= user_ids@.take(j + 1 as int));
        }
        j = j + 1;
    }
    proof {
        assert(sim_users@ =~= user_ids@);
    }
    let mut sim_items: Vec<u64> = Vec::new();
    let mut j2: usize = 0;
    while j2 < item_ids.len()
        invariant
            j2 <= item_ids@.len(),
            sim_items@ == item_ids@.take(j2 as int),
        decreases item_ids.len() - j2,
    {
        let v = item_ids[j2];
        sim_items.push(v);
        proof {
            assert(sim_items@ =~= item_ids@.take(j2 + 1 as int));
        }
        j2 = j2 + 1;
    }
    proof {
        assert(sim_items@ =~= item_ids@);
    }
    let mut t: usize = 0;
    while t < recs.len()
        invariant
            t <= recs@.len(),
            sim_users@ == users_fold(st0.users, recs@.take(t as int)),
            sim_items@ == items_fold(st0.items, recs@.take(t as int)),
        decreases recs.len() - t,
    {
        let r = recs[t];
        proof {
            assert(recs@.take(t + 1 as int).drop_last() =~= recs@.take(t as int));
            assert(recs@.take(t + 1 as int).last() == recs@[t as int]);
        }
        match find_id(&sim_users, r.user_id) {
            Some(_) => (),
            None => {
                sim_users.push(r.user_id);
            },
        }
        match find_id(&sim_items, r.item_id) {
            Some(_) => (),
            None => {
                sim_items.push(r.item_id);
            },
        }
        t = t + 1;
    }
    proof {
        assert(recs@.take(recs@.len() as int) =~= recs@);
        lemma_fold_ids(st0, recs@, p);
    }
    if sim_users.len() as u64 > 0x1_0000_0000u64 || sim_items.len() as u64 > 0x1_0000_0000u64 {
        return false;
    }
    // Second pass: the real mutation. Capacity can no longer fail.
    let ghost stf = fold_s(st0, recs@, p);
    let mut t: usize = 0;
    while t < recs.len()
        invariant
            t <= recs@.len(),
            batch_ok(recs@),
            stf == fold_s(st0, recs@, p),
            stf.users.len() <= 0x1_0000_0000,
            stf.items.len() <= 0x1_0000_0000,
            ({
                let st = fold_s(st0, recs@.take(t as int), p);
                &&& user_ids@ == st.users
                &&& item_ids@ == st.items
                &&& matrix.rows_view() == st.rows
                &&& matrix.cols_view() == st.cols
                &&& matrix.wf()
                &&& matrix.rows_view().len() == user_ids@.len()
                &&& matrix.cols_view().len() == item_ids@.len()
                &&& distinct_ids(user_ids@)
                &&& distinct_ids(item_ids@)
            }),
        decreases recs.len() - t,
    {
        let ghost st = fold_s(st0, recs@.take(t as int), p);
        let ghost stn = fold_s(st0, recs@.take(t + 1 as int), p);
        let r = recs[t];
        proof {
            assert(recs@.take(t + 1 as int).drop_last() =~= recs@.take(t as int));
            assert(recs@.take(t + 1 as int).last() == recs@[t as int]);
            assert(stn == step_s(st, r, p));
            lemma_fold_split(st0, recs@, p, t + 1);
            lemma_fold_ids(stn, recs@.skip(t + 1 as int), p);
            lemma_users_fold_grows(stn.users, recs@.skip(t + 1 as int));
            lemma_users_fold_grows(stn.items, recs@.skip(t + 1 as int));
            assert(stf.users == users_fold(stn.users, recs@.skip(t + 1 as int)));
            assert(stf.items == items_fold(stn.items, recs@.skip(t + 1 as int)));
            assert(stn.users.len() <= stf.users.len());
            assert(stn.items.len() <= stf.items.len());
            lemma_idx_of(user_ids@, r.user_id);
            lemma_idx_of(item_ids@, r.item_id);
            assert(recs@[t as int].weight >= 1);
        }
        let u: usize = match find_id(user_ids, r.user_id) {
            Some(x) => x,
            None => {
                let x = user_ids.len();
                user_ids.push(r.user_id);
                matrix.push_row();
                proof {
                    assert forall|a: int, b: int|
                        0 <= a < b < user_ids@.len() implies user_ids@[a] != user_ids@[b] by {
                        if b == user_ids@.len() - 1 {
                            assert(!st.users.contains(r.user_id));
                            assert(st.users[a] == user_ids@[a]);
                        }
                    }
                }
                x
            },
        };
        let i: usize = match find_id(item_ids, r.item_id) {
            Some(x) => x,
            None => {
                let x = item_ids.len();
                item_ids.push(r.item_id);
                matrix.push_col();
                proof {
                    assert forall|a: int, b: int|
                        0 <= a < b < item_ids@.len() implies item_ids@[a] != item_ids@[b] by {
                        if b == item_ids@.len() - 1 {
                            assert(!st.items.contains(r.item_id));
                            assert(st.items[a] == item_ids@[a]);
                        }
                    }
                }
                x
            },
        };
        matrix.insert_or_accumulate(u, i, r.weight, p);
        proof {
            assert(user_ids@ == stn.users);
            assert(item_ids@ == stn.items);
            assert(matrix.rows_view() =~= stn.rows);
            assert(matrix.cols_view() =~= stn.cols);
        }
        t = t + 1;
    }
    proof {
        assert(recs@.take(recs@.len() as int) =~= recs@);
    }
    true
}

/// Mathematical view of a trained model: everything the unit of
/// persistence holds (the column view is derived from the rows).
pub ghost struct ModelV {
    pub axis: Axis,
    pub metric: Metric,
    pub k: nat,
    pub policy: MergePolicy,
    pub users: Seq<u64>,
    pub items: Seq<u64>,
    pub rows: Seq<Seq<Entry>>,
    pub table: Seq<Seq<Scored>>,
}

/// A trained collaborative-filtering model: configuration, append-only
/// id tables, the interaction matrix it owns, and the cached neighbor
/// table derived from the matrix.
pub struct Model {
    pub axis: Axis,
    pub metric: Metric,
    pub k: usize,
    pub policy: MergePolicy,
    pub user_ids: Vec<u64>,
    pub item_ids: Vec<u64>,
    pub matrix: SparseMatrix,
    pub table: Vec<Vec<Scored>>,
}

/// Sum, over a neighbor list, of each neighbor's score times the
/// weight its row stores for item `i`: the user-axis aggregation.
pub open spec fn user_axis_score(rows: Seq<Seq<Entry>>, lst: Seq<Scored>, i: u32) -> nat
    decreases lst.len(),
{
    if lst.len() == 0 {
        0
    } else {
        user_axis_score(rows, lst.drop_last(), i) + (lst.last().score as nat) * crate::engine::w_of(
            rows[lst.last().idx as int],
            i,
        )
    }
}

/// The score a neighbor list assigns to index `i`, or zero.
pub open spec fn score_of(l: Seq<Scored>, i: u32) -> nat
    decreases l.len(),
{
    if l.len() == 0 {
        0
    } else if l.last().idx == i {
        l.last().score as nat
    } else {
        score_of(l.drop_last(), i)
    }
}

/// Sum, over the user's consumed items, of the interaction weight
/// times the score that item's neighbor list assigns to item `i`:
/// the item-axis aggregation.
pub open spec fn item_axis_score(row_u: Seq<Entry>, tb: Seq<Seq<Scored>>, i: u32) -> nat
    decreases row_u.len(),
{
    if row_u.len() == 0 {
        0
    } else {
        item_axis_score(row_u.drop_last(), tb, i) + (row_u.last().weight as nat) * score_of(
            tb[row_u.last().idx as int],
            i,
        )
    }
}

/// A list that never mentions index `i` assigns it score zero.
pub proof fn lemma_score_of_absent(l: Seq<Scored>, i: u32)
    requires
        forall|t: int| 0 <= t < l.len() ==> (#[trigger] l[t].idx) != i,
    ensures
        score_of(l, i) == 0,
    decreases l.len(),
{
    if l.len() > 0 {
        assert(forall|t: int| 0 <= t < l.drop_last().len() ==> l.drop_last()[t] == l[t]);
        lemma_score_of_absent(l.drop_last(), i);
    }
}

/// `find_w` over a sequence extended by one entry: the new entry
/// answers only for its own index, when that index was absent before.
pub proof fn lemma_find_w_push(s: Seq<Entry>, e: Entry, x: u32)
    ensures
        find_w(s, x).is_some() ==> find_w(s.push(e), x) == find_w(s, x),
        find_w(s, x).is_none() && e.idx == x ==> find_w(s.push(e), x) == Some(e.weight),
        find_w(s, x).is_none() && e.idx != x ==> find_w(s.push(e), x).is_none(),
    decreases s.len(),
{
    if s.len() == 0 {
        assert(s.push(e)[0] == e);
        assert(s.push(e).skip(1) =~= Seq::<Entry>::empty());
        if e.idx != x {
            assert(find_w(s.push(e), x) == find_w(s.push(e).skip(1), x));
            assert(find_w(Seq::<Entry>::empty(), x).is_none());
        }
    } else {
        lemma_find_w_push(s.skip(1), e, x);
        assert(s.push(e)[0] == s[0]);
        assert(s.push(e).skip(1) =~= s.skip(1).push(e));
        if s[0].idx == x {
            assert(find_w(s.push(e), x) == Some(s[0].weight));
            assert(find_w(s, x) == Some(s[0].weight));
        } else {
            assert(find_w(s.push(e), x) == find_w(s.skip(1).push(e), x));
            assert(find_w(s, x) == find_w(s.skip(1), x));
        }
    }
}

/// Selection fold: walk indices `0..n` in order, keep those that are
/// admitted with a nonzero score, and retain the `cap` best by rank.
pub open spec fn sel_fold(sc: Seq<nat>, keep: Seq<bool>, cap: nat, n: int) -> Seq<Scored>
    decreases n,
{
    if n <= 0 {
        Seq::<Scored>::empty()
    } else {
        let prev = sel_fold(sc, keep, cap, n - 1);
        let i = n - 1;
        if keep[i] && sc[i] > 0 {
            push_capped_s(prev, Scored { idx: i as u32, score: sc[i] as u128 }, cap)
        } else {
            prev
        }
    }
}

/// Structure of a selection fold: ranked, capped, and every element is
/// an admitted index below `n` carrying its exact nonzero score.
pub proof fn lemma_sel_fold_props(sc: Seq<nat>, keep: Seq<bool>, cap: nat, n: int)
    requires
        0 <= n <= 0x1_0000_0000,
        forall|i: int| 0 <= i < n ==> (#[trigger] sc[i])
            < 0x1_0000_0000_0000_0000_0000_0000_0000_0000,
    ensures
        ranked(sel_fold(sc, keep, cap, n)),
        sel_fold(sc, keep, cap, n).len() <= cap,
        forall|e: Scored| #[trigger] sel_fold(sc, keep, cap, n).contains(e) ==> {
            &&& (e.idx as int) < n
            &&& keep[e.idx as int]
            &&& (e.score as nat) == sc[e.idx as int]
            &&& e.score > 0
        },
    decreases n,
{
    if n > 0 {
        lemma_sel_fold_props(sc, keep, cap, n - 1);
        let prev = sel_fold(sc, keep, cap, n - 1);
        let i = n - 1;
        let f = sel_fold(sc, keep, cap, n);
        if keep[i] && sc[i] > 0 {
            let x = Scored { idx: i as u32, score: sc[i] as u128 };
            assert((x.idx as int) == i);
            assert forall|t: int| 0 <= t < prev.len() implies (#[trigger] prev[t].idx) != x.idx by {
                assert(prev.contains(prev[t]));
            }
            crate::engine::lemma_ins_ranked(prev, x);
            crate::engine::lemma_capped_ranked(crate::engine::ins_ranked(prev, x), cap);
            assert forall|e: Scored| #[trigger] f.contains(e) implies {
                &&& (e.idx as int) < n
                &&& keep[e.idx as int]
                &&& (e.score as nat) == sc[e.idx as int]
                &&& e.score > 0
            } by {
                assert(crate::engine::ins_ranked(prev, x).contains(e));
                if !prev.contains(e) {
                    assert(e == x);
                }
            }
        }
    }
}

impl Model {
    /// Everything the model is, as mathematics.
    pub open spec fn model_view(self) -> ModelV {
        ModelV {
            axis: self.axis,
            metric: self.metric,
            k: self.k as nat,
            policy: self.policy,
            users: self.user_ids@,
            items: self.item_ids@,
            rows: self.matrix.rows_view(),
            table: table_view(self.table@),
        }
    }

    /// The axis the neighbor table ranges over.
    pub open spec fn axis_len(self) -> nat {
        if self.axis == Axis::User {
            self.matrix.rows_view().len()
        } else {
            self.matrix.cols_view().len()
        }
    }

    /// The vectors the similarity engine compares for this axis.
    pub open spec fn axis_seqs(self) -> Seq<Seq<Entry>> {
        if self.axis == Axis::User {
            self.matrix.rows_view()
        } else {
            self.matrix.cols_view()
        }
    }

    /// Structural soundness of a neighbor table against an axis of
    /// size `n` and a cap `k`.
    pub open spec fn table_wf(tb: Seq<Seq<Scored>>, n: nat, k: nat) -> bool {
        &&& tb.len() == n
        &&& forall|u: int| 0 <= u < tb.len() ==> ranked(#[trigger] tb[u]) && tb[u].len() <= k
        &&& forall|u: int, t: int| 0 <= u < tb.len() && 0 <= t < tb[u].len() ==> ((
        #[trigger] tb[u][t]).idx as nat) < n && (tb[u][t].score as nat) <= SCALE as nat
        &&& forall|u: int, a: int, b: int|
            0 <= u < tb.len() && 0 <= a < b < tb[u].len() ==> (#[trigger] tb[u][a]).idx != (
            #[trigger] tb[u][b]).idx
    }

    /// Structural invariant of a model.
    pub open spec fn wf(self) -> bool {
        &&& self.matrix.wf()
        &&& self.user_ids@.len() == self.matrix.rows_view().len()
        &&& self.item_ids@.len() == self.matrix.cols_view().len()
        &&& distinct_ids(self.user_ids@)
        &&& distinct_ids(self.item_ids@)
        &&& self.k >= 1
        &&& Model::table_wf(table_view(self.table@), self.axis_len(), self.k as nat)
    }

    /// The cached table equals what the engine would compute from the
    /// matrix: the invariant `fit` establishes and `apply` preserves.
    pub open spec fn synced(self) -> bool {
        table_view(self.table@) == spec_table(self.axis_seqs(), self.metric, self.k as nat)
    }

    /// The aggregated score this model predicts for user index `u` and
    /// item index `i`.
    pub open spec fn predict_s(self, u: int, i: u32) -> nat {
        if self.axis == Axis::User {
            user_axis_score(self.matrix.rows_view(), table_view(self.table@)[u], i)
        } else {
            item_axis_score(self.matrix.rows_view()[u], table_view(self.table@), i)
        }
    }

    /// The recommendation list for user index `u`: the `nrec` best
    /// items by predicted score (rank order, low index on ties), items
    /// with zero score left out, consumed items excluded when
    /// `filter` is set, and empty for a user with no interactions.
    pub open spec fn recommend_s(self, u: int, nrec: nat, filter: bool) -> Seq<Scored> {
        let ni = self.matrix.cols_view().len();
        if self.matrix.rows_view()[u].len() == 0 {
            Seq::<Scored>::empty()
        } else {
            sel_fold(
                Seq::new(ni, |i: int| self.predict_s(u, i as u32)),
                Seq::new(
                    ni,
                    |i: int| !filter || find_w(self.matrix.rows_view()[u], i as u32).is_none(),
                ),
                nrec,
                ni as int,
            )
        }
    }
}

/// A neighbor table computed by the engine is structurally sound.
pub proof fn lemma_spec_table_wf(rs: Seq<Seq<Entry>>, m: Metric, k: nat)
    requires
        rs.len() <= 0x1_0000_0000,
    ensures
        Model::table_wf(spec_table(rs, m, k), rs.len(), k),
{
    let tb = spec_table(rs, m, k);
    assert forall|u: int| 0 <= u < tb.len() implies ranked(#[trigger] tb[u]) && tb[u].len()
        <= k by {
        lemma_nb_fold_props(rs, u, m, k, rs.len() as int);
    }
    assert forall|u: int, t: int| 0 <= u < tb.len() && 0 <= t < tb[u].len() implies ((
    #[trigger] tb[u][t]).idx as nat) < rs.len() && (tb[u][t].score as nat) <= SCALE as nat by {
        lemma_nb_fold_props(rs, u, m, k, rs.len() as int);
        assert(tb[u].contains(tb[u][t]));
    }
    assert forall|u: int, a: int, b: int|
        0 <= u < tb.len() && 0 <= a < b < tb[u].len() implies (#[trigger] tb[u][a]).idx != (
        #[trigger] tb[u][b]).idx by {
        lemma_nb_fold_props(rs, u, m, k, rs.len() as int);
        assert(tb[u].contains(tb[u][a]));
        assert(tb[u].contains(tb[u][b]));
        // Equal indices would force equal scores, hence equal entries,
        // which a strictly ranked list cannot repeat.
        if tb[u][a].idx == tb[u][b].idx {
            assert(tb[u][a].score == tb[u][b].score);
            assert(crate::engine::ranks_before(tb[u][a], tb[u][b]));
            assert(false);
        }
    }
}

impl Model {
    /// Trains a model from a batch of interactions: validates the
    /// configuration and the batch, builds the matrix by the merge
    /// fold, and computes the full neighbor table.
    pub fn fit(
        interactions: &Vec<Interaction>,
        axis: Axis,
        metric: Metric,
        k: usize,
        policy: MergePolicy,
        workers: usize,
    ) -> (r: Result<Model, RecError>)
        ensures
            ({
                let st = fold_s(empty_st(), interactions@, policy);
                let valid = k >= 1 && workers >= 1 && batch_ok(interactions@) && cap_ok(
                    empty_st(),
                    interactions@,
                    policy,
                );
                match r {
                    Ok(m) => {
                        &&& valid
                        &&& m.wf()
                        &&& m.synced()
                        &&& m.axis == axis
                        &&& m.metric == metric
                        &&& m.k == k
                        &&& m.policy == policy
                        &&& m.user_ids@ == st.users
                        &&& m.item_ids@ == st.items
                        &&& m.matrix.rows_view() == st.rows
                        &&& m.matrix.cols_view() == st.cols
                    },
                    Err(e) => e == RecError::InvalidConfiguration && !valid,
                }
            }),
    {
        if k == 0 || workers == 0 {
            return Err(RecError::InvalidConfiguration);
        }
        let mut t: usize = 0;
        while t < interactions.len()
            invariant
                t <= interactions@.len(),
                forall|j: int| 0 <= j < t ==> (#[trigger] interactions@[j].weight) >= 1,
            decreases interactions.len() - t,
        {
            if interactions[t].weight == 0 {
                return Err(RecError::InvalidConfiguration);
            }
            t = t + 1;
        }
        let mut user_ids: Vec<u64> = Vec::new();
        let mut item_ids: Vec<u64> = Vec::new();
        let mut matrix = SparseMatrix::new();
        proof {
            assert(user_ids@ =~= empty_st().users);
            assert(item_ids@ =~= empty_st().items);
            assert(matrix.rows_view() =~= empty_st().rows);
            assert(matrix.cols_view() =~= empty_st().cols);
        }
        let ok = apply_records(&mut user_ids, &mut item_ids, &mut matrix, interactions, policy);
        proof {
            let st0 = BuildSt {
                users: Seq::<u64>::empty(),
                items: Seq::<u64>::empty(),
                rows: Seq::<Seq<Entry>>::empty(),
                cols: Seq::<Seq<Entry>>::empty(),
            };
            assert(st0 == empty_st());
        }
        if !ok {
            return Err(RecError::InvalidConfiguration);
        }
        let is_user = match axis {
            Axis::User => true,
            Axis::Item => false,
        };
        let table = if is_user {
            compute_all(&matrix.rows, &matrix.cols, metric, k, workers)
        } else {
            proof {
                assert(crate::sparse::axis_pair_wf(
                    crate::sparse::lists_view(matrix.cols@),
                    crate::sparse::lists_view(matrix.rows@),
                ));
            }
            compute_all(&matrix.cols, &matrix.rows, metric, k, workers)
        };
        let m = Model { axis, metric, k, policy, user_ids, item_ids, matrix, table };
        proof {
            lemma_spec_table_wf(m.axis_seqs(), metric, k as nat);
        }
        Ok(m)
    }
}

/// The user-axis aggregation is bounded by one maximal term per
/// neighbor.
pub proof fn lemma_user_score_bound(rows: Seq<Seq<Entry>>, lst: Seq<Scored>, i: u32)
    requires
        forall|t: int| 0 <= t < lst.len() ==> ((#[trigger] lst[t]).score as nat) <= SCALE as nat,
    ensures
        user_axis_score(rows, lst, i) <= lst.len() * ((SCALE as nat) * 0xffff),
    decreases lst.len(),
{
    if lst.len() > 0 {
        assert(forall|t: int| 0 <= t < lst.drop_last().len() ==> lst.drop_last()[t] == lst[t]);
        lemma_user_score_bound(rows, lst.drop_last(), i);
        vstd::arithmetic::mul::lemma_mul_upper_bound(
            lst.last().score as int,
            SCALE as int,
            crate::engine::w_of(rows[lst.last().idx as int], i) as int,
            0xffff,
        );
        assert((lst.len() - 1) * ((SCALE as int) * 0xffff) + (SCALE as int) * 0xffff == lst.len()
            * ((SCALE as int) * 0xffff)) by (nonlinear_arith);
    }
}

/// A score table whose entries are capped assigns capped scores.
pub proof fn lemma_score_of_bound(l: Seq<Scored>, i: u32)
    requires
        forall|t: int| 0 <= t < l.len() ==> ((#[trigger] l[t]).score as nat) <= SCALE as nat,
    ensures
        score_of(l, i) <= SCALE as nat,
    decreases l.len(),
{
    if l.len() > 0 {
        assert(forall|t: int| 0 <= t < l.drop_last().len() ==> l.drop_last()[t] == l[t]);
        lemma_score_of_bound(l.drop_last(), i);
    }
}

/// The item-axis aggregation is bounded by one maximal term per
/// consumed item.
pub proof fn lemma_item_score_bound(row_u: Seq<Entry>, tb: Seq<Seq<Scored>>, i: u32)
    requires
        forall|v: int, t: int| 0 <= v < tb.len() && 0 <= t < tb[v].len() ==> ((
        #[trigger] tb[v][t]).score as nat) <= SCALE as nat,
        forall|t: int| 0 <= t < row_u.len() ==> ((#[trigger] row_u[t].idx) as nat) < tb.len(),
    ensures
        item_axis_score(row_u, tb, i) <= row_u.len() * (0xffff * (SCALE as nat)),
    decreases row_u.len(),
{
    if row_u.len() > 0 {
        assert(forall|t: int| 0 <= t < row_u.drop_last().len() ==> row_u.drop_last()[t] == row_u[
            t
        ]);
        lemma_item_score_bound(row_u.drop_last(), tb, i);
        let l = tb[row_u.last().idx as int];
        assert forall|t: int| 0 <= t < l.len() implies ((#[trigger] l[t]).score as nat)
            <= SCALE as nat by {}
        lemma_score_of_bound(l, i);
        vstd::arithmetic::mul::lemma_mul_upper_bound(
            row_u.last().weight as int,
            0xffff,
            score_of(l, i) as int,
            SCALE as int,
        );
        assert((row_u.len() - 1) * (0xffff * (SCALE as int)) + 0xffff * (SCALE as int)
            == row_u.len() * (0xffff * (SCALE as int))) by (nonlinear_arith);
    }
}

impl Model {
    /// Predicted score for user index `u` and item index `i`, by the
    /// axis aggregation formula; zero when no neighbor path connects
    /// them. Unknown indices are rejected.
    pub fn predict_idx(&self, u: usize, i: usize) -> (r: Result<u128, RecError>)
        requires
            self.wf(),
        ensures
            match r {
                Ok(sc) => (u as int) < self.matrix.rows_view().len() && (i as int)
                    < self.matrix.cols_view().len() && sc as nat == self.predict_s(
                    u as int,
                    i as u32,
                ),
                Err(e) => e == RecError::UnknownEntity && ((u as int)
                    >= self.matrix.rows_view().len() || (i as int)
                    >= self.matrix.cols_view().len()),
            },
    {
        if u >= self.matrix.n_rows() || i >= self.matrix.n_cols() {
            return Err(RecError::UnknownEntity);
        }
        let ghost rows = self.matrix.rows_view();
        let ghost tb = table_view(self.table@);
        let ii: u32 = i as u32;
        let is_user = match self.axis {
            Axis::User => true,
            Axis::Item => false,
        };
        if is_user {
            let lst = &self.table[u];
            let mut sum: u128 = 0;
            let mut t: usize = 0;
            while t < lst.len()
                invariant
                    self.wf(),
                    self.axis == Axis::User,
                    rows == self.matrix.rows_view(),
                    tb == table_view(self.table@),
                    (u as int) < rows.len(),
                    lst@ == tb[u as int],
                    0 <= t <= lst@.len(),
                    sum as nat == user_axis_score(rows, lst@.take(t as int), ii),
                decreases lst.len() - t,
            {
                let nb = lst[t];
                proof {
                    assert(tb[u as int][t as int] == nb);
                    assert(((nb.idx) as nat) < rows.len());
                    assert(lst@.take(t + 1 as int).drop_last() =~= lst@.take(t as int));
                    assert(lst@.take(t + 1 as int).last() == lst@[t as int]);
                    assert forall|j: int| 0 <= j < lst@.take(t as int).len() implies ((
                    #[trigger] lst@.take(t as int)[j]).score as nat) <= SCALE as nat by {
                        assert(lst@.take(t as int)[j] == tb[u as int][j]);
                    }
                    lemma_user_score_bound(rows, lst@.take(t as int), ii);
                    assert((t as int) * ((SCALE as nat) * 0xffff) + (SCALE as nat) * 0xffff
                        <= 0x1_0000_0000_0000_0000 * ((SCALE as int) * 0xffff))
                        by (nonlinear_arith)
                        requires 0 <= (t as int), (t as int) < 0x1_0000_0000_0000_0000;
                    vstd::arithmetic::mul::lemma_mul_upper_bound(
                        nb.score as int,
                        SCALE as int,
                        crate::engine::w_of(rows[nb.idx as int], ii) as int,
                        0xffff,
                    );
                }
                let w = match crate::sparse::find_weight(self.matrix.row(nb.idx as usize), ii) {
                    Some(w) => w,
                    None => 0,
                };
                proof {
                    assert(crate::engine::w_of(rows[nb.idx as int], ii) == w as nat);
                }
                sum = sum + nb.score * (w as u128);
                t = t + 1;
            }
            proof {
                assert(lst@.take(lst@.len() as int) =~= lst@);
            }
            Ok(sum)
        } else {
            let row_u = self.matrix.row(u);
            let mut sum: u128 = 0;
            let mut t: usize = 0;
            while t < row_u.len()
                invariant
                    self.wf(),
                    self.axis == Axis::Item,
                    rows == self.matrix.rows_view(),
                    tb == table_view(self.table@),
                    (u as int) < rows.len(),
                    row_u@ == rows[u as int],
                    0 <= t <= row_u@.len(),
                    sum as nat == item_axis_score(row_u@.take(t as int), tb, ii),
                decreases row_u.len() - t,
            {
                let e = row_u[t];
                proof {
                    crate::sparse::lemma_sorted_len(row_u@);
                    assert(rows[u as int][t as int] == e);
                    assert(((e.idx) as nat) < self.matrix.cols_view().len());
                    assert(tb.len() == self.matrix.cols_view().len());
                    assert(row_u@.take(t + 1 as int).drop_last() =~= row_u@.take(t as int));
                    assert(row_u@.take(t + 1 as int).last() == row_u@[t as int]);
                    assert(forall|j: int| 0 <= j < row_u@.take(t as int).len() ==> ((
                    #[trigger] row_u@.take(t as int)[j])) == row_u@[j]);
                    lemma_item_score_bound(row_u@.take(t as int), tb, ii);
                    assert((t as int) * (0xffff * (SCALE as nat)) + 0xffff * (SCALE as nat)
                        <= 0x1_0000_0000 * (0xffff * (SCALE as int))) by (nonlinear_arith)
                        requires 0 <= (t as int), (t as int) < 0x1_0000_0000;
                    lemma_score_of_bound(tb[e.idx as int], ii);
                    vstd::arithmetic::mul::lemma_mul_upper_bound(
                        e.weight as int,
                        0xffff,
                        score_of(tb[e.idx as int], ii) as int,
                        SCALE as int,
                    );
                }
                let lst_i = &self.table[e.idx as usize];
                let sc = score_lookup(lst_i, ii);
                proof {
                    assert(lst_i@ == tb[e.idx as int]);
                }
                sum = sum + (e.weight as u128) * sc;
                t = t + 1;
            }
            proof {
                assert(row_u@.take(row_u@.len() as int) =~= row_u@);
            }
            Ok(sum)
        }
    }
}

/// The score a neighbor list assigns to index `i`, or zero.
pub fn score_lookup(l: &Vec<Scored>, i: u32) -> (r: u128)
    ensures
        r as nat == score_of(l@, i),
{
    let mut t: usize = l.len();
    proof {
        assert(l@.take(l@.len() as int) =~= l@);
    }
    while t > 0
        invariant
            0 <= t <= l@.len(),
            score_of(l@, i) == score_of(l@.take(t as int), i),
        decreases t,
    {
        t = t - 1;
        proof {
            assert(l@.take(t + 1 as int).drop_last() =~= l@.take(t as int));
            assert(l@.take(t + 1 as int).last() == l@[t as int]);
        }
        if l[t].idx == i {
            return l[t].score;
        }
    }
    proof {
        assert(l@.take(0) =~= Seq::<Scored>::empty());
    }
    0
}

impl Model {
    /// The `nrec` best unconsumed items for user index `u`, ranked by
    /// predicted score with the low-index tie-break. A known user with
    /// no interactions gets an empty list; an index never assigned is
    /// an `UnknownEntity` error.
    #[verifier::rlimit(80)]
    pub fn recommend_idx(&self, u: usize, nrec: usize, filter_consumed: bool) -> (r: Result<
        Vec<Scored>,
        RecError,
    >)
        requires
            self.wf(),
        ensures
            match r {
                Ok(v) => (u as int) < self.matrix.rows_view().len() && v@ == self.recommend_s(
                    u as int,
                    nrec as nat,
                    filter_consumed,
                ),
                Err(e) => e == RecError::UnknownEntity && (u as int)
                    >= self.matrix.rows_view().len(),
            },
    {
        if u >= self.matrix.n_rows() {
            return Err(RecError::UnknownEntity);
        }
        let ghost rows = self.matrix.rows_view();
        let ghost tb = table_view(self.table@);
        if self.matrix.row(u).len() == 0 {
            let v: Vec<Scored> = Vec::new();
            proof {
                assert(v@ =~= Seq::<Scored>::empty());
            }
            return Ok(v);
        }
        let ni = self.matrix.n_cols();
        let ghost scs = Seq::new(ni as nat, |i: int| self.predict_s(u as int, i as u32));
        let ghost keeps = Seq::new(
            ni as nat,
            |i: int| !filter_consumed || find_w(rows[u as int], i as u32).is_none(),
        );
        let mut acc: Vec<u128> = Vec::new();
        let mut j: usize = 0;
        while j < ni
            invariant
                acc@.len() == j <= ni,
                forall|jj: int| 0 <= jj < j ==> (#[trigger] acc@[jj]) == 0,
            decreases ni - j,
        {
            acc.push(0);
            j = j + 1;
        }
        let is_user = match self.axis {
            Axis::User => true,
            Axis::Item => false,
        };
        if is_user {
            let lst = &self.table[u];
            let mut t: usize = 0;
            proof {
                assert forall|i: int| 0 <= i < ni implies (#[trigger] acc@[i] as nat)
                    == user_axis_score(rows, lst@.take(0), i as u32) by {
                    assert(lst@.take(0) =~= Seq::<Scored>::empty());
                }
            }
            while t < lst.len()
                invariant
                    self.wf(),
                    self.axis == Axis::User,
                    rows == self.matrix.rows_view(),
                    tb == table_view(self.table@),
                    (u as int) < rows.len(),
                    ni == self.matrix.cols_view().len(),
                    ni <= 0x1_0000_0000,
                    lst@ == tb[u as int],
                    acc@.len() == ni,
                    0 <= t <= lst@.len(),
                    forall|i: int| 0 <= i < ni ==> (#[trigger] acc@[i] as nat) == user_axis_score(
                        rows,
                        lst@.take(t as int),
                        i as u32,
                    ),
                decreases lst.len() - t,
            {
                let nb = lst[t];
                proof {
                    assert(tb[u as int][t as int] == nb);
                    assert((nb.idx as nat) < rows.len());
                    assert((nb.score as nat) <= SCALE as nat);
                }
                let rowv = self.matrix.row(nb.idx as usize);
                let mut q: usize = 0;
                proof {
                    assert forall|i: int| 0 <= i < ni implies (#[trigger] acc@[i] as nat)
                        == user_axis_score(rows, lst@.take(t as int), i as u32) + (nb.score as nat)
                        * crate::engine::w_of(rows[nb.idx as int].take(0), i as u32) by {
                        assert(rows[nb.idx as int].take(0) =~= Seq::<Entry>::empty());
                        assert(find_w(Seq::<Entry>::empty(), i as u32).is_none());
                    }
                }
                while q < rowv.len()
                    invariant
                        self.wf(),
                        self.axis == Axis::User,
                        rows == self.matrix.rows_view(),
                        tb == table_view(self.table@),
                        (u as int) < rows.len(),
                        ni == self.matrix.cols_view().len(),
                        lst@ == tb[u as int],
                        acc@.len() == ni,
                        0 <= t < lst@.len(),
                        nb == tb[u as int][t as int],
                        (nb.idx as nat) < rows.len(),
                        (nb.score as nat) <= SCALE as nat,
                        rowv@ == rows[nb.idx as int],
                        0 <= q <= rowv@.len(),
                        forall|i: int| 0 <= i < ni ==> (#[trigger] acc@[i] as nat)
                            == user_axis_score(rows, lst@.take(t as int), i as u32) + (
                        nb.score as nat) * crate::engine::w_of(
                            rows[nb.idx as int].take(q as int),
                            i as u32,
                        ),
                    decreases rowv.len() - q,
                {
                    let e = rowv[q];
                    let idx = e.idx as usize;
                    proof {
                        assert(rows[nb.idx as int][q as int] == e);
                        assert(sorted_by_idx(rows[nb.idx as int]));
                        assert((e.idx as nat) < ni);
                        // Bound the running cell before adding one more term.
                        assert forall|jj: int|
                            0 <= jj < lst@.take(t as int).len() implies ((#[trigger] lst@.take(
                            t as int,
                        )[jj]).score as nat) <= SCALE as nat by {
                            assert(lst@.take(t as int)[jj] == tb[u as int][jj]);
                        }
                        lemma_user_score_bound(rows, lst@.take(t as int), e.idx);
                        assert((t as int) * ((SCALE as nat) * 0xffff)
                            <= 0x1_0000_0000_0000_0000 * ((SCALE as int) * 0xffff))
                            by (nonlinear_arith)
                            requires 0 <= (t as int), (t as int) < 0x1_0000_0000_0000_0000;
                        vstd::arithmetic::mul::lemma_mul_upper_bound(
                            nb.score as int,
                            SCALE as int,
                            crate::engine::w_of(
                                rows[nb.idx as int].take(q as int),
                                e.idx,
                            ) as int,
                            0xffff,
                        );
                        vstd::arithmetic::mul::lemma_mul_upper_bound(
                            nb.score as int,
                            SCALE as int,
                            e.weight as int,
                            0xffff,
                        );
                    }
                    let prior = acc[idx];
                    let ghost acc0 = acc@;
                    acc.set(idx, prior + nb.score * (e.weight as u128));
                    proof {
                        let rv = rows[nb.idx as int];
                        assert(rv.take(q + 1 as int) =~= rv.take(q as int).push(e));
                        // The prefix before q cannot hold e.idx: the row is
                        // strictly sorted.
                        lemma_find_w_occurs(rv.take(q as int), e.idx);
                        if find_w(rv.take(q as int), e.idx).is_some() {
                            let jj = choose|jj: int|
                                0 <= jj < rv.take(q as int).len() && (#[trigger] rv.take(
                                    q as int,
                                )[jj].idx) == e.idx;
                            assert(rv[jj] == rv.take(q as int)[jj]);
                            assert(rv[jj].idx < rv[q as int].idx);
                            assert(false);
                        }
                        assert forall|i: int| 0 <= i < ni implies (#[trigger] acc@[i] as nat)
                            == user_axis_score(rows, lst@.take(t as int), i as u32) + (
                        nb.score as nat) * crate::engine::w_of(rv.take(q + 1 as int), i as u32) by {
                            let x32 = i as u32;
                            assert((acc0[i] as nat) == user_axis_score(
                                rows,
                                lst@.take(t as int),
                                x32,
                            ) + (nb.score as nat) * crate::engine::w_of(rv.take(q as int), x32));
                            lemma_find_w_push(rv.take(q as int), e, x32);
                            if i == e.idx as int {
                                assert(x32 == e.idx);
                                assert(crate::engine::w_of(rv.take(q as int), x32) == 0);
                                assert(find_w(rv.take(q + 1 as int), x32) == Some(e.weight));
                                assert(crate::engine::w_of(rv.take(q + 1 as int), x32)
                                    == e.weight as nat);
                                assert((acc@[i] as nat) == (prior as nat) + (nb.score as nat) * (
                                e.weight as nat));
                                assert((prior as nat) == user_axis_score(
                                    rows,
                                    lst@.take(t as int),
                                    x32,
                                ));
                            } else {
                                assert(e.idx != x32);
                                assert(acc@[i] == acc0[i]);
                                assert(crate::engine::w_of(rv.take(q + 1 as int), x32)
                                    == crate::engine::w_of(rv.take(q as int), x32));
                            }
                        }
                    }
                    q = q + 1;
                }
                proof {
                    let rv = rows[nb.idx as int];
                    assert(rv.take(rv.len() as int) =~= rv);
                    assert(lst@.take(t + 1 as int).drop_last() =~= lst@.take(t as int));
                    assert(lst@.take(t + 1 as int).last() == lst@[t as int]);
                }
                t = t + 1;
            }
            proof {
                assert(lst@.take(lst@.len() as int) =~= lst@);
                assert forall|i: int| 0 <= i < ni implies #[trigger] scs[i] == (acc@[i] as nat) by {
                    assert((acc@[i] as nat) == user_axis_score(rows, lst@, i as u32));
                }
            }
        } else {
            let rowu = self.matrix.row(u);
            let mut t: usize = 0;
            proof {
                assert forall|i: int| 0 <= i < ni implies (#[trigger] acc@[i] as nat)
                    == item_axis_score(rowu@.take(0), tb, i as u32) by {
                    assert(rowu@.take(0) =~= Seq::<Entry>::empty());
                }
            }
            while t < rowu.len()
                invariant
                    self.wf(),
                    self.axis == Axis::Item,
                    rows == self.matrix.rows_view(),
                    tb == table_view(self.table@),
                    (u as int) < rows.len(),
                    ni == self.matrix.cols_view().len(),
                    rowu@ == rows[u as int],
                    acc@.len() == ni,
                    0 <= t <= rowu@.len(),
                    forall|i: int| 0 <= i < ni ==> (#[trigger] acc@[i] as nat) == item_axis_score(
                        rowu@.take(t as int),
                        tb,
                        i as u32,
                    ),
                decreases rowu.len() - t,
            {
                let e = rowu[t];
                proof {
                    assert(rows[u as int][t as int] == e);
                    assert((e.idx as nat) < ni);
                    assert(tb.len() == ni);
                    crate::sparse::lemma_sorted_len(rowu@);
                }
                let lst_i = &self.table[e.idx as usize];
                let mut q: usize = 0;
                proof {
                    assert(lst_i@ == tb[e.idx as int]);
                    assert forall|i: int| 0 <= i < ni implies (#[trigger] acc@[i] as nat)
                        == item_axis_score(rowu@.take(t as int), tb, i as u32) + (e.weight as nat)
                        * score_of(lst_i@.take(0), i as u32) by {
                        assert(lst_i@.take(0) =~= Seq::<Scored>::empty());
                        assert(score_of(Seq::<Scored>::empty(), i as u32) == 0);
                        assert((e.weight as nat) * 0 == 0);
                    }
                }
                while q < lst_i.len()
                    invariant
                        self.wf(),
                        self.axis == Axis::Item,
                        rows == self.matrix.rows_view(),
                        tb == table_view(self.table@),
                        (u as int) < rows.len(),
                        ni == self.matrix.cols_view().len(),
                        rowu@ == rows[u as int],
                        rowu@.len() <= 0x1_0000_0000,
                        acc@.len() == ni,
                        0 <= t < rowu@.len(),
                        e == rows[u as int][t as int],
                        (e.idx as nat) < ni,
                        lst_i@ == tb[e.idx as int],
                        0 <= q <= lst_i@.len(),
                        forall|i: int| 0 <= i < ni ==> (#[trigger] acc@[i] as nat)
                            == item_axis_score(rowu@.take(t as int), tb, i as u32) + (
                        e.weight as nat) * score_of(lst_i@.take(q as int), i as u32),
                    decreases lst_i.len() - q,
                {
                    let nbq = lst_i[q];
                    let idx = nbq.idx as usize;
                    proof {
                        assert(tb[e.idx as int][q as int] == nbq);
                        assert((nbq.idx as nat) < ni);
                        assert((nbq.score as nat) <= SCALE as nat);
                        assert forall|jj: int|
                            0 <= jj < rowu@.take(t as int).len() implies (#[trigger] rowu@.take(
                            t as int,
                        )[jj]) == rowu@[jj] by {}
                        lemma_item_score_bound(rowu@.take(t as int), tb, nbq.idx);
                        assert((t as int) * (0xffff * (SCALE as nat)) <= 0x1_0000_0000 * (0xffff
                            * (SCALE as int))) by (nonlinear_arith)
                            requires 0 <= (t as int), (t as int) < 0x1_0000_0000;
                        lemma_score_of_bound(lst_i@.take(q as int), nbq.idx);
                        vstd::arithmetic::mul::lemma_mul_upper_bound(
                            e.weight as int,
                            0xffff,
                            score_of(lst_i@.take(q as int), nbq.idx) as int,
                            SCALE as int,
                        );
                        vstd::arithmetic::mul::lemma_mul_upper_bound(
                            e.weight as int,
                            0xffff,
                            nbq.score as int,
                            SCALE as int,
                        );
                    }
                    let prior = acc[idx];
                    acc.set(idx, prior + (e.weight as u128) * nbq.score);
                    proof {
                        assert(lst_i@.take(q + 1 as int) =~= lst_i@.take(q as int).push(nbq));
                        assert forall|i: int| 0 <= i < ni implies (#[trigger] acc@[i] as nat)
                            == item_axis_score(rowu@.take(t as int), tb, i as u32) + (
                        e.weight as nat) * score_of(lst_i@.take(q + 1 as int), i as u32) by {
                            assert(lst_i@.take(q + 1 as int).last() == nbq);
                            assert(lst_i@.take(q + 1 as int).drop_last() =~= lst_i@.take(q as int));
                            if i == nbq.idx as int {
                                // No earlier entry of the list repeats this index.
                                assert forall|jj: int|
                                    0 <= jj < lst_i@.take(q as int).len() implies ((
                                #[trigger] lst_i@.take(q as int)[jj]).idx) != nbq.idx by {
                                    assert(lst_i@.take(q as int)[jj] == tb[e.idx as int][jj]);
                                }
                                lemma_score_of_absent(lst_i@.take(q as int), nbq.idx);
                                assert(score_of(lst_i@.take(q + 1 as int), i as u32)
                                    == nbq.score as nat);
                                assert((e.weight as nat) * 0 == 0);
                            } else {
                                assert(score_of(lst_i@.take(q + 1 as int), i as u32) == score_of(
                                    lst_i@.take(q as int),
                                    i as u32,
                                ));
                            }
                        }
                    }
                    q = q + 1;
                }
                proof {
                    assert(lst_i@.take(lst_i@.len() as int) =~= lst_i@);
                    assert(rowu@.take(t + 1 as int).drop_last() =~= rowu@.take(t as int));
                    assert(rowu@.take(t + 1 as int).last() == rowu@[t as int]);
                }
                t = t + 1;
            }
            proof {
                assert(rowu@.take(rowu@.len() as int) =~= rowu@);
                assert forall|i: int| 0 <= i < ni implies #[trigger] scs[i] == (acc@[i] as nat) by {
                    assert((acc@[i] as nat) == item_axis_score(rowu@, tb, i as u32));
                }
            }
        }
        // Selection pass: keep admitted items with nonzero scores,
        // ranked, capped at nrec.
        let rowu2 = self.matrix.row(u);
        let mut out: Vec<Scored> = Vec::new();
        let mut i: usize = 0;
        proof {
            assert(out@ =~= sel_fold(scs, keeps, nrec as nat, 0));
        }
        while i < ni
            invariant
                self.wf(),
                rows == self.matrix.rows_view(),
                (u as int) < rows.len(),
                ni == self.matrix.cols_view().len(),
                rowu2@ == rows[u as int],
                acc@.len() == ni,
                scs.len() == ni,
                keeps.len() == ni,
                forall|jj: int| 0 <= jj < ni ==> #[trigger] scs[jj] == (acc@[jj] as nat),
                forall|jj: int| 0 <= jj < ni ==> #[trigger] keeps[jj] == (!filter_consumed
                    || find_w(rows[u as int], jj as u32).is_none()),
                0 <= i <= ni,
                out@ == sel_fold(scs, keeps, nrec as nat, i as int),
            decreases ni - i,
        {
            proof {
                assert forall|jj: int| 0 <= jj < i as int implies (#[trigger] scs[jj])
                    < 0x1_0000_0000_0000_0000_0000_0000_0000_0000 by {
                    assert(scs[jj] == (acc@[jj] as nat));
                }
                lemma_sel_fold_props(scs, keeps, nrec as nat, i as int);
            }
            let sc = acc[i];
            let keep = if filter_consumed {
                !crate::sparse::find_contains(rowu2, i as u32)
            } else {
                true
            };
            if keep && sc > 0 {
                let x = Scored { idx: i as u32, score: sc };
                proof {
                    let prev = sel_fold(scs, keeps, nrec as nat, i as int);
                    assert forall|tt: int| 0 <= tt < prev.len() implies (#[trigger] prev[tt].idx)
                        != x.idx by {
                        assert(prev.contains(prev[tt]));
                    }
                }
                push_capped(&mut out, x, nrec);
            }
            i = i + 1;
        }
        proof {
            assert(out@ == self.recommend_s(u as int, nrec as nat, filter_consumed));
        }
        Ok(out)
    }
}

/// Every entry of a recommendation list is an item index below the
/// column count, carries its exact nonzero predicted score, and — when
/// filtering is on — is not among the user's consumed items.
pub proof fn lemma_recommend_elems(m: Model, u: int, nrec: nat, filter: bool)
    requires
        m.wf(),
        0 <= u < m.matrix.rows_view().len(),
    ensures
        forall|t: int| 0 <= t < m.recommend_s(u, nrec, filter).len() ==> {
            let e = #[trigger] m.recommend_s(u, nrec, filter)[t];
            &&& (e.idx as nat) < m.matrix.cols_view().len()
            &&& (e.score as nat) == m.predict_s(u, e.idx)
            &&& e.score > 0
            &&& (filter ==> find_w(m.matrix.rows_view()[u], e.idx).is_none())
        },
{
    let rows = m.matrix.rows_view();
    let tb = table_view(m.table@);
    let ni = m.matrix.cols_view().len();
    if rows[u].len() > 0 {
        let scs = Seq::new(ni, |i: int| m.predict_s(u, i as u32));
        let keeps = Seq::new(ni, |i: int| !filter || find_w(rows[u], i as u32).is_none());
        assert forall|i: int| 0 <= i < ni implies (#[trigger] scs[i])
            < 0x1_0000_0000_0000_0000_0000_0000_0000_0000 by {
            if m.axis == Axis::User {
                assert forall|jj: int| 0 <= jj < tb[u].len() implies ((
                #[trigger] tb[u][jj]).score as nat) <= SCALE as nat by {}
                lemma_user_score_bound(rows, tb[u], i as u32);
                assert(tb[u].len() * ((SCALE as nat) * 0xffff) < 0x1_0000_0000_0000_0000_0000_0000_0000_0000)
                    by (nonlinear_arith)
                    requires tb[u].len() < 0x1_0000_0000_0000_0000_0000;
                assert(tb[u].len() < 0x1_0000_0000_0000_0000_0000);
            } else {
                lemma_item_score_bound(rows[u], tb, i as u32);
                crate::sparse::lemma_sorted_len(rows[u]);
                assert(rows[u].len() * (0xffff * (SCALE as nat)) < 0x1_0000_0000_0000_0000_0000_0000_0000_0000)
                    by (nonlinear_arith)
                    requires rows[u].len() <= 0x1_0000_0000;
            }
        }
        lemma_sel_fold_props(scs, keeps, nrec, ni as int);
        let f = m.recommend_s(u, nrec, filter);
        assert forall|t: int| 0 <= t < f.len() implies {
            let e = #[trigger] f[t];
            &&& (e.idx as nat) < ni
            &&& (e.score as nat) == m.predict_s(u, e.idx)
            &&& e.score > 0
            &&& (filter ==> find_w(rows[u], e.idx).is_none())
        } by {
            assert(f.contains(f[t]));
            let e = f[t];
            assert((e.idx as int) < ni as int);
            assert(keeps[e.idx as int]);
            assert(scs[e.idx as int] == m.predict_s(u, e.idx as int as u32));
        }
    }
}

impl Model {
    /// Resolves a user id and recommends the `nrec` best items, as
    /// (item id, score) pairs. Ids never seen by fit or update are an
    /// `UnknownEntity` error; a known user with no interactions gets
    /// an empty list.
    pub fn recommend(&self, user_id: u64, nrec: usize, filter_consumed: bool) -> (r: Result<
        Vec<(u64, u128)>,
        RecError,
    >)
        requires
            self.wf(),
        ensures
            match r {
                Ok(v) => idx_of(self.user_ids@, user_id) >= 0 && v@ == self.recommend_s(
                    idx_of(self.user_ids@, user_id),
                    nrec as nat,
                    filter_consumed,
                ).map_values(|e: Scored| (self.item_ids@[e.idx as int], e.score)),
                Err(e) => e == RecError::UnknownEntity && idx_of(self.user_ids@, user_id) == -1,
            },
    {
        let u = match find_id(&self.user_ids, user_id) {
            None => {
                return Err(RecError::UnknownEntity);
            },
            Some(u) => u,
        };
        proof {
            lemma_idx_of(self.user_ids@, user_id);
        }
        let raw = match self.recommend_idx(u, nrec, filter_consumed) {
            Ok(raw) => raw,
            Err(_) => {
                proof {
                    assert(false);
                }
                return Err(RecError::UnknownEntity);
            },
        };
        proof {
            lemma_recommend_elems(*self, u as int, nrec as nat, filter_consumed);
        }
        let ghost target = self.recommend_s(u as int, nrec as nat, filter_consumed).map_values(
            |e: Scored| (self.item_ids@[e.idx as int], e.score),
        );
        let mut out: Vec<(u64, u128)> = Vec::new();
        let mut t: usize = 0;
        while t < raw.len()
            invariant
                self.wf(),
                0 <= t <= raw@.len(),
                raw@ == self.recommend_s(u as int, nrec as nat, filter_consumed),
                (u as int) < self.matrix.rows_view().len(),
                forall|j: int| 0 <= j < raw@.len() ==> ((#[trigger] raw@[j]).idx as nat)
                    < self.matrix.cols_view().len(),
                self.item_ids@.len() == self.matrix.cols_view().len(),
                target == raw@.map_values(|e: Scored| (self.item_ids@[e.idx as int], e.score)),
                out@ == target.take(t as int),
            decreases raw.len() - t,
        {
            let e = raw[t];
            let id = self.item_ids[e.idx as usize];
            out.push((id, e.score));
            proof {
                assert(target[t as int] == (self.item_ids@[e.idx as int], e.score));
                assert(out@ =~= target.take(t + 1 as int));
            }
            t = t + 1;
        }
        proof {
            assert(out@ =~= target);
        }
        Ok(out)
    }

    /// Resolves both ids and predicts the aggregated score; unknown
    /// ids — user or item — are an `UnknownEntity` error.
    pub fn predict(&self, user_id: u64, item_id: u64) -> (r: Result<u128, RecError>)
        requires
            self.wf(),
        ensures
            match r {
                Ok(sc) => idx_of(self.user_ids@, user_id) >= 0 && idx_of(self.item_ids@, item_id)
                    >= 0 && sc as nat == self.predict_s(
                    idx_of(self.user_ids@, user_id),
                    idx_of(self.item_ids@, item_id) as u32,
                ),
                Err(e) => e == RecError::UnknownEntity && (idx_of(self.user_ids@, user_id) == -1
                    || idx_of(self.item_ids@, item_id) == -1),
            },
    {
        let u = match find_id(&self.user_ids, user_id) {
            None => {
                return Err(RecError::UnknownEntity);
            },
            Some(u) => u,
        };
        let i = match find_id(&self.item_ids, item_id) {
            None => {
                return Err(RecError::UnknownEntity);
            },
            Some(i) => i,
        };
        proof {
            lemma_idx_of(self.user_ids@, user_id);
            lemma_idx_of(self.item_ids@, item_id);
        }
        match self.predict_idx(u, i) {
            Ok(sc) => Ok(sc),
            Err(_) => {
                proof {
                    assert(false);
                }
                Err(RecError::UnknownEntity)
            },
        }
    }
}

/// The item indices of a row, in their sorted order.
pub open spec fn idxs_of(row: Seq<Entry>) -> Seq<u32> {
    Seq::new(row.len(), |t: int| row[t].idx)
}

/// The consumed sets of the first `n` users: one (user index, item
/// indices) pair per user with at least one interaction; users with
/// none are absent.
pub open spec fn consumed_s(rows: Seq<Seq<Entry>>, n: int) -> Seq<(u32, Seq<u32>)>
    decreases n,
{
    if n <= 0 {
        Seq::<(u32, Seq<u32>)>::empty()
    } else {
        let prev = consumed_s(rows, n - 1);
        if rows[n - 1].len() > 0 {
            prev.push(((n - 1) as u32, idxs_of(rows[n - 1])))
        } else {
            prev
        }
    }
}

/// Mathematical view of a consumed-set listing.
pub open spec fn consumed_view(v: Seq<(u32, Vec<u32>)>) -> Seq<(u32, Seq<u32>)> {
    Seq::new(v.len(), |t: int| (v[t].0, v[t].1@))
}

/// Derives, per user with at least one interaction, the set of item
/// indices already interacted with, in sorted order. Users with no
/// interactions are absent, not present with an empty set.
pub fn build_consumed(m: &SparseMatrix) -> (r: Vec<(u32, Vec<u32>)>)
    requires
        m.wf(),
    ensures
        consumed_view(r@) == consumed_s(m.rows_view(), m.rows_view().len() as int),
{
    let ghost rows = m.rows_view();
    let n = m.n_rows();
    let mut out: Vec<(u32, Vec<u32>)> = Vec::new();
    let mut u: usize = 0;
    proof {
        assert(consumed_view(out@) =~= consumed_s(rows, 0));
    }
    while u < n
        invariant
            rows == m.rows_view(),
            m.wf(),
            n == rows.len(),
            0 <= u <= n,
            consumed_view(out@) == consumed_s(rows, u as int),
        decreases n - u,
    {
        let row = m.row(u);
        if row.len() > 0 {
            let mut ids: Vec<u32> = Vec::new();
            let mut t: usize = 0;
            while t < row.len()
                invariant
                    row@ == rows[u as int],
                    (u as int) < rows.len(),
                    0 <= t <= row@.len(),
                    ids@ == idxs_of(row@).take(t as int),
                decreases row.len() - t,
            {
                let e = row[t];
                ids.push(e.idx);
                proof {
                    assert(ids@ =~= idxs_of(row@).take(t + 1 as int));
                }
                t = t + 1;
            }
            proof {
                assert(ids@ =~= idxs_of(row@));
            }
            out.push((u as u32, ids));
            proof {
                assert(consumed_view(out@) =~= consumed_s(rows, u + 1 as int));
            }
        } else {
            proof {
                assert(consumed_view(out@) =~= consumed_s(rows, u + 1 as int));
            }
        }
        u = u + 1;
    }
    out
}

} // verus!
