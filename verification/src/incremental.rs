//! Incremental model updates: apply a batch of new interactions to the
//! matrix, then recompute only the neighbor lists the batch can have
//! affected — an index whose own vector changed, or one sharing a
//! coordinate with such a vector. Every other list provably equals
//! what a full recomputation would produce, so the updated table as a
//! whole matches a full recompute on the merged matrix.

use vstd::prelude::*;
use crate::Axis;
use crate::MergePolicy;
use crate::RecError;
use crate::engine::lemma_disjoint_sim_zero;
use crate::engine::lemma_nb_fold_extend_zero;
use crate::engine::lemma_nb_fold_same_sims;
use crate::engine::lemma_not_shares_disjoint;
use crate::engine::nb_list;
use crate::engine::shares;
use crate::engine::sim_s;
use crate::engine::spec_nb;
use crate::engine::spec_table;
use crate::engine::table_view;
use crate::engine::marked_for;
use crate::model::BuildSt;
use crate::model::Interaction;
use crate::model::Model;
use crate::model::apply_records;
use crate::model::batch_ok;
use crate::model::cap_ok;
use crate::model::distinct_ids;
use crate::model::fold_s;
use crate::model::find_id;
use crate::model::idx_of;
use crate::model::lemma_idx_of;
use crate::model::step_s;
use crate::sparse::Entry;
use crate::sparse::find_w;
use crate::sparse::lemma_find_w_occurs;
use crate::sparse::upsert_s;

verus! {

/// `idx_of` after appending one id: existing ids keep their index, the
/// appended id gets the next one.
pub proof fn lemma_idx_of_push(s: Seq<u64>, y: u64, x: u64)
    ensures
        idx_of(s.push(y), x) == (if idx_of(s, x) >= 0 {
            idx_of(s, x)
        } else if x == y {
            s.len() as int
        } else {
            -1
        }),
    decreases s.len(),
{
    if s.len() == 0 {
        assert(s.push(y)[0] == y);
        assert(s.push(y).skip(1) =~= Seq::<u64>::empty());
        assert(idx_of(Seq::<u64>::empty(), x) == -1);
        if x != y {
            assert(idx_of(s.push(y), x) == -1);
        } else {
            assert(idx_of(s.push(y), x) == 0);
        }
    } else {
        lemma_idx_of_push(s.skip(1), y, x);
        assert(s.push(y)[0] == s[0]);
        assert(s.push(y).skip(1) =~= s.skip(1).push(y));
        if s[0] != x {
            assert(idx_of(s, x) == (if idx_of(s.skip(1), x) < 0 { -1int } else { idx_of(s.skip(1), x) + 1 }));
            assert(idx_of(s.push(y), x) == (if idx_of(s.skip(1).push(y), x) < 0 { -1int } else { idx_of(s.skip(1).push(y), x) + 1 }));
        }
    }
}

/// The id a record resolves to during a step keeps that index in the
/// stepped state, and every already-present id keeps its index.
pub proof fn lemma_step_ids(st: BuildSt, r: Interaction, p: MergePolicy)
    ensures
        idx_of(step_s(st, r, p).users, r.user_id) == (if idx_of(st.users, r.user_id) >= 0 {
            idx_of(st.users, r.user_id)
        } else {
            st.users.len() as int
        }),
        idx_of(step_s(st, r, p).items, r.item_id) == (if idx_of(st.items, r.item_id) >= 0 {
            idx_of(st.items, r.item_id)
        } else {
            st.items.len() as int
        }),
        forall|x: u64| idx_of(st.users, x) >= 0 ==> #[trigger] idx_of(step_s(st, r, p).users, x)
            == idx_of(st.users, x),
        forall|x: u64| idx_of(st.items, x) >= 0 ==> #[trigger] idx_of(step_s(st, r, p).items, x)
            == idx_of(st.items, x),
{
    assert forall|x: u64| idx_of(st.users, x) >= 0 implies #[trigger] idx_of(
        step_s(st, r, p).users,
        x,
    ) == idx_of(st.users, x) by {
        if idx_of(st.users, r.user_id) < 0 {
            lemma_idx_of_push(st.users, r.user_id, x);
        }
    }
    assert forall|x: u64| idx_of(st.items, x) >= 0 implies #[trigger] idx_of(
        step_s(st, r, p).items,
        x,
    ) == idx_of(st.items, x) by {
        if idx_of(st.items, r.item_id) < 0 {
            lemma_idx_of_push(st.items, r.item_id, x);
        }
    }
    if idx_of(st.users, r.user_id) < 0 {
        lemma_idx_of_push(st.users, r.user_id, r.user_id);
    }
    if idx_of(st.items, r.item_id) < 0 {
        lemma_idx_of_push(st.items, r.item_id, r.item_id);
    }
}

/// No record of the batch resolves its user id to index `v`.
pub open spec fn row_untouched(users: Seq<u64>, recs: Seq<Interaction>, v: int) -> bool {
    forall|t: int| 0 <= t < recs.len() ==> idx_of(users, (#[trigger] recs[t]).user_id) != v
}

/// No record of the batch resolves its item id to index `v`.
pub open spec fn col_untouched(items: Seq<u64>, recs: Seq<Interaction>, v: int) -> bool {
    forall|t: int| 0 <= t < recs.len() ==> idx_of(items, (#[trigger] recs[t]).item_id) != v
}

/// Where each record of a folded batch resolves: every record's user
/// id is present afterwards, rows only grow, and a row whose index no
/// record resolves to is carried over unchanged. Symmetrically for
/// items and columns.
#[verifier::rlimit(100)]
#[verifier::spinoff_prover]
pub proof fn lemma_fold_locality(st: BuildSt, recs: Seq<Interaction>, p: MergePolicy)
    requires
        st.rows.len() == st.users.len(),
        st.cols.len() == st.items.len(),
    ensures
        fold_s(st, recs, p).rows.len() == fold_s(st, recs, p).users.len(),
        fold_s(st, recs, p).cols.len() == fold_s(st, recs, p).items.len(),
        fold_s(st, recs, p).rows.len() >= st.rows.len(),
        fold_s(st, recs, p).cols.len() >= st.cols.len(),
        forall|t: int| 0 <= t < recs.len() ==> #[trigger] idx_of(
            fold_s(st, recs, p).users,
            recs[t].user_id,
        ) >= 0,
        forall|t: int| 0 <= t < recs.len() ==> #[trigger] idx_of(
            fold_s(st, recs, p).items,
            recs[t].item_id,
        ) >= 0,
        forall|x: u64| idx_of(st.users, x) >= 0 ==> #[trigger] idx_of(fold_s(st, recs, p).users, x)
            == idx_of(st.users, x),
        forall|x: u64| idx_of(st.items, x) >= 0 ==> #[trigger] idx_of(fold_s(st, recs, p).items, x)
            == idx_of(st.items, x),
    decreases recs.len(),
{
    if recs.len() > 0 {
        let mid = fold_s(st, recs.drop_last(), p);
        let last = recs.last();
        let stf = fold_s(st, recs, p);
        lemma_fold_locality(st, recs.drop_last(), p);
        lemma_step_ids(mid, last, p);
        assert(stf == step_s(mid, last, p));
        lemma_idx_of(mid.users, last.user_id);
        lemma_idx_of(mid.items, last.item_id);
        assert(forall|t: int| 0 <= t < recs.len() - 1 ==> recs.drop_last()[t] == recs[t]);
        assert forall|t: int| 0 <= t < recs.len() implies #[trigger] idx_of(
            stf.users,
            recs[t].user_id,
        ) >= 0 by {
            if t < recs.len() - 1 {
                assert(recs.drop_last()[t] == recs[t]);
                assert(idx_of(mid.users, recs.drop_last()[t].user_id) >= 0);
            }
        }
        assert forall|t: int| 0 <= t < recs.len() implies #[trigger] idx_of(
            stf.items,
            recs[t].item_id,
        ) >= 0 by {
            if t < recs.len() - 1 {
                assert(recs.drop_last()[t] == recs[t]);
                assert(idx_of(mid.items, recs.drop_last()[t].item_id) >= 0);
            }
        }
        let ulast: int = if idx_of(mid.users, last.user_id) >= 0 {
            idx_of(mid.users, last.user_id)
        } else {
            mid.users.len() as int
        };
        let ilast: int = if idx_of(mid.items, last.item_id) >= 0 {
            idx_of(mid.items, last.item_id)
        } else {
            mid.items.len() as int
        };
        assert(idx_of(stf.users, last.user_id) == ulast);
        assert(idx_of(stf.items, last.item_id) == ilast);
    }
}

/// An upsert never removes a stored coordinate.
pub proof fn lemma_upsert_support(s: Seq<Entry>, xi: u32, w: u16, p: MergePolicy, y: u32)
    requires
        find_w(s, y).is_some(),
    ensures
        find_w(upsert_s(s, xi, w, p), y).is_some(),
    decreases s.len(),
{
    let r = upsert_s(s, xi, w, p);
    if s.len() == 0 {
    } else if s[0].idx == xi {
        assert(r.skip(1) =~= s.skip(1));
        if y != xi && s[0].idx != y {
            assert(find_w(r, y) == find_w(s.skip(1), y));
        }
    } else if xi < s[0].idx {
        assert(r.skip(1) =~= s);
        if y != xi {
            assert(find_w(r, y) == find_w(s, y));
        }
    } else {
        assert(r.skip(1) =~= upsert_s(s.skip(1), xi, w, p));
        if s[0].idx != y {
            lemma_upsert_support(s.skip(1), xi, w, p, y);
            assert(find_w(r, y) == find_w(upsert_s(s.skip(1), xi, w, p), y));
        }
    }
}

/// Folding a batch never removes a stored coordinate from a row or a
/// column that already existed.
pub proof fn lemma_fold_support(st: BuildSt, recs: Seq<Interaction>, p: MergePolicy, v: int, x: u32)
    requires
        0 <= v,
        st.rows.len() == st.users.len(),
        st.cols.len() == st.items.len(),
    ensures
        v < st.rows.len() && find_w(st.rows[v], x).is_some() ==> v < fold_s(st, recs, p).rows.len()
            && find_w(fold_s(st, recs, p).rows[v], x).is_some(),
        v < st.cols.len() && find_w(st.cols[v], x).is_some() ==> v < fold_s(st, recs, p).cols.len()
            && find_w(fold_s(st, recs, p).cols[v], x).is_some(),
    decreases recs.len(),
{
    if recs.len() > 0 {
        lemma_fold_support(st, recs.drop_last(), p, v, x);
        let mid = fold_s(st, recs.drop_last(), p);
        let last = recs.last();
        let stf = fold_s(st, recs, p);
        assert(stf == step_s(mid, last, p));
        lemma_fold_locality(st, recs.drop_last(), p);
        lemma_idx_of(mid.users, last.user_id);
        lemma_idx_of(mid.items, last.item_id);
        if v < st.rows.len() && find_w(st.rows[v], x).is_some() {
            let u0 = idx_of(mid.users, last.user_id);
            let rows0 = if u0 >= 0 {
                mid.rows
            } else {
                mid.rows.push(Seq::<Entry>::empty())
            };
            let u = if u0 >= 0 {
                u0
            } else {
                mid.users.len() as int
            };
            assert(rows0[v] == mid.rows[v]);
            if u == v {
                lemma_upsert_support(
                    rows0[v],
                    (if idx_of(mid.items, last.item_id) >= 0 {
                        idx_of(mid.items, last.item_id)
                    } else {
                        mid.items.len() as int
                    }) as u32,
                    last.weight,
                    p,
                    x,
                );
            }
        }
        if v < st.cols.len() && find_w(st.cols[v], x).is_some() {
            let i0 = idx_of(mid.items, last.item_id);
            let cols0 = if i0 >= 0 {
                mid.cols
            } else {
                mid.cols.push(Seq::<Entry>::empty())
            };
            let i = if i0 >= 0 {
                i0
            } else {
                mid.items.len() as int
            };
            assert(cols0[v] == mid.cols[v]);
            if i == v {
                lemma_upsert_support(
                    cols0[v],
                    (if idx_of(mid.users, last.user_id) >= 0 {
                        idx_of(mid.users, last.user_id)
                    } else {
                        mid.users.len() as int
                    }) as u32,
                    last.weight,
                    p,
                    x,
                );
            }
        }
    }
}

/// Every id the fold appends comes from some record of the batch.
pub proof fn lemma_fold_new_ids(st: BuildSt, recs: Seq<Interaction>, p: MergePolicy)
    ensures
        forall|j: int|
            st.users.len() <= j < fold_s(st, recs, p).users.len() ==> exists|t: int|
                0 <= t < recs.len() && #[trigger] fold_s(st, recs, p).users[j] == recs[t].user_id,
        forall|j: int|
            st.items.len() <= j < fold_s(st, recs, p).items.len() ==> exists|t: int|
                0 <= t < recs.len() && #[trigger] fold_s(st, recs, p).items[j] == recs[t].item_id,
        fold_s(st, recs, p).users.len() >= st.users.len(),
        fold_s(st, recs, p).items.len() >= st.items.len(),
    decreases recs.len(),
{
    if recs.len() > 0 {
        lemma_fold_new_ids(st, recs.drop_last(), p);
        let mid = fold_s(st, recs.drop_last(), p);
        let last = recs.last();
        let stf = fold_s(st, recs, p);
        assert(stf == step_s(mid, last, p));
        assert forall|j: int|
            st.users.len() <= j < stf.users.len() implies exists|t: int|
                0 <= t < recs.len() && #[trigger] stf.users[j] == recs[t].user_id by {
            if j < mid.users.len() {
                assert(stf.users[j] == mid.users[j]);
                let t = choose|t: int|
                    0 <= t < recs.drop_last().len() && #[trigger] mid.users[j] == recs.drop_last()[
                    t
                ].user_id;
                assert(stf.users[j] == recs[t].user_id);
            } else {
                assert(stf.users[j] == last.user_id);
                assert(stf.users[j] == recs[recs.len() - 1].user_id);
            }
        }
        assert forall|j: int|
            st.items.len() <= j < stf.items.len() implies exists|t: int|
                0 <= t < recs.len() && #[trigger] stf.items[j] == recs[t].item_id by {
            if j < mid.items.len() {
                assert(stf.items[j] == mid.items[j]);
                let t = choose|t: int|
                    0 <= t < recs.drop_last().len() && #[trigger] mid.items[j] == recs.drop_last()[
                    t
                ].item_id;
                assert(stf.items[j] == recs[t].item_id);
            } else {
                assert(stf.items[j] == last.item_id);
                assert(stf.items[j] == recs[recs.len() - 1].item_id);
            }
        }
    }
}

/// A row whose index no record of the batch resolves to passes
/// through the fold unchanged.
pub proof fn lemma_fold_row_untouched(st: BuildSt, recs: Seq<Interaction>, p: MergePolicy, v: int)
    requires
        st.rows.len() == st.users.len(),
        st.cols.len() == st.items.len(),
        0 <= v < fold_s(st, recs, p).rows.len(),
        row_untouched(fold_s(st, recs, p).users, recs, v),
    ensures
        v < st.rows.len(),
        fold_s(st, recs, p).rows[v] == st.rows[v],
    decreases recs.len(),
{
    if recs.len() > 0 {
        let mid = fold_s(st, recs.drop_last(), p);
        let last = recs.last();
        let stf = fold_s(st, recs, p);
        lemma_fold_locality(st, recs.drop_last(), p);
        lemma_fold_locality(st, recs, p);
        lemma_step_ids(mid, last, p);
        assert(stf == step_s(mid, last, p));
        lemma_idx_of(mid.users, last.user_id);
        let ulast: int = if idx_of(mid.users, last.user_id) >= 0 {
            idx_of(mid.users, last.user_id)
        } else {
            mid.users.len() as int
        };
        let ilast: int = if idx_of(mid.items, last.item_id) >= 0 {
            idx_of(mid.items, last.item_id)
        } else {
            mid.items.len() as int
        };
        assert(idx_of(stf.users, last.user_id) == ulast);
        assert(idx_of(stf.users, recs[recs.len() - 1].user_id) != v);
        assert(recs[recs.len() - 1] == last);
        assert(ulast != v);
        assert forall|t: int|
            0 <= t < recs.drop_last().len() implies idx_of(
            mid.users,
            (#[trigger] recs.drop_last()[t]).user_id,
        ) != v by {
            assert(recs.drop_last()[t] == recs[t]);
            assert(idx_of(mid.users, recs.drop_last()[t].user_id) >= 0);
            assert(idx_of(mid.users, recs[t].user_id) >= 0);
            assert(idx_of(stf.users, recs[t].user_id) == idx_of(mid.users, recs[t].user_id));
            assert(idx_of(stf.users, recs[t].user_id) != v);
        }
        assert(row_untouched(mid.users, recs.drop_last(), v));
        let rows0 = if idx_of(mid.users, last.user_id) >= 0 {
            mid.rows
        } else {
            mid.rows.push(Seq::<Entry>::empty())
        };
        assert(stf.rows == rows0.update(
            ulast,
            upsert_s(rows0[ulast], ilast as u32, last.weight, p),
        ));
        assert(stf.rows.len() == rows0.len());
        if v >= mid.rows.len() {
            // Then v is the one index the final step appended, which
            // contradicts ulast != v.
            assert(idx_of(mid.users, last.user_id) < 0);
            assert(v == mid.rows.len());
            assert(ulast == mid.users.len());
            assert(mid.rows.len() == mid.users.len());
            assert(false);
        }
        lemma_fold_row_untouched(st, recs.drop_last(), p, v);
        assert(stf.rows[v] == rows0[v]);
        assert(rows0[v] == mid.rows[v]);
    }
}

/// A column whose index no record of the batch resolves to passes
/// through the fold unchanged.
pub proof fn lemma_fold_col_untouched(st: BuildSt, recs: Seq<Interaction>, p: MergePolicy, v: int)
    requires
        st.rows.len() == st.users.len(),
        st.cols.len() == st.items.len(),
        0 <= v < fold_s(st, recs, p).cols.len(),
        col_untouched(fold_s(st, recs, p).items, recs, v),
    ensures
        v < st.cols.len(),
        fold_s(st, recs, p).cols[v] == st.cols[v],
    decreases recs.len(),
{
    if recs.len() > 0 {
        let mid = fold_s(st, recs.drop_last(), p);
        let last = recs.last();
        let stf = fold_s(st, recs, p);
        lemma_fold_locality(st, recs.drop_last(), p);
        lemma_fold_locality(st, recs, p);
        lemma_step_ids(mid, last, p);
        assert(stf == step_s(mid, last, p));
        lemma_idx_of(mid.items, last.item_id);
        let ulast: int = if idx_of(mid.users, last.user_id) >= 0 {
            idx_of(mid.users, last.user_id)
        } else {
            mid.users.len() as int
        };
        let ilast: int = if idx_of(mid.items, last.item_id) >= 0 {
            idx_of(mid.items, last.item_id)
        } else {
            mid.items.len() as int
        };
        assert(idx_of(stf.items, last.item_id) == ilast);
        assert(idx_of(stf.items, recs[recs.len() - 1].item_id) != v);
        assert(recs[recs.len() - 1] == last);
        assert(ilast != v);
        assert forall|t: int|
            0 <= t < recs.drop_last().len() implies idx_of(
            mid.items,
            (#[trigger] recs.drop_last()[t]).item_id,
        ) != v by {
            assert(recs.drop_last()[t] == recs[t]);
            assert(idx_of(mid.items, recs.drop_last()[t].item_id) >= 0);
            assert(idx_of(mid.items, recs[t].item_id) >= 0);
            assert(idx_of(stf.items, recs[t].item_id) == idx_of(mid.items, recs[t].item_id));
            assert(idx_of(stf.items, recs[t].item_id) != v);
        }
        assert(col_untouched(mid.items, recs.drop_last(), v));
        let cols0 = if idx_of(mid.items, last.item_id) >= 0 {
            mid.cols
        } else {
            mid.cols.push(Seq::<Entry>::empty())
        };
        assert(stf.cols == cols0.update(
            ilast,
            upsert_s(cols0[ilast], ulast as u32, last.weight, p),
        ));
        assert(stf.cols.len() == cols0.len());
        if v >= mid.cols.len() {
            assert(idx_of(mid.items, last.item_id) < 0);
            assert(v == mid.cols.len());
            assert(ilast == mid.items.len());
            assert(mid.cols.len() == mid.items.len());
            assert(false);
        }
        lemma_fold_col_untouched(st, recs.drop_last(), p, v);
        assert(stf.cols[v] == cols0[v]);
        assert(cols0[v] == mid.cols[v]);
    }
}

/// Every coordinate of index `w`'s vector has all its co-occurring
/// indices marked.
pub open spec fn closed_for(
    rs: Seq<Seq<Entry>>,
    cs: Seq<Seq<Entry>>,
    marks: Seq<bool>,
    w: int,
) -> bool {
    forall|x: u32| (x as nat) < cs.len() && (#[trigger] find_w(rs[w], x)).is_some() ==> marked_for(
        rs,
        marks,
        x,
    )
}

/// Marks survive growth of the mark set.
pub proof fn lemma_closed_monotone(
    rs: Seq<Seq<Entry>>,
    cs: Seq<Seq<Entry>>,
    m1: Seq<bool>,
    m2: Seq<bool>,
    w: int,
)
    requires
        closed_for(rs, cs, m1, w),
        m1.len() == m2.len(),
        m1.len() == rs.len(),
        forall|j: int| 0 <= j < m1.len() ==> (#[trigger] m1[j] ==> m2[j]),
    ensures
        closed_for(rs, cs, m2, w),
{
    assert forall|x: u32| (x as nat) < cs.len() && (#[trigger] find_w(rs[w], x)).is_some()
        implies marked_for(rs, m2, x) by {
        assert(marked_for(rs, m1, x));
        assert forall|v: int| 0 <= v < rs.len() && (#[trigger] find_w(rs[v], x)).is_some()
            implies m2[v] by {
            assert(m1[v]);
        }
    }
}

/// Marks every index that co-occurs with index `w` in some coordinate,
/// leaving existing marks in place.
pub fn mark_cooccurring(
    marks: &mut Vec<bool>,
    view: &Vec<Vec<Entry>>,
    coview: &Vec<Vec<Entry>>,
    w: usize,
)
    requires
        crate::sparse::axis_pair_wf(
            crate::sparse::lists_view(view@),
            crate::sparse::lists_view(coview@),
        ),
        w < view@.len(),
        old(marks)@.len() == view@.len(),
    ensures
        final(marks)@.len() == old(marks)@.len(),
        forall|j: int| 0 <= j < old(marks)@.len() ==> (#[trigger] old(marks)@[j]
            ==> final(marks)@[j]),
        closed_for(
            crate::sparse::lists_view(view@),
            crate::sparse::lists_view(coview@),
            final(marks)@,
            w as int,
        ),
{
    let ghost rs = crate::sparse::lists_view(view@);
    let ghost cs = crate::sparse::lists_view(coview@);
    let ghost m0 = old(marks)@;
    let n = view.len();
    let mut t: usize = 0;
    while t < view[w].len()
        invariant
            w < view@.len() == n,
            rs == crate::sparse::lists_view(view@),
            cs == crate::sparse::lists_view(coview@),
            crate::sparse::axis_pair_wf(rs, cs),
            marks@.len() == n,
            m0.len() == n,
            forall|j: int| 0 <= j < n ==> (#[trigger] m0[j] ==> marks@[j]),
            0 <= t <= rs[w as int].len(),
            forall|tt: int| 0 <= tt < t ==> marked_for(rs, marks@, (#[trigger] rs[w as int][tt]).idx),
        decreases rs[w as int].len() - t,
    {
        let e = view[w][t];
        proof {
            assert(rs[w as int][t as int] == e);
            assert((e.idx as nat) < cs.len());
        }
        let col = &coview[e.idx as usize];
        let mut q: usize = 0;
        while q < col.len()
            invariant
                w < view@.len() == n,
                rs == crate::sparse::lists_view(view@),
                cs == crate::sparse::lists_view(coview@),
                crate::sparse::axis_pair_wf(rs, cs),
                marks@.len() == n,
                m0.len() == n,
                forall|j: int| 0 <= j < n ==> (#[trigger] m0[j] ==> marks@[j]),
                (e.idx as nat) < cs.len(),
                col@ == cs[e.idx as int],
                0 <= q <= col@.len(),
                0 <= t < rs[w as int].len(),
                e == rs[w as int][t as int],
                forall|tt: int| 0 <= tt < t ==> marked_for(
                    rs,
                    marks@,
                    (#[trigger] rs[w as int][tt]).idx,
                ),
                forall|qq: int| 0 <= qq < q ==> marks@[(#[trigger] col@[qq]).idx as int],
            decreases col@.len() - q,
        {
            let ce = col[q];
            proof {
                assert(cs[e.idx as int][q as int] == ce);
                assert((ce.idx as nat) < rs.len());
            }
            let ghost mprev = marks@;
            marks.set(ce.idx as usize, true);
            proof {
                assert forall|tt: int| 0 <= tt < t implies marked_for(
                    rs,
                    marks@,
                    (#[trigger] rs[w as int][tt]).idx,
                ) by {
                    assert(marked_for(rs, mprev, rs[w as int][tt].idx));
                    assert forall|v: int|
                        0 <= v < rs.len() && (#[trigger] find_w(rs[v], rs[w as int][tt].idx)).is_some()
                        implies marks@[v] by {
                        assert(mprev[v]);
                    }
                }
            }
            q = q + 1;
        }
        proof {
            assert forall|v: int|
                0 <= v < rs.len() && (#[trigger] find_w(rs[v], e.idx)).is_some()
                implies marks@[v] by {
                assert(find_w(rs[v], e.idx) == find_w(cs[e.idx as int], v as u32));
                lemma_find_w_occurs(cs[e.idx as int], v as u32);
                let qq = choose|qq: int|
                    0 <= qq < cs[e.idx as int].len() && (#[trigger] cs[e.idx as int][qq].idx)
                        == v as u32;
                assert(marks@[cs[e.idx as int][qq].idx as int]);
            }
            assert(marked_for(rs, marks@, e.idx));
        }
        t = t + 1;
    }
    proof {
        assert forall|x: u32| (x as nat) < cs.len() && (#[trigger] find_w(rs[w as int], x)).is_some()
            implies marked_for(rs, marks@, x) by {
            lemma_find_w_occurs(rs[w as int], x);
            let tt = choose|tt: int|
                0 <= tt < rs[w as int].len() && (#[trigger] rs[w as int][tt].idx) == x;
            assert(marked_for(rs, marks@, rs[w as int][tt].idx));
        }
    }
}

/// The axis index a record resolves to in the final id tables.
pub open spec fn resolved_idx(axis: Axis, stf: BuildSt, r: Interaction) -> int {
    if axis == Axis::User {
        idx_of(stf.users, r.user_id)
    } else {
        idx_of(stf.items, r.item_id)
    }
}

/// The axis views of a build state.
pub open spec fn axis_of(axis: Axis, st: BuildSt) -> Seq<Seq<Entry>> {
    if axis == Axis::User {
        st.rows
    } else {
        st.cols
    }
}

/// The neighbor list of an unmarked index is unaffected by the batch:
/// its own vector is unchanged, and it shares no coordinate with any
/// changed vector, so every pairwise similarity it takes part in is
/// the same before and after the merge.
pub proof fn lemma_untouched_list(
    axis: Axis,
    st0: BuildSt,
    recs: Seq<Interaction>,
    p: MergePolicy,
    marks: Seq<bool>,
    v: int,
    m: crate::Metric,
    k: nat,
)
    requires
        st0.rows.len() == st0.users.len(),
        st0.cols.len() == st0.items.len(),
        distinct_ids(fold_s(st0, recs, p).users),
        distinct_ids(fold_s(st0, recs, p).items),
        marks.len() == axis_of(axis, fold_s(st0, recs, p)).len(),
        0 <= v < marks.len(),
        !marks[v],
        crate::sparse::axis_pair_wf(fold_s(st0, recs, p).rows, fold_s(st0, recs, p).cols),
        forall|t: int| 0 <= t < recs.len() ==> marks[resolved_idx(
            axis,
            fold_s(st0, recs, p),
            #[trigger] recs[t],
        )],
        forall|t: int| 0 <= t < recs.len() ==> closed_for(
            axis_of(axis, fold_s(st0, recs, p)),
            axis_of(
                if axis == Axis::User {
                    Axis::Item
                } else {
                    Axis::User
                },
                fold_s(st0, recs, p),
            ),
            marks,
            resolved_idx(axis, fold_s(st0, recs, p), #[trigger] recs[t]),
        ),
    ensures
        spec_nb(axis_of(axis, fold_s(st0, recs, p)), v, m, k) == spec_nb(
            axis_of(axis, st0),
            v,
            m,
            k,
        ),
{
    let stf = fold_s(st0, recs, p);
    let rs0 = axis_of(axis, st0);
    let rs1 = axis_of(axis, stf);
    let old_n = rs0.len() as int;
    let new_n = rs1.len() as int;
    lemma_fold_locality(st0, recs, p);
    lemma_fold_new_ids(st0, recs, p);
    assert(old_n <= new_n);
    // An index that some record resolves to is marked; v is not, so no
    // record resolves to v, and v's own vector is unchanged.
    if axis == Axis::User {
        assert(row_untouched(stf.users, recs, v)) by {
            assert forall|t: int| 0 <= t < recs.len() implies idx_of(
                stf.users,
                (#[trigger] recs[t]).user_id,
            ) != v by {
                assert(marks[resolved_idx(axis, stf, recs[t])]);
            }
        }
        lemma_fold_row_untouched(st0, recs, p, v);
        assert(rs1[v] == rs0[v]);
    } else {
        assert(col_untouched(stf.items, recs, v)) by {
            assert forall|t: int| 0 <= t < recs.len() implies idx_of(
                stf.items,
                (#[trigger] recs[t]).item_id,
            ) != v by {
                assert(marks[resolved_idx(axis, stf, recs[t])]);
            }
        }
        lemma_fold_col_untouched(st0, recs, p, v);
        assert(rs1[v] == rs0[v]);
    }
    // Changed vectors share nothing with v, and unchanged vectors are
    // identical, so every similarity of v is preserved.
    assert forall|w: int|
        #![trigger rs0[w]]
        #![trigger rs1[w]]
        0 <= w < new_n implies (w < old_n ==> sim_s(m, rs0[v], rs0[w])
        == sim_s(m, rs1[v], rs1[w])) && (w >= old_n ==> sim_s(m, rs1[v], rs1[w]) == 0) by {
        let touched = exists|t: int|
            0 <= t < recs.len() && resolved_idx(axis, stf, #[trigger] recs[t]) == w;
        if touched {
            let t = choose|t: int|
                0 <= t < recs.len() && resolved_idx(axis, stf, #[trigger] recs[t]) == w;
            assert(closed_for(
                rs1,
                axis_of(
                    if axis == Axis::User {
                        Axis::Item
                    } else {
                        Axis::User
                    },
                    stf,
                ),
                marks,
                w,
            ));
            // If v shared a coordinate with w after the merge, v would
            // be marked.
            if shares(rs1, w, v) {
                let x = choose|x: u32|
                    (#[trigger] find_w(rs1[w], x)).is_some() && find_w(rs1[v], x).is_some();
                if axis == Axis::User {
                    lemma_find_w_occurs(rs1[w], x);
                    let tt = choose|tt: int|
                        0 <= tt < rs1[w].len() && (#[trigger] rs1[w][tt].idx) == x;
                    assert((x as nat) < stf.cols.len()) by {
                        assert(crate::sparse::entries_below(rs1[w], stf.cols.len()));
                    }
                } else {
                    lemma_find_w_occurs(rs1[w], x);
                    let tt = choose|tt: int|
                        0 <= tt < rs1[w].len() && (#[trigger] rs1[w][tt].idx) == x;
                    assert((x as nat) < stf.rows.len()) by {
                        assert(crate::sparse::entries_below(rs1[w], stf.rows.len()));
                    }
                }
                assert(marked_for(rs1, marks, x));
                assert(marks[v]);
                assert(false);
            }
            assert(!shares(rs1, v, w)) by {
                if shares(rs1, v, w) {
                    let x = choose|x: u32|
                        (#[trigger] find_w(rs1[v], x)).is_some() && find_w(rs1[w], x).is_some();
                    assert(shares(rs1, w, v));
                }
            }
            lemma_not_shares_disjoint(rs1, v, w);
            lemma_disjoint_sim_zero(m, rs1[v], rs1[w]);
            if w < old_n {
                // Before the merge they shared nothing either: the
                // merge only adds coordinates.
                assert(!shares(rs0, v, w)) by {
                    if shares(rs0, v, w) {
                        let x = choose|x: u32|
                            (#[trigger] find_w(rs0[v], x)).is_some() && find_w(rs0[w], x).is_some();
                        lemma_fold_support(st0, recs, p, w, x);
                        assert(find_w(rs1[w], x).is_some());
                        assert(find_w(rs1[v], x).is_some());
                        assert(shares(rs1, w, v));
                    }
                }
                lemma_not_shares_disjoint(rs0, v, w);
                lemma_disjoint_sim_zero(m, rs0[v], rs0[w]);
            }
        } else {
            // No record resolves to w, so w's vector is unchanged.
            assert(w < old_n && rs1[w] == rs0[w]) by {
                if axis == Axis::User {
                    assert(row_untouched(stf.users, recs, w)) by {
                        assert forall|t: int| 0 <= t < recs.len() implies idx_of(
                            stf.users,
                            (#[trigger] recs[t]).user_id,
                        ) != w by {}
                    }
                    lemma_fold_row_untouched(st0, recs, p, w);
                } else {
                    assert(col_untouched(stf.items, recs, w)) by {
                        assert forall|t: int| 0 <= t < recs.len() implies idx_of(
                            stf.items,
                            (#[trigger] recs[t]).item_id,
                        ) != w by {}
                    }
                    lemma_fold_col_untouched(st0, recs, p, w);
                }
            }
            if w >= old_n {
                // A brand-new index always has some record resolving
                // to it, contradicting `touched` being false.
                assert(false) by {
                    lemma_new_index_resolved(axis, st0, recs, p, w);
                }
            }
        }
        if w >= old_n {
            assert(touched) by {
                if !touched {
                    lemma_new_index_resolved(axis, st0, recs, p, w);
                }
            }
        }
    }
    lemma_nb_fold_same_sims(rs0, rs1, v, m, k, old_n);
    lemma_nb_fold_extend_zero(rs1, v, m, k, old_n, new_n);
}

/// A brand-new axis index is the resolved index of some batch record.
pub proof fn lemma_new_index_resolved(
    axis: Axis,
    st0: BuildSt,
    recs: Seq<Interaction>,
    p: MergePolicy,
    w: int,
)
    requires
        st0.rows.len() == st0.users.len(),
        st0.cols.len() == st0.items.len(),
        distinct_ids(fold_s(st0, recs, p).users),
        distinct_ids(fold_s(st0, recs, p).items),
        axis_of(axis, st0).len() <= w < axis_of(axis, fold_s(st0, recs, p)).len(),
    ensures
        exists|t: int|
            0 <= t < recs.len() && resolved_idx(axis, fold_s(st0, recs, p), #[trigger] recs[t])
                == w,
{
    let stf = fold_s(st0, recs, p);
    lemma_fold_locality(st0, recs, p);
    lemma_fold_new_ids(st0, recs, p);
    if axis == Axis::User {
        let t = choose|t: int|
            0 <= t < recs.len() && #[trigger] stf.users[w] == recs[t].user_id;
        lemma_idx_of(stf.users, recs[t].user_id);
        let f = idx_of(stf.users, recs[t].user_id);
        assert(stf.users.contains(recs[t].user_id)) by {
            assert(stf.users[w] == recs[t].user_id);
        }
        assert(f >= 0);
        assert(stf.users[f] == recs[t].user_id);
        if f != w {
            assert(stf.users[f] == stf.users[w]);
            assert(false);
        }
        assert(resolved_idx(axis, stf, recs[t]) == w);
    } else {
        let t = choose|t: int|
            0 <= t < recs.len() && #[trigger] stf.items[w] == recs[t].item_id;
        lemma_idx_of(stf.items, recs[t].item_id);
        let f = idx_of(stf.items, recs[t].item_id);
        assert(stf.items.contains(recs[t].item_id)) by {
            assert(stf.items[w] == recs[t].item_id);
        }
        assert(f >= 0);
        assert(stf.items[f] == recs[t].item_id);
        if f != w {
            assert(stf.items[f] == stf.items[w]);
            assert(false);
        }
        assert(resolved_idx(axis, stf, recs[t]) == w);
    }
}

impl Model {
    /// Applies a batch of new interactions in place: the matrix is
    /// merged under the configured policy, new ids get fresh indices,
    /// and only the neighbor lists of indices the batch can have
    /// affected are recomputed. The resulting table equals a full
    /// recomputation on the merged matrix. A batch with a zero weight,
    /// or one that would overflow the index space, is rejected whole,
    /// leaving the model as it was.
    #[verifier::rlimit(100)]
    pub fn apply(&mut self, batch: &Vec<Interaction>) -> (r: Result<(), RecError>)
        requires
            old(self).wf(),
            old(self).synced(),
        ensures
            ({
                let st0 = BuildSt {
                    users: old(self).user_ids@,
                    items: old(self).item_ids@,
                    rows: old(self).matrix.rows_view(),
                    cols: old(self).matrix.cols_view(),
                };
                let stf = fold_s(st0, batch@, old(self).policy);
                &&& final(self).axis == old(self).axis
                &&& final(self).metric == old(self).metric
                &&& final(self).k == old(self).k
                &&& final(self).policy == old(self).policy
                &&& match r {
                    Ok(u) => {
                        &&& batch_ok(batch@)
                        &&& cap_ok(st0, batch@, old(self).policy)
                        &&& final(self).wf()
                        &&& final(self).synced()
                        &&& final(self).user_ids@ == stf.users
                        &&& final(self).item_ids@ == stf.items
                        &&& final(self).matrix.rows_view() == stf.rows
                        &&& final(self).matrix.cols_view() == stf.cols
                    },
                    Err(e) => {
                        &&& e == RecError::InvalidConfiguration
                        &&& !(batch_ok(batch@) && cap_ok(st0, batch@, old(self).policy))
                        &&& final(self).user_ids@ == old(self).user_ids@
                        &&& final(self).item_ids@ == old(self).item_ids@
                        &&& final(self).matrix.rows_view() == old(self).matrix.rows_view()
                        &&& final(self).matrix.cols_view() == old(self).matrix.cols_view()
                        &&& table_view(final(self).table@) == table_view(old(self).table@)
                    },
                }
            }),
    {
        let mut t: usize = 0;
        while t < batch.len()
            invariant
                t <= batch@.len(),
                forall|j: int| 0 <= j < t ==> (#[trigger] batch@[j].weight) >= 1,
            decreases batch.len() - t,
        {
            if batch[t].weight == 0 {
                return Err(RecError::InvalidConfiguration);
            }
            t = t + 1;
        }
        let policy = self.policy;
        let ghost st0 = BuildSt {
            users: self.user_ids@,
            items: self.item_ids@,
            rows: self.matrix.rows_view(),
            cols: self.matrix.cols_view(),
        };
        let ok = apply_records(
            &mut self.user_ids,
            &mut self.item_ids,
            &mut self.matrix,
            batch,
            policy,
        );
        if !ok {
            return Err(RecError::InvalidConfiguration);
        }
        let ghost stf = fold_s(st0, batch@, policy);
        let ghost old_table = table_view(old(self).table@);
        let is_user = match self.axis {
            Axis::User => true,
            Axis::Item => false,
        };
        let ghost rs1 = axis_of(self.axis, stf);
        let ghost rs0 = axis_of(self.axis, st0);
        let ghost old_n = rs0.len() as int;
        let n: usize = if is_user {
            self.matrix.n_rows()
        } else {
            self.matrix.n_cols()
        };
        proof {
            lemma_fold_locality(st0, batch@, policy);
            assert(old(self).axis_len() == old_n);
            assert(old(self).table@.len() == old_n);
            assert(old_n <= n as int);
        }
        while self.table.len() < n
            invariant
                st0.rows.len() == st0.users.len(),
                st0.cols.len() == st0.items.len(),
                is_user == (self.axis == Axis::User),
                old_table == table_view(old(self).table@),
                old_table.len() == old_n,
                0 <= old_n <= n as int,
                old_n <= self.table@.len() <= n,
                forall|j: int| 0 <= j < old_n ==> (#[trigger] self.table@[j])@ == old_table[j],
                forall|j: int| old_n <= j < self.table@.len() ==> (#[trigger] self.table@[j])@
                    == Seq::<crate::engine::Scored>::empty(),
                self.axis == old(self).axis,
                self.metric == old(self).metric,
                self.k == old(self).k,
                self.policy == old(self).policy,
                self.user_ids@ == stf.users,
                self.item_ids@ == stf.items,
                self.matrix.rows_view() == stf.rows,
                self.matrix.cols_view() == stf.cols,
                self.matrix.wf(),
                crate::model::st_wf(stf),
                old_n == axis_of(self.axis, st0).len(),
                n as int == axis_of(self.axis, stf).len(),
            decreases n - self.table.len(),
        {
            self.table.push(Vec::new());
        }
        let mut marks: Vec<bool> = Vec::new();
        let mut j: usize = 0;
        while j < n
            invariant
                marks@.len() == j <= n,
            decreases n - j,
        {
            marks.push(false);
            j = j + 1;
        }
        proof {
            lemma_fold_locality(st0, batch@, policy);
            assert forall|tt: int| 0 <= tt < batch@.len() implies 0 <= resolved_idx(
                self.axis,
                stf,
                #[trigger] batch@[tt],
            ) < n as int by {
                lemma_idx_of(stf.users, batch@[tt].user_id);
                lemma_idx_of(stf.items, batch@[tt].item_id);
            }
        }
        let mut t: usize = 0;
        while t < batch.len()
            invariant
                st0.rows.len() == st0.users.len(),
                st0.cols.len() == st0.items.len(),
                is_user == (self.axis == Axis::User),
                old_table == table_view(old(self).table@),
                old_table.len() == old_n,
                0 <= old_n <= n as int,
                t <= batch@.len(),
                batch_ok(batch@),
                marks@.len() == n,
                forall|tt: int| 0 <= tt < batch@.len() ==> 0 <= resolved_idx(
                    self.axis,
                    stf,
                    #[trigger] batch@[tt],
                ) < n as int,
                self.axis == old(self).axis,
                self.metric == old(self).metric,
                self.k == old(self).k,
                self.policy == old(self).policy,
                self.user_ids@ == stf.users,
                self.item_ids@ == stf.items,
                self.matrix.rows_view() == stf.rows,
                self.matrix.cols_view() == stf.cols,
                self.matrix.wf(),
                crate::model::st_wf(stf),
                stf == fold_s(st0, batch@, policy),
                old_n == axis_of(self.axis, st0).len(),
                n as int == axis_of(self.axis, stf).len(),
                self.table@.len() == n,
                forall|j: int| 0 <= j < old_n ==> (#[trigger] self.table@[j])@ == old_table[j],
                forall|j: int| old_n <= j < n ==> (#[trigger] self.table@[j])@
                    == Seq::<crate::engine::Scored>::empty(),
                forall|tt: int| 0 <= tt < t ==> marks@[resolved_idx(
                    self.axis,
                    stf,
                    #[trigger] batch@[tt],
                )],
                forall|tt: int| 0 <= tt < t ==> closed_for(
                    axis_of(self.axis, stf),
                    axis_of(
                        if self.axis == Axis::User {
                            Axis::Item
                        } else {
                            Axis::User
                        },
                        stf,
                    ),
                    marks@,
                    resolved_idx(self.axis, stf, #[trigger] batch@[tt]),
                ),
            decreases batch.len() - t,
        {
            let rec = batch[t];
            proof {
                crate::model::lemma_idx_of(self.user_ids@, rec.user_id);
                crate::model::lemma_idx_of(self.item_ids@, rec.item_id);
            }
            let widx: usize = if is_user {
                match find_id(&self.user_ids, rec.user_id) {
                    Some(x) => x,
                    None => {
                        proof {
                            lemma_fold_locality(st0, batch@, policy);
                            assert(false);
                        }
                        return Err(RecError::InvalidConfiguration);
                    },
                }
            } else {
                match find_id(&self.item_ids, rec.item_id) {
                    Some(x) => x,
                    None => {
                        proof {
                            lemma_fold_locality(st0, batch@, policy);
                            assert(false);
                        }
                        return Err(RecError::InvalidConfiguration);
                    },
                }
            };
            proof {
                assert(widx as int == resolved_idx(self.axis, stf, batch@[t as int]));
                assert((widx as int) < n as int);
            }
            let ghost m_before = marks@;
            marks.set(widx, true);
            if is_user {
                mark_cooccurring(&mut marks, &self.matrix.rows, &self.matrix.cols, widx);
            } else {
                proof {
                    assert(crate::sparse::axis_pair_wf(
                        crate::sparse::lists_view(self.matrix.cols@),
                        crate::sparse::lists_view(self.matrix.rows@),
                    ));
                }
                mark_cooccurring(&mut marks, &self.matrix.cols, &self.matrix.rows, widx);
            }
            proof {
                let rsx = axis_of(self.axis, stf);
                let csx = axis_of(
                    if self.axis == Axis::User {
                        Axis::Item
                    } else {
                        Axis::User
                    },
                    stf,
                );
                let m_mid = m_before.update(widx as int, true);
                assert(marks@.len() == n);
                assert forall|j: int| 0 <= j < n as int implies (#[trigger] m_before[j]
                    ==> marks@[j]) by {
                    if m_before[j] {
                        assert(m_mid[j]);
                    }
                }
                assert(marks@[widx as int]) by {
                    assert(m_mid[widx as int]);
                }
                assert forall|tt: int| 0 <= tt < t + 1 implies marks@[resolved_idx(
                    self.axis,
                    stf,
                    #[trigger] batch@[tt],
                )] by {
                    if tt < t {
                        assert(m_before[resolved_idx(self.axis, stf, batch@[tt])]);
                    } else {
                        assert(resolved_idx(self.axis, stf, batch@[tt]) == widx as int);
                    }
                }
                assert forall|tt: int| 0 <= tt < t + 1 implies closed_for(
                    axis_of(self.axis, stf),
                    axis_of(
                        if self.axis == Axis::User {
                            Axis::Item
                        } else {
                            Axis::User
                        },
                        stf,
                    ),
                    marks@,
                    resolved_idx(self.axis, stf, #[trigger] batch@[tt]),
                ) by {
                    if tt < t {
                        lemma_closed_monotone(
                            rsx,
                            csx,
                            m_before,
                            marks@,
                            resolved_idx(self.axis, stf, batch@[tt]),
                        );
                    } else {
                        if is_user {
                            assert(crate::sparse::lists_view(self.matrix.rows@) == rsx);
                            assert(crate::sparse::lists_view(self.matrix.cols@) == csx);
                        } else {
                            assert(crate::sparse::lists_view(self.matrix.cols@) == rsx);
                            assert(crate::sparse::lists_view(self.matrix.rows@) == csx);
                        }
                        assert(closed_for(rsx, csx, marks@, widx as int));
                    }
                }
            }
            t = t + 1;
        }
        // Recompute the affected lists.
        let metric = self.metric;
        let k = self.k;
        let mut v: usize = 0;
        while v < n
            invariant
                st0.rows.len() == st0.users.len(),
                st0.cols.len() == st0.items.len(),
                is_user == (self.axis == Axis::User),
                old_table == table_view(old(self).table@),
                old_table.len() == old_n,
                0 <= old_n <= n as int,
                0 <= v <= n,
                marks@.len() == n,
                self.axis == old(self).axis,
                self.metric == old(self).metric,
                self.metric == metric,
                self.k == old(self).k == k,
                self.policy == old(self).policy,
                self.user_ids@ == stf.users,
                self.item_ids@ == stf.items,
                self.matrix.rows_view() == stf.rows,
                self.matrix.cols_view() == stf.cols,
                self.matrix.wf(),
                crate::model::st_wf(stf),
                stf == fold_s(st0, batch@, policy),
                old_n == axis_of(self.axis, st0).len(),
                n as int == axis_of(self.axis, stf).len(),
                self.table@.len() == n,
                forall|j: int| 0 <= j < v && marks@[j] ==> (#[trigger] self.table@[j])@ == spec_nb(
                    axis_of(self.axis, stf),
                    j,
                    metric,
                    k as nat,
                ),
                forall|j: int| 0 <= j < old_n && !(0 <= j < v && marks@[j]) ==> (
                #[trigger] self.table@[j])@ == old_table[j],
                forall|j: int| old_n <= j < n && !(0 <= j < v && marks@[j]) ==> (
                #[trigger] self.table@[j])@ == Seq::<crate::engine::Scored>::empty(),
            decreases n - v,
        {
            if marks[v] {
                let nb = if is_user {
                    nb_list(&self.matrix.rows, &self.matrix.cols, v, metric, k)
                } else {
                    proof {
                        assert(crate::sparse::axis_pair_wf(
                            crate::sparse::lists_view(self.matrix.cols@),
                            crate::sparse::lists_view(self.matrix.rows@),
                        ));
                    }
                    nb_list(&self.matrix.cols, &self.matrix.rows, v, metric, k)
                };
                self.table.set(v, nb);
            }
            v = v + 1;
        }
        proof {
            let rsx = axis_of(self.axis, stf);
            let csx = axis_of(
                if self.axis == Axis::User {
                    Axis::Item
                } else {
                    Axis::User
                },
                stf,
            );
            assert forall|j: int| 0 <= j < n implies (#[trigger] self.table@[j])@ == spec_nb(
                rsx,
                j,
                metric,
                k as nat,
            ) by {
                if !marks@[j] {
                    if j >= old_n {
                        lemma_new_index_resolved(self.axis, st0, batch@, policy, j);
                        let tw = choose|tw: int|
                            0 <= tw < batch@.len() && resolved_idx(
                                self.axis,
                                stf,
                                #[trigger] batch@[tw],
                            ) == j;
                        assert(marks@[j]);
                        assert(false);
                    }
                    lemma_untouched_list(
                        self.axis,
                        st0,
                        batch@,
                        policy,
                        marks@,
                        j,
                        metric,
                        k as nat,
                    );
                    assert(old_table[j] == spec_nb(axis_of(self.axis, st0), j, metric, k as nat));
                }
            }
            assert(table_view(self.table@) =~= spec_table(rsx, metric, k as nat));
            crate::model::lemma_spec_table_wf(rsx, metric, k as nat);
        }
        Ok(())
    }
}

} // verus!
