//! The engine's global guarantees, each proved from the contracts of
//! the components it speaks about.

use vstd::prelude::*;
use crate::engine::Scored;
use crate::engine::ranked;
use crate::engine::spec_table;
use crate::engine::table_view;
use crate::model::Model;
use crate::model::idxs_of;
use crate::sparse::find_w;
use crate::sparse::lemma_find_w_occurs;

verus! {

/// Fitting is deterministic and therefore idempotent: two models with
/// the same configuration whose matrices came out identical — as the
/// contract of `fit` guarantees for identical interaction sets — carry
/// bit-identical neighbor tables and views.
pub proof fn lemma_fit_idempotent(m1: Model, m2: Model)
    requires
        m1.synced(),
        m2.synced(),
        m1.axis == m2.axis,
        m1.metric == m2.metric,
        m1.k == m2.k,
        m1.policy == m2.policy,
        m1.user_ids@ == m2.user_ids@,
        m1.item_ids@ == m2.item_ids@,
        m1.matrix.rows_view() == m2.matrix.rows_view(),
        m1.matrix.cols_view() == m2.matrix.cols_view(),
    ensures
        m1.model_view() == m2.model_view(),
        table_view(m1.table@) == table_view(m2.table@),
{
    assert(m1.axis_seqs() == m2.axis_seqs());
}

/// Incremental equivalence: a model updated in place by `apply` and a
/// model fully refitted on the merged interaction set — which, by the
/// contracts of `apply` and `fit`, share the same matrix — carry the
/// same neighbor table at every index, touched or not.
pub proof fn lemma_incremental_equivalence(applied: Model, refit: Model)
    requires
        applied.synced(),
        refit.synced(),
        applied.axis == refit.axis,
        applied.metric == refit.metric,
        applied.k == refit.k,
        applied.matrix.rows_view() == refit.matrix.rows_view(),
        applied.matrix.cols_view() == refit.matrix.cols_view(),
    ensures
        table_view(applied.table@) == table_view(refit.table@),
        forall|u: int| 0 <= u < table_view(applied.table@).len() ==> #[trigger] table_view(
            applied.table@,
        )[u] == table_view(refit.table@)[u],
{
    assert(applied.axis_seqs() == refit.axis_seqs());
}

/// Determinism under parallel computation: the neighbor table is a
/// function of the matrix, the metric and the cap alone, so any two
/// runs of the engine — whatever worker count partitioned the index
/// space — produce identical tables, as `compute_all` ensures for
/// every worker count.
pub proof fn lemma_parallel_deterministic(
    t1: Seq<Seq<Scored>>,
    t2: Seq<Seq<Scored>>,
    rs: Seq<Seq<crate::sparse::Entry>>,
    m: crate::Metric,
    k: nat,
)
    requires
        t1 == spec_table(rs, m, k),
        t2 == spec_table(rs, m, k),
    ensures
        t1 == t2,
{
}

/// Neighbor cap: every neighbor list of a well-formed model has at
/// most `k` entries and is strictly ordered by descending score with
/// the low-index tie-break.
pub proof fn lemma_neighbor_cap(m: Model, u: int)
    requires
        m.wf(),
        0 <= u < table_view(m.table@).len(),
    ensures
        table_view(m.table@)[u].len() <= m.k,
        ranked(table_view(m.table@)[u]),
{
}

/// Filter correctness: with consumed-item filtering on, no recommended
/// item index appears among the user's consumed item indices — the set
/// `build_consumed` derives from the same matrix row.
pub proof fn lemma_filter_correctness(m: Model, u: int, nrec: nat)
    requires
        m.wf(),
        0 <= u < m.matrix.rows_view().len(),
    ensures
        forall|t: int| 0 <= t < m.recommend_s(u, nrec, true).len() ==> !idxs_of(
            m.matrix.rows_view()[u],
        ).contains((#[trigger] m.recommend_s(u, nrec, true)[t]).idx),
{
    crate::model::lemma_recommend_elems(m, u, nrec, true);
    let f = m.recommend_s(u, nrec, true);
    let row = m.matrix.rows_view()[u];
    assert forall|t: int| 0 <= t < f.len() implies !idxs_of(row).contains(
        (#[trigger] f[t]).idx,
    ) by {
        assert(find_w(row, f[t].idx).is_none());
        if idxs_of(row).contains(f[t].idx) {
            let j = choose|j: int| 0 <= j < idxs_of(row).len() && idxs_of(row)[j] == f[t].idx;
            assert(row[j].idx == f[t].idx);
            lemma_find_w_occurs(row, f[t].idx);
            assert(false);
        }
    }
}

/// Serialization round trip: a well-formed model that `load` accepts
/// from the bytes `save` produced for `saved` is `saved` itself —
/// identical id mappings, matrix rows and neighbor table. The
/// premises are exactly what `save` ensures of its output and `load`
/// ensures of an accepted payload: the byte image determines the
/// model.
pub proof fn lemma_round_trip(saved: Model, loaded: Model, bytes: Seq<u8>)
    requires
        saved.wf(),
        loaded.wf(),
        bytes == crate::serial::bytes_of(crate::serial::enc_model(saved.model_view())),
        bytes == crate::serial::bytes_of(crate::serial::enc_model(loaded.model_view())),
    ensures
        loaded.model_view() == saved.model_view(),
{
    crate::serial::lemma_wf_bounded(saved);
    crate::serial::lemma_wf_bounded(loaded);
    crate::serial::lemma_bytes_of_inj(
        crate::serial::enc_model(saved.model_view()),
        crate::serial::enc_model(loaded.model_view()),
    );
    crate::serial::lemma_enc_model_inj(saved.model_view(), loaded.model_view());
}

} // verus!
