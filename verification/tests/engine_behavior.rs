use recfarm::engine::isqrt;
use recfarm::engine::similarity;
use recfarm::model::Interaction;
use recfarm::model::Model;
use recfarm::model::build_consumed;
use recfarm::serial::load;
use recfarm::serial::save;
use recfarm::Axis;
use recfarm::MergePolicy;
use recfarm::Metric;
use recfarm::RecError;
use recfarm::SCALE;
use recfarm::axis_from_code;
use recfarm::engine_version;
use recfarm::metric_from_code;
use recfarm::policy_from_code;

fn rec(user_id: u64, item_id: u64, weight: u16) -> Interaction {
    Interaction { user_id, item_id, weight, timestamp: None }
}

/// Users A=1 {x,y}, B=2 {x,y,z}, C=3 {y,z} over items x=10, y=11, z=12.
fn example_batch() -> Vec<Interaction> {
    vec![
        rec(1, 10, 1),
        rec(1, 11, 1),
        rec(2, 10, 1),
        rec(2, 11, 1),
        rec(2, 12, 1),
        rec(3, 11, 1),
        rec(3, 12, 1),
    ]
}

fn fit_example(axis: Axis, metric: Metric, k: usize, workers: usize) -> Model {
    Model::fit(&example_batch(), axis, metric, k, MergePolicy::Sum, workers).unwrap()
}

#[test]
fn isqrt_exact_values() {
    assert_eq!(isqrt(0), 0);
    assert_eq!(isqrt(1), 1);
    assert_eq!(isqrt(6), 2);
    assert_eq!(isqrt(48), 6);
    assert_eq!(isqrt(49), 7);
    assert_eq!(isqrt(u128::MAX), u64::MAX);
}

#[test]
fn cosine_similarity_fixed_point() {
    // A = {x, y}, B = {x, y, z}, binary weights: dot 2, norms sqrt(2)
    // and sqrt(3), so 2/sqrt(6) = 0.8164965... lands at 816497 with
    // the floored scaled norms.
    let a = vec![
        recfarm::sparse::Entry { idx: 0, weight: 1 },
        recfarm::sparse::Entry { idx: 1, weight: 1 },
    ];
    let b = vec![
        recfarm::sparse::Entry { idx: 0, weight: 1 },
        recfarm::sparse::Entry { idx: 1, weight: 1 },
        recfarm::sparse::Entry { idx: 2, weight: 1 },
    ];
    assert_eq!(similarity(Metric::Cosine, &a, &b), 816_497);
    // A = {x, y}, C = {y, z}: dot 1 over sqrt(2)*sqrt(2) is exactly 0.5.
    let c = vec![
        recfarm::sparse::Entry { idx: 1, weight: 1 },
        recfarm::sparse::Entry { idx: 2, weight: 1 },
    ];
    assert_eq!(similarity(Metric::Cosine, &a, &c), 500_000);
    // Identical vectors have cosine exactly 1.0.
    assert_eq!(similarity(Metric::Cosine, &a, &a), SCALE);
    // Jaccard: intersection 2, union 3.
    assert_eq!(similarity(Metric::Jaccard, &a, &b), 666_666);
    assert_eq!(similarity(Metric::Jaccard, &a, &c), 333_333);
}

#[test]
fn example_neighbors_and_recommendation() {
    // The worked example: cosine, K = 2; A's best neighbor is B, and
    // the only unconsumed reachable item for A is z.
    let m = fit_example(Axis::User, Metric::Cosine, 2, 1);
    let nb_a = &m.table[0];
    assert_eq!(nb_a.len(), 2);
    assert_eq!(nb_a[0].idx, 1); // B
    assert_eq!(nb_a[0].score, 816_497);
    assert_eq!(nb_a[1].idx, 2); // C
    assert_eq!(nb_a[1].score, 500_000);
    let recs = m.recommend(1, 1, true).unwrap();
    assert_eq!(recs, vec![(12u64, 1_316_497u128)]);
}

#[test]
fn predict_matches_aggregation() {
    let m = fit_example(Axis::User, Metric::Cosine, 2, 1);
    assert_eq!(m.predict(1, 12).unwrap(), 1_316_497);
    // Score of x for C: sim(C,B) * w plus sim(C,A) * w.
    assert_eq!(m.predict(3, 10).unwrap(), 1_316_497);
}

#[test]
fn item_axis_recommendation() {
    let m = fit_example(Axis::Item, Metric::Cosine, 2, 1);
    let recs = m.recommend(1, 1, true).unwrap();
    assert_eq!(recs, vec![(12u64, 1_316_497u128)]);
    assert_eq!(m.predict(1, 12).unwrap(), 1_316_497);
}

#[test]
fn fit_is_idempotent() {
    let m1 = fit_example(Axis::User, Metric::Cosine, 2, 1);
    let m2 = fit_example(Axis::User, Metric::Cosine, 2, 1);
    assert_eq!(m1.table, m2.table);
    assert_eq!(m1.user_ids, m2.user_ids);
    assert_eq!(m1.item_ids, m2.item_ids);
    assert_eq!(save(&m1), save(&m2));
}

#[test]
fn parallel_workers_are_deterministic() {
    let m1 = fit_example(Axis::User, Metric::Cosine, 2, 1);
    let m3 = fit_example(Axis::User, Metric::Cosine, 2, 3);
    let m7 = fit_example(Axis::User, Metric::Cosine, 2, 7);
    assert_eq!(m1.table, m3.table);
    assert_eq!(m1.table, m7.table);
}

#[test]
fn neighbor_lists_capped_and_ranked() {
    let m = fit_example(Axis::User, Metric::Cosine, 1, 1);
    for lst in &m.table {
        assert!(lst.len() <= 1);
    }
    let m2 = fit_example(Axis::User, Metric::Cosine, 2, 1);
    for lst in &m2.table {
        assert!(lst.len() <= 2);
        for w in lst.windows(2) {
            assert!(
                w[0].score > w[1].score || (w[0].score == w[1].score && w[0].idx < w[1].idx)
            );
        }
    }
}

#[test]
fn filter_excludes_consumed_items() {
    let m = fit_example(Axis::User, Metric::Cosine, 2, 1);
    let consumed = build_consumed(&m.matrix);
    for (u, items) in &consumed {
        let uid = m.user_ids[*u as usize];
        let recs = m.recommend(uid, 10, true).unwrap();
        for (item_id, _) in &recs {
            let idx = m.item_ids.iter().position(|x| x == item_id).unwrap() as u32;
            assert!(!items.contains(&idx));
        }
    }
}

#[test]
fn build_consumed_lists_interacted_items() {
    let m = fit_example(Axis::User, Metric::Cosine, 2, 1);
    let consumed = build_consumed(&m.matrix);
    assert_eq!(consumed.len(), 3);
    assert_eq!(consumed[0], (0, vec![0, 1]));
    assert_eq!(consumed[1], (1, vec![0, 1, 2]));
    assert_eq!(consumed[2], (2, vec![1, 2]));
}

#[test]
fn round_trip_restores_the_model() {
    let m = fit_example(Axis::User, Metric::Cosine, 2, 1);
    let bytes = save(&m);
    let m2 = load(&bytes).unwrap();
    assert_eq!(m2.user_ids, m.user_ids);
    assert_eq!(m2.item_ids, m.item_ids);
    assert_eq!(m2.matrix.rows, m.matrix.rows);
    assert_eq!(m2.matrix.cols, m.matrix.cols);
    assert_eq!(m2.table, m.table);
    assert_eq!(m2.k, m.k);
    assert_eq!(m2.axis, m.axis);
    assert_eq!(m2.metric, m.metric);
    assert_eq!(m2.policy, m.policy);
    assert_eq!(save(&m2), bytes);
}

#[test]
fn load_rejects_bad_payloads() {
    assert!(matches!(load(&vec![1, 2, 3]), Err(RecError::FormatError)));
    // Right length, wrong tag.
    assert!(matches!(load(&vec![0u8; 96]), Err(RecError::FormatError)));
    // A valid payload truncated mid-structure.
    let m = fit_example(Axis::User, Metric::Cosine, 2, 1);
    let mut bytes = save(&m);
    bytes.truncate(bytes.len() - 8);
    assert!(matches!(load(&bytes), Err(RecError::FormatError)));
}

#[test]
fn incremental_apply_matches_full_refit() {
    let mut m = fit_example(Axis::User, Metric::Cosine, 2, 1);
    // New user 4 consumes y and z; existing user A also consumes z.
    let batch2 = vec![rec(4, 11, 1), rec(4, 12, 1), rec(1, 12, 1)];
    m.apply(&batch2).unwrap();
    let mut all = example_batch();
    all.extend(batch2);
    let full = Model::fit(&all, Axis::User, Metric::Cosine, 2, MergePolicy::Sum, 1).unwrap();
    assert_eq!(m.table, full.table);
    assert_eq!(m.matrix.rows, full.matrix.rows);
    assert_eq!(m.user_ids, full.user_ids);
    assert_eq!(m.item_ids, full.item_ids);
}

#[test]
fn incremental_apply_item_axis() {
    let mut m = fit_example(Axis::Item, Metric::Jaccard, 2, 1);
    let batch2 = vec![rec(4, 13, 2), rec(2, 13, 1)];
    m.apply(&batch2).unwrap();
    let mut all = example_batch();
    all.extend(batch2);
    let full = Model::fit(&all, Axis::Item, Metric::Jaccard, 2, MergePolicy::Sum, 1).unwrap();
    assert_eq!(m.table, full.table);
}

#[test]
fn merge_policies_combine_weights() {
    let batch = vec![rec(1, 10, 2), rec(1, 10, 3)];
    let m = Model::fit(&batch, Axis::User, Metric::Cosine, 2, MergePolicy::Overwrite, 1).unwrap();
    assert_eq!(m.matrix.rows[0][0].weight, 3);
    let m = Model::fit(&batch, Axis::User, Metric::Cosine, 2, MergePolicy::Sum, 1).unwrap();
    assert_eq!(m.matrix.rows[0][0].weight, 5);
    let m = Model::fit(&batch, Axis::User, Metric::Cosine, 2, MergePolicy::Max, 1).unwrap();
    assert_eq!(m.matrix.rows[0][0].weight, 3);
}

#[test]
fn invalid_configuration_is_rejected() {
    let batch = example_batch();
    assert!(matches!(
        Model::fit(&batch, Axis::User, Metric::Cosine, 0, MergePolicy::Sum, 1),
        Err(RecError::InvalidConfiguration)
    ));
    assert!(matches!(
        Model::fit(&batch, Axis::User, Metric::Cosine, 2, MergePolicy::Sum, 0),
        Err(RecError::InvalidConfiguration)
    ));
    let bad = vec![rec(1, 10, 0)];
    assert!(matches!(
        Model::fit(&bad, Axis::User, Metric::Cosine, 2, MergePolicy::Sum, 1),
        Err(RecError::InvalidConfiguration)
    ));
    assert_eq!(metric_from_code(9), Err(RecError::InvalidConfiguration));
    assert_eq!(policy_from_code(9), Err(RecError::InvalidConfiguration));
    assert_eq!(axis_from_code(9), Err(RecError::InvalidConfiguration));
}

#[test]
fn zero_weight_batch_leaves_model_unchanged() {
    let mut m = fit_example(Axis::User, Metric::Cosine, 2, 1);
    let before = save(&m);
    let bad = vec![rec(9, 9, 1), rec(1, 10, 0)];
    assert_eq!(m.apply(&bad), Err(RecError::InvalidConfiguration));
    assert_eq!(save(&m), before);
}

#[test]
fn cold_start_and_unknown_entities() {
    let m = fit_example(Axis::User, Metric::Cosine, 2, 1);
    // An id never seen is an error, distinct from an empty result.
    assert_eq!(m.recommend(99, 3, true), Err(RecError::UnknownEntity));
    assert_eq!(m.predict(99, 10), Err(RecError::UnknownEntity));
    assert_eq!(m.predict(1, 99), Err(RecError::UnknownEntity));
    // A known user whose row is empty gets an empty list, not an error.
    let cold = Model {
        axis: Axis::User,
        metric: Metric::Cosine,
        k: 2,
        policy: MergePolicy::Sum,
        user_ids: vec![7],
        item_ids: vec![],
        matrix: recfarm::sparse::SparseMatrix { rows: vec![vec![]], cols: vec![] },
        table: vec![vec![]],
    };
    assert_eq!(cold.recommend(7, 5, true), Ok(vec![]));
    assert_eq!(cold.recommend_idx(0, 5, true), Ok(vec![]));
}

#[test]
fn loaded_model_accepts_incremental_updates() {
    // The restore path validates the table against a recomputation,
    // so a loaded model is ready for apply; the result matches a
    // full refit on the merged data.
    let m = fit_example(Axis::User, Metric::Cosine, 2, 1);
    let mut m2 = load(&save(&m)).unwrap();
    let batch2 = vec![rec(4, 11, 1), rec(1, 12, 1)];
    m2.apply(&batch2).unwrap();
    let mut all = example_batch();
    all.extend(batch2);
    let full = Model::fit(&all, Axis::User, Metric::Cosine, 2, MergePolicy::Sum, 1).unwrap();
    assert_eq!(m2.table, full.table);
    assert_eq!(m2.matrix.rows, full.matrix.rows);
}

#[test]
fn load_rejects_a_tampered_table() {
    // Structurally fine, but the stored score no longer matches what
    // the engine computes from the matrix.
    let mut m = fit_example(Axis::User, Metric::Cosine, 2, 1);
    m.table[0][0].score -= 1;
    let bytes = save(&m);
    assert!(matches!(load(&bytes), Err(RecError::FormatError)));
}

#[test]
fn matrix_access_and_degrees() {
    let m = fit_example(Axis::User, Metric::Cosine, 2, 1);
    assert_eq!(m.matrix.n_rows(), 3);
    assert_eq!(m.matrix.n_cols(), 3);
    // Row of B, sorted by item index; column of y, sorted by user index.
    let row_b: Vec<u32> = m.matrix.row(1).iter().map(|e| e.idx).collect();
    assert_eq!(row_b, vec![0, 1, 2]);
    let col_y: Vec<u32> = m.matrix.column(1).iter().map(|e| e.idx).collect();
    assert_eq!(col_y, vec![0, 1, 2]);
    assert_eq!(m.matrix.degree(0, true), 2);
    assert_eq!(m.matrix.degree(2, false), 2);
}

#[test]
fn recommend_respects_requested_count() {
    let m = fit_example(Axis::User, Metric::Cosine, 2, 1);
    assert_eq!(m.recommend(1, 0, true).unwrap(), vec![]);
    // Without filtering, consumed items come back, ranked by score.
    let unfiltered = m.recommend(1, 10, false).unwrap();
    assert!(unfiltered.len() >= 3);
    for w in unfiltered.windows(2) {
        assert!(w[0].1 >= w[1].1);
    }
}

#[test]
fn version_string_is_exposed() {
    assert_eq!(engine_version(), "1.0.0");
}
