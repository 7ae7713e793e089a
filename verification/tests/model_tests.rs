use stac::model::ConnectEnum;
use stac::model::LabelBoolPoint;
use stac::model::LabelEnum;
use stac::model::Trained;
use stac::model::STAC;
use stac::partition::TaskState;

fn bits(s: &str) -> Vec<bool> {
    s.chars().map(|c| c == '1').collect()
}

fn pt(s: &str, label: Option<LabelEnum>) -> LabelBoolPoint {
    LabelBoolPoint { point: bits(s), label }
}

#[test]
fn new_starts_ready_with_discrete_partition() {
    let m = STAC::new(vec![pt("0000", None), pt("0001", None)]);
    assert_eq!(m.result.job, TaskState::Ready);
    assert_eq!(m.result.ids, vec![0, 1]);
    assert!(m.attempted_failed.is_empty());
}

#[test]
fn nearest_pairs_merge_in_index_order() {
    // Four unlabeled points; nearest pair by Hamming distance is
    // (0000, 0001) at distance 1, then (1110, 1111) at distance 1.
    let mut m = STAC::new(vec![
        pt("0000", None),
        pt("0001", None),
        pt("1110", None),
        pt("1111", None),
    ]);
    m.result.job = TaskState::Pending;
    m.training_iteration(1);
    assert_eq!(m.result.ids, vec![0, 0, 2, 3]);
    assert_eq!(m.result.job, TaskState::Pending);
    m.training_iteration(1);
    assert_eq!(m.result.ids, vec![0, 0, 2, 2]);
    assert_eq!(m.result.job, TaskState::Pending);
    // No veto ever fires on unlabeled points, so under the documented
    // termination rule the loop keeps merging at increasing distance.
    m.training_iteration(1);
    assert_eq!(m.result.ids, vec![0, 0, 0, 0]);
    m.training_iteration(1);
    assert_eq!(m.result.job, TaskState::Done);
    assert!(m.attempted_failed.is_empty());
}

#[test]
fn unlabeled_points_train_to_completion() {
    let mut m = STAC::new(vec![
        pt("0000", None),
        pt("0001", None),
        pt("1110", None),
        pt("1111", None),
    ]);
    let r = m.train(1);
    assert_eq!(r, Some(Trained));
    assert_eq!(m.result.job, TaskState::Done);
    assert_eq!(
        m.same_cluster(bits("0000"), bits("0001")),
        Some(ConnectEnum::Linked)
    );
    assert_eq!(
        m.same_cluster(bits("1110"), bits("1111")),
        Some(ConnectEnum::Linked)
    );
    assert!(m.attempted_failed.is_empty());
}

#[test]
fn conflicting_pair_with_no_budget_stays_separate() {
    // The closest (and only) pair is vetoed by the label conflict; with
    // eta = 0 the budget is immediately exhausted, training ends in Done
    // with no merge and no retry record.
    let mut m = STAC::new(vec![
        pt("0000", Some(LabelEnum::Accept)),
        pt("0001", Some(LabelEnum::Malware)),
    ]);
    let r = m.train(0);
    assert_eq!(r, Some(Trained));
    assert_eq!(m.result.job, TaskState::Done);
    assert_eq!(m.result.ids, vec![0, 1]);
    assert!(m.attempted_failed.is_empty());
    assert_eq!(
        m.same_cluster(bits("0000"), bits("0001")),
        Some(ConnectEnum::Separate)
    );
}

#[test]
fn vetoed_merge_substitutes_next_nearest_neighbor() {
    // Candidate (0000, 0001) is vetoed; the alternate (0000, 0011) is
    // accepted, and the substitution is recorded in the ledger.
    let mut m = STAC::new(vec![
        pt("0000", Some(LabelEnum::Accept)),
        pt("0001", Some(LabelEnum::Malware)),
        pt("0011", Some(LabelEnum::Accept)),
    ]);
    let r = m.train(1);
    assert_eq!(r, Some(Trained));
    assert_eq!(m.result.job, TaskState::Done);
    assert_eq!(m.result.ids, vec![0, 1, 0]);
    assert_eq!(m.attempted_failed.len(), 1);
    let rec = &m.attempted_failed[0];
    assert_eq!(rec.initial.0, bits("0000"));
    assert_eq!(rec.initial.1, bits("0001"));
    assert_eq!(rec.resolve.0, bits("0000"));
    assert_eq!(rec.resolve.1, bits("0011"));
    assert_eq!(
        m.same_cluster(bits("0000"), bits("0011")),
        Some(ConnectEnum::Linked)
    );
    assert_eq!(
        m.same_cluster(bits("0000"), bits("0001")),
        Some(ConnectEnum::Separate)
    );
}

#[test]
fn retry_records_never_exceed_eta_per_candidate() {
    // Two vetoes in a row before a legal alternate: both substitutions are
    // recorded, and the count stays within the budget of the iteration.
    let mut m = STAC::new(vec![
        pt("0000", Some(LabelEnum::Accept)),
        pt("0001", Some(LabelEnum::Malware)),
        pt("0011", Some(LabelEnum::Malware)),
        pt("0111", Some(LabelEnum::Accept)),
    ]);
    let r = m.train(2);
    assert_eq!(r, Some(Trained));
    assert_eq!(m.result.job, TaskState::Done);
    assert!(m.attempted_failed.len() <= 2 * 2);
    assert_eq!(m.attempted_failed[0].initial.1, bits("0001"));
    assert_eq!(m.attempted_failed[0].resolve.1, bits("0011"));
    assert_eq!(m.attempted_failed[1].initial.1, bits("0011"));
    assert_eq!(m.attempted_failed[1].resolve.1, bits("0111"));
    assert_eq!(
        m.same_cluster(bits("0000"), bits("0111")),
        Some(ConnectEnum::Linked)
    );
}

#[test]
fn accepted_merges_never_join_conflicting_labels() {
    let mut m = STAC::new(vec![
        pt("0000", Some(LabelEnum::Accept)),
        pt("0001", Some(LabelEnum::Malware)),
        pt("0011", None),
        pt("1111", Some(LabelEnum::Accept)),
    ]);
    let _ = m.train(3);
    // Wherever training ended, no cluster may hold both labels.
    for i in 0..4 {
        for j in 0..4 {
            let conflicting = matches!(
                (&m.data[i].label, &m.data[j].label),
                (Some(LabelEnum::Malware), Some(LabelEnum::Accept))
                    | (Some(LabelEnum::Accept), Some(LabelEnum::Malware))
            );
            if conflicting {
                assert_ne!(m.result.ids[i], m.result.ids[j]);
            }
        }
    }
}

#[test]
fn queries_before_training_return_unknown() {
    let m = STAC::new(vec![pt("0000", None), pt("0001", None)]);
    assert_eq!(m.result.job, TaskState::Ready);
    assert_eq!(m.same_cluster(bits("0000"), bits("0001")), None);
    assert_eq!(m.same_cluster(bits("0000"), bits("0000")), None);
}

#[test]
fn queries_while_pending_return_unknown() {
    let mut m = STAC::new(vec![pt("0000", None), pt("0001", None)]);
    m.result.job = TaskState::Pending;
    assert_eq!(m.same_cluster(bits("0000"), bits("0001")), None);
}

#[test]
fn query_for_unknown_point_returns_unknown() {
    let mut m = STAC::new(vec![pt("0000", None), pt("0001", None)]);
    let _ = m.train(1);
    assert_eq!(m.result.job, TaskState::Done);
    assert_eq!(m.same_cluster(bits("0000"), bits("1100")), None);
    assert_eq!(m.same_cluster(bits("1100"), bits("0000")), None);
    assert_eq!(m.same_cluster(bits("00"), bits("0000")), None);
}

#[test]
fn train_is_rejected_unless_ready() {
    let mut m = STAC::new(vec![pt("0000", None), pt("0001", None)]);
    assert_eq!(m.train(1), Some(Trained));
    let ids_after = m.result.ids.clone();
    // A second run on the same assignment is rejected and changes nothing.
    assert_eq!(m.train(1), None);
    assert_eq!(m.result.ids, ids_after);
    assert_eq!(m.result.job, TaskState::Done);
}

#[test]
fn update_data_rebuilds_the_whole_aggregate() {
    let mut m = STAC::new(vec![
        pt("0000", Some(LabelEnum::Accept)),
        pt("0001", Some(LabelEnum::Malware)),
        pt("0011", Some(LabelEnum::Accept)),
    ]);
    let _ = m.train(1);
    assert!(!m.attempted_failed.is_empty());
    m.update_data(vec![pt("10", None), pt("11", None)]);
    assert_eq!(m.result.job, TaskState::Ready);
    assert_eq!(m.result.ids, vec![0, 1]);
    assert!(m.attempted_failed.is_empty());
    assert_eq!(m.data.len(), 2);
    // The rebuilt aggregate trains afresh.
    assert_eq!(m.train(0), Some(Trained));
    assert_eq!(m.same_cluster(bits("10"), bits("11")), Some(ConnectEnum::Linked));
}

#[test]
fn empty_dataset_trains_to_done() {
    let mut m = STAC::new(vec![]);
    assert_eq!(m.train(5), Some(Trained));
    assert_eq!(m.result.job, TaskState::Done);
    assert_eq!(m.same_cluster(bits("0"), bits("0")), None);
}

#[test]
fn single_point_trains_to_done() {
    let mut m = STAC::new(vec![pt("0101", None)]);
    assert_eq!(m.train(0), Some(Trained));
    assert_eq!(m.result.job, TaskState::Done);
    assert_eq!(m.result.ids, vec![0]);
    assert_eq!(
        m.same_cluster(bits("0101"), bits("0101")),
        Some(ConnectEnum::Linked)
    );
}

#[test]
fn duplicate_coordinates_resolve_to_first_occurrence() {
    let mut m = STAC::new(vec![pt("00", None), pt("00", None), pt("11", None)]);
    let _ = m.train(0);
    assert_eq!(m.result.job, TaskState::Done);
    // The two identical points were merged first (distance 0), so the
    // query's answer is the same whichever occurrence it resolves to.
    assert_eq!(m.same_cluster(bits("00"), bits("00")), Some(ConnectEnum::Linked));
}
