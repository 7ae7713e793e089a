use stac::partition::ClusterAssignment;
use stac::partition::TaskState;

#[test]
fn initialize_gives_discrete_partition() {
    let p = ClusterAssignment::initialize(4);
    assert_eq!(p.ids, vec![0, 1, 2, 3]);
    assert_eq!(p.job, TaskState::Ready);
    assert_eq!(p.find(2), 2);
    assert!(p.same(3, 3));
    assert!(!p.same(0, 1));
}

#[test]
fn union_rewrites_both_clusters_to_one_id() {
    let mut p = ClusterAssignment::initialize(4);
    p.union(1, 2);
    assert_eq!(p.ids, vec![0, 1, 1, 3]);
    assert!(p.same(1, 2));
    // Merging point 0 with point 2 must rewrite every member of cluster 1,
    // not just the two endpoints.
    p.union(0, 2);
    assert_eq!(p.ids, vec![0, 0, 0, 3]);
    assert!(p.same(0, 1));
    assert!(p.same(1, 2));
    assert!(!p.same(0, 3));
}

#[test]
fn union_is_idempotent_when_already_same_cluster() {
    let mut p = ClusterAssignment::initialize(4);
    p.union(1, 2);
    let before = p.ids.clone();
    p.union(1, 2);
    assert_eq!(p.ids, before);
    p.union(2, 1);
    assert_eq!(p.ids, before);
}

#[test]
fn union_of_a_point_with_itself_changes_nothing() {
    let mut p = ClusterAssignment::initialize(3);
    p.union(2, 2);
    assert_eq!(p.ids, vec![0, 1, 2]);
}

#[test]
fn distinct_id_count_never_increases() {
    let mut p = ClusterAssignment::initialize(5);
    let count = |ids: &Vec<u32>| {
        let mut seen: Vec<u32> = Vec::new();
        for id in ids {
            if !seen.contains(id) {
                seen.push(*id);
            }
        }
        seen.len()
    };
    let mut last = count(&p.ids);
    assert_eq!(last, 5);
    p.union(0, 4);
    assert!(count(&p.ids) <= last);
    last = count(&p.ids);
    p.union(1, 4);
    assert!(count(&p.ids) <= last);
    last = count(&p.ids);
    p.union(1, 0);
    assert!(count(&p.ids) <= last);
    assert_eq!(count(&p.ids), 3);
}
