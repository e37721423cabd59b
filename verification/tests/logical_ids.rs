use reverse_cluster::coordinator::logical_ids::{
    check_free, logical_stripe, sort_and_check_unique, LogicalIdDirectory, LOGICAL_WRITE_STRIPES,
};
use reverse_cluster::shard::ShardError;

#[test]
fn sorted_base_and_live_overlays_preserve_membership() {
    let mut ids = LogicalIdDirectory::from_ids(vec![9, 1, 5]).expect("unique");
    assert!(ids.contains(1));
    assert!(!ids.contains(2));
    assert!(ids.insert(2));
    assert!(!ids.insert(2));
    assert!(ids.remove(5));
    assert!(!ids.contains(5));
    assert!(ids.insert(5));
    assert!(ids.contains(5));
}

#[test]
fn duplicate_base_is_rejected() {
    assert!(LogicalIdDirectory::from_ids(vec![7, 3, 7]).is_err());
}

#[test]
fn maintenance_compaction_folds_live_overlays_into_sorted_base() {
    let mut ids = LogicalIdDirectory::from_ids(vec![9, 1, 5]).expect("unique");
    assert!(ids.remove(5));
    assert!(ids.insert(2));
    ids.compact();
    assert_eq!(ids.base, vec![1, 2, 9]);
    assert!(ids.added.is_empty());
    assert!(ids.removed.is_empty());
}

#[test]
fn the_least_repeated_id_is_named() {
    let mut ids = vec![9, 4, 9, 4, 1];
    assert!(matches!(
        sort_and_check_unique(&mut ids),
        Err(ShardError::DuplicateLogicalId(4))
    ));
}

#[test]
fn a_taken_id_is_refused() {
    let ids = LogicalIdDirectory::from_ids(vec![3]).unwrap();
    assert!(ids.authoritative);
    assert!(check_free(&ids, 4).is_ok());
    assert!(matches!(
        check_free(&ids, 3),
        Err(ShardError::DuplicateLogicalId(3))
    ));
}

#[test]
fn stripes_are_in_range() {
    for id in [0u64, 1, 255, 256, u64::MAX] {
        assert!(logical_stripe(id, LOGICAL_WRITE_STRIPES) < LOGICAL_WRITE_STRIPES);
    }
}

#[test]
fn a_default_directory_is_not_authoritative() {
    assert!(!LogicalIdDirectory::default().authoritative);
}

#[test]
fn adding_fails_closed_without_the_whole_corpus() {
    let mut ids = LogicalIdDirectory::default();
    assert!(matches!(check_free(&ids, 4), Err(ShardError::Config(m)) if m.contains("authoritative")));
    ids.insert(4);
    assert!(!ids.authoritative);
    assert!(matches!(
        check_free(&ids, 4),
        Err(ShardError::DuplicateLogicalId(4))
    ));
    let empty = LogicalIdDirectory::from_ids(Vec::new()).unwrap();
    assert!(check_free(&empty, 4).is_ok());
}
