use timely::frontier::AntichainRef;
use timely::mutable::MutableAntichain;

#[test]
fn new_is_empty_and_clean() {
    let frontier = MutableAntichain::<usize>::new();
    assert!(frontier.is_empty());
    assert_eq!(frontier.frontier().len(), 0);
}

#[test]
fn clear_resets_everything() {
    let mut frontier = MutableAntichain::new_bottom(3u64);
    frontier.clear();
    assert!(frontier.is_empty());
    assert_eq!(frontier.count_for(&3), 0);
}

#[test]
fn new_bottom_has_single_element() {
    let frontier = MutableAntichain::new_bottom(0u64);
    assert!(frontier.frontier() == AntichainRef::new(&[0u64]));
    assert_eq!(frontier.count_for(&0), 1);
    assert_eq!(frontier.count_for(&1), 0);
}

#[test]
fn mutable_less_than_and_less_equal() {
    let frontier = MutableAntichain::new_bottom(1u64);
    assert!(!frontier.less_than(&0));
    assert!(!frontier.less_than(&1));
    assert!(frontier.less_than(&2));
    assert!(!frontier.less_equal(&0));
    assert!(frontier.less_equal(&1));
    assert!(frontier.less_equal(&2));
}

#[test]
fn advance_reports_both_changes() {
    let mut frontier = MutableAntichain::new_bottom(1u64);
    let mut changes = frontier.update_iter_and(vec![(1, -1), (2, 1)]);
    assert!(frontier.frontier() == AntichainRef::new(&[2]));
    changes.sort();
    assert_eq!(&changes[..], &[(1, -1), (2, 1)]);
}

#[test]
fn cancellation_leaves_frontier_alone() {
    let mut frontier = MutableAntichain::new_bottom(0u64);
    let changes = frontier.update_iter_and(vec![(5, 1), (5, -1)]);
    assert!(frontier.frontier() == AntichainRef::new(&[0]));
    assert!(changes.is_empty());
    assert_eq!(frontier.count_for(&5), 0);
}

#[test]
fn empty_then_update_empties_frontier() {
    let mut frontier = MutableAntichain::new_bottom(0u64);
    frontier.empty();
    let changes = frontier.update_iter_and(vec![]);
    assert!(frontier.is_empty());
    assert_eq!(&changes[..], &[(0, -1)]);
}

#[test]
fn update_iter_without_callback() {
    let mut frontier = MutableAntichain::new_bottom(1u64);
    frontier.update_iter(vec![(1, -1), (2, 1)]);
    assert!(frontier.frontier() == AntichainRef::new(&[2]));
}

#[test]
fn update_dirty_then_batch_reconciles() {
    let mut frontier = MutableAntichain::new_bottom(1u64);
    frontier.update_dirty(0, 1);
    frontier.update_iter(vec![]);
    assert!(frontier.frontier() == AntichainRef::new(&[0]));
    assert_eq!(frontier.count_for(&0), 1);
    assert_eq!(frontier.count_for(&1), 1);
}

#[test]
fn count_for_sums_unconsolidated_entries() {
    let mut frontier = MutableAntichain::new_bottom(2u64);
    frontier.update_dirty(2, 3);
    frontier.update_dirty(2, -1);
    assert_eq!(frontier.count_for(&2), 3);
    assert_eq!(frontier.count_for(&7), 0);
}

#[test]
fn frontier_on_pairs_keeps_incomparable_times() {
    let mut frontier = MutableAntichain::new_bottom((0u64, 0u64));
    let mut changes = frontier.update_iter_and(vec![((0, 0), -1), ((1, 2), 1), ((2, 1), 1)]);
    changes.sort();
    assert_eq!(&changes[..], &[((0, 0), -1), ((1, 2), 1), ((2, 1), 1)]);
    let mut elements = frontier.frontier().to_vec();
    elements.sort();
    assert_eq!(elements, vec![(1, 2), (2, 1)]);
    assert!(frontier.less_equal(&(1, 2)));
    assert!(frontier.less_equal(&(2, 2)));
    assert!(!frontier.less_equal(&(0, 5)));
}

#[test]
fn retreat_lowers_the_frontier() {
    let mut frontier = MutableAntichain::new_bottom(5u64);
    frontier.update_iter(vec![(3, 1)]);
    assert!(frontier.frontier() == AntichainRef::new(&[3]));
    assert_eq!(frontier.count_for(&5), 1);
}

#[test]
fn duplicate_updates_consolidate() {
    let mut frontier = MutableAntichain::new_bottom(1u64);
    frontier.update_iter(vec![(1, 1), (1, 1), (1, -2)]);
    assert!(frontier.frontier() == AntichainRef::new(&[1]));
    assert_eq!(frontier.count_for(&1), 1);
}

#[test]
fn empty_batch_on_clean_state_changes_nothing() {
    let mut frontier = MutableAntichain::new_bottom(4u64);
    let changes = frontier.update_iter_and(vec![]);
    assert!(changes.is_empty());
    assert!(frontier.frontier() == AntichainRef::new(&[4]));
}

#[test]
fn updates_beyond_the_frontier_report_nothing() {
    let mut frontier = MutableAntichain::new_bottom(1u64);
    let changes = frontier.update_iter_and(vec![(10, 1), (11, 1)]);
    assert!(changes.is_empty());
    assert!(frontier.frontier() == AntichainRef::new(&[1]));
    assert_eq!(frontier.count_for(&10), 1);
}

#[test]
fn count_for_handles_large_deltas() {
    let mut frontier = MutableAntichain::<u64>::new();
    frontier.update_dirty(9, i64::MAX);
    frontier.update_dirty(9, -1);
    frontier.update_dirty(9, 1);
    assert_eq!(frontier.count_for(&9), i64::MAX);
}

#[test]
fn default_mutable_antichain_is_empty() {
    let frontier: MutableAntichain<u64> = Default::default();
    assert!(frontier.is_empty());
}
