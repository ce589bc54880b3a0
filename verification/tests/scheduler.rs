use metadata_engine::scheduler::catalog::block_requires_hot_index;
use metadata_engine::scheduler::jobs::SchedulerError;

#[test]
fn pair_work_guard_removes_the_just_below_member_threshold_cliff() {
    assert!(block_requires_hot_index(999_999, 1_000_000).unwrap());
    assert!(!block_requires_hot_index(4_000, 1_000_000).unwrap());
    assert!(block_requires_hot_index(4_001, 1_000_000).unwrap());
}

#[test]
fn pair_work_that_cannot_be_counted_is_refused() {
    assert!(matches!(
        block_requires_hot_index(u64::MAX, 10),
        Err(SchedulerError::WorkOverflow)
    ));
}
