use metadata_engine::pipeline::run_plan::resize_measured_memory_advisory;
use metadata_engine::resource::{
    release_all, required_host_headroom, MemoryBroker, MemoryError, GIB,
};

#[test]
fn reserve_lanes_atomically_caps_and_charges_the_selected_layout() {
    let mut broker = MemoryBroker::new(512 * GIB, 448 * GIB).unwrap();
    let _occupied = broker.reserve(400 * GIB).unwrap();

    let (lanes, lease) = broker.reserve_lanes(8, 8 * GIB, 10 * GIB).unwrap();

    assert_eq!(lanes, 4);
    assert_eq!(lease.bytes(&broker), 48 * GIB);
    assert_eq!(broker.used_bytes(), 448 * GIB);
}

#[test]
fn reserve_lanes_returns_zero_without_charging_fixed_bytes() {
    let mut broker = MemoryBroker::new(512 * GIB, 448 * GIB).unwrap();
    let _occupied = broker.reserve(448 * GIB).unwrap();

    let (lanes, lease) = broker.reserve_lanes(8, GIB, GIB).unwrap();

    assert_eq!(lanes, 0);
    assert_eq!(lease.bytes(&broker), 0);
    assert_eq!(broker.used_bytes(), 448 * GIB);
}

#[test]
fn reserve_up_to_uses_remaining_capacity_without_budget_failure() {
    let mut broker = MemoryBroker::new(512 * GIB, 448 * GIB).unwrap();
    let _occupied = broker.reserve(447 * GIB).unwrap();

    let lease = broker.reserve_up_to(64 * GIB).unwrap();

    assert_eq!(lease.bytes(&broker), GIB);
    assert_eq!(broker.used_bytes(), 448 * GIB);
}

#[test]
fn reserve_up_to_reclaims_mmap_residency_before_bounded_fallback() {
    let mut broker = MemoryBroker::new(512 * GIB, 448 * GIB).unwrap();
    let mmap = broker.reserve_reclaimable(32 * GIB).unwrap();
    let _occupied = broker.reserve(416 * GIB).unwrap();

    let lease = broker.reserve_up_to(16 * GIB).unwrap();

    assert_eq!(lease.bytes(&broker), 16 * GIB);
    assert_eq!(mmap.bytes(&broker), 16 * GIB);
    assert_eq!(broker.used_bytes(), 448 * GIB);
}

#[test]
fn mandatory_reservation_reclaims_demand_paged_residency() {
    let mut broker = MemoryBroker::new(512 * GIB, 448 * GIB).unwrap();
    let snapshot = broker.reserve_reclaimable(400 * GIB).unwrap();

    let work = broker.reserve(100 * GIB).unwrap();

    assert_eq!(snapshot.bytes(&broker), 348 * GIB);
    assert_eq!(work.bytes(&broker), 100 * GIB);
    assert_eq!(broker.used_bytes(), 448 * GIB);
    assert_eq!(broker.reclaimed_bytes(), 52 * GIB);
    work.release(&mut broker);
    assert_eq!(broker.used_bytes(), 348 * GIB);
}

#[test]
fn lane_admission_counts_reclaimable_snapshot_pages() {
    let mut broker = MemoryBroker::new(512 * GIB, 448 * GIB).unwrap();
    let snapshot = broker.reserve_reclaimable(448 * GIB).unwrap();

    let (lanes, work) = broker.reserve_lanes(8, 8 * GIB, 10 * GIB).unwrap();

    assert_eq!(lanes, 8);
    assert_eq!(work.bytes(&broker), 88 * GIB);
    assert_eq!(snapshot.bytes(&broker), 360 * GIB);
    assert_eq!(broker.used_bytes(), 448 * GIB);
}

#[test]
fn rejected_oversized_work_does_not_evict_snapshot_pages() {
    let mut broker = MemoryBroker::new(512 * GIB, 448 * GIB).unwrap();
    let snapshot = broker.reserve_reclaimable(400 * GIB).unwrap();

    let error = broker
        .reserve(449 * GIB)
        .err()
        .expect("oversized work must be rejected");

    assert!(matches!(error, MemoryError::Budget { .. }));
    assert_eq!(snapshot.bytes(&broker), 400 * GIB);
    assert_eq!(broker.used_bytes(), 400 * GIB);
    assert_eq!(broker.reclaimed_bytes(), 0);
}

#[test]
fn a_released_lease_returns_its_bytes_and_a_resize_keeps_within_the_top() {
    let mut broker = MemoryBroker::new(512 * GIB, 448 * GIB).unwrap();
    let mut lease = broker.reserve(10 * GIB).unwrap();
    lease.resize(&mut broker, 20 * GIB).unwrap();
    assert_eq!(broker.used_bytes(), 20 * GIB);
    assert!(matches!(
        lease.resize(&mut broker, 449 * GIB),
        Err(MemoryError::Budget { .. })
    ));
    assert_eq!(lease.bytes(&broker), 20 * GIB);
    assert_eq!(broker.available_bytes(), 428 * GIB);
    lease.release(&mut broker);
    assert_eq!(broker.used_bytes(), 0);
}

#[test]
fn lanes_without_a_cost_are_one_and_headroom_is_a_part_of_the_host() {
    let broker = MemoryBroker::new(512 * GIB, 448 * GIB).unwrap();
    assert_eq!(broker.active_lanes(0, 0, GIB), 0);
    assert_eq!(broker.active_lanes(8, 0, 0), 1);
    assert_eq!(broker.active_lanes(8, 8 * GIB, 100 * GIB), 4);
    assert!(required_host_headroom(512 * GIB) > 0);
}

#[test]
fn measured_state_beyond_its_lease_is_told_and_kept() {
    let mut broker = MemoryBroker::new(100, 50).unwrap();
    let mut lease = broker.reserve(40).unwrap();
    let mut advisories: Vec<String> = Vec::new();
    resize_measured_memory_advisory(&mut lease, &mut broker, 45, "runs", &mut advisories).unwrap();
    assert_eq!(lease.bytes(&broker), 45);
    assert!(advisories.is_empty());
    resize_measured_memory_advisory(&mut lease, &mut broker, 70, "runs", &mut advisories).unwrap();
    assert_eq!(lease.bytes(&broker), 45);
    assert_eq!(
        advisories,
        vec![
            "measured runs require 70 bytes beyond the accounting envelope (memory budget \
             exceeded: requested 25, used 45, hard top 50); continuing because the state is \
             already allocated and letting actual allocation or I/O report any real failure"
                .to_string()
        ]
    );
}

#[test]
fn memory_errors_are_told_in_words() {
    assert_eq!(
        MemoryError::Headroom { host_total: 10, hard_top: 9, required: 3 }.message(),
        "host headroom insufficient: total 10, engine top 9, required 3"
    );
    assert_eq!(MemoryError::Overflow.message(), "memory reservation overflow");
}

#[test]
fn leases_given_back_leave_their_bytes_to_others() {
    let mut broker = MemoryBroker::new(GIB, 100).unwrap();
    let kept = broker.reserve(10).unwrap();
    let leases = vec![broker.reserve(20).unwrap(), broker.reserve(30).unwrap()];
    assert_eq!(broker.available_bytes(), 40);
    release_all(leases, &mut broker);
    assert_eq!(broker.available_bytes(), 90);
    assert_eq!(kept.bytes(&broker), 10);
}
