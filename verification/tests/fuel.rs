//! Fuel metering and the snapshot schedule.
use cairn_runtime::fuel::{Charge, ConfigError, Fuel, FuelMeter, MAX_INTERVAL_LOG2};

fn meter(limit: u64, interval_log2: u8) -> FuelMeter {
    FuelMeter::new(limit, interval_log2).unwrap()
}

#[test]
fn charging_accumulates() {
    let mut m = meter(1_000, 10);
    assert_eq!(m.charge(3), Charge::Continue);
    assert_eq!(m.charge(4), Charge::Continue);
    assert_eq!(m.consumed(), Fuel::new(7));
    assert_eq!(m.remaining(), 993);
}

#[test]
fn snapshot_is_labelled_with_the_fuel_before_the_block() {
    // The snapshot commits the state as it was on entry to the block that crossed the
    // threshold. Labelling it with the post-block total would make the label describe a
    // state that was never committed.
    let mut m = meter(1_000, 3); // threshold at 8
    assert_eq!(m.charge(6), Charge::Continue);
    assert_eq!(m.charge(4), Charge::SnapshotDue { at: Fuel::new(6) });
    assert_eq!(m.consumed(), Fuel::new(10));
}

#[test]
fn threshold_advances_past_the_new_total() {
    let mut m = meter(1_000, 3); // thresholds at 8, 16, 24, ...
    assert_eq!(m.next_threshold(), Fuel::new(8));

    let _ = m.charge(9); // total 9, crosses 8
    assert_eq!(m.next_threshold(), Fuel::new(16));

    let _ = m.charge(1); // total 10, no crossing
    assert_eq!(m.next_threshold(), Fuel::new(16));
}

#[test]
fn landing_exactly_on_a_threshold_snapshots() {
    let mut m = meter(1_000, 3);
    assert_eq!(m.charge(8), Charge::SnapshotDue { at: Fuel::zero() });
    assert_eq!(m.next_threshold(), Fuel::new(16));
}

#[test]
fn a_block_spanning_many_thresholds_snapshots_once() {
    let mut m = meter(1_000, 3);
    assert_eq!(m.charge(100), Charge::SnapshotDue { at: Fuel::zero() });
    assert_eq!(m.consumed(), Fuel::new(100));
    assert_eq!(m.next_threshold(), Fuel::new(104));
    assert_eq!(m.charge(1), Charge::Continue);
}

#[test]
fn exhaustion_is_reported_at_block_entry() {
    let mut m = meter(10, 10);
    assert_eq!(m.charge(7), Charge::Continue);
    assert_eq!(m.charge(9), Charge::Exhausted { at: Fuel::new(7) });
    assert_eq!(
        m.consumed(),
        Fuel::new(7),
        "an exhausted charge must not consume"
    );
}

#[test]
fn exhaustion_is_stable_under_repetition() {
    let mut m = meter(10, 10);
    let _ = m.charge(10);
    assert_eq!(m.charge(1), Charge::Exhausted { at: Fuel::new(10) });
    assert_eq!(m.charge(1), Charge::Exhausted { at: Fuel::new(10) });
    assert_eq!(m.charge(500), Charge::Exhausted { at: Fuel::new(10) });
}

#[test]
fn spending_exactly_the_limit_is_allowed() {
    let mut m = meter(10, 10);
    assert_eq!(m.charge(10), Charge::Continue);
    assert_eq!(m.remaining(), 0);
    assert_eq!(m.charge(1), Charge::Exhausted { at: Fuel::new(10) });
}

#[test]
fn overflow_is_exhaustion_not_a_wrap() {
    let mut m = meter(u64::MAX, 10);
    assert_eq!(
        m.charge(u64::MAX - 1),
        Charge::SnapshotDue { at: Fuel::zero() }
    );
    assert_eq!(
        m.charge(u64::MAX),
        Charge::Exhausted {
            at: Fuel::new(u64::MAX - 1)
        }
    );
    assert_eq!(m.consumed(), Fuel::new(u64::MAX - 1));
}

#[test]
fn zero_sized_blocks_do_not_advance_or_snapshot() {
    let mut m = meter(1_000, 3);
    assert_eq!(m.charge(0), Charge::Continue);
    assert_eq!(m.consumed(), Fuel::zero());
    assert_eq!(m.next_threshold(), Fuel::new(8));
}

#[test]
fn interval_of_zero_snapshots_every_block() {
    let mut m = meter(100, 0);
    assert_eq!(m.charge(1), Charge::SnapshotDue { at: Fuel::zero() });
    assert_eq!(m.charge(1), Charge::SnapshotDue { at: Fuel::new(1) });
    assert_eq!(m.charge(1), Charge::SnapshotDue { at: Fuel::new(2) });
}

#[test]
fn rejects_an_oversized_interval() {
    // FuelMeter deliberately does not implement PartialEq — comparing two meters is
    // never a meaningful operation — so the error is unwrapped rather than compared as
    // a whole Result.
    assert_eq!(
        FuelMeter::new(100, MAX_INTERVAL_LOG2 + 1).unwrap_err(),
        ConfigError::IntervalTooLarge {
            requested: MAX_INTERVAL_LOG2 + 1
        }
    );
    assert!(FuelMeter::new(100, MAX_INTERVAL_LOG2).is_ok());
}

#[test]
fn block_partitioning_does_not_change_the_trace() {
    // The single most important property in this module. The instrumentation pass decides
    // where block boundaries fall; if splitting a run of instructions into different
    // blocks changed the fuel totals, two engines could disagree for reasons that have
    // nothing to do with the computation.
    //
    // Snapshot *labels* legitimately depend on block boundaries — a snapshot commits the
    // state at a boundary — but the totals must not.
    let mut coarse = meter(10_000, 4);
    let _ = coarse.charge(64);

    let mut fine = meter(10_000, 4);
    for _ in 0..64 {
        let _ = fine.charge(1);
    }

    assert_eq!(coarse.consumed(), fine.consumed());
    assert_eq!(coarse.next_threshold(), fine.next_threshold());
}

#[test]
fn snapshot_labels_are_monotonic_and_distinct() {
    // Bisection assumes committed fuel values are strictly increasing; a repeated or
    // out-of-order label would break the binary search invariant.
    let mut m = meter(10_000, 4);
    let mut labels = Vec::new();

    for block in [7u64, 13, 1, 40, 3, 9, 100, 2] {
        if let Charge::SnapshotDue { at } = m.charge(block) {
            labels.push(at.get());
        }
    }

    assert!(
        labels.len() >= 2,
        "expected several snapshots, got {labels:?}"
    );
    assert!(
        labels.is_sorted_by(|a, b| a < b),
        "labels must strictly increase: {labels:?}"
    );
}
