use google_load_parser::error::TraceError;
use google_load_parser::mapper::IdentityMapper;
use google_load_parser::matrix::NodeTimeMatrix;
use google_load_parser::slots::{to_time_slot_index, TIME_MIN, TIME_SLOT_LEN};
use google_load_parser::transfer::{TransferState, UsageRecord};

fn record(start_slot: u64, end_slot: u64, machine_id: u64, cpu_usage: u64) -> UsageRecord {
    UsageRecord {
        start_time_us: TIME_MIN + start_slot * TIME_SLOT_LEN,
        end_time_us: TIME_MIN + end_slot * TIME_SLOT_LEN,
        machine_id,
        cpu_usage,
    }
}

#[test]
fn slot_at_epoch_is_zero() {
    assert_eq!(to_time_slot_index(TIME_MIN), Ok(0));
}

#[test]
fn timestamp_before_epoch_is_invalid() {
    assert_eq!(
        to_time_slot_index(TIME_MIN - 1),
        Err(TraceError::InvalidTimestamp)
    );
    assert_eq!(to_time_slot_index(0), Err(TraceError::InvalidTimestamp));
}

#[test]
fn slot_indexing_floors() {
    assert_eq!(to_time_slot_index(TIME_MIN + TIME_SLOT_LEN - 1), Ok(0));
    assert_eq!(to_time_slot_index(TIME_MIN + TIME_SLOT_LEN), Ok(1));
    assert_eq!(to_time_slot_index(TIME_MIN + 5 * TIME_SLOT_LEN + 7), Ok(5));
}

#[test]
fn matrix_read_beyond_row_is_zero() {
    let mut m = NodeTimeMatrix::new();
    m.add(0, 3, 5);
    assert_eq!(m.get(0, 3), 5);
    assert_eq!(m.get(0, 4), 0);
    assert_eq!(m.get(0, 100_000), 0);
}

#[test]
fn matrix_grows_and_accumulates() {
    let mut m = NodeTimeMatrix::new();
    assert_eq!(m.node_count(), 0);
    assert_eq!(m.time_count(), 0);
    m.add(2, 1, 7);
    assert_eq!(m.node_count(), 3);
    assert_eq!(m.time_count(), 1);
    assert_eq!(m.get(0, 0), 0);
    assert_eq!(m.get(1, 1), 0);
    assert_eq!(m.get(2, 1), 7);
    m.add(2, 1, 4);
    assert_eq!(m.get(2, 1), 11);
    m.add(0, 9, 1);
    assert_eq!(m.time_count(), 9);
    assert_eq!(m.node_count(), 3);
}

#[test]
fn matrix_addition_saturates() {
    let mut m = NodeTimeMatrix::new();
    m.add(0, 0, u64::MAX);
    m.add(0, 0, 5);
    assert_eq!(m.get(0, 0), u64::MAX);
}

#[test]
fn resolve_is_stable_and_dense() {
    let mut mapper = IdentityMapper::new();
    assert_eq!(mapper.resolve(4_000_000_001), 0);
    assert_eq!(mapper.resolve(17), 1);
    assert_eq!(mapper.resolve(4_000_000_001), 0);
    assert_eq!(mapper.resolve(17), 1);
    assert_eq!(mapper.resolve(99), 2);
    assert_eq!(mapper.count(), 3);
}

#[test]
fn empty_interval_contributes_nothing() {
    let mut state = TransferState::new();
    assert_eq!(state.ingest_record(&record(5, 5, 42, 100)), Ok(()));
    assert_eq!(state.ingest_record(&record(9, 2, 42, 100)), Ok(()));
    assert_eq!(state.matrix.node_count(), 0);
    assert_eq!(state.matrix.time_count(), 0);
    // The machine identifier was still resolved.
    assert_eq!(state.mapper.count(), 1);
}

#[test]
fn two_records_same_machine_accumulate_on_slot_zero() {
    let mut state = TransferState::new();
    // Each record covers slot 0 with half a unit of usage
    // (500,000 millionths).
    assert_eq!(state.ingest_record(&record(0, 1, 123, 500_000)), Ok(()));
    assert_eq!(state.ingest_record(&record(0, 1, 123, 500_000)), Ok(()));
    let mut mapper = state.mapper;
    let node = mapper.resolve(123);
    assert_eq!(node, 0);
    assert_eq!(state.matrix.get(node, 0), 1_000_000);
}

#[test]
fn cell_is_sum_over_touching_records() {
    let mut state = TransferState::new();
    let records = vec![
        record(0, 3, 10, 2),
        record(1, 4, 10, 5),
        record(2, 3, 11, 100),
        record(3, 3, 10, 9),
    ];
    assert_eq!(state.ingest_all(&records), Ok(()));
    // machine 10 is node 0, machine 11 is node 1
    assert_eq!(state.matrix.get(0, 0), 2);
    assert_eq!(state.matrix.get(0, 1), 7);
    assert_eq!(state.matrix.get(0, 2), 7);
    assert_eq!(state.matrix.get(0, 3), 5);
    assert_eq!(state.matrix.get(0, 4), 0);
    assert_eq!(state.matrix.get(1, 2), 100);
    assert_eq!(state.matrix.get(1, 0), 0);
    assert_eq!(state.matrix.node_count(), 2);
    assert_eq!(state.matrix.time_count(), 3);
}

#[test]
fn ingestion_aborts_at_first_invalid_record() {
    let mut state = TransferState::new();
    let bad = UsageRecord {
        start_time_us: TIME_MIN - 1,
        end_time_us: TIME_MIN + TIME_SLOT_LEN,
        machine_id: 7,
        cpu_usage: 3,
    };
    assert_eq!(
        state.ingest_record(&bad),
        Err(TraceError::InvalidTimestamp)
    );
    let records = vec![record(0, 2, 5, 1), bad, record(0, 2, 6, 1)];
    let mut state2 = TransferState::new();
    assert_eq!(
        state2.ingest_all(&records),
        Err(TraceError::InvalidTimestamp)
    );
    // The record before the invalid one was fully applied, the rest was not.
    assert_eq!(state2.matrix.node_count(), 1);
    assert_eq!(state2.matrix.get(0, 0), 1);
    assert_eq!(state2.matrix.get(0, 1), 1);
    // The invalid record still resolved its machine identifier.
    assert_eq!(state2.mapper.count(), 2);
}
