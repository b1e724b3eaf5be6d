use google_load_parser::error::{GoogleLoadParseError, TraceError};
use google_load_parser::shard::{
    day_shard_count, day_slot_bounds, node_range_bounds, node_shard_count, shard_grid,
};
use google_load_parser::slots::{TIME_MIN, TIME_SLOT_LEN};
use google_load_parser::transfer::{TransferState, UsageRecord};
use google_load_parser::trim::trim_row;

#[test]
fn day_windows_tile_the_horizon() {
    assert_eq!(day_shard_count(0), 1);
    assert_eq!(day_slot_bounds(0, 0), (0, 1));
    assert_eq!(day_shard_count(1439), 1);
    assert_eq!(day_slot_bounds(1439, 0), (0, 1440));
    assert_eq!(day_shard_count(1440), 2);
    assert_eq!(day_slot_bounds(1440, 0), (0, 1440));
    assert_eq!(day_slot_bounds(1440, 1), (1440, 1441));
    assert_eq!(day_shard_count(2879), 2);
    assert_eq!(day_slot_bounds(2879, 1), (1440, 2880));
}

#[test]
fn node_windows_tile_the_nodes() {
    assert_eq!(node_shard_count(0), 1);
    assert_eq!(node_range_bounds(0, 0), (0, 0));
    assert_eq!(node_shard_count(999), 1);
    assert_eq!(node_range_bounds(999, 0), (0, 999));
    assert_eq!(node_shard_count(1500), 2);
    assert_eq!(node_range_bounds(1500, 0), (0, 1000));
    assert_eq!(node_range_bounds(1500, 1), (1000, 1500));
    // An exactly full boundary leaves an empty final window.
    assert_eq!(node_shard_count(1000), 2);
    assert_eq!(node_range_bounds(1000, 1), (1000, 1000));
}

#[test]
fn two_day_two_range_output_shape() {
    // 1,500 distinct machines, each with one record spanning slots
    // [0, 2880): output is two days of two node files each, the first with
    // 1,000 rows and the second with 500, all 1,440 columns wide.
    let mut state = TransferState::new();
    let mut records: Vec<UsageRecord> = Vec::new();
    for machine in 0..1500u64 {
        records.push(UsageRecord {
            start_time_us: TIME_MIN,
            end_time_us: TIME_MIN + 2880 * TIME_SLOT_LEN,
            machine_id: 1_000_000 + machine,
            cpu_usage: 250_000,
        });
    }
    assert_eq!(state.ingest_all(&records), Ok(()));
    assert_eq!(state.matrix.node_count(), 1500);
    assert_eq!(state.matrix.time_count(), 2879);
    assert_eq!(day_shard_count(state.matrix.time_count()), 2);
    assert_eq!(node_shard_count(state.matrix.node_count()), 2);
    for day_id in 0..2usize {
        let wide = shard_grid(&state.matrix, day_id, 0);
        assert_eq!(wide.len(), 1000);
        let narrow = shard_grid(&state.matrix, day_id, 1);
        assert_eq!(narrow.len(), 500);
        for row in wide.iter().chain(narrow.iter()) {
            assert_eq!(row.len(), 1440);
            for &v in row.iter() {
                assert_eq!(v, 250_000);
            }
        }
    }
}

#[test]
fn empty_run_yields_one_empty_shard() {
    let state = TransferState::new();
    assert_eq!(state.matrix.node_count(), 0);
    assert_eq!(state.matrix.time_count(), 0);
    assert_eq!(day_shard_count(0), 1);
    assert_eq!(node_shard_count(0), 1);
    let grid = shard_grid(&state.matrix, 0, 0);
    assert_eq!(grid.len(), 0);
}

#[test]
fn grid_reads_accumulated_cells() {
    let mut state = TransferState::new();
    let records = vec![
        UsageRecord {
            start_time_us: TIME_MIN,
            end_time_us: TIME_MIN + 2 * TIME_SLOT_LEN,
            machine_id: 1,
            cpu_usage: 4,
        },
        UsageRecord {
            start_time_us: TIME_MIN + TIME_SLOT_LEN,
            end_time_us: TIME_MIN + 3 * TIME_SLOT_LEN,
            machine_id: 2,
            cpu_usage: 9,
        },
    ];
    assert_eq!(state.ingest_all(&records), Ok(()));
    let grid = shard_grid(&state.matrix, 0, 0);
    assert_eq!(grid.len(), 2);
    assert_eq!(grid[0].len(), 3);
    assert_eq!(grid[0][0], 4);
    assert_eq!(grid[0][1], 4);
    assert_eq!(grid[0][2], 0);
    assert_eq!(grid[1][0], 0);
    assert_eq!(grid[1][1], 9);
    assert_eq!(grid[1][2], 9);
}

#[test]
fn trim_keeps_the_four_relevant_columns() {
    let fields: Vec<Vec<u8>> = vec![
        b"100".to_vec(),
        b"200".to_vec(),
        b"ignored".to_vec(),
        b"ignored".to_vec(),
        b"4155527081".to_vec(),
        b"0.03143".to_vec(),
    ];
    let kept = trim_row(&fields).unwrap().unwrap();
    assert_eq!(kept.len(), 4);
    assert_eq!(kept[0], b"100".to_vec());
    assert_eq!(kept[1], b"200".to_vec());
    assert_eq!(kept[2], b"4155527081".to_vec());
    assert_eq!(kept[3], b"0.03143".to_vec());
}

#[test]
fn trim_skips_zero_usage_rows() {
    let fields: Vec<Vec<u8>> = vec![
        b"100".to_vec(),
        b"200".to_vec(),
        b"x".to_vec(),
        b"x".to_vec(),
        b"7".to_vec(),
        b"0".to_vec(),
    ];
    assert_eq!(trim_row(&fields), Ok(None));
}

#[test]
fn trim_rejects_short_rows() {
    let fields: Vec<Vec<u8>> = vec![b"100".to_vec(), b"200".to_vec()];
    assert_eq!(trim_row(&fields), Err(TraceError::MalformedRecord));
}

#[test]
fn boxed_error_keeps_its_description() {
    let e = GoogleLoadParseError::new_boxed(String::from("'x' is not a directory."));
    assert_eq!(e.description().as_str(), "'x' is not a directory.");
}
