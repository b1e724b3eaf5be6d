use google_load_parser::error::TraceError;
use google_load_parser::parse::{parse_record, parse_u64, parse_usage, split_row};
use google_load_parser::slots::{TIME_MIN, TIME_SLOT_LEN};
use google_load_parser::transfer::{TransferState, UsageRecord};

#[test]
fn integers_parse_exactly() {
    assert_eq!(parse_u64(b"0"), Ok(0));
    assert_eq!(parse_u64(b"123"), Ok(123));
    assert_eq!(parse_u64(b"000123"), Ok(123));
    assert_eq!(parse_u64(b"18446744073709551615"), Ok(u64::MAX));
}

#[test]
fn bad_integers_are_malformed() {
    assert_eq!(parse_u64(b""), Err(TraceError::MalformedRecord));
    assert_eq!(parse_u64(b"12a"), Err(TraceError::MalformedRecord));
    assert_eq!(parse_u64(b"-5"), Err(TraceError::MalformedRecord));
    assert_eq!(
        parse_u64(b"18446744073709551616"),
        Err(TraceError::MalformedRecord)
    );
}

#[test]
fn usage_values_parse_to_millionths() {
    assert_eq!(parse_usage(b"0.5"), Ok(500_000));
    assert_eq!(parse_usage(b"0.03143"), Ok(31_430));
    assert_eq!(parse_usage(b"12"), Ok(12_000_000));
    assert_eq!(parse_usage(b".25"), Ok(250_000));
    assert_eq!(parse_usage(b"3."), Ok(3_000_000));
    assert_eq!(parse_usage(b"0"), Ok(0));
    // Digits beyond the sixth fractional place truncate.
    assert_eq!(parse_usage(b"0.1234567"), Ok(123_456));
}

#[test]
fn bad_usage_values_are_malformed() {
    assert_eq!(parse_usage(b""), Err(TraceError::MalformedRecord));
    assert_eq!(parse_usage(b"."), Err(TraceError::MalformedRecord));
    assert_eq!(parse_usage(b"1.2.3"), Err(TraceError::MalformedRecord));
    assert_eq!(parse_usage(b"1e5"), Err(TraceError::MalformedRecord));
    assert_eq!(parse_usage(b"-0.5"), Err(TraceError::MalformedRecord));
}

#[test]
fn rows_split_on_every_comma() {
    let fields = split_row(b"1,22,,333");
    assert_eq!(fields.len(), 4);
    assert_eq!(fields[0], b"1".to_vec());
    assert_eq!(fields[1], b"22".to_vec());
    assert_eq!(fields[2], b"".to_vec());
    assert_eq!(fields[3], b"333".to_vec());
    assert_eq!(split_row(b"").len(), 1);
    assert_eq!(split_row(b"abc").len(), 1);
}

#[test]
fn records_parse_from_rows() {
    assert_eq!(
        parse_record(b"600000000,660000000,4155527081,0.5"),
        Ok(UsageRecord {
            start_time_us: 600_000_000,
            end_time_us: 660_000_000,
            machine_id: 4_155_527_081,
            cpu_usage: 500_000,
        })
    );
    assert_eq!(
        parse_record(b"1,2,3"),
        Err(TraceError::MalformedRecord)
    );
    assert_eq!(
        parse_record(b"1,2,3,4,5"),
        Err(TraceError::MalformedRecord)
    );
    assert_eq!(
        parse_record(b"x,2,3,0.5"),
        Err(TraceError::MalformedRecord)
    );
}

#[test]
fn parsed_rows_accumulate_like_the_example() {
    let line = format!(
        "{},{},123,0.5",
        TIME_MIN,
        TIME_MIN + TIME_SLOT_LEN
    );
    let rec = parse_record(line.as_bytes()).unwrap();
    let mut state = TransferState::new();
    assert_eq!(state.ingest_record(&rec), Ok(()));
    assert_eq!(state.ingest_record(&rec), Ok(()));
    assert_eq!(state.matrix.get(0, 0), 1_000_000);
    assert_eq!(state.matrix.time_count(), 0);
}
