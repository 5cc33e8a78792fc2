use streetlamps::batch::Batch;
use streetlamps::bucket::{bucket_readings, check_range, Reading};
use streetlamps::envelope::{frame_message, strip_topic, DecodeError};
use streetlamps::ingest::{batch_rows, WriteAction, WritePhase, WriteSession};
use streetlamps::query::{plan_buckets, plan_query, Query, QueryError, QueryPlan};
use streetlamps::reduce::{median_pick, nan_bits, reject_nan, sort_levels, MedianPick};
use streetlamps::registry::{ReducerKind, Registry};
use streetlamps::request::parse_seconds;

fn bits(v: f64) -> u64 {
    v.to_bits()
}

fn reading(t: i64, v: f64) -> Reading {
    Reading { timestamp: t, level_bits: bits(v) }
}

fn query(sensor: &str, reducer: &str, width: i64, from: i64, to: i64) -> Query {
    Query {
        sensor_id: sensor.to_string(),
        reducer: reducer.to_string(),
        bucket_width: width,
        from,
        to,
    }
}

/// Drives a write session, failing the action at `fail_at` (if any).
fn drive(total: usize, fail_at: Option<usize>) -> (WriteSession, Vec<WriteAction>) {
    let mut s = WriteSession::start(total);
    let mut actions = Vec::new();
    let mut step = 0usize;
    while let Some(a) = s.action() {
        actions.push(a);
        s.advance(fail_at != Some(step));
        step += 1;
    }
    (s, actions)
}

#[test]
fn strip_topic_returns_payload() {
    let m = b"light_level\x01\x02".to_vec();
    assert_eq!(strip_topic(&m, b"light_level"), Ok(vec![1u8, 2]));
}

#[test]
fn strip_topic_rejects_other_topic() {
    let m = b"temperature\x01".to_vec();
    assert_eq!(strip_topic(&m, b"light_level"), Err(DecodeError::TopicMismatch));
    assert_eq!(strip_topic(b"light", b"light_level"), Err(DecodeError::TopicMismatch));
}

#[test]
fn frame_then_strip_round_trips() {
    let payload = vec![0xa2u8, 0x69, 0x00, 0xff];
    let framed = frame_message(b"light_level", &payload);
    assert_eq!(framed.len(), 11 + 4);
    assert_eq!(strip_topic(&framed, b"light_level"), Ok(payload));
    assert_eq!(strip_topic(&frame_message(b"t", &[]), b"t"), Ok(vec![]));
}

#[test]
fn later_pair_wins_for_a_sensor() {
    let b = Batch::from_pairs(1_700_000_000, &vec![(1, bits(0.5)), (2, bits(0.6)), (1, bits(0.9))]);
    assert_eq!(b.timestamp, 1_700_000_000);
    assert_eq!(b.len(), 2);
    assert!(b.changes.contains(&(1, bits(0.9))));
    assert!(b.changes.contains(&(2, bits(0.6))));
}

#[test]
fn empty_batch_has_no_rows() {
    let b = Batch::from_pairs(5, &vec![]);
    assert_eq!(b.len(), 0);
    assert!(batch_rows(&b).is_empty());
    let (s, actions) = drive(0, None);
    assert!(s.committed());
    assert_eq!(actions, vec![WriteAction::Begin, WriteAction::Commit]);
}

#[test]
fn rows_share_timestamp_and_canonical_ids() {
    let b = Batch::from_pairs(1234567890, &vec![(42, bits(0.5)), (-7, bits(0.25)), (0, bits(1.0))]);
    let rows = batch_rows(&b);
    assert_eq!(rows.len(), 3);
    assert_eq!(rows[0].sensor_id, "42");
    assert_eq!(rows[1].sensor_id, "-7");
    assert_eq!(rows[2].sensor_id, "0");
    for r in &rows {
        assert_eq!(r.timestamp, 1234567890);
    }
    assert_eq!(f64::from_bits(rows[1].level_bits), 0.25);
    let big = Batch::from_pairs(1, &vec![(8918593277, bits(0.1))]);
    assert_eq!(batch_rows(&big)[0].sensor_id, "8918593277");
}

#[test]
fn batch_write_commits_when_every_step_succeeds() {
    let (s, actions) = drive(3, None);
    assert!(s.committed());
    assert_eq!(s.phase, WritePhase::Committed);
    assert_eq!(
        actions,
        vec![
            WriteAction::Begin,
            WriteAction::Insert(0),
            WriteAction::Insert(1),
            WriteAction::Insert(2),
            WriteAction::Commit
        ]
    );
}

#[test]
fn batch_write_rolls_back_on_a_failed_insert() {
    let (s, actions) = drive(3, Some(2));
    assert!(!s.committed());
    assert_eq!(s.phase, WritePhase::Aborted);
    assert_eq!(
        actions,
        vec![WriteAction::Begin, WriteAction::Insert(0), WriteAction::Insert(1), WriteAction::Rollback]
    );
}

#[test]
fn batch_write_rolls_back_on_a_failed_commit() {
    let (s, actions) = drive(1, Some(2));
    assert_eq!(s.phase, WritePhase::Aborted);
    assert_eq!(
        actions,
        vec![WriteAction::Begin, WriteAction::Insert(0), WriteAction::Commit, WriteAction::Rollback]
    );
}

#[test]
fn batch_write_stops_when_the_transaction_cannot_open() {
    let (s, actions) = drive(2, Some(0));
    assert_eq!(s.phase, WritePhase::Aborted);
    assert_eq!(actions, vec![WriteAction::Begin]);
    assert!(s.is_done());
}

#[test]
fn builtin_reducers_are_registered() {
    let r = Registry::with_builtins();
    assert_eq!(r.lookup(&"mean".to_string()), Some(ReducerKind::Mean));
    assert_eq!(r.lookup(&"median".to_string()), Some(ReducerKind::Median));
    assert_eq!(r.lookup(&"max".to_string()), None);
}

#[test]
fn a_name_registers_once() {
    let mut r = Registry::with_builtins();
    assert!(!r.register("mean".to_string(), ReducerKind::Median));
    assert_eq!(r.lookup(&"mean".to_string()), Some(ReducerKind::Mean));
    assert!(r.register("middle".to_string(), ReducerKind::Median));
    assert_eq!(r.lookup(&"middle".to_string()), Some(ReducerKind::Median));
    let empty = Registry::new();
    assert_eq!(empty.lookup(&"mean".to_string()), None);
}

#[test]
fn unknown_reducer_is_reported_before_anything_else() {
    let r = Registry::with_builtins();
    assert_eq!(plan_query(&query("1", "mode", 3600, 0, 10), &r).err(), Some(QueryError::UnknownReducer));
    assert_eq!(plan_query(&query("", "mode", 0, 10, 0), &r).err(), Some(QueryError::UnknownReducer));
}

#[test]
fn invalid_parameters_are_rejected() {
    let r = Registry::with_builtins();
    assert_eq!(plan_query(&query("", "mean", 3600, 0, 10), &r).err(), Some(QueryError::Validation));
    assert_eq!(plan_query(&query("1", "mean", 3600, 11, 10), &r).err(), Some(QueryError::Validation));
    assert_eq!(plan_query(&query("1", "mean", 0, 0, 10), &r).err(), Some(QueryError::Validation));
    assert_eq!(plan_query(&query("1", "mean", -5, 0, 10), &r).err(), Some(QueryError::Validation));
}

#[test]
fn valid_query_gives_plan() {
    let r = Registry::with_builtins();
    let p = plan_query(&query("8918593277", "median", 60, 10, 10), &r).ok().unwrap();
    assert_eq!(p.sensor_id, "8918593277");
    assert_eq!(p.reducer, ReducerKind::Median);
    assert_eq!((p.bucket_width, p.from, p.to), (60, 10, 10));
}

#[test]
fn readings_split_at_bucket_boundaries() {
    let rs = vec![reading(0, 1.0), reading(1800, 2.0), reading(3600, 3.0)];
    let bs = bucket_readings(&rs, 0, 3600, 3600);
    assert_eq!(bs.len(), 2);
    assert_eq!(bs[0].start, 0);
    assert_eq!(bs[0].values, vec![bits(1.0), bits(2.0)]);
    assert_eq!(bs[1].start, 3600);
    assert_eq!(bs[1].values, vec![bits(3.0)]);
}

#[test]
fn empty_buckets_are_left_out_and_aligned_to_from() {
    let rs = vec![reading(105, 1.0), reading(110, 2.0), reading(400, 3.0), reading(405, 4.0)];
    let bs = bucket_readings(&rs, 100, 500, 100);
    let starts: Vec<i64> = bs.iter().map(|b| b.start).collect();
    assert_eq!(starts, vec![100, 400]);
    assert_eq!(bs[1].values, vec![bits(3.0), bits(4.0)]);
}

#[test]
fn buckets_at_the_ends_of_the_time_line() {
    let rs = vec![reading(i64::MIN, 1.0), reading(i64::MAX, 2.0)];
    let bs = bucket_readings(&rs, i64::MIN, i64::MAX, i64::MAX);
    let starts: Vec<i64> = bs.iter().map(|b| b.start).collect();
    assert_eq!(starts, vec![i64::MIN, i64::MAX - 1]);
}

#[test]
fn empty_range_gives_empty_series() {
    let r = Registry::with_builtins();
    let p = plan_query(&query("1", "mean", 3600, 0, 7200), &r).ok().unwrap();
    let bs = plan_buckets(&p, vec![]).ok().unwrap();
    assert!(bs.is_empty());
}

#[test]
fn store_rows_out_of_range_or_order_are_refused() {
    let p = QueryPlan { sensor_id: "1".to_string(), reducer: ReducerKind::Mean, bucket_width: 10, from: 0, to: 100 };
    assert!(matches!(plan_buckets(&p, vec![reading(5, 1.0), reading(101, 1.0)]), Err(QueryError::StoreUnavailable)));
    assert!(matches!(plan_buckets(&p, vec![reading(50, 1.0), reading(40, 1.0)]), Err(QueryError::StoreUnavailable)));
    assert!(matches!(check_range(vec![reading(-1, 1.0)], 0, 100), Err(QueryError::StoreUnavailable)));
    let ok = check_range(vec![reading(0, 1.0), reading(0, 2.0), reading(100, 3.0)], 0, 100).ok().unwrap();
    assert_eq!(ok.len(), 3);
    let bs = plan_buckets(&p, vec![reading(3, 1.0), reading(3, 2.0), reading(15, 3.0)]).ok().unwrap();
    assert_eq!(bs.len(), 2);
}

#[test]
fn median_of_odd_count_is_middle() {
    let v = vec![bits(3.0), bits(1.0), bits(2.0)];
    assert_eq!(median_pick(&v), Ok(MedianPick::Middle(bits(2.0))));
}

#[test]
fn median_of_even_count_averages_middle_pair() {
    let v = vec![bits(4.0), bits(1.0), bits(3.0), bits(2.0)];
    let pick = median_pick(&v);
    assert_eq!(pick, Ok(MedianPick::Between(bits(2.0), bits(3.0))));
    if let Ok(MedianPick::Between(a, b)) = pick {
        assert_eq!((f64::from_bits(a) + f64::from_bits(b)) / 2.0, 2.5);
    }
}

#[test]
fn median_rejects_nan() {
    let v = vec![bits(1.0), bits(f64::NAN), bits(2.0)];
    assert_eq!(median_pick(&v), Err(QueryError::InvalidValue));
    assert!(nan_bits(bits(f64::NAN)));
    assert!(nan_bits(bits(-f64::NAN)));
    assert!(!nan_bits(bits(f64::INFINITY)));
    assert!(!nan_bits(bits(-0.0)));
}

#[test]
fn sort_orders_negative_and_infinite_values() {
    let v = vec![bits(0.5), bits(-2.0), bits(f64::INFINITY), bits(-0.5), bits(0.0), bits(f64::NEG_INFINITY)];
    let s: Vec<f64> = sort_levels(&v).into_iter().map(f64::from_bits).collect();
    assert_eq!(s, vec![f64::NEG_INFINITY, -2.0, -0.5, 0.0, 0.5, f64::INFINITY]);
    let zeros = sort_levels(&vec![bits(0.0), bits(-0.0)]);
    assert_eq!(zeros, vec![bits(0.0), bits(-0.0)]);
}

#[test]
fn seconds_are_parsed_in_decimal() {
    assert_eq!(parse_seconds("3600"), Some(3600));
    assert_eq!(parse_seconds("-5"), Some(-5));
    assert_eq!(parse_seconds("0"), Some(0));
    assert_eq!(parse_seconds("9223372036854775807"), Some(i64::MAX));
    assert_eq!(parse_seconds("-9223372036854775808"), Some(i64::MIN));
    assert_eq!(parse_seconds("9223372036854775808"), None);
    assert_eq!(parse_seconds(""), None);
    assert_eq!(parse_seconds("-"), None);
    assert_eq!(parse_seconds("12a"), None);
    assert_eq!(parse_seconds("+1"), None);
}

#[test]
fn nan_is_refused_for_every_reducer() {
    assert_eq!(reject_nan(&vec![bits(1.0), bits(f64::NAN)]), Err(QueryError::InvalidValue));
    assert_eq!(reject_nan(&vec![bits(1.0), bits(f64::INFINITY)]), Ok(()));
    assert_eq!(reject_nan(&vec![]), Ok(()));
}

#[test]
fn single_value_is_its_own_median() {
    assert_eq!(median_pick(&vec![bits(-7.5)]), Ok(MedianPick::Middle(bits(-7.5))));
}
