use std::collections::HashMap;

use chronicle::frame::{decode_frame, encode_frame, FrameRead};
use chronicle::record::aggregate_of;
use chronicle::storage::{
    append_event, group_by_aggregate, load_aggregate, rebuild_index, scan_log_entries,
    AggregateIndex, AppendError, LoadError, LogEntry, ScanError,
};
use serde_json::Value;

/// A stored event with the given aggregate and write timestamp, serialized as
/// one flat JSON object.
fn record(aggregate_id: Option<u64>, write_timestamp_ms: u64) -> Vec<u8> {
    let mut payload = serde_json::Map::new();
    payload.insert("name".to_string(), Value::from("string"));
    payload.insert("email".to_string(), Value::from("string"));
    let mut m = serde_json::Map::new();
    m.insert("write_timestamp_ms".to_string(), Value::from(write_timestamp_ms));
    m.insert("event_type".to_string(), Value::from("Test"));
    m.insert("namespace".to_string(), Value::from("test"));
    m.insert("schema_id".to_string(), Value::from("Test"));
    m.insert("schema_version".to_string(), Value::from(1u32));
    m.insert(
        "aggregate_id".to_string(),
        match aggregate_id {
            Some(id) => Value::from(id),
            None => Value::Null,
        },
    );
    m.insert("payload".to_string(), Value::Object(payload));
    serde_json::to_vec(&Value::Object(m)).unwrap()
}

fn mock_event(id: u64) -> Vec<u8> {
    record(Some(id), 0)
}

/// Appends `rec` to the in-memory log and returns its offset.
fn append_record(log: &mut Vec<u8>, rec: &[u8]) -> u64 {
    let appended = append_event(log.len() as u64, rec).unwrap();
    log.extend_from_slice(&appended.frame);
    appended.offset
}

fn timestamp(rec: &[u8]) -> u64 {
    let v: Value = serde_json::from_slice(rec).unwrap();
    v["write_timestamp_ms"].as_u64().unwrap()
}

#[test]
fn append() {
    let mut log = Vec::new();
    let off1 = append_record(&mut log, &mock_event(1));
    let off2 = append_record(&mut log, &mock_event(2));
    assert!(off2 > off1);
}

#[test]
fn scan_log_entries_with_empty_file_is_ok() {
    let seen = scan_log_entries(&[]).unwrap();
    assert!(seen.is_empty());
}

#[test]
fn scan_log_entries_reads_all_events() {
    let mut log = Vec::new();
    append_record(&mut log, &record(Some(1), 10));
    append_record(&mut log, &record(Some(1), 20));
    append_record(&mut log, &record(Some(2), 30));

    let seen = scan_log_entries(&log).unwrap();
    assert_eq!(seen.len(), 3);
    assert_eq!(timestamp(&seen[0].record) < timestamp(&seen[1].record), true);
    assert_eq!(timestamp(&seen[1].record) < timestamp(&seen[2].record), true);
    assert_eq!(seen[2].aggregate_id, Some(2));
}

#[test]
fn scan_log_entries_rebuilds_aggregate_index() {
    let mut log = Vec::new();
    append_record(&mut log, &mock_event(1));
    append_record(&mut log, &mock_event(1));
    append_record(&mut log, &mock_event(2));

    let mut index: HashMap<u64, Vec<u64>> = HashMap::new();
    for entry in scan_log_entries(&log).unwrap() {
        index.entry(entry.aggregate_id.unwrap()).or_default().push(entry.offset);
    }
    assert_eq!(index[&1].len(), 2);
    assert_eq!(index[&2].len(), 1);
}

#[test]
fn scan_log_entries_ignores_trailing_partial_event() {
    let mut log = Vec::new();
    append_record(&mut log, &mock_event(1));
    append_record(&mut log, &mock_event(1));
    // a length prefix without its payload
    let bogus_len: u32 = 9999;
    log.extend_from_slice(&bogus_len.to_be_bytes());

    let seen = scan_log_entries(&log).unwrap();
    assert_eq!(seen.len(), 2);
    assert_eq!(seen[0].aggregate_id, Some(1));
    assert_eq!(seen[1].aggregate_id, Some(1));
}

#[test]
fn scan_stops_cleanly_on_truncated_entry() {
    let mut log = Vec::new();
    append_record(&mut log, &mock_event(1));
    log.truncate(log.len() - 3);

    let count = scan_log_entries(&log).unwrap().len();
    assert_eq!(count, 0);
}

#[test]
fn rebuilds_index_by_aggregate() {
    let mut log = Vec::new();
    append_record(&mut log, &mock_event(1));
    append_record(&mut log, &mock_event(1));
    append_record(&mut log, &mock_event(2));

    let index = rebuild_index(&log).unwrap();
    assert_eq!(index.get(&1).unwrap().len(), 2);
    assert_eq!(index.get(&2).unwrap().len(), 1);
}

#[test]
fn loads_events_for_single_aggregate() {
    let mut log = Vec::new();
    append_record(&mut log, &mock_event(1));
    append_record(&mut log, &mock_event(1));
    append_record(&mut log, &mock_event(2));

    let index = rebuild_index(&log).unwrap();
    let events = load_aggregate(&log, 1, &index).unwrap();
    assert_eq!(events.len(), 2);
}

#[test]
fn load_aggregate_preserves_append_order() {
    let mut log = Vec::new();
    append_record(&mut log, &record(Some(1), 100));
    append_record(&mut log, &record(Some(1), 200));
    append_record(&mut log, &record(Some(1), 300));

    let index = rebuild_index(&log).unwrap();
    let events = load_aggregate(&log, 1, &index).unwrap();
    assert_eq!(events.len(), 3);
    assert!(timestamp(&events[0]) <= timestamp(&events[1]));
    assert!(timestamp(&events[1]) <= timestamp(&events[2]));
}

#[test]
fn rebuild_index_ignores_trailing_partial_event() {
    let mut log = Vec::new();
    append_record(&mut log, &mock_event(1));
    append_record(&mut log, &mock_event(2));
    log.extend_from_slice(&1234u32.to_be_bytes());

    let index = rebuild_index(&log).unwrap();
    assert_eq!(index.get(&1).unwrap().len(), 1);
    assert_eq!(index.get(&2).unwrap().len(), 1);
}

#[test]
fn three_events_two_aggregates_index_and_load() {
    let a = record(Some(1), 1);
    let b = record(Some(2), 2);
    let c = record(Some(1), 3);
    let mut log = Vec::new();
    let oa = append_record(&mut log, &a);
    let ob = append_record(&mut log, &b);
    let oc = append_record(&mut log, &c);
    assert!(oa < ob && ob < oc);
    assert_eq!(oa, 0);
    assert_eq!(ob, 4 + a.len() as u64);
    assert_eq!(oc, 8 + (a.len() + b.len()) as u64);

    let index = rebuild_index(&log).unwrap();
    let mut expected: AggregateIndex = HashMap::new();
    expected.insert(1, vec![oa, oc]);
    expected.insert(2, vec![ob]);
    assert_eq!(index, expected);

    let loaded = load_aggregate(&log, 1, &index).unwrap();
    assert_eq!(loaded, vec![a, c]);
}

#[test]
fn scan_order_is_append_order_not_timestamp_order() {
    let recs = vec![record(Some(1), 300), record(Some(2), 100), record(None, 200)];
    let mut log = Vec::new();
    let offsets: Vec<u64> = recs.iter().map(|r| append_record(&mut log, r)).collect();
    let seen = scan_log_entries(&log).unwrap();
    let expected: Vec<LogEntry> = vec![
        LogEntry { offset: offsets[0], record: recs[0].clone(), aggregate_id: Some(1) },
        LogEntry { offset: offsets[1], record: recs[1].clone(), aggregate_id: Some(2) },
        LogEntry { offset: offsets[2], record: recs[2].clone(), aggregate_id: None },
    ];
    assert_eq!(seen, expected);
}

#[test]
fn trailing_bytes_shorter_than_a_prefix_are_a_clean_end() {
    let mut log = Vec::new();
    append_record(&mut log, &mock_event(4));
    log.extend_from_slice(&[0, 0]);
    let seen = scan_log_entries(&log).unwrap();
    assert_eq!(seen.len(), 1);
    assert_eq!(seen[0].aggregate_id, Some(4));
}

#[test]
fn events_without_aggregate_are_not_indexed() {
    let mut log = Vec::new();
    append_record(&mut log, &record(None, 1));
    let o = append_record(&mut log, &record(Some(0), 2));
    append_record(&mut log, &record(None, 3));
    let index = rebuild_index(&log).unwrap();
    assert_eq!(index.len(), 1);
    assert_eq!(index[&0], vec![o]);
}

#[test]
fn load_of_absent_aggregate_is_empty() {
    let mut log = Vec::new();
    append_record(&mut log, &mock_event(1));
    let index = rebuild_index(&log).unwrap();
    assert_eq!(load_aggregate(&log, 42, &index), Ok(vec![]));
    assert_eq!(load_aggregate(&[], 42, &HashMap::new()), Ok(vec![]));
}

#[test]
fn corrupt_record_stops_scan_and_index() {
    let mut log = Vec::new();
    append_record(&mut log, &mock_event(1));
    let bad = append_record(&mut log, b"not json");
    append_record(&mut log, &mock_event(2));
    assert_eq!(scan_log_entries(&log), Err(ScanError::CorruptEntry { offset: bad }));
    assert_eq!(rebuild_index(&log), Err(ScanError::CorruptEntry { offset: bad }));
}

#[test]
fn load_reports_missing_and_corrupt_frames() {
    let mut log = Vec::new();
    let good = append_record(&mut log, &mock_event(7));
    let bad = append_record(&mut log, b"[1, 2]");
    let mut index: AggregateIndex = HashMap::new();
    index.insert(7, vec![good, bad]);
    assert_eq!(load_aggregate(&log, 7, &index), Err(LoadError::CorruptEntry { offset: bad }));
    let past_end = log.len() as u64;
    index.insert(7, vec![good, past_end, bad]);
    assert_eq!(
        load_aggregate(&log, 7, &index),
        Err(LoadError::IncompleteEntry { offset: past_end })
    );
}

#[test]
fn round_trip_keeps_the_record() {
    let rec = record(Some(9), 55);
    let mut log = Vec::new();
    append_record(&mut log, &mock_event(1));
    let off = append_record(&mut log, &rec);
    match decode_frame(&log, off) {
        FrameRead::Complete { record: got, next } => {
            assert_eq!(got, rec);
            assert_eq!(next, log.len() as u64);
            let v: Value = serde_json::from_slice(&got).unwrap();
            assert_eq!(v["event_type"], Value::from("Test"));
            assert_eq!(v["namespace"], Value::from("test"));
            assert_eq!(v["schema_id"], Value::from("Test"));
            assert_eq!(v["schema_version"], Value::from(1u32));
            assert_eq!(v["aggregate_id"], Value::from(9u64));
            assert_eq!(v["payload"]["name"], Value::from("string"));
            assert_eq!(v["write_timestamp_ms"], Value::from(55u64));
        }
        FrameRead::CleanEnd => panic!("expected a whole frame"),
    }
}

#[test]
fn frame_prefix_is_big_endian() {
    assert_eq!(encode_frame(b"abc"), Some(vec![0, 0, 0, 3, b'a', b'b', b'c']));
    let long = vec![7u8; 0x0102];
    let frame = encode_frame(&long).unwrap();
    assert_eq!(&frame[..4], &[0, 0, 1, 2]);
    assert_eq!(frame.len(), 4 + 0x0102);
    assert_eq!(decode_frame(&frame, 0), FrameRead::Complete { record: long, next: 0x0106 });
    assert_eq!(decode_frame(&frame[..0x0105], 0), FrameRead::CleanEnd);
    assert_eq!(decode_frame(&[0, 0, 0], 0), FrameRead::CleanEnd);
    assert_eq!(decode_frame(&[0, 0, 0, 0], 0), FrameRead::Complete { record: vec![], next: 4 });
    assert_eq!(decode_frame(&[0, 0, 0, 0], 9), FrameRead::CleanEnd);
}

#[test]
fn append_places_frame_at_log_end() {
    let a = append_event(17, b"xy").unwrap();
    assert_eq!(a.offset, 17);
    assert_eq!(a.frame, vec![0, 0, 0, 2, b'x', b'y']);
    assert_eq!(append_event(u64::MAX - 5, b"xy"), Err(AppendError::LogTooLong));
    assert!(append_event(u64::MAX - 6, b"xy").is_ok());
}

#[test]
fn aggregate_field_is_read_from_json() {
    assert_eq!(aggregate_of(br#"{"aggregate_id": 7}"#), Some(Some(7)));
    assert_eq!(aggregate_of(br#"{"aggregate_id": null}"#), Some(None));
    assert_eq!(aggregate_of(br#"{"other": 1}"#), Some(None));
    assert_eq!(aggregate_of(b"[7]"), None);
    assert_eq!(aggregate_of(b"{"), None);
}

#[test]
fn grouping_keeps_entry_order() {
    let entries = vec![
        LogEntry { offset: 5, record: vec![], aggregate_id: Some(3) },
        LogEntry { offset: 9, record: vec![], aggregate_id: None },
        LogEntry { offset: 12, record: vec![], aggregate_id: Some(3) },
        LogEntry { offset: 20, record: vec![], aggregate_id: Some(4) },
    ];
    let index = group_by_aggregate(&entries);
    assert_eq!(index.len(), 2);
    assert_eq!(index[&3], vec![5, 12]);
    assert_eq!(index[&4], vec![20]);
}
