use asmt::storage::wal::log_utils::{create_command, find_command_from_id};
use asmt::storage::wal::reader::{get_uncommitted_transactions, uncommitted_records};
use asmt::storage::wal::record::{Payload, RecordStruct};
use asmt::storage::wal::recovery::{replay_line, replay_lines};
use asmt::storage::wal::writer::{find_type, new_record, seal_record};

fn record(command_type: u8, payload: Option<Payload>) -> RecordStruct {
    RecordStruct {
        magic: 1,
        version: 1,
        command_type,
        total_len: 0,
        payload_len: 0,
        crc32c: 0,
        lsn: 0,
        prev_lsn: 0,
        payload,
    }
}

fn payload(k: u32, v: Option<&str>) -> Option<Payload> {
    Some(Payload { k, v: v.map(|s| s.to_string()), txid: 1 })
}

#[test]
fn command_names_by_type() {
    assert_eq!(find_command_from_id(0), "begin");
    assert_eq!(find_command_from_id(1), "commit");
    assert_eq!(find_command_from_id(2), "abort");
    assert_eq!(find_command_from_id(3), "insert");
    assert_eq!(find_command_from_id(4), "update");
    assert_eq!(find_command_from_id(5), "delete");
    assert_eq!(find_command_from_id(6), "unknown");
}

#[test]
fn create_command_quotes_name_and_value() {
    assert_eq!(create_command(payload(5, Some("x")), 3), "\"insert\" 5 \"x\"");
    assert_eq!(create_command(payload(5, None), 5), "\"delete\" 5");
    assert_eq!(create_command(None, 0), "begin");
}

#[test]
fn create_command_escapes_the_value() {
    assert_eq!(create_command(payload(1, Some("a\"b")), 4), "\"update\" 1 \"a\\\"b\"");
}

#[test]
fn find_type_numbers_commands() {
    assert_eq!(find_type("begin"), 0);
    assert_eq!(find_type("commit"), 1);
    assert_eq!(find_type("abort"), 2);
    assert_eq!(find_type("insert"), 3);
    assert_eq!(find_type("update"), 4);
    assert_eq!(find_type("delete"), 5);
    assert_eq!(find_type("Begin"), 0xFF);
}

#[test]
fn new_record_fills_the_header() {
    let r = new_record("update", payload(2, Some("v")), 40, 24, 80);
    assert_eq!((r.magic, r.version, r.command_type), (1, 1, 4));
    assert_eq!((r.total_len, r.payload_len, r.crc32c, r.lsn, r.prev_lsn), (80, 24, 0, 0, 40));
    assert_eq!(r.payload, payload(2, Some("v")));
}

#[test]
fn seal_record_sets_crc32c_and_position() {
    let mut r = record(3, None);
    seal_record(&mut r, &b"123456789".to_vec(), 77);
    // The standard CRC-32C check value.
    assert_eq!(r.crc32c, 0xE306_9283);
    assert_eq!(r.lsn, 77);
    assert_eq!(r.command_type, 3);
}

#[test]
fn uncommitted_commands_are_those_after_the_last_end() {
    let records = vec![
        record(0, None),
        record(3, payload(1, Some("a"))),
        record(1, None),
        record(0, None),
        record(3, payload(2, Some("b"))),
    ];
    assert_eq!(get_uncommitted_transactions(records), vec!["begin".to_string(), "\"insert\" 2 \"b\"".to_string()]);
}

#[test]
fn uncommitted_commands_after_an_abort_are_none() {
    let records = vec![record(0, None), record(3, payload(1, Some("a"))), record(2, None)];
    assert!(get_uncommitted_transactions(records).is_empty());
}

#[test]
fn replay_line_strips_quotes_and_adds_the_address() {
    // The logged text loses its outer quotes, is written again with `{:?}`
    // (escaping the inner quotes), and then every quote is dropped.
    assert_eq!(replay_line(record(3, payload(5, Some("x")))), "insert\\ 5 \\x 127.0.0.1:34254");
    assert_eq!(replay_line(record(0, None)), "begin 127.0.0.1:34254");
}

#[test]
fn replay_lines_end_with_an_abort() {
    let lines = replay_lines(vec![record(0, None), record(1, None)]);
    assert_eq!(lines, vec!["begin 127.0.0.1:34254", "commit 127.0.0.1:34254", "abort 127.0.0.1:34254"]);
}

#[test]
fn uncommitted_records_keep_keys_and_values_after_the_last_end() {
    let records = vec![
        record(0x00, None),
        record(0x03, Some(Payload { k: 1, v: Some("a".to_string()), txid: 1 })),
        record(0x01, None),
        record(0x00, None),
        record(0x03, Some(Payload { k: 7, v: Some("seven".to_string()), txid: 2 })),
        record(0x05, Some(Payload { k: 1, v: None, txid: 2 })),
    ];
    let left = uncommitted_records(records);
    assert_eq!(left.len(), 3);
    assert_eq!(left[0].command_type, 0x00);
    assert_eq!(left[1].command_type, 0x03);
    assert_eq!(left[1].payload, Some(Payload { k: 7, v: Some("seven".to_string()), txid: 2 }));
    assert_eq!(left[2].command_type, 0x05);
    assert_eq!(left[2].payload, Some(Payload { k: 1, v: None, txid: 2 }));
}

#[test]
fn uncommitted_records_are_empty_after_an_abort_at_the_end() {
    let records = vec![
        record(0x00, None),
        record(0x03, Some(Payload { k: 1, v: Some("a".to_string()), txid: 1 })),
        record(0x02, None),
    ];
    assert!(uncommitted_records(records).is_empty());
}
