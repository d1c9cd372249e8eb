use std::time::{SystemTime, UNIX_EPOCH};
use tsdb::lock::{parse_lock_file, serialize_lock_file, EntryStatus, LockEntry};

#[test]
fn test_parse_lock_file() {
    let content = "EXEC\t000000000000001a\tuuid1,uuid2\t1700000000\nWAIT\t000000000000002b\tuuid3\t1700000001\n";
    let entries = parse_lock_file(content);
    assert_eq!(entries.len(), 2);
    assert_eq!(entries[0].status, EntryStatus::Exec);
    assert_eq!(entries[0].pid, 26);
    assert_eq!(entries[0].uuids, vec!["uuid1", "uuid2"]);
    assert_eq!(entries[1].status, EntryStatus::Wait);
}

#[test]
fn test_serialize_round_trip() {
    let entries = vec![
        LockEntry {
            status: EntryStatus::Exec,
            pid: 42,
            uuids: vec!["u1".to_string(), "u2".to_string()],
            timestamp: 12345,
        },
        LockEntry {
            status: EntryStatus::Wait,
            pid: 99,
            uuids: vec!["u3".to_string()],
            timestamp: 12346,
        },
    ];
    let serialized = serialize_lock_file(&entries);
    let parsed = parse_lock_file(&serialized);
    assert_eq!(parsed.len(), 2);
    assert_eq!(parsed[0].pid, 42);
    assert_eq!(parsed[1].pid, 99);
}

#[test]
fn test_stale_detection() {
    let old_entry = LockEntry {
        status: EntryStatus::Exec,
        pid: 1,
        uuids: vec![],
        timestamp: 0,
    };
    assert!(old_entry.is_stale());

    let now = SystemTime::now().duration_since(UNIX_EPOCH).unwrap().as_secs();
    let fresh_entry = LockEntry {
        status: EntryStatus::Wait,
        pid: 2,
        uuids: vec![],
        timestamp: now,
    };
    assert!(!fresh_entry.is_stale());
}
