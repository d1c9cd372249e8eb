use tsdb::action::parse_action_str;
use tsdb::dotsv::{apply_actions, DotsvFile, Record};
use tsdb::fields::Fields;

const GOOD_UUID1: &str = "AGk26cH00001";
const GOOD_UUID2: &str = "AGk26cH00002";

fn record(uuid: &str, pairs: &[(&str, &str)]) -> Record {
    let mut fields = Fields::new();
    for (k, v) in pairs {
        fields.insert(k.to_string(), v.to_string());
    }
    Record { uuid: uuid.to_string(), fields }
}

fn field(fields: &Fields, key: &str) -> String {
    fields.get(key).unwrap().clone()
}

fn make_db_with(records: &[(&str, &[(&str, &str)])]) -> DotsvFile {
    let mut sorted = Vec::new();
    for (uuid, fields) in records {
        sorted.push(record(uuid, fields).serialize());
    }
    sorted.sort();
    DotsvFile { sorted, pending: Vec::new() }
}

#[test]
fn test_binary_search_found() {
    let db = make_db_with(&[(GOOD_UUID1, &[("name", "Alice")])]);
    assert!(db.binary_search_uuid(GOOD_UUID1).is_ok());
}

#[test]
fn test_binary_search_not_found() {
    let db = make_db_with(&[(GOOD_UUID1, &[("name", "Alice")])]);
    assert!(db.binary_search_uuid(GOOD_UUID2).is_err());
}

#[test]
fn test_uuid_exists_in_sorted() {
    let db = make_db_with(&[(GOOD_UUID1, &[("name", "Alice")])]);
    assert!(db.uuid_exists(GOOD_UUID1));
    assert!(!db.uuid_exists(GOOD_UUID2));
}

#[test]
fn test_append_then_exists() {
    let mut db = DotsvFile::empty();
    let actions =
        parse_action_str(&format!("+{}\tname=Alice\n", GOOD_UUID1)).unwrap();
    apply_actions(&mut db, &actions).unwrap();
    assert!(db.uuid_exists(GOOD_UUID1));
}

#[test]
fn test_append_duplicate_error() {
    let mut db = make_db_with(&[(GOOD_UUID1, &[("name", "Alice")])]);
    let actions =
        parse_action_str(&format!("+{}\tname=Bob\n", GOOD_UUID1)).unwrap();
    assert!(apply_actions(&mut db, &actions).is_err());
}

#[test]
fn test_delete_removes() {
    let mut db = make_db_with(&[(GOOD_UUID1, &[("name", "Alice")])]);
    let actions = parse_action_str(&format!("-{}\n", GOOD_UUID1)).unwrap();
    apply_actions(&mut db, &actions).unwrap();
    assert!(!db.uuid_exists(GOOD_UUID1));
}

#[test]
fn test_delete_missing_error() {
    let mut db = DotsvFile::empty();
    let actions = parse_action_str(&format!("-{}\n", GOOD_UUID1)).unwrap();
    assert!(apply_actions(&mut db, &actions).is_err());
}

#[test]
fn test_patch_updates_field() {
    let mut db = make_db_with(&[(GOOD_UUID1, &[("name", "Alice"), ("age", "30")])]);
    let actions =
        parse_action_str(&format!("~{}\tname=Bob\n", GOOD_UUID1)).unwrap();
    apply_actions(&mut db, &actions).unwrap();
    db.compact().unwrap();
    let rec = Record::parse(&db.sorted[0], 1).unwrap();
    assert_eq!(field(&rec.fields, "name"), "Bob");
    assert_eq!(field(&rec.fields, "age"), "30");
}

#[test]
fn test_patch_delete_key() {
    let mut db = make_db_with(&[(GOOD_UUID1, &[("name", "Alice"), ("tmp", "x")])]);
    let actions =
        parse_action_str(&format!("~{}\ttmp=\\x00\n", GOOD_UUID1)).unwrap();
    apply_actions(&mut db, &actions).unwrap();
    db.compact().unwrap();
    let rec = Record::parse(&db.sorted[0], 1).unwrap();
    assert!(!rec.fields.contains_key("tmp"));
}

#[test]
fn test_upsert_insert() {
    let mut db = DotsvFile::empty();
    let actions =
        parse_action_str(&format!("!{}\tname=Alice\n", GOOD_UUID1)).unwrap();
    apply_actions(&mut db, &actions).unwrap();
    assert!(db.uuid_exists(GOOD_UUID1));
}

#[test]
fn test_compact_clears_pending() {
    let mut db = DotsvFile::empty();
    let actions =
        parse_action_str(&format!("+{}\tname=Alice\n", GOOD_UUID1)).unwrap();
    apply_actions(&mut db, &actions).unwrap();
    assert!(!db.pending.is_empty());
    db.compact().unwrap();
    assert!(db.pending.is_empty());
    assert!(!db.sorted.is_empty());
}

#[test]
fn test_serialize_record() {
    let rec = record(GOOD_UUID1, &[("name", "Alice")]);
    let s = rec.serialize();
    assert!(s.starts_with(GOOD_UUID1));
    assert!(s.contains("name=Alice"));
}

#[test]
fn test_from_str_round_trip() {
    let mut db = DotsvFile::empty();
    let actions = parse_action_str(&format!(
        "+{}\tname=Alice\n+{}\tname=Bob\n",
        GOOD_UUID1, GOOD_UUID2
    ))
    .unwrap();
    apply_actions(&mut db, &actions).unwrap();
    db.compact().unwrap();

    let mut buf = Vec::new();
    for line in &db.sorted {
        buf.extend_from_slice(line.as_bytes());
        buf.push(b'\n');
    }
    buf.push(b'\n');
    let text = String::from_utf8(buf).unwrap();

    let db2 = DotsvFile::parse_str(&text).unwrap();
    assert_eq!(db2.sorted.len(), 2);
    assert!(db2.uuid_exists(GOOD_UUID1));
    assert!(db2.uuid_exists(GOOD_UUID2));
}

#[test]
fn test_patch_all_fields_to_null_returns_error() {
    let mut db = make_db_with(&[(GOOD_UUID1, &[("name", "Alice")])]);
    let actions =
        parse_action_str(&format!("~{}\tname=\\x00\n", GOOD_UUID1)).unwrap();
    let result = apply_actions(&mut db, &actions);
    assert!(
        result.is_err(),
        "expected error when patch removes all fields, got Ok"
    );
    let msg = result.unwrap_err().message();
    assert!(
        msg.contains("patch would remove all fields"),
        "unexpected error message: {}",
        msg
    );
}
