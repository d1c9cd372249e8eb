use tsdb::action::{collect_uuids, find_unescaped_equals, parse_action_line, parse_action_str, Opcode};
use tsdb::fields::Fields;

fn field(fields: &Fields, key: &str) -> String {
    fields.get(key).unwrap().clone()
}

#[test]
fn test_parse_append() {
    let line = "+AGk26cH00001\tname=Alice\tage=30";
    let action = parse_action_line(line, 1).unwrap();
    assert_eq!(action.opcode, Opcode::Append);
    assert_eq!(action.uuid, "AGk26cH00001");
    assert_eq!(field(&action.fields, "name"), "Alice");
    assert_eq!(field(&action.fields, "age"), "30");
}

#[test]
fn test_parse_delete() {
    let line = "-AGk26cH00001";
    let action = parse_action_line(line, 1).unwrap();
    assert_eq!(action.opcode, Opcode::Delete);
    assert_eq!(action.uuid, "AGk26cH00001");
    assert!(action.fields.is_empty());
}

#[test]
fn test_parse_patch() {
    let line = "~AGk26cH00001\tname=Bob";
    let action = parse_action_line(line, 1).unwrap();
    assert_eq!(action.opcode, Opcode::Patch);
    assert_eq!(field(&action.fields, "name"), "Bob");
}

#[test]
fn test_parse_upsert() {
    let line = "!AGk26cH00001\tx=1";
    let action = parse_action_line(line, 1).unwrap();
    assert_eq!(action.opcode, Opcode::Upsert);
}

#[test]
fn test_parse_comment_and_blank() {
    let content = "# this is a comment\n\n+AGk26cH00001\tname=Alice\n";
    let actions = parse_action_str(content).unwrap();
    assert_eq!(actions.len(), 1);
}

#[test]
fn test_parse_invalid_opcode() {
    let line = "?AGk26cH00001\tname=Alice";
    assert!(parse_action_line(line, 1).is_err());
}

#[test]
fn test_parse_escaped_value() {
    let line = "+AGk26cH00001\ttext=hello\\x09world";
    let action = parse_action_line(line, 1).unwrap();
    assert_eq!(field(&action.fields, "text"), "hello\tworld");
}

#[test]
fn test_collect_uuids() {
    let content = "+AGk26cH00001\tname=Alice\n+AGk26cH00002\tname=Bob\n";
    let actions = parse_action_str(content).unwrap();
    let uuids = collect_uuids(&actions);
    assert_eq!(uuids.len(), 2);
}

#[test]
fn test_append_zero_kv_fields_error() {
    let line = "+AGk26cH00001\t";
    assert!(parse_action_line(line, 1).is_err());
}

#[test]
fn test_find_unescaped_equals_invalid_hex() {
    let result = find_unescaped_equals("key\\xZZval=foo", 1);
    assert!(result.is_err());
    let msg = result.unwrap_err().message();
    assert!(msg.contains("invalid escape sequence"), "got: {}", msg);
}
