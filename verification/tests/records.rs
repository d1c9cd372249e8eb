use std::time::{SystemTime, UNIX_EPOCH};
use std::cell::{Cell, RefCell};
use std::collections::BTreeMap;
use tsdb::action::parse_action_str;
use tsdb::clock::timestamp;
use tsdb::dotsv::{apply_actions, DotsvFile};
use tsdb::relate::last_nonempty_line;
use tsdb::dotsv::Record;
use tsdb::error::TsdbError;
use tsdb::fields::Fields;
use tsdb::keytype::kt_ptv_path;
use tsdb::lock::{serialize_lock_file, EntryStatus, LockEntry, LockManager};
use tsdb::records::{
    emit_jsonl_line, emit_missing_line, emit_records, encode_value, parse_uuid_lines, write_json_string,
};
use tsdb::relate::{generate_rtvs, kv_rtv_path, uuid_rtv_path, vk_rtv_path, RtvFooters};

/// Files in memory, with the moments at which they were written.
struct Disk {
    files: RefCell<BTreeMap<String, (String, u64)>>,
    clock: Cell<u64>,
}

impl Disk {
    fn new() -> Disk {
        Disk { files: RefCell::new(BTreeMap::new()), clock: Cell::new(1_700_000_000) }
    }

    fn at(&self, name: &str) -> String {
        format!("/data/{}", name)
    }

    fn tick(&self) -> u64 {
        self.clock.set(self.clock.get() + 1);
        self.clock.get()
    }

    fn write(&self, path: &str, text: &str) {
        let now = self.tick();
        self.files.borrow_mut().insert(path.to_string(), (text.to_string(), now));
    }

    fn has(&self, path: &str) -> bool {
        self.files.borrow().contains_key(path)
    }

    fn read(&self, path: &str) -> String {
        self.files.borrow()[path].0.clone()
    }

    fn written(&self, path: &str) -> u64 {
        self.files.borrow()[path].1
    }

    fn save(&self, db: &DotsvFile, path: &str) {
        let stamp = timestamp(self.tick(), 0);
        self.write(path, &db.to_text(&stamp));
    }

    fn load(&self, path: &str) -> DotsvFile {
        DotsvFile::from_bytes(self.read(path).as_bytes()).unwrap()
    }

    fn footer(&self, path: &str) -> String {
        last_nonempty_line(&self.read(path), path).unwrap()
    }

    fn footer_if(&self, path: &str) -> Option<String> {
        if self.has(path) {
            Some(self.footer(path))
        } else {
            None
        }
    }

    fn relate(&self, dov: &str, db: &DotsvFile) -> Result<(), TsdbError> {
        let ts = self.footer(dov);
        let existing = RtvFooters {
            kv: self.footer_if(&kv_rtv_path(dov)),
            vk: self.footer_if(&vk_rtv_path(dov)),
            uuid: self.footer_if(&uuid_rtv_path(dov)),
        };
        if let Some(t) = generate_rtvs(db, &ts, &existing)? {
            self.write(&kv_rtv_path(dov), &t.kv);
            self.write(&vk_rtv_path(dov), &t.vk);
            self.write(&uuid_rtv_path(dov), &t.uuid);
        }
        Ok(())
    }

    /// Run `body` between joining the queue of writers and leaving it.
    fn locked<T>(
        &self,
        dov: &str,
        uuids: Vec<String>,
        body: impl Fn() -> Result<T, TsdbError>,
    ) -> Result<T, TsdbError> {
        let lock = LockManager::new(dov, uuids);
        let now = SystemTime::now().duration_since(UNIX_EPOCH).unwrap().as_secs();
        let text = if self.has(&lock.lock_path) { self.read(&lock.lock_path) } else { String::new() };
        self.write(&lock.lock_path, &lock.register(&text, now)?);
        let turn = lock.try_promote(&self.read(&lock.lock_path), now).expect("a turn");
        self.write(&lock.lock_path, &turn);
        let result = body();
        self.write(&lock.lock_path, &lock.release(&self.read(&lock.lock_path)));
        result
    }

    fn records(&self, utv: &str, dov: &str) -> Result<String, TsdbError> {
        let uuids = parse_uuid_lines(&self.read(utv))?;
        self.locked(dov, Vec::new(), || {
            let mut db = self.load(dov);
            db.compact()?;
            self.save(&db, dov);
            self.relate(dov, &db)?;
            let mut out = String::new();
            emit_records(&mut out, &uuids, &db)?;
            Ok(out)
        })
    }
}

fn build(tmp: &Disk, action: &str) -> String {
    let dov = tmp.at("test.dov");
    let mut db = DotsvFile::empty();
    let actions = parse_action_str(action).unwrap();
    apply_actions(&mut db, &actions).unwrap();
    db.compact().unwrap();
    tmp.save(&db, &dov);
    dov
}

fn rec(uuid: &str, pairs: &[(&str, &str)]) -> Record {
    let mut fields = Fields::new();
    for (k, v) in pairs {
        fields.insert(k.to_string(), v.to_string());
    }
    Record { uuid: uuid.to_string(), fields }
}

fn emit_to_string(r: &Record) -> String {
    let mut buf = String::new();
    emit_jsonl_line(&mut buf, r).unwrap();
    buf
}

fn encode_to_string(v: &str) -> String {
    let mut buf = String::new();
    encode_value(&mut buf, v).unwrap();
    buf
}

fn json_str(s: &str) -> String {
    let mut buf = String::new();
    write_json_string(&mut buf, s);
    buf
}

fn to_buffer(tmp: &Disk, uuids: &[&str], dov: &str) -> String {
    let db = tmp.load(dov);
    let mut buf = String::new();
    for u in uuids {
        match db.binary_search_uuid(u) {
            Ok(idx) => {
                let r = Record::parse(&db.sorted[idx], idx + 1).unwrap();
                emit_jsonl_line(&mut buf, &r).unwrap();
            }
            Err(_) => emit_missing_line(&mut buf, u),
        }
    }
    buf
}

#[test]
fn parse_uuid_lines_empty() {
    let r = "";
    assert!(parse_uuid_lines(r).unwrap().is_empty());
}

#[test]
fn parse_uuid_lines_single_line() {
    let r = "AGk26cH00001\n";
    let v = parse_uuid_lines(r).unwrap();
    assert_eq!(v, vec!["AGk26cH00001"]);
}

#[test]
fn parse_uuid_lines_multiple_lines_preserve_order() {
    let r = "BGk26cH00001\nAGk26cH00001\nCGk26cH00001\n";
    let v = parse_uuid_lines(r).unwrap();
    assert_eq!(v, vec!["BGk26cH00001", "AGk26cH00001", "CGk26cH00001"]);
}

#[test]
fn parse_uuid_lines_skip_blank() {
    let r = "\nAGk26cH00001\n\n";
    let v = parse_uuid_lines(r).unwrap();
    assert_eq!(v, vec!["AGk26cH00001"]);
}

#[test]
fn parse_uuid_lines_skip_comment() {
    let r = "# header\nAGk26cH00001\n# footer\n";
    let v = parse_uuid_lines(r).unwrap();
    assert_eq!(v, vec!["AGk26cH00001"]);
}

#[test]
fn parse_uuid_lines_rejects_short_uuid() {
    let r = "AGk26cH0001\n";
    assert!(parse_uuid_lines(r).is_err());
}

#[test]
fn parse_uuid_lines_rejects_long_uuid() {
    let r = "AGk26cH000012\n";
    assert!(parse_uuid_lines(r).is_err());
}

#[test]
fn parse_uuid_lines_rejects_trailing_whitespace() {
    let r = "AGk26cH0001 \n";
    assert!(parse_uuid_lines(r).is_err());
}

#[test]
fn parse_uuid_lines_rejects_leading_whitespace() {
    let r = " AGk26cH00001\n";
    assert!(parse_uuid_lines(r).is_err());
}

#[test]
fn parse_uuid_lines_rejects_bad_base62_char() {
    let r = "AGk26zH00001\n";
    assert!(parse_uuid_lines(r).is_err());
}

#[test]
fn parse_uuid_lines_rejects_lowercase_l() {
    let r = "AGk26cH0l001\n";
    assert!(parse_uuid_lines(r).is_err());
}

#[test]
fn parse_uuid_lines_rejects_capital_o() {
    let r = "AGk26cH0O001\n";
    assert!(parse_uuid_lines(r).is_err());
}

#[test]
fn parse_uuid_lines_rejects_bom_at_start() {
    let mut text = String::new();
    text.push_str("\u{FEFF}");
    text.push_str("AGk26cH00001\n");
    assert!(parse_uuid_lines(&text).is_err());
}

#[test]
fn parse_uuid_lines_rejects_crlf_line_ending() {
    let r = "AGk26cH00001\r\n";
    let err = parse_uuid_lines(r).unwrap_err();
    let msg = err.message();
    assert!(msg.contains("CRLF"), "got: {}", msg);
}

#[test]
fn parse_uuid_lines_preserves_duplicates() {
    let r = "AGk26cH00001\nAGk26cH00001\n";
    let v = parse_uuid_lines(r).unwrap();
    assert_eq!(v.len(), 2);
    assert_eq!(v[0], v[1]);
}

#[test]
fn parse_uuid_lines_reports_line_number_in_error() {
    let r = "AGk26cH00001\nbadline\n";
    let err = parse_uuid_lines(r).unwrap_err();
    let msg = err.message();
    assert!(msg.contains("line 2"), "got: {}", msg);
}

#[test]
fn parse_uuid_lines_from_stdin_dash_alias_is_separate_path() {
    let tmp = Disk::new();
    let p = tmp.at("input.utv");
    tmp.write(&p, "AGk26cH00001\n");
    let v = parse_uuid_lines(&tmp.read(&p)).unwrap();
    assert_eq!(v, vec!["AGk26cH00001"]);
}

#[test]
fn json_string_basic_ascii() {
    assert_eq!(json_str("hello"), "\"hello\"");
}

#[test]
fn json_string_double_quote_escaped() {
    assert_eq!(json_str("a\"b"), "\"a\\\"b\"");
}

#[test]
fn json_string_backslash_escaped() {
    assert_eq!(json_str("a\\b"), "\"a\\\\b\"");
}

#[test]
fn json_string_newline_short_form() {
    assert_eq!(json_str("a\nb"), "\"a\\nb\"");
}

#[test]
fn json_string_tab_short_form() {
    assert_eq!(json_str("a\tb"), "\"a\\tb\"");
}

#[test]
fn json_string_cr_short_form() {
    assert_eq!(json_str("a\rb"), "\"a\\rb\"");
}

#[test]
fn json_string_backspace_short_form() {
    assert_eq!(json_str("\x08"), "\"\\b\"");
}

#[test]
fn json_string_form_feed_short_form() {
    assert_eq!(json_str("\x0C"), "\"\\f\"");
}

#[test]
fn json_string_low_control_long_form_0x07() {
    assert_eq!(json_str("\x07"), "\"\\u0007\"");
}

#[test]
fn json_string_zero_byte_long_form_0x00() {
    assert_eq!(json_str("\x00"), "\"\\u0000\"");
}

#[test]
fn json_string_passes_unicode_verbatim_cjk() {
    assert_eq!(json_str("東京"), "\"東京\"");
}

#[test]
fn json_string_emoji_round_trip() {
    assert_eq!(json_str("🚀"), "\"🚀\"");
}

#[test]
fn json_string_does_not_escape_forward_slash() {
    assert_eq!(json_str("a/b"), "\"a/b\"");
}

#[test]
fn json_string_empty_is_two_quotes() {
    assert_eq!(json_str(""), "\"\"");
}

#[test]
fn json_string_high_byte_utf8_passes_through_byte_for_byte() {
    let mut buf = String::new();
    write_json_string(&mut buf, "\u{00E9}");
    assert_eq!(buf.into_bytes(), vec![b'"', 0xC3, 0xA9, b'"']);
}

#[test]
fn encode_value_string_plain() {
    assert_eq!(encode_to_string("hello"), "\"hello\"");
}

#[test]
fn encode_value_string_with_quote() {
    assert_eq!(encode_to_string("he said \"hi\""), "\"he said \\\"hi\\\"\"");
}

#[test]
fn encode_value_number_int_no_quotes() {
    assert_eq!(encode_to_string("30"), "30");
}

#[test]
fn encode_value_number_decimal_verbatim() {
    assert_eq!(encode_to_string("30.50"), "30.50");
}

#[test]
fn encode_value_number_negative() {
    assert_eq!(encode_to_string("-3.14"), "-3.14");
}

#[test]
fn encode_value_boolean_true_literal() {
    assert_eq!(encode_to_string("true"), "true");
}

#[test]
fn encode_value_boolean_false_literal() {
    assert_eq!(encode_to_string("false"), "false");
}

#[test]
fn encode_value_timestamp_quoted_string() {
    assert_eq!(encode_to_string("20262903143022"), "\"20262903143022\"");
}

#[test]
fn encode_value_array_basic() {
    assert_eq!(
        encode_to_string(r#"["admin","editor","viewer"]"#),
        r#"["admin","editor","viewer"]"#
    );
}

#[test]
fn encode_value_array_empty_brackets() {
    assert_eq!(encode_to_string("[]"), "[]");
}

#[test]
fn encode_value_array_with_quoted_element() {
    assert_eq!(
        encode_to_string(r#"["he said \"hi\""]"#),
        "[\"he said \\\"hi\\\"\"]"
    );
}

#[test]
fn encode_value_array_with_newline_element() {
    let raw = "[\"a\nb\"]";
    let out = encode_to_string(raw);
    assert_eq!(out, "[\"a\\nb\"]");
}

#[test]
fn encode_value_array_does_not_recursively_classify_elements() {
    assert_eq!(encode_to_string(r#"["30"]"#), "[\"30\"]");
}

#[test]
fn encode_value_dotsv_escaped_tab_value_becomes_json_tab_escape() {
    assert_eq!(encode_to_string("hi\tthere"), "\"hi\\tthere\"");
}

#[test]
fn emit_jsonl_line_uuid_first_member() {
    let r = rec("AGk26cH00001", &[("name", "Alice"), ("age", "30")]);
    let line = emit_to_string(&r);
    assert!(line.starts_with("{\"_uuid\":\"AGk26cH00001\","));
}

#[test]
fn emit_jsonl_line_keys_in_raw_key_lex_order_matching_record_serialize() {
    let r = rec(
        "AGk26cH00001",
        &[("zeta", "z"), ("alpha", "a"), ("middle", "m")],
    );
    let line = emit_to_string(&r);
    let pa = line.find("\"alpha\"").unwrap();
    let pm = line.find("\"middle\"").unwrap();
    let pz = line.find("\"zeta\"").unwrap();
    assert!(pa < pm && pm < pz);
}

#[test]
fn emit_jsonl_line_single_field_record() {
    let r = rec("AGk26cH00001", &[("name", "Alice")]);
    assert_eq!(
        emit_to_string(&r),
        "{\"_uuid\":\"AGk26cH00001\",\"name\":\"Alice\"}\n"
    );
}

#[test]
fn emit_jsonl_line_no_trailing_comma() {
    let r = rec("AGk26cH00001", &[("a", "1"), ("b", "2")]);
    let line = emit_to_string(&r);
    assert!(line.contains("}\n"));
    assert!(!line.contains(",}\n"));
}

#[test]
fn emit_jsonl_line_terminates_with_lf() {
    let r = rec("AGk26cH00001", &[("name", "Alice")]);
    let line = emit_to_string(&r);
    assert!(line.ends_with('\n'));
    assert!(!line.ends_with("\r\n"));
}

#[test]
fn emit_jsonl_line_no_trailing_whitespace() {
    let r = rec("AGk26cH00001", &[("name", "Alice")]);
    let line = emit_to_string(&r);
    let trimmed = line.trim_end_matches('\n');
    assert!(trimmed.ends_with('}'));
    assert!(!trimmed.ends_with(' '));
}

#[test]
fn emit_jsonl_line_unicode_key_and_value() {
    let r = rec("AGk26cH00001", &[("都市", "東京")]);
    let line = emit_to_string(&r);
    assert!(line.contains("\"都市\":\"東京\""));
}

#[test]
fn emit_jsonl_line_with_array_value() {
    let r = rec("AGk26cH00001", &[("role", r#"["admin","editor"]"#)]);
    let line = emit_to_string(&r);
    assert!(line.contains(r#""role":["admin","editor"]"#));
}

#[test]
fn emit_jsonl_line_with_mixed_types() {
    let r = rec(
        "AGk26cH00001",
        &[
            ("name", "Alice"),
            ("age", "30"),
            ("active", "true"),
            ("created", "20262903143022"),
            ("tags", r#"["x","y"]"#),
        ],
    );
    let line = emit_to_string(&r);
    assert!(line.contains("\"active\":true"));
    assert!(line.contains("\"age\":30"));
    assert!(line.contains("\"created\":\"20262903143022\""));
    assert!(line.contains("\"name\":\"Alice\""));
    assert!(line.contains(r#""tags":["x","y"]"#));
}

#[test]
fn emit_jsonl_line_underscore_uuid_user_key_documented() {
    let r = rec("AGk26cH00001", &[("_uuid", "hi")]);
    let line = emit_to_string(&r);
    assert_eq!(
        line,
        "{\"_uuid\":\"AGk26cH00001\",\"_uuid\":\"hi\"}\n"
    );
}

#[test]
fn emit_jsonl_line_underscore_missing_user_key_documented() {
    let r = rec("AGk26cH00001", &[("_missing", "yes")]);
    let line = emit_to_string(&r);
    assert_eq!(
        line,
        "{\"_uuid\":\"AGk26cH00001\",\"_missing\":\"yes\"}\n"
    );
}

#[test]
fn emit_jsonl_line_underscore_user_key_sorts_lex_with_other_underscore_keys() {
    let r = rec("AGk26cH00001", &[("_uuid", "x"), ("_aaa", "y")]);
    let line = emit_to_string(&r);
    assert_eq!(
        line,
        "{\"_uuid\":\"AGk26cH00001\",\"_aaa\":\"y\",\"_uuid\":\"x\"}\n"
    );
}

#[test]
fn emit_jsonl_line_empty_record_emits_just_uuid() {
    let r = rec("AGk26cH00001", &[]);
    let line = emit_to_string(&r);
    assert_eq!(line, "{\"_uuid\":\"AGk26cH00001\"}\n");
}

#[test]
fn emit_missing_line_format_exact() {
    let mut s = String::new();
    emit_missing_line(&mut s, "AGk26cH00001");
    assert_eq!(s, "{\"_uuid\":\"AGk26cH00001\",\"_missing\":true}\n");
}

#[test]
fn run_records_input_order_preserved() {
    let tmp = Disk::new();
    let dov = build(
        &tmp,
        "+CGk26cH00001\tname=Carol\n\
         +AGk26cH00001\tname=Alice\n\
         +BGk26cH00001\tname=Bob\n",
    );
    let out = to_buffer(
        &tmp,
        &["BGk26cH00001", "CGk26cH00001", "AGk26cH00001"],
        &dov,
    );
    let lines: Vec<&str> = out.lines().collect();
    assert!(lines[0].contains("Bob"));
    assert!(lines[1].contains("Carol"));
    assert!(lines[2].contains("Alice"));
}

#[test]
fn run_records_missing_uuid_emits_sentinel_in_position() {
    let tmp = Disk::new();
    let dov = build(&tmp, "+AGk26cH00001\tname=Alice\n");
    let out = to_buffer(
        &tmp,
        &["AGk26cH00001", "ZGk26cH00001", "AGk26cH00001"],
        &dov,
    );
    let lines: Vec<&str> = out.lines().collect();
    assert!(lines[0].contains("Alice"));
    assert!(lines[1].contains("\"_missing\":true"));
    assert!(lines[2].contains("Alice"));
}

#[test]
fn run_records_duplicate_uuid_emits_two_lines() {
    let tmp = Disk::new();
    let dov = build(&tmp, "+AGk26cH00001\tname=Alice\n");
    let out = to_buffer(&tmp, &["AGk26cH00001", "AGk26cH00001"], &dov);
    let lines: Vec<&str> = out.lines().collect();
    assert_eq!(lines.len(), 2);
    assert_eq!(lines[0], lines[1]);
}

#[test]
fn run_records_empty_input_empty_output() {
    let tmp = Disk::new();
    let dov = build(&tmp, "+AGk26cH00001\tname=Alice\n");
    let out = to_buffer(&tmp, &[], &dov);
    assert!(out.is_empty());
}

#[test]
fn run_records_uses_compacted_dov() {
    let tmp = Disk::new();
    let dov = build(&tmp, "+AGk26cH00001\tname=Alice\n");
    let db = tmp.load(&dov);
    assert!(db.pending.is_empty());
    let out = to_buffer(&tmp, &["AGk26cH00001"], &dov);
    assert!(out.contains("Alice"));
}

#[test]
fn run_records_acquires_lock() {
    let tmp = Disk::new();
    let dov = build(&tmp, "+AGk26cH00001\tname=Alice\n");
    let utv = tmp.at("input.utv");
    tmp.write(&utv, "AGk26cH00001\n");
    tmp.records(&utv, &dov).unwrap();
}

#[test]
fn run_records_register_conflicts_with_concurrent_writer() {
    let tmp = Disk::new();
    let dov = build(&tmp, "+AGk26cH00001\tname=Alice\n");
    let lock_path = format!("{}.lock", dov);
    let now = SystemTime::now()
        .duration_since(UNIX_EPOCH)
        .unwrap()
        .as_secs();
    let entries = vec![LockEntry {
        status: EntryStatus::Exec,
        pid: 0xDEADBEEF,
        uuids: vec![],
        timestamp: now,
    }];
    tmp.write(&lock_path, &serialize_lock_file(&entries));
    let utv = tmp.at("input.utv");
    tmp.write(&utv, "AGk26cH00001\n");
    let result = tmp.records(&utv, &dov);
    assert!(result.is_err());
    let msg = result.unwrap_err().message();
    assert!(
        msg.contains("Lock conflict") || msg.contains("conflict"),
        "expected lock conflict, got: {}",
        msg
    );
}

#[test]
fn run_records_invalid_uuid_input_aborts_no_output() {
    let tmp = Disk::new();
    let dov = build(&tmp, "+AGk26cH00001\tname=Alice\n");
    let utv = tmp.at("bad.utv");
    tmp.write(&utv, "not-a-valid-uuid\n");
    let result = tmp.records(&utv, &dov);
    assert!(result.is_err());
}

#[test]
fn run_records_lock_held_through_stdout_drain() {
    let tmp = Disk::new();
    let dov = build(
        &tmp,
        "+AGk26cH00001\tname=Alice\n\
         +AGk26cH00002\tname=Bob\n\
         +AGk26cH00003\tname=Carol\n",
    );
    let utv = tmp.at("input.utv");
    tmp.write(&utv, "AGk26cH00001\nAGk26cH00002\nAGk26cH00003\n");
    tmp.records(&utv, &dov).unwrap();
}

#[test]
fn run_records_does_not_auto_plane() {
    let tmp = Disk::new();
    let dov = build(&tmp, "+AGk26cH00001\tname=Alice\n");
    let utv = tmp.at("input.utv");
    tmp.write(&utv, "AGk26cH00001\n");
    tmp.records(&utv, &dov).unwrap();
    let kt = kt_ptv_path(&dov);
    assert!(
        !tmp.has(&kt),
        "--records must NOT auto-create kt.ptv (classifier shared via code, not file)"
    );
}
