//! The written forms of values, numbers, identifiers and JSON, and what they read back as.
use tsdb::action::{parse_action_line, parse_action_str, parse_kv_fields};
use tsdb::base62::validate_uuid;
use tsdb::dotsv::{DotsvFile, Record};
use tsdb::error::TsdbError;
use tsdb::escape::{decode_array, encode_array, escape, unescape};
use tsdb::filter::{parse_ftv_str, Op, Predicate};
use tsdb::keytype::{classify, KtType};
use tsdb::order::encode_norm;
use tsdb::paths::companion_path;
use tsdb::query::{parse_qtv, resolve_query_uuids, Criterion, FilterMode};
use tsdb::records::{emit_records, encode_value, parse_uuid_lines, write_json_array, write_json_string};
use tsdb::relate::{generate_rtvs, last_nonempty_line, RtvFooters};
use tsdb::resolve::{load_indexes, resolve_filter, resolve_predicate, Warnings};
use tsdb::session::execute_actions;
use tsdb::show::{collect_record_lines, show_text};

fn database(actions: &str) -> DotsvFile {
    let mut db = DotsvFile::empty();
    execute_actions(&mut db, &parse_action_str(actions).unwrap()).unwrap();
    db.compact().unwrap();
    db
}

fn none() -> RtvFooters {
    RtvFooters { kv: None, vk: None, uuid: None }
}

#[test]
fn escapes_undo_each_other() {
    for s in ["", "a=b", "\t\n\r\\", "x\\x09", "東京=\\", "\0"] {
        let e = escape(s);
        assert!(!e.contains('\t') && !e.contains('\n') && !e.contains('\r') && !e.contains('='));
        assert_eq!(unescape(&e).unwrap(), s);
    }
    assert_eq!(escape("\r"), "\\x0D");
    assert!(matches!(unescape("\\"), Err(TsdbError::EscapeError(_))));
}

#[test]
fn arrays_undo_each_other() {
    let v: Vec<String> = ["", "a\"b", "c\\", ",", "[]"].iter().map(|s| s.to_string()).collect();
    let text = encode_array(&v);
    assert_eq!(text, r#"["","a\"b","c\\",",","[]"]"#);
    assert_eq!(decode_array(&text).unwrap(), v);
    assert!(decode_array("[a]").is_err());
}

#[test]
fn broken_identifiers_name_the_rule() {
    let message = |s: &str| validate_uuid(s).unwrap_err().message();
    assert_eq!(message("short"), "Invalid UUID: UUID must be 12 chars, got 5: \"short\"");
    assert_eq!(
        message("a\tk26cH00001"),
        "Invalid UUID: UUID byte 0 must be uppercase letter, got 'a': \"a\\tk26cH00001\""
    );
    assert!(message("AXk26cH00001").contains("byte 1 must be 'G', got 'X'"));
    assert!(message("AGl26cH00001").contains("byte 2 (century)"));
    assert!(message("AGkx6cH00001").contains("bytes 3-4 (YY)"));
    assert!(message("AGk26zH00001").contains("byte 5 (month) invalid 'z'"));
    assert!(message("AGk26cz00001").contains("byte 6 (day) invalid 'z'"));
    assert!(message("AGk26cHz0001").contains("byte 7 (hour) invalid 'z'"));
    assert!(message("AGk26cH0l001").contains("byte 8 (minute)"));
    assert!(message("AGk26cH00O01").contains("byte 9 (second)"));
    assert!(message("AGk26cH000-1").contains("bytes 10-11 (order)"));
}

#[test]
fn repeated_keys_become_an_array() {
    let a = parse_action_line("+AGk26cH00001\trole=admin\trole=a,b\tname=Al", 3).unwrap();
    assert_eq!(a.fields.get("role").unwrap(), r#"["admin","a,b"]"#);
    assert_eq!(a.fields.get("name").unwrap(), "Al");
    assert_eq!(a.line_no, 3);
    for v in ["[x]", "{x}"] {
        assert!(parse_action_line(&format!("+AGk26cH00001\tk={}", v), 1).is_err());
    }
}

#[test]
fn numbers_sort_by_their_value() {
    let numbers = ["-100", "-99.5", "-2", "-0.5", "-0.25", "0", "0.25", "0.5", "2", "10", "10.01", "99"];
    for i in 0..numbers.len() {
        for j in 0..numbers.len() {
            let (a, b) = (encode_norm(numbers[i]).unwrap(), encode_norm(numbers[j]).unwrap());
            assert_eq!(a < b, i < j, "{} {}", numbers[i], numbers[j]);
        }
    }
    assert_eq!(encode_norm("-0.25").unwrap(), "N9998_9.74~");
}

#[test]
fn json_strings_are_escaped() {
    let mut out = String::from("x");
    write_json_string(&mut out, "\u{1f}\u{7f}\u{0}\u{b}/");
    assert_eq!(out, "x\"\\u001f\u{7f}\\u0000\\u000b/\"");
    let mut out = String::new();
    write_json_array(&mut out, &["a".to_string(), "\"".to_string()]);
    assert_eq!(out, r#"["a","\""]"#);
    let mut out = String::new();
    write_json_array(&mut out, &[]);
    assert_eq!(out, "[]");
}

#[test]
fn json_values_show_their_type() {
    for (v, json, class) in [
        ("007", "\"007\"", KtType::String),
        ("-1.50", "-1.50", KtType::Number),
        ("true", "true", KtType::Boolean),
        ("20262903143022", "\"20262903143022\"", KtType::Timestamp),
        (r#"["1"]"#, r#"["1"]"#, KtType::Array),
    ] {
        let mut out = String::new();
        encode_value(&mut out, v).unwrap();
        assert_eq!(out, json);
        assert_eq!(classify(v), class);
    }
    let mut out = String::from("kept");
    assert!(encode_value(&mut out, "[oops]").is_err());
    assert_eq!(out, "kept");
}

#[test]
fn identifier_list_errors_name_the_line() {
    let message = |s: &str| parse_uuid_lines(s).unwrap_err().message();
    assert_eq!(
        message("# c\n\nAGk26cH0001\n"),
        "Parse error at line 3: expected 12-char base62-Gu UUID, got 11 bytes: \"AGk26cH0001\""
    );
    assert_eq!(
        message("AGk26cH0001 \n"),
        "Parse error at line 1: UUID line has leading/trailing whitespace: \"AGk26cH0001 \""
    );
    assert_eq!(
        message("#\r\n"),
        "Parse error at line 1: CRLF line endings not supported; convert with dos2unix"
    );
    assert_eq!(
        message("\u{FEFF}AGk26cH00001\n"),
        "Parse error at line 1: BOM at file start rejected; .utv must be UTF-8 without BOM"
    );
    assert!(message("AGk26cH00001\nBGk26zH00002\n").starts_with("Parse error at line 2: Invalid UUID: "));
}

#[test]
fn records_are_answered_line_by_line() {
    let db = database("+AGk26cH00001\ta=1\n+BGk26cH00002\ta=x\n");
    let ask: Vec<String> = ["BGk26cH00002", "CGk26cH00003", "BGk26cH00002"].iter().map(|s| s.to_string()).collect();
    let mut out = String::new();
    emit_records(&mut out, &ask, &db).unwrap();
    assert_eq!(
        out,
        "{\"_uuid\":\"BGk26cH00002\",\"a\":\"x\"}\n{\"_uuid\":\"CGk26cH00003\",\"_missing\":true}\n\
         {\"_uuid\":\"BGk26cH00002\",\"a\":\"x\"}\n"
    );
}

#[test]
fn records_stop_at_a_value_that_is_no_array() {
    let db = DotsvFile {
        sorted: vec!["AGk26cH00001\ta=1".to_string(), "BGk26cH00002\ta=1\tb=[oops]".to_string()],
        pending: Vec::new(),
    };
    let ask = vec!["AGk26cH00001".to_string(), "BGk26cH00002".to_string()];
    let mut out = String::new();
    assert!(emit_records(&mut out, &ask, &db).is_err());
    assert_eq!(out, "{\"_uuid\":\"AGk26cH00001\",\"a\":1}\n{\"_uuid\":\"BGk26cH00002\",\"a\":1,\"b\":");
    let waiting = DotsvFile { sorted: Vec::new(), pending: vec!["-AGk26cH00001".to_string()] };
    let mut out = String::new();
    let err = emit_records(&mut out, &ask, &waiting).unwrap_err();
    assert_eq!(err.message(), "post-compact pending non-empty (internal invariant broken)");
    assert_eq!(out, "");
}

#[test]
fn index_files_are_exact_and_current() {
    let db = database("+BGk26cH00002\tcity=T\\x09K\n+AGk26cH00001\tcity=T\\x09K\tz=1\n");
    let t = generate_rtvs(&db, "# 20262903143022", &none()).unwrap().unwrap();
    assert_eq!(
        t.kv,
        "city\tT\\x09K\tAGk26cH00001,BGk26cH00002\nz\t1\tAGk26cH00001\n# 20262903143022\n"
    );
    assert_eq!(
        t.vk,
        "1\tz\tAGk26cH00001\nT\\x09K\tcity\tAGk26cH00001,BGk26cH00002\n# 20262903143022\n"
    );
    assert_eq!(t.uuid, "AGk26cH00001\nBGk26cH00002\n# 20262903143022\n");
    let again = RtvFooters {
        kv: last_nonempty_line(&t.kv, "kv").ok(),
        vk: last_nonempty_line(&t.vk, "vk").ok(),
        uuid: last_nonempty_line(&t.uuid, "uuid").ok(),
    };
    assert!(generate_rtvs(&db, "# 20262903143022", &again).unwrap().is_none());
    assert!(generate_rtvs(&db, "# 20263003143022", &again).unwrap().is_some());
}

#[test]
fn queries_find_the_records_that_meet_them() {
    let db = database("+AGk26cH00001\tcity=Tokyo\n+BGk26cH00002\tcity=Oslo\n+CGk26cH00003\tTokyo=x\n");
    let t = generate_rtvs(&db, "# 20262903143022", &none()).unwrap().unwrap();
    let find = |q: &str| resolve_query_uuids(q, &t.kv, &t.vk, Some(&t.uuid)).unwrap();
    assert_eq!(find("Tokyo\n"), vec!["AGk26cH00001", "CGk26cH00003"]);
    assert_eq!(find("city\tOslo\n"), vec!["BGk26cH00002"]);
    assert_eq!(find("# mode\tunion\ncity\tOslo\n@present\tTokyo\n"), vec!["BGk26cH00002", "CGk26cH00003"]);
    assert_eq!(find("@absent\tcity\n"), vec!["CGk26cH00003"]);
    assert_eq!(find("@absent\tcity\tOslo\n@present\tcity\n"), vec!["AGk26cH00001"]);
    assert!(find("").is_empty());
    let message = |q: &str| parse_qtv(q).unwrap_err().message();
    assert!(message("@present\n").contains("@present requires a key"));
    assert!(message("@absent\n").contains("@absent requires a key"));
}

#[test]
fn queries_are_escaped_as_records_are() {
    let q = parse_qtv("note\thello\\x09world\n").unwrap();
    assert_eq!(q.mode, FilterMode::Intersect);
    assert!(matches!(&q.criteria[..], [Criterion::KeyValue(k, v)] if k == "note" && v == "hello\tworld"));
    let q = parse_qtv("a\\x3Db\nk\\\\\tx\ty\n").unwrap();
    assert!(matches!(&q.criteria[0], Criterion::Token(t) if t == "a=b"));
    assert!(matches!(&q.criteria[1], Criterion::KeyValue(k, v) if k == "k\\" && v == "x\ty"));
    let message = |q: &str| parse_qtv(q).unwrap_err().message();
    assert!(message("k\\q\tv\n").contains("key unescape error"));
    assert!(message("k\tv\\q\n").contains("value unescape error"));
    assert!(message("t\\q\n").contains("token unescape error"));
    let db = database("+AGk26cH00001\tnote=hello\\x09world\n+BGk26cH00002\ta\\x3Db=1\n");
    let t = generate_rtvs(&db, "# 20262903143022", &none()).unwrap().unwrap();
    let find = |q: &str| resolve_query_uuids(q, &t.kv, &t.vk, None).unwrap();
    assert_eq!(find("note\thello\\x09world\n"), vec!["AGk26cH00001"]);
    assert_eq!(find("a\\x3Db\n"), vec!["BGk26cH00002"]);
}

#[test]
fn empty_keys_are_refused() {
    let err = parse_kv_fields("=v", 1).unwrap_err();
    assert!(matches!(err, TsdbError::ParseError { line: 1, .. }));
    assert_eq!(err.message(), "Parse error at line 1: field has an empty key: \"=v\"");
    assert!(parse_action_line("+AGk26cH00001\ta=1\t=v", 4).is_err());
    assert!(Record::parse("AGk26cH00001\t=v", 1).is_err());
    assert_eq!(parse_kv_fields("tag=", 1).unwrap().get("tag").unwrap(), "");
}

#[test]
fn array_texts_are_canonical() {
    for s in ["[]", r#"["a"]"#, r#"["a\"b","\\"]"#] {
        assert_eq!(encode_array(&decode_array(s).unwrap()), s);
    }
    for s in [r#"["a",]"#, r#"[ "a"]"#, r#"["a" ]"#, r#"["\n"]"#] {
        assert!(decode_array(s).is_err(), "{}", s);
    }
}

#[test]
fn numeric_operators_part_the_numbers() {
    let rows = "P0001_1\tn\t1\tAGk26cH00001\nP0001_2\tn\t2\tBGk26cH00002\nP0001_3\tn\t3\tCGk26cH00003\n";
    let uuids = "AGk26cH00001\nBGk26cH00002\nCGk26cH00003\nDGk26cH00004\n";
    let idx = load_indexes("n\tx\tDGk26cH00004\n", uuids, None, Some(rows));
    let find = |op| {
        let p = Predicate { op, key: "n".to_string(), value: Some("2".to_string()) };
        resolve_predicate(&p, &idx, &mut Warnings::default()).len()
    };
    assert_eq!((find(Op::Nlt), find(Op::Neq), find(Op::Ngt)), (1, 1, 1));
    assert_eq!((find(Op::Nle), find(Op::Nge), find(Op::Nne)), (2, 2, 2));
    let p = Predicate { op: Op::Nohas, key: "n".to_string(), value: None };
    assert_eq!(resolve_predicate(&p, &idx, &mut Warnings::default()).len(), 3);
}

#[test]
fn filters_warn_of_values_that_are_no_numbers() {
    let db = database("+AGk26cH00001\tage=30\n+BGk26cH00002\tage=old\n");
    let t = generate_rtvs(&db, "# 20262903143022", &none()).unwrap().unwrap();
    let ord = "P0002_30\tage\t30\tAGk26cH00001\n";
    let kv = "age\t30\tAGk26cH00001\nage\told\tBGk26cH00002\n";
    let idx = load_indexes(&t.kv, &t.uuid, Some(kv), Some(ord));
    let (found, warnings) = resolve_filter(&parse_ftv_str("nge\tage\t30\n").unwrap(), &idx);
    assert_eq!(found, vec!["AGk26cH00001"]);
    assert_eq!(warnings, vec!["warning: 'nge age 30' skipped 1 record(s) with non-numeric value"]);
    let (found, warnings) = resolve_filter(&parse_ftv_str("neq\tage\told\nneq\tage\told\n").unwrap(), &idx);
    assert!(found.is_empty());
    assert_eq!(warnings, vec!["warning: 'neq age old' skipped 2 record(s) with non-numeric value"]);
    let (found, _) = resolve_filter(&parse_ftv_str("le\tage\told\n").unwrap(), &idx);
    assert_eq!(found, vec!["AGk26cH00001", "BGk26cH00002"]);
}

#[test]
fn shown_records_end_with_the_footer() {
    let db = database("+AGk26cH00001\ta=1\n");
    let lines = collect_record_lines(&["AGk26cH00001".to_string()], &db).unwrap();
    assert_eq!(show_text(&lines, "# 20262903143022"), "AGk26cH00001\ta=1\n# 20262903143022\n");
    assert!(last_nonempty_line(" \n\n", "x.dov").is_err());
    let two = database("+BGk26cH00002\ta=1\n+AGk26cH00001\ta=1\n");
    let ask: Vec<String> = ["BGk26cH00002", "AGk26cH00001", "BGk26cH00002"].iter().map(|s| s.to_string()).collect();
    let lines = collect_record_lines(&ask, &two).unwrap();
    assert_eq!(lines, vec!["AGk26cH00001\ta=1", "BGk26cH00002\ta=1", "BGk26cH00002\ta=1"]);
}

#[test]
fn companion_files_share_the_stem() {
    assert_eq!(companion_path("/a/b.dov", ".kv.rtv"), "/a/b.kv.rtv");
    assert_eq!(companion_path("b", ".dtv"), "b.dtv");
    assert_eq!(companion_path("x.y/b.c.dov", ".dtv"), "x.y/b.c.dtv");
}
