use tsdb::escape::{decode_array, encode_array, escape, is_array_value, unescape};

#[test]
fn round_trip_plain() {
    let s = "hello world";
    assert_eq!(unescape(&escape(s)).unwrap(), s);
}

#[test]
fn round_trip_special() {
    let s = "tab\there\nnewline\\backslash=equals";
    let escaped = escape(s);
    assert!(!escaped.contains('\t'));
    assert!(!escaped.contains('\n'));
    assert_eq!(unescape(&escaped).unwrap(), s);
}

#[test]
fn round_trip_multibyte_utf8() {
    let s = "héllo wörld 日本語";
    assert_eq!(unescape(&escape(s)).unwrap(), s);
}

#[test]
fn escape_tab() {
    assert_eq!(escape("\t"), "\\x09");
}

#[test]
fn escape_newline() {
    assert_eq!(escape("\n"), "\\x0A");
}

#[test]
fn escape_equals() {
    assert_eq!(escape("="), "\\x3D");
}

#[test]
fn escape_backslash() {
    assert_eq!(escape("\\"), "\\\\");
}

#[test]
fn unescape_null_byte() {
    assert_eq!(unescape("\\x00").unwrap(), "\x00");
}

#[test]
fn unescape_invalid_escape() {
    assert!(unescape("\\q").is_err());
}

#[test]
fn unescape_incomplete_hex() {
    assert!(unescape("\\x0").is_err());
}

#[test]
fn unescape_uppercase_x_rejected() {
    assert!(unescape("\\X09").is_err());
}

#[test]
fn unescape_invalid_hex_digits_error_message() {
    let err = unescape("\\xZZ").unwrap_err();
    let msg = err.message();
    assert!(msg.contains("invalid escape sequence"), "got: {}", msg);
}

#[test]
fn encode_array_basic() {
    let vs = vec![
        "admin".to_string(),
        "editor".to_string(),
        "viewer".to_string(),
    ];
    assert_eq!(encode_array(&vs), r#"["admin","editor","viewer"]"#);
}

#[test]
fn encode_array_empty() {
    let vs: Vec<String> = vec![];
    assert_eq!(encode_array(&vs), "[]");
}

#[test]
fn encode_array_single() {
    let vs = vec!["alone".to_string()];
    assert_eq!(encode_array(&vs), r#"["alone"]"#);
}

#[test]
fn encode_array_with_quotes_and_backslashes() {
    let vs = vec![r#"bob "the hammer""#.to_string(), r"c:\path".to_string()];
    assert_eq!(encode_array(&vs), r#"["bob \"the hammer\"","c:\\path"]"#);
}

#[test]
fn encode_array_preserves_commas_and_brackets_in_elements() {
    let vs = vec!["Baker St, London".to_string(), "[tag]".to_string()];
    assert_eq!(encode_array(&vs), r#"["Baker St, London","[tag]"]"#);
}

#[test]
fn is_array_value_yes() {
    assert!(is_array_value("[]"));
    assert!(is_array_value(r#"["a"]"#));
    assert!(is_array_value(r#"["a","b"]"#));
}

#[test]
fn is_array_value_no() {
    assert!(!is_array_value(""));
    assert!(!is_array_value("a"));
    assert!(!is_array_value("[incomplete"));
    assert!(!is_array_value("trailing]"));
    assert!(!is_array_value("[oneChar"));
}

#[test]
fn decode_array_basic() {
    let vs = decode_array(r#"["admin","editor","viewer"]"#).unwrap();
    assert_eq!(vs, vec!["admin", "editor", "viewer"]);
}

#[test]
fn decode_array_empty() {
    let vs = decode_array("[]").unwrap();
    let empty: Vec<String> = vec![];
    assert_eq!(vs, empty);
}

#[test]
fn decode_array_single() {
    let vs = decode_array(r#"["alone"]"#).unwrap();
    assert_eq!(vs, vec!["alone"]);
}

#[test]
fn decode_array_with_quotes_and_backslashes() {
    let vs = decode_array(r#"["bob \"the hammer\"","c:\\path"]"#).unwrap();
    assert_eq!(vs, vec![r#"bob "the hammer""#, r"c:\path"]);
}

#[test]
fn decode_array_preserves_commas_and_brackets_in_elements() {
    let vs = decode_array(r#"["Baker St, London","[tag]"]"#).unwrap();
    assert_eq!(vs, vec!["Baker St, London", "[tag]"]);
}

#[test]
fn decode_array_round_trip_multibyte() {
    let vs = vec!["日本語".to_string(), "café".to_string()];
    let encoded = encode_array(&vs);
    let decoded = decode_array(&encoded).unwrap();
    assert_eq!(decoded, vs);
}

#[test]
fn decode_array_rejects_non_array() {
    assert!(decode_array("plain").is_err());
    assert!(decode_array("[no-close").is_err());
    assert!(decode_array("no-open]").is_err());
}

#[test]
fn decode_array_rejects_unquoted_element() {
    assert!(decode_array("[bare]").is_err());
    assert!(decode_array("[\"a\",bare]").is_err());
}

#[test]
fn decode_array_rejects_invalid_escape() {
    assert!(decode_array(r#"["bad\x"]"#).is_err());
}

#[test]
fn decode_array_rejects_unterminated_string() {
    assert!(decode_array(r#"["unterminated]"#).is_err());
}
