use tsdb::config::{
    discover_in, load_read, parse_config, parse_utc_offset, Candidate, Config, CONFIG_FILE_NAME,
};
use tsdb::error::TsdbError;

/// A folder, and the text of its configuration file if it has one.
struct Folder {
    path: &'static str,
    config: Option<&'static str>,
}

fn folder(path: &'static str) -> Folder {
    Folder { path, config: None }
}

impl Folder {
    fn file(&self) -> String {
        format!("{}/{}", self.path, CONFIG_FILE_NAME)
    }

    fn candidate(&self) -> Option<Candidate> {
        Some(Candidate { path: self.file(), is_file: self.config.is_some() })
    }
}

#[test]
fn discover_prefers_project_over_user() {
    let mut proj = folder("/proj");
    let mut home = folder("/home");
    proj.config = Some("utc_offset = \"+08:00\"");
    home.config = Some("utc_offset = \"-05:30\"");
    assert_eq!(
        discover_in(proj.candidate(), home.candidate()),
        Some(proj.file())
    );
}

#[test]
fn discover_falls_back_to_user_when_no_project_file() {
    let proj = folder("/proj");
    let mut home = folder("/home");
    home.config = Some("utc_offset = \"-05:30\"");
    assert_eq!(
        discover_in(proj.candidate(), home.candidate()),
        Some(home.file())
    );
}

#[test]
fn discover_returns_none_when_neither_exists() {
    let proj = folder("/proj");
    let home = folder("/home");
    assert_eq!(discover_in(proj.candidate(), home.candidate()), None);
}

#[test]
fn discover_tolerates_absent_cwd_or_home() {
    let mut home = folder("/home");
    home.config = Some("utc_offset = \"Z\"");
    assert_eq!(
        discover_in(None, home.candidate()),
        Some(home.file())
    );
    assert_eq!(discover_in(None, None), None);
}

#[test]
fn discover_ignores_a_config_that_is_a_directory() {
    let mut proj = folder("/proj");
    let mut home = folder("/home");
    proj.config = None;
    home.config = Some("utc_offset = \"+08:00\"");
    assert_eq!(
        discover_in(proj.candidate(), home.candidate()),
        Some(home.file())
    );
}

#[test]
fn discovered_project_config_round_trips_through_load_from() {
    let mut proj = folder("/proj");
    let mut home = folder("/home");
    proj.config = Some("utc_offset = \"+08:00\"");
    home.config = Some("utc_offset = \"-05:30\"");
    let found = discover_in(proj.candidate(), home.candidate()).unwrap();
    assert_eq!(load_read(&found, Ok(proj.config.unwrap().to_string())).unwrap().utc_offset_secs, 8 * 3600);
}

#[test]
fn offset_zulu_and_utc_are_zero() {
    assert_eq!(parse_utc_offset("Z"), Some(0));
    assert_eq!(parse_utc_offset("z"), Some(0));
    assert_eq!(parse_utc_offset("UTC"), Some(0));
    assert_eq!(parse_utc_offset("utc"), Some(0));
}

#[test]
fn offset_colon_form() {
    assert_eq!(parse_utc_offset("+08:00"), Some(8 * 3600));
    assert_eq!(parse_utc_offset("-05:30"), Some(-(5 * 3600 + 30 * 60)));
}

#[test]
fn offset_compact_and_hour_only_forms() {
    assert_eq!(parse_utc_offset("+0800"), Some(8 * 3600));
    assert_eq!(parse_utc_offset("-0530"), Some(-(5 * 3600 + 30 * 60)));
    assert_eq!(parse_utc_offset("+08"), Some(8 * 3600));
    assert_eq!(parse_utc_offset("-05"), Some(-5 * 3600));
}

#[test]
fn offset_surrounding_whitespace_ignored() {
    assert_eq!(parse_utc_offset("  +08:00  "), Some(8 * 3600));
}

#[test]
fn offset_rejects_unsigned_and_junk() {
    assert_eq!(parse_utc_offset("08:00"), None);
    assert_eq!(parse_utc_offset(""), None);
    assert_eq!(parse_utc_offset("+8:00"), None);
    assert_eq!(parse_utc_offset("+08:0"), None);
    assert_eq!(parse_utc_offset("+ab:cd"), None);
    assert_eq!(parse_utc_offset("+08:00:00"), None);
}

#[test]
fn offset_rejects_dangling_colon() {
    assert_eq!(parse_utc_offset("+08:"), None);
    assert_eq!(parse_utc_offset("-05:"), None);
}

#[test]
fn offset_rejects_out_of_range() {
    assert_eq!(parse_utc_offset("+25:00"), None);
    assert_eq!(parse_utc_offset("+08:60"), None);
    assert_eq!(parse_utc_offset("+24:01"), None);
}

#[test]
fn offset_accepts_boundaries() {
    assert_eq!(parse_utc_offset("+24:00"), Some(24 * 3600));
    assert_eq!(parse_utc_offset("-24:00"), Some(-24 * 3600));
    assert_eq!(parse_utc_offset("+00:00"), Some(0));
}

#[test]
fn empty_config_yields_defaults() {
    assert_eq!(parse_config("").unwrap(), Config::default());
    assert_eq!(parse_config("\n\n   \n").unwrap(), Config::default());
}

#[test]
fn comments_are_ignored() {
    let cfg = parse_config("# a comment\n#another\n").unwrap();
    assert_eq!(cfg, Config::default());
}

#[test]
fn quoted_and_bare_values_both_parse() {
    assert_eq!(
        parse_config("utc_offset = \"+08:00\"")
            .unwrap()
            .utc_offset_secs,
        8 * 3600
    );
    assert_eq!(
        parse_config("utc_offset = +08:00").unwrap().utc_offset_secs,
        8 * 3600
    );
}

#[test]
fn whitespace_around_key_and_value_tolerated() {
    let cfg = parse_config("   utc_offset   =   \"+08:00\"   ").unwrap();
    assert_eq!(cfg.utc_offset_secs, 8 * 3600);
}

#[test]
fn last_assignment_wins() {
    let cfg = parse_config("utc_offset = \"Z\"\nutc_offset = \"+08:00\"").unwrap();
    assert_eq!(cfg.utc_offset_secs, 8 * 3600);
}

#[test]
fn unknown_key_is_an_error() {
    let err = parse_config("colour = \"red\"").unwrap_err();
    match err {
        TsdbError::ParseError { line, message } => {
            assert_eq!(line, 1);
            assert!(message.contains("unknown key"), "got {}", message);
        }
        other => panic!("expected ParseError, got {:?}", other),
    }
}

#[test]
fn missing_equals_is_an_error() {
    let err = parse_config("utc_offset +08:00").unwrap_err();
    assert!(matches!(err, TsdbError::ParseError { line: 1, .. }));
}

#[test]
fn empty_key_is_an_error() {
    let err = parse_config("= \"+08:00\"").unwrap_err();
    assert!(matches!(err, TsdbError::ParseError { line: 1, .. }));
}

#[test]
fn unterminated_string_is_an_error() {
    let err = parse_config("utc_offset = \"+08:00").unwrap_err();
    match err {
        TsdbError::ParseError { line, message } => {
            assert_eq!(line, 1);
            assert!(message.contains("unterminated"), "got {}", message);
        }
        other => panic!("expected ParseError, got {:?}", other),
    }
}

#[test]
fn invalid_offset_value_is_an_error() {
    let err = parse_config("utc_offset = \"lunchtime\"").unwrap_err();
    match err {
        TsdbError::ParseError { line, message } => {
            assert_eq!(line, 1);
            assert!(message.contains("invalid utc_offset"), "got {}", message);
        }
        other => panic!("expected ParseError, got {:?}", other),
    }
}

#[test]
fn error_reports_the_offending_line_number() {
    let err = parse_config("# note\n\nutc_offset = \"Z\"\nbogus = 1\n").unwrap_err();
    assert!(matches!(err, TsdbError::ParseError { line: 4, .. }));
}

#[test]
fn load_from_missing_file_is_an_error() {
    let err = load_read("/nonexistent/.tsdb.toml", Err("No such file or directory (os error 2)".to_string())).unwrap_err();
    match err {
        TsdbError::Other(m) => assert!(m.contains("cannot read config"), "got {}", m),
        other => panic!("expected Other, got {:?}", other),
    }
}
