//! What the database keeps over runs of actions, compaction and files.
use tsdb::action::parse_action_str;
use tsdb::current::needs_compaction;
use tsdb::dotsv::{
    apply_actions, line_uuid, maybe_compact, validate_actions, DotsvFile, Record,
    PENDING_COMPACT_THRESHOLD,
};
use tsdb::error::TsdbError;
use tsdb::relate::last_nonempty_line;
use tsdb::session::execute_actions;

const X: &str = "AGk26cH00001";
const Y: &str = "BGk26cH00002";

fn run(db: &mut DotsvFile, actions: &str) -> Result<(), TsdbError> {
    execute_actions(db, &parse_action_str(actions).unwrap())
}

fn compacted(actions: &str) -> DotsvFile {
    let mut db = DotsvFile::empty();
    run(&mut db, actions).unwrap();
    db.compact().unwrap();
    db
}

fn value(db: &DotsvFile, uuid: &str, key: &str) -> Option<String> {
    let mut copy = DotsvFile { sorted: db.sorted.clone(), pending: db.pending.clone() };
    copy.compact().unwrap();
    let i = copy.binary_search_uuid(uuid).ok()?;
    let record = Record::parse(&copy.sorted[i], i + 1).unwrap();
    record.fields.get(key).cloned()
}

#[test]
fn text_of_a_database_with_both_sections() {
    let mut db = compacted("+BGk26cH00002\tname=Bob\n+AGk26cH00001\tname=Alice\tage=30\n");
    run(&mut db, "-BGk26cH00002\n").unwrap();
    assert_eq!(
        db.to_text("20262903143022"),
        "AGk26cH00001\tage=30\tname=Alice\nBGk26cH00002\tname=Bob\n\n-BGk26cH00002\n# 20262903143022\n"
    );
    let again = DotsvFile::from_bytes(db.to_text("20262903143022").as_bytes()).unwrap();
    assert_eq!(again.sorted, db.sorted);
    assert_eq!(again.pending, db.pending);
}

#[test]
fn compacted_database_has_no_blank_line() {
    let db = compacted("+AGk26cH00001\tname=Alice\n");
    assert_eq!(db.to_text("20262903143022"), "AGk26cH00001\tname=Alice\n# 20262903143022\n");
    assert_eq!(
        last_nonempty_line(&db.to_text("20262903143022"), "x.dov").unwrap(),
        "# 20262903143022"
    );
}

#[test]
fn upsert_after_a_pending_delete_is_kept() {
    let mut db = compacted("+AGk26cH00001\tname=Alice\n");
    run(&mut db, "-AGk26cH00001\n").unwrap();
    assert!(!db.uuid_exists(X));
    run(&mut db, "!AGk26cH00001\tname=Ann\n").unwrap();
    assert!(db.uuid_exists(X));
    assert_eq!(value(&db, X, "name"), Some("Ann".to_string()));
}

#[test]
fn later_patch_wins_over_a_pending_one() {
    let mut db = compacted("+AGk26cH00001\tname=Al\n");
    run(&mut db, "~AGk26cH00001\tname=Alexander\n").unwrap();
    assert_eq!(db.pending_count(), 1);
    run(&mut db, "~AGk26cH00001\tname=A\n").unwrap();
    assert_eq!(value(&db, X, "name"), Some("A".to_string()));
}

#[test]
fn patch_that_fits_is_written_in_place() {
    let mut db = compacted("+AGk26cH00001\tname=Alice\n");
    run(&mut db, "~AGk26cH00001\tname=Bo\n").unwrap();
    assert_eq!(db.pending_count(), 0);
    assert_eq!(db.sorted, vec!["AGk26cH00001\tname=Bo   ".to_string()]);
    assert_eq!(value(&db, X, "name"), Some("Bo".to_string()));
}

#[test]
fn upsert_that_fits_is_written_in_place() {
    let mut db = compacted("+AGk26cH00001\tname=Alice\tage=30\n");
    run(&mut db, "!AGk26cH00001\tname=Bo\n").unwrap();
    assert_eq!(db.pending_count(), 0);
    assert_eq!(value(&db, X, "age"), None);
    assert_eq!(value(&db, X, "name"), Some("Bo".to_string()));
}

#[test]
fn line_written_in_place_keeps_its_bytes() {
    let mut db = compacted("+AGk26cH00001\tcity=東京都\n");
    let before = db.sorted[0].len();
    run(&mut db, "~AGk26cH00001\tcity=京都\n").unwrap();
    assert_eq!(db.pending_count(), 0);
    assert_eq!(db.sorted[0].len(), before);
    assert_eq!(db.sorted[0], "AGk26cH00001\tcity=京都   ");
    assert_eq!(value(&db, X, "city"), Some("京都".to_string()));
}

#[test]
fn upsert_without_fields_replaces_the_record() {
    let mut db = compacted("+AGk26cH00001\tname=Alice\n");
    run(&mut db, "!AGk26cH00001\t\n").unwrap();
    assert!(db.uuid_exists(X));
    assert_eq!(value(&db, X, "name"), None);
}

#[test]
fn file_written_elsewhere_is_compacted_and_changed() {
    let text = "AGk26cH00001\tb=2\ta=1   \nBGk26cH00002\ta=1\n\n~AGk26cH00001\ta=3\n-BGk26cH00002\n+CGk26cH00003\tz=1\n";
    let mut db = DotsvFile::parse_str(text).unwrap();
    run(&mut db, "!CGk26cH00003\tz=2\n~AGk26cH00001\tb=\\x00\n").unwrap();
    db.compact().unwrap();
    assert_eq!(db.sorted, vec!["AGk26cH00001\ta=3".to_string(), "CGk26cH00003\tz=2".to_string()]);
    assert!(db.pending.is_empty());
}

#[test]
fn patch_that_empties_a_pending_record_is_refused() {
    let mut db = DotsvFile::empty();
    run(&mut db, "+AGk26cH00001\tname=Alice\n").unwrap();
    let err = run(&mut db, "~AGk26cH00001\tname=\\x00\n").unwrap_err();
    assert_eq!(err.message(), "line 1: patch would remove all fields from record AGk26cH00001");
    assert_eq!(db.pending_count(), 1);
    run(&mut db, "~AGk26cH00001\tname=\\x00\tage=1\n").unwrap();
    assert_eq!(value(&db, X, "name"), None);
    assert_eq!(value(&db, X, "age"), Some("1".to_string()));
}

#[test]
fn record_can_be_deleted_appended_and_patched_in_one_run() {
    let mut db = compacted("+AGk26cH00001\tname=Alice\n");
    run(&mut db, "-AGk26cH00001\n+AGk26cH00001\tname=Ann\n~AGk26cH00001\tage=3\n").unwrap();
    assert_eq!(value(&db, X, "name"), Some("Ann".to_string()));
    assert_eq!(value(&db, X, "age"), Some("3".to_string()));
}

#[test]
fn conflict_leaves_the_database_unchanged() {
    let mut db = compacted("+AGk26cH00001\tname=Alice\n");
    let before = db.sorted.clone();
    let err = run(&mut db, "~AGk26cH00001\tname=Bo\n+AGk26cH00001\tname=Ann\n").unwrap_err();
    assert!(matches!(err, TsdbError::DuplicateUuid { line: 2, ref uuid } if uuid == X));
    assert_eq!(db.sorted, before);
    assert_eq!(db.pending_count(), 0);
    let err = run(&mut db, "-BGk26cH00002\n").unwrap_err();
    assert!(matches!(err, TsdbError::MissingUuid { line: 1, ref uuid } if uuid == Y));
    let err = run(&mut db, "~BGk26cH00002\tname=Bo\n").unwrap_err();
    assert!(matches!(err, TsdbError::MissingUuid { line: 1, ref uuid } if uuid == Y));
}

#[test]
fn validation_follows_the_actions_before() {
    let db = DotsvFile::empty();
    let twice = parse_action_str("+AGk26cH00001\ta=1\n+AGk26cH00001\ta=2\n").unwrap();
    assert!(matches!(validate_actions(&db, &twice), Err(TsdbError::DuplicateUuid { line: 2, .. })));
    let gone = parse_action_str("!AGk26cH00001\ta=1\n-AGk26cH00001\n~AGk26cH00001\ta=2\n").unwrap();
    assert!(matches!(validate_actions(&db, &gone), Err(TsdbError::MissingUuid { line: 3, .. })));
    let back = parse_action_str("!AGk26cH00001\ta=1\n-AGk26cH00001\n!AGk26cH00001\ta=2\n-AGk26cH00001\n");
    let back = back.unwrap();
    assert!(validate_actions(&db, &back).is_ok());
    let mut changed = DotsvFile::empty();
    assert!(apply_actions(&mut changed, &back).is_ok());
}

#[test]
fn actions_are_applied_up_to_the_first_that_fails() {
    let mut db = DotsvFile::empty();
    let actions = parse_action_str("+AGk26cH00001\ta=1\n-BGk26cH00002\n+BGk26cH00002\ta=1\n").unwrap();
    assert!(apply_actions(&mut db, &actions).is_err());
    assert_eq!(db.pending, vec!["+AGk26cH00001\ta=1".to_string()]);
}

#[test]
fn compaction_starts_beyond_the_threshold() {
    let mut db = compacted("+AGk26cH00001\tname=Alice\n");
    for _ in 0..PENDING_COMPACT_THRESHOLD / 2 {
        run(&mut db, "-AGk26cH00001\n+AGk26cH00001\tname=Alice\n").unwrap();
    }
    assert_eq!(db.pending_count(), 100);
    assert_eq!(maybe_compact(&mut db).unwrap(), false);
    assert_eq!(db.pending_count(), 100);
    run(&mut db, "-AGk26cH00001\n").unwrap();
    assert_eq!(maybe_compact(&mut db).unwrap(), true);
    assert_eq!(db.pending_count(), 0);
    assert!(db.sorted.is_empty());
}

#[test]
fn compaction_is_idempotent_and_sorts() {
    let mut db = compacted("+BGk26cH00002\ta=1\n+AGk26cH00001\ta=2\n");
    assert_eq!(db.sorted, vec!["AGk26cH00001\ta=2".to_string(), "BGk26cH00002\ta=1".to_string()]);
    let before = db.sorted.clone();
    db.compact().unwrap();
    assert_eq!(db.sorted, before);
}

#[test]
fn malformed_files_are_refused() {
    let err = DotsvFile::from_bytes(&[0x41, 0xFF, 0x42]).unwrap_err();
    assert!(err.message().contains("invalid utf-8"), "got: {}", err.message());
    let err = DotsvFile::parse_str("short\n").unwrap_err();
    assert_eq!(
        err.message(),
        "Parse error at line 1: sorted section line too short (need >=13 bytes): \"short\""
    );
    let mut db = DotsvFile::empty();
    db.pending.push("?AGk26cH00001".to_string());
    let err = db.compact().unwrap_err();
    assert!(err.message().contains("unknown pending opcode"), "got: {}", err.message());
}

#[test]
fn comments_and_blank_lines_of_a_file_are_skipped() {
    let db = DotsvFile::parse_str("# head\nAGk26cH00001\ta=1\n\n\n-AGk26cH00001\n# 20262903143022\n");
    let db = db.unwrap();
    assert_eq!(db.sorted.len(), 1);
    assert_eq!(db.pending.len(), 1);
    assert_eq!(db.find_in_pending(X), Some(0));
    assert_eq!(db.find_in_pending(Y), None);
}

#[test]
fn identifier_of_a_line() {
    assert_eq!(line_uuid("AGk26cH00001\ta=1"), X);
    assert_eq!(line_uuid("+AGk26cH00001\ta=1"), X);
    assert_eq!(line_uuid("short"), "short");
}

#[test]
fn record_line_reads_back() {
    let line = "AGk26cH00001\tkey\\x3Done=a\\x09b\\\\\tname=東京";
    let record = Record::parse(line, 7).unwrap();
    assert_eq!(record.fields.get("key=one").unwrap(), "a\tb\\");
    assert_eq!(record.serialize(), line);
    let padded = Record::parse("AGk26cH00001\tname=Bo   ", 1).unwrap();
    assert_eq!(padded.fields.get("name").unwrap(), "Bo");
    let err = Record::parse("AGk26cH0000\tname=Bo", 7).unwrap_err();
    assert!(matches!(err, TsdbError::ParseError { line: 7, .. }));
}

#[test]
fn settled_file_needs_no_compaction() {
    let mut db = compacted("+AGk26cH00001\tname=Alice\n");
    assert!(!needs_compaction(&db, Some("# 20262903143022")));
    assert!(needs_compaction(&db, Some("AGk26cH00001\tname=Alice")));
    assert!(needs_compaction(&db, None));
    run(&mut db, "-AGk26cH00001\n").unwrap();
    assert!(needs_compaction(&db, Some("# 20262903143022")));
}
