//! The queue of writers, moments, and the command line.
use std::time::{SystemTime, UNIX_EPOCH};
use tsdb::cli::{parse_args, Command};
use tsdb::clock::{date_of, epoch_secs, timestamp, timestamp_now};
use tsdb::error::TsdbError;
use tsdb::keytype::is_timestamp;
use tsdb::lock::{
    parse_lock_file, serialize_lock_file, EntryStatus, LockEntry, LockManager, POLL_INTERVAL_MS,
    STALE_TIMEOUT_SECS,
};
use tsdb::show::ShowTarget;

fn manager(pid: u64, uuids: &[&str]) -> LockManager {
    LockManager::with_pid("x.dov", pid, uuids.iter().map(|u| u.to_string()).collect())
}

#[test]
fn lock_file_lines_are_exact() {
    let entries = vec![LockEntry {
        status: EntryStatus::Wait,
        pid: 0xDEADBEEF,
        uuids: vec!["AGk26cH00001".to_string(), "BGk26cH00002".to_string()],
        timestamp: 1711700000,
    }];
    let text = serialize_lock_file(&entries);
    assert_eq!(text, "WAIT\t00000000deadbeef\tAGk26cH00001,BGk26cH00002\t1711700000\n");
    let back = parse_lock_file(&text);
    assert_eq!(back[0].pid, 0xDEADBEEF);
    assert_eq!(back[0].uuids, entries[0].uuids);
    assert_eq!(back[0].timestamp, 1711700000);
}

#[test]
fn lock_file_numbers_that_are_none_count_as_zero() {
    let read = |line: &str| {
        let e = &parse_lock_file(line)[0];
        (e.pid, e.timestamp)
    };
    assert_eq!(read("EXEC\t+1A\tu\t+7\n"), (26, 7));
    assert_eq!(read("EXEC\tzz\tu\t\n"), (0, 0));
    assert_eq!(read("EXEC\tffffffffffffffff\tu\t18446744073709551615\n"), (u64::MAX, u64::MAX));
    assert_eq!(read("EXEC\t10000000000000000\tu\t18446744073709551616\n"), (0, 0));
    assert_eq!(read("EXEC\t+\tu\t-1\r\n"), (0, 0));
}

#[test]
fn malformed_lock_lines_are_skipped() {
    assert!(parse_lock_file("\nDONE\t1\tu\t2\nEXEC\t1\tu\n").is_empty());
    assert!(parse_lock_file("EXEC\t1\t\t2\n")[0].uuids.is_empty());
}

#[test]
fn writers_of_different_records_run_together() {
    let a = manager(1, &["A1"]);
    let b = manager(2, &["B1"]);
    let text = a.register("", 100).unwrap();
    assert_eq!(text, "WAIT\t0000000000000001\tA1\t100\n");
    let text = b.register(&text, 101).unwrap();
    assert!(b.try_promote(&text, 101).is_none());
    let text = a.try_promote(&text, 102).unwrap();
    let text = b.try_promote(&text, 103).unwrap();
    assert_eq!(text, "EXEC\t0000000000000001\tA1\t102\nEXEC\t0000000000000002\tB1\t103\n");
    let text = a.release(&text);
    assert_eq!(text, "EXEC\t0000000000000002\tB1\t103\n");
    assert_eq!(b.refresh_timestamp(&text, 110), "EXEC\t0000000000000002\tB1\t110\n");
    assert_eq!(b.release(&text), "");
}

#[test]
fn writers_of_one_record_conflict() {
    let a = manager(255, &["A1", "C1", "A1"]);
    let text = a.register("", 100).unwrap();
    let err = manager(2, &["B1", "C1", "A1", "C1"]).register(&text, 100).unwrap_err();
    assert!(matches!(err, TsdbError::LockConflict { pid: 255, status: EntryStatus::Wait, ref uuids } if uuids == &["C1", "A1"]));
    assert_eq!(
        err.message(),
        "conflict with process 00000000000000ff\n  overlapping UUIDs: C1, A1\n  status: WAIT (waiting)\n  \
         action: aborted, not queued"
    );
    let text = a.try_promote(&text, 100).unwrap();
    let err = manager(2, &["A1"]).register(&text, 100).unwrap_err();
    assert!(matches!(err, TsdbError::LockConflict { pid: 255, status: EntryStatus::Exec, .. }));
}

#[test]
fn stale_writers_do_not_count() {
    assert_eq!((STALE_TIMEOUT_SECS, POLL_INTERVAL_MS), (30, 100));
    let text = manager(1, &["A1"]).register("", 100).unwrap();
    assert!(manager(2, &["A1"]).register(&text, 130).is_err());
    let text = manager(2, &["A1"]).register(&text, 131).unwrap();
    assert_eq!(text, "WAIT\t0000000000000002\tA1\t131\n");
    let entry = LockEntry { status: EntryStatus::Exec, pid: 1, uuids: vec![], timestamp: 100 };
    assert!(!entry.is_stale_at(0) && !entry.is_stale_at(130) && entry.is_stale_at(131));
}

#[test]
fn writer_of_all_records_waits_and_keeps_others_out() {
    let a = manager(1, &["A1"]);
    let all = manager(2, &[]);
    let text = a.register("", 100).unwrap();
    let text = a.try_promote(&text, 100).unwrap();
    let text = all.register(&text, 101).unwrap();
    assert!(all.try_promote(&text, 101).is_none());
    let err = manager(3, &["B1"]).register(&text, 101).unwrap_err();
    assert!(matches!(err, TsdbError::LockConflict { pid: 2, status: EntryStatus::Wait, ref uuids } if uuids == &["B1"]));
    assert!(manager(4, &[]).register(&text, 101).is_err());
    let text = a.release(&text);
    assert_eq!(all.try_promote(&text, 102).unwrap(), "EXEC\t0000000000000002\t\t102\n");
}

#[test]
fn instances_have_random_numbers() {
    let a = LockManager::new("dir/x.dov", vec!["A1".to_string()]);
    let b = LockManager::new("dir/x.dov", Vec::new());
    assert_eq!(a.lock_path, "dir/x.dov.lock");
    assert_eq!(a.uuids, vec!["A1".to_string()]);
    assert_ne!(a.pid, b.pid);
}

#[test]
fn moments_are_written_with_the_day_before_the_month() {
    assert_eq!(timestamp(0, 0), "19700101000000");
    assert_eq!(timestamp(1774794622, 0), "20262903143022");
    assert_eq!(timestamp(1774794622, 8 * 3600), "20262903223022");
    assert_eq!(timestamp(0, -60), "19693112235900");
    assert_eq!(timestamp(951782400, 0), "20002902000000");
    let leap = date_of(719468 + 59);
    assert!(leap.month >= 1 && leap.month <= 12);
}

#[test]
fn current_moment_follows_the_clock() {
    let secs = SystemTime::now().duration_since(UNIX_EPOCH).unwrap().as_secs();
    let now = timestamp_now(0);
    assert!(is_timestamp(&now), "got: {}", now);
    assert!((0..5).any(|d| timestamp(secs + d, 0) == now), "got: {}", now);
}

#[test]
fn clock_before_the_epoch_counts_as_zero() {
    assert_eq!(epoch_secs(Some(1774794622)), 1774794622);
    assert_eq!(epoch_secs(None), 0);
}

fn command(args: &[&str]) -> Command {
    let mut all = vec!["tsdb".to_string()];
    all.extend(args.iter().map(|a| a.to_string()));
    parse_args(&all)
}

#[test]
fn arguments_select_the_mode() {
    assert!(matches!(command(&[]), Command::Help));
    assert!(matches!(command(&["-h"]), Command::Help));
    assert!(matches!(command(&["-V"]), Command::Version));
    assert!(matches!(command(&["x.dov"]), Command::Usage));
    assert!(matches!(parse_args(&[]), Command::Usage));
    assert!(matches!(command(&["x.dov", "a.atv"]),
        Command::Apply { ref dov, ref actions } if dov == "x.dov" && actions == "a.atv"));
    assert!(matches!(command(&["x.dov", "--compact"]), Command::Compact { ref dov } if dov == "x.dov"));
    assert!(matches!(command(&["--compact", "x.dov"]), Command::Compact { ref dov } if dov == "x.dov"));
    assert!(matches!(command(&["--relate", "x.dov"]), Command::Relate { ref dov } if dov == "x.dov"));
    assert!(matches!(command(&["--plane", "x.dov"]), Command::Plane { ref dov } if dov == "x.dov"));
    assert!(matches!(command(&["--query", "q.qtv", "x.dov"]),
        Command::Query { ref qtv, show: None, .. } if qtv == "q.qtv"));
    assert!(matches!(command(&["--query", "q.qtv", "x.dov", "--show", "-"]),
        Command::Query { show: Some(ShowTarget::Stdout), .. }));
    assert!(matches!(command(&["--filter", "f.ftv", "x.dov", "--show", "o.dtv"]),
        Command::Filter { show: Some(ShowTarget::File(ref p)), .. } if p == "o.dtv"));
    assert!(matches!(command(&["--filter", "f.ftv", "x.dov", "--hide"]), Command::Usage));
    assert!(matches!(command(&["--query", "q", "x", "--show", "o", "p"]), Command::Usage));
    assert!(matches!(command(&["--records", "-", "x.dov"]), Command::Records { ref input, .. } if input == "-"));
    assert!(matches!(command(&["--records", "-u", "x.dov"]), Command::Refused(_)));
    match command(&["--query", "q", "x", "--show", "-o"]) {
        Command::Refused(m) => assert_eq!(
            m,
            "--show <out.dtv> path must not start with '-' (got \"-o\"); use '-' alone for stdout"
        ),
        other => panic!("got {:?}", other),
    }
}

#[test]
fn every_error_has_its_sentence() {
    let s = |t: &str| t.to_string();
    assert_eq!(TsdbError::Io(s("gone")).message(), "I/O error: gone");
    assert_eq!(TsdbError::EscapeError(s("bad")).message(), "Escape error: bad");
    assert_eq!(TsdbError::InvalidUuid(s("bad")).message(), "Invalid UUID: bad");
    assert_eq!(TsdbError::ParseError { line: 12, message: s("bad") }.message(), "Parse error at line 12: bad");
    assert_eq!(TsdbError::DuplicateUuid { line: 3, uuid: s("U") }.message(), "Duplicate UUID at line 3: U");
    assert_eq!(TsdbError::MissingUuid { line: 3, uuid: s("U") }.message(), "Missing UUID at line 3: U");
    assert_eq!(TsdbError::Other(s("plain")).message(), "plain");
    assert_eq!(
        TsdbError::LockConflict { pid: 0xd9e0f1a2b3c4d5e6, status: EntryStatus::Exec, uuids: vec![s("U"), s("V")] }
            .message(),
        "conflict with process d9e0f1a2b3c4d5e6\n  overlapping UUIDs: U, V\n  status: EXEC (running)\n  \
         action: aborted, not queued"
    );
}
