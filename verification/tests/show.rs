use std::cell::{Cell, RefCell};
use std::collections::BTreeMap;
use tsdb::action::parse_action_str;
use tsdb::clock::timestamp;
use tsdb::dotsv::{apply_actions, DotsvFile};
use tsdb::relate::last_nonempty_line;
use tsdb::show::{collect_record_lines, dtv_is_current, dtv_path, show_text};

/// Files in memory, with the moments at which they were written.
struct Disk {
    files: RefCell<BTreeMap<String, (String, u64)>>,
    clock: Cell<u64>,
}

impl Disk {
    fn new() -> Disk {
        Disk { files: RefCell::new(BTreeMap::new()), clock: Cell::new(1_700_000_000) }
    }

    fn at(&self, name: &str) -> String {
        format!("/data/{}", name)
    }

    fn tick(&self) -> u64 {
        self.clock.set(self.clock.get() + 1);
        self.clock.get()
    }

    fn write(&self, path: &str, text: &str) {
        let now = self.tick();
        self.files.borrow_mut().insert(path.to_string(), (text.to_string(), now));
    }

    fn has(&self, path: &str) -> bool {
        self.files.borrow().contains_key(path)
    }

    fn read(&self, path: &str) -> String {
        self.files.borrow()[path].0.clone()
    }

    fn written(&self, path: &str) -> u64 {
        self.files.borrow()[path].1
    }

    fn save(&self, db: &DotsvFile, path: &str) {
        let stamp = timestamp(self.tick(), 0);
        self.write(path, &db.to_text(&stamp));
    }

    fn load(&self, path: &str) -> DotsvFile {
        DotsvFile::from_bytes(self.read(path).as_bytes()).unwrap()
    }

    fn footer(&self, path: &str) -> String {
        last_nonempty_line(&self.read(path), path).unwrap()
    }

    fn footer_if(&self, path: &str) -> Option<String> {
        if self.has(path) {
            Some(self.footer(path))
        } else {
            None
        }
    }

    fn write_dtv(&self, out: &str, records: &[String], footer: &str) {
        self.write(out, &show_text(records, footer));
    }

    fn dtv_current(&self, out: &str, dov: &str, criteria: &str) -> bool {
        dtv_is_current(
            &self.footer(dov),
            &self.footer_if(out),
            Some(self.written(criteria) as u128),
            self.written(out) as u128,
        )
    }
}

fn build(tmp: &Disk, action: &str) -> String {
    let dov = tmp.at("test.dov");
    let mut db = DotsvFile::empty();
    let actions = parse_action_str(action).unwrap();
    apply_actions(&mut db, &actions).unwrap();
    db.compact().unwrap();
    tmp.save(&db, &dov);
    dov
}

#[test]
fn show_to_dtv_writes_timestamp_footer() {
    let tmp = Disk::new();
    let dov = build(&tmp, "+AGk26cH00001\tname=Alice\n");
    let db = tmp.load(&dov);
    let footer = tmp.footer(&dov);
    let lines = collect_record_lines(&["AGk26cH00001".to_string()], &db).unwrap();
    let out = tmp.at("out.dtv");
    tmp.write_dtv(&out, &lines, &footer);
    let content = tmp.read(&out);
    assert!(content.starts_with("AGk26cH00001\tname=Alice"));
    assert!(content.trim_end().ends_with(&footer));
}

#[test]
fn show_to_dtv_round_trip() {
    let tmp = Disk::new();
    let dov = build(
        &tmp,
        "+AGk26cH00001\tname=Alice\tcity=Tokyo\n\
         +AGk26cH00002\tname=Bob\n",
    );
    let db = tmp.load(&dov);
    let footer = tmp.footer(&dov);
    let lines = collect_record_lines(
        &["AGk26cH00001".to_string(), "AGk26cH00002".to_string()],
        &db,
    )
    .unwrap();
    let out = tmp.at("out.dtv");
    tmp.write_dtv(&out, &lines, &footer);

    let raw = tmp.read(&out);
    let body = raw
        .lines()
        .filter(|l| !l.starts_with('#'))
        .collect::<Vec<_>>()
        .join("\n");
    let mut text = body;
    text.push_str("\n\n");
    let db2 = DotsvFile::parse_str(&text).unwrap();
    assert!(db2.uuid_exists("AGk26cH00001"));
    assert!(db2.uuid_exists("AGk26cH00002"));
}

#[test]
fn show_skip_when_dtv_current_and_qtv_older() {
    let tmp = Disk::new();
    let dov = build(&tmp, "+AGk26cH00001\tname=Alice\n");
    let db = tmp.load(&dov);
    let footer = tmp.footer(&dov);

    let qtv = tmp.at("q.qtv");
    tmp.write(&qtv, "name\tAlice\n");
    let lines = collect_record_lines(&["AGk26cH00001".to_string()], &db).unwrap();
    let out = tmp.at("out.dtv");
    tmp.write_dtv(&out, &lines, &footer);
    let skip = tmp.dtv_current(&out, &dov, &qtv);
    assert!(skip, "expected skip when dtv current and qtv older");
}

#[test]
fn show_regenerates_when_dov_changed() {
    let tmp = Disk::new();
    let dov = build(&tmp, "+AGk26cH00001\tname=Alice\n");
    let db = tmp.load(&dov);
    let footer = tmp.footer(&dov);
    let qtv = tmp.at("q.qtv");
    tmp.write(&qtv, "name\tAlice\n");
    let lines = collect_record_lines(&["AGk26cH00001".to_string()], &db).unwrap();
    let out = tmp.at("out.dtv");
    tmp.write_dtv(&out, &lines, &footer);
    let mut db2 = tmp.load(&dov);
    let actions = parse_action_str("+AGk26cH00002\tname=Bob\n").unwrap();
    apply_actions(&mut db2, &actions).unwrap();
    db2.compact().unwrap();
    tmp.save(&db2, &dov);
    let skip = tmp.dtv_current(&out, &dov, &qtv);
    assert!(!skip, "must not skip after .dov changed");
}

#[test]
fn show_handles_empty_database() {
    let tmp = Disk::new();
    let dov = tmp.at("test.dov");
    let mut db = DotsvFile::empty();
    db.compact().unwrap();
    tmp.save(&db, &dov);
    let db = tmp.load(&dov);
    let footer = tmp.footer(&dov);
    let lines = collect_record_lines(&[], &db).unwrap();
    let out = tmp.at("out.dtv");
    tmp.write_dtv(&out, &lines, &footer);
    let content = tmp.read(&out);
    let nonempty: Vec<&str> = content.lines().filter(|l| !l.is_empty()).collect();
    assert_eq!(nonempty.len(), 1);
}

#[test]
fn show_packed_array_value_round_trips() {
    let tmp = Disk::new();
    let dov = build(
        &tmp,
        "+AGk26cH00001\trole=admin\trole=editor\trole=viewer\n",
    );
    let db = tmp.load(&dov);
    let footer = tmp.footer(&dov);
    let lines = collect_record_lines(&["AGk26cH00001".to_string()], &db).unwrap();
    let out = tmp.at("out.dtv");
    tmp.write_dtv(&out, &lines, &footer);
    let content = tmp.read(&out);
    assert!(content.contains(r#"role=["admin","editor","viewer"]"#));
}

#[test]
fn show_uuid_index_consistency_aborts_with_message() {
    let tmp = Disk::new();
    let dov = build(&tmp, "+AGk26cH00001\tname=Alice\n");
    let db = tmp.load(&dov);
    let result = collect_record_lines(&["BGk26cH00001".to_string()], &db);
    assert!(result.is_err());
    let msg = result.unwrap_err().message();
    assert!(
        msg.contains("missing from compacted"),
        "got: {}",
        msg
    );
}

#[test]
fn show_existing_dtv_with_wrong_footer_is_overwritten() {
    let tmp = Disk::new();
    let dov = build(&tmp, "+AGk26cH00001\tname=Alice\n");
    let db = tmp.load(&dov);
    let footer = tmp.footer(&dov);
    let lines = collect_record_lines(&["AGk26cH00001".to_string()], &db).unwrap();
    let out = tmp.at("out.dtv");
    tmp.write(&out, "STALE\tline\n# 19700101000000\n");
    let qtv = tmp.at("q.qtv");
    tmp.write(&qtv, "x\n");
    let skip = tmp.dtv_current(&out, &dov, &qtv);
    assert!(!skip);
    tmp.write_dtv(&out, &lines, &footer);
    let content = tmp.read(&out);
    assert!(content.contains("AGk26cH00001"));
}

#[test]
fn show_does_not_emit_opcode_prefix() {
    let tmp = Disk::new();
    let dov = build(&tmp, "+AGk26cH00001\tname=Alice\n");
    let db = tmp.load(&dov);
    let footer = tmp.footer(&dov);
    let lines = collect_record_lines(&["AGk26cH00001".to_string()], &db).unwrap();
    let out = tmp.at("out.dtv");
    tmp.write_dtv(&out, &lines, &footer);
    let content = tmp.read(&out);
    for line in content.lines().filter(|l| !l.is_empty() && !l.starts_with('#')) {
        assert!(
            !line.starts_with('+')
                && !line.starts_with('-')
                && !line.starts_with('~')
                && !line.starts_with('!'),
            "unexpected opcode prefix on line {:?}",
            line
        );
    }
}

#[test]
fn show_emits_kv_pairs_in_record_serialize_key_order() {
    let tmp = Disk::new();
    let dov = build(&tmp, "+AGk26cH00001\tzeta=z\talpha=a\tmiddle=m\n");
    let db = tmp.load(&dov);
    let footer = tmp.footer(&dov);
    let lines = collect_record_lines(&["AGk26cH00001".to_string()], &db).unwrap();
    let out = tmp.at("out.dtv");
    tmp.write_dtv(&out, &lines, &footer);
    let content = tmp.read(&out);
    let pos_a = content.find("alpha=a").unwrap();
    let pos_m = content.find("middle=m").unwrap();
    let pos_z = content.find("zeta=z").unwrap();
    assert!(pos_a < pos_m && pos_m < pos_z);
}

#[test]
fn show_preserves_escaped_tab_in_value() {
    let tmp = Disk::new();
    let dov = build(&tmp, "+AGk26cH00001\tnote=hello\\x09world\n");
    let db = tmp.load(&dov);
    let footer = tmp.footer(&dov);
    let lines = collect_record_lines(&["AGk26cH00001".to_string()], &db).unwrap();
    let out = tmp.at("out.dtv");
    tmp.write_dtv(&out, &lines, &footer);
    let content = tmp.read(&out);
    assert!(content.contains("\\x09"));
}

#[test]
fn show_preserves_unicode_keys() {
    let tmp = Disk::new();
    let dov = build(&tmp, "+AGk26cH00001\t都市=東京\n");
    let db = tmp.load(&dov);
    let footer = tmp.footer(&dov);
    let lines = collect_record_lines(&["AGk26cH00001".to_string()], &db).unwrap();
    let out = tmp.at("out.dtv");
    tmp.write_dtv(&out, &lines, &footer);
    let content = tmp.read(&out);
    assert!(content.contains("都市=東京"));
}

#[test]
fn show_to_stdout_zero_results_emits_just_footer() {
    assert_eq!(show_text(&[], "# 20260427000000"), "# 20260427000000\n");
}
