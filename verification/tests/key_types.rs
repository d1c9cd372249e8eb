use std::cell::{Cell, RefCell};
use std::collections::BTreeMap;
use tsdb::action::parse_action_str;
use tsdb::clock::timestamp;
use tsdb::dotsv::{apply_actions, DotsvFile};
use tsdb::relate::last_nonempty_line;
use tsdb::error::TsdbError;
use tsdb::keytype::{generate_kt_ptv, kt_ptv_path};

/// Files in memory, with the moments at which they were written.
struct Disk {
    files: RefCell<BTreeMap<String, (String, u64)>>,
    clock: Cell<u64>,
}

impl Disk {
    fn new() -> Disk {
        Disk { files: RefCell::new(BTreeMap::new()), clock: Cell::new(1_700_000_000) }
    }

    fn at(&self, name: &str) -> String {
        format!("/data/{}", name)
    }

    fn tick(&self) -> u64 {
        self.clock.set(self.clock.get() + 1);
        self.clock.get()
    }

    fn write(&self, path: &str, text: &str) {
        let now = self.tick();
        self.files.borrow_mut().insert(path.to_string(), (text.to_string(), now));
    }

    fn has(&self, path: &str) -> bool {
        self.files.borrow().contains_key(path)
    }

    fn read(&self, path: &str) -> String {
        self.files.borrow()[path].0.clone()
    }

    fn written(&self, path: &str) -> u64 {
        self.files.borrow()[path].1
    }

    fn save(&self, db: &DotsvFile, path: &str) {
        let stamp = timestamp(self.tick(), 0);
        self.write(path, &db.to_text(&stamp));
    }

    fn load(&self, path: &str) -> DotsvFile {
        DotsvFile::from_bytes(self.read(path).as_bytes()).unwrap()
    }

    fn footer(&self, path: &str) -> String {
        last_nonempty_line(&self.read(path), path).unwrap()
    }

    fn footer_if(&self, path: &str) -> Option<String> {
        if self.has(path) {
            Some(self.footer(path))
        } else {
            None
        }
    }

    fn key_types(&self, dov: &str, db: &DotsvFile, ts: &str) -> Result<(), TsdbError> {
        let text = generate_kt_ptv(db, ts)?;
        self.write(&kt_ptv_path(dov), &text);
        Ok(())
    }
}

fn build(tmp: &Disk, action: &str) -> String {
    let dov = tmp.at("test.dov");
    let mut db = DotsvFile::empty();
    let actions = parse_action_str(action).unwrap();
    apply_actions(&mut db, &actions).unwrap();
    db.compact().unwrap();
    tmp.save(&db, &dov);
    dov
}

#[test]
fn generate_kt_ptv_empty_db_writes_footer_only() {
    let tmp = Disk::new();
    let dov = tmp.at("empty.dov");
    let mut db = DotsvFile::empty();
    db.compact().unwrap();
    tmp.save(&db, &dov);
    let db = tmp.load(&dov);
    let dov_ts = tmp.footer(&dov);
    tmp.key_types(&dov, &db, &dov_ts).unwrap();
    let content = tmp.read(&kt_ptv_path(&dov));
    let lines: Vec<&str> = content.lines().collect();
    assert_eq!(lines.len(), 1);
    assert_eq!(lines[0], dov_ts);
}

#[test]
fn generate_kt_ptv_single_record_one_key() {
    let tmp = Disk::new();
    let dov = build(&tmp, "+AGk26cH00001\tname=Alice\n");
    let db = tmp.load(&dov);
    let dov_ts = tmp.footer(&dov);
    tmp.key_types(&dov, &db, &dov_ts).unwrap();
    let content = tmp.read(&kt_ptv_path(&dov));
    assert!(content.contains("name\tstring\t1\tAGk26cH00001\n"));
}

#[test]
fn generate_kt_ptv_single_record_multi_key() {
    let tmp = Disk::new();
    let dov = build(&tmp, "+AGk26cH00001\tname=Alice\tage=30\n");
    let db = tmp.load(&dov);
    let dov_ts = tmp.footer(&dov);
    tmp.key_types(&dov, &db, &dov_ts).unwrap();
    let content = tmp.read(&kt_ptv_path(&dov));
    assert!(content.contains("age\tnumber\t1\tAGk26cH00001\n"));
    assert!(content.contains("name\tstring\t1\tAGk26cH00001\n"));
}

#[test]
fn generate_kt_ptv_mixed_types_per_key_emits_one_row_per_type() {
    let tmp = Disk::new();
    let dov = build(
        &tmp,
        "+AGk26cH00001\tage=30\n\
         +AGk26cH00002\tage=many\n",
    );
    let db = tmp.load(&dov);
    let dov_ts = tmp.footer(&dov);
    tmp.key_types(&dov, &db, &dov_ts).unwrap();
    let content = tmp.read(&kt_ptv_path(&dov));
    assert!(content.contains("age\tnumber\t1\tAGk26cH00001\n"));
    assert!(content.contains("age\tstring\t1\tAGk26cH00002\n"));
}

#[test]
fn generate_kt_ptv_count_column_is_uuid_count() {
    let tmp = Disk::new();
    let dov = build(
        &tmp,
        "+AGk26cH00001\tname=Alice\n\
         +AGk26cH00002\tname=Bob\n\
         +AGk26cH00003\tname=Carol\n",
    );
    let db = tmp.load(&dov);
    let dov_ts = tmp.footer(&dov);
    tmp.key_types(&dov, &db, &dov_ts).unwrap();
    let content = tmp.read(&kt_ptv_path(&dov));
    assert!(content.contains(
        "name\tstring\t3\tAGk26cH00001,AGk26cH00002,AGk26cH00003\n"
    ));
}

#[test]
fn generate_kt_ptv_count_is_record_count_not_array_element_count() {
    let tmp = Disk::new();
    let dov = build(&tmp, "+AGk26cH00001\trole=admin\trole=editor\trole=viewer\n");
    let db = tmp.load(&dov);
    let dov_ts = tmp.footer(&dov);
    tmp.key_types(&dov, &db, &dov_ts).unwrap();
    let content = tmp.read(&kt_ptv_path(&dov));
    assert!(content.contains("role\tarray\t1\tAGk26cH00001\n"));
}

#[test]
fn generate_kt_ptv_uuid_list_sorted_lex() {
    let tmp = Disk::new();
    let dov = build(
        &tmp,
        "+CGk26cH00001\tcity=Tokyo\n\
         +AGk26cH00002\tcity=Tokyo\n\
         +BGk26cH00003\tcity=Tokyo\n",
    );
    let db = tmp.load(&dov);
    let dov_ts = tmp.footer(&dov);
    tmp.key_types(&dov, &db, &dov_ts).unwrap();
    let content = tmp.read(&kt_ptv_path(&dov));
    assert!(content.contains(
        "city\tstring\t3\tAGk26cH00002,BGk26cH00003,CGk26cH00001\n"
    ));
}

#[test]
fn generate_kt_ptv_uuid_list_comma_separated_no_spaces() {
    let tmp = Disk::new();
    let dov = build(
        &tmp,
        "+AGk26cH00001\tcity=Tokyo\n\
         +AGk26cH00002\tcity=Tokyo\n",
    );
    let db = tmp.load(&dov);
    let dov_ts = tmp.footer(&dov);
    tmp.key_types(&dov, &db, &dov_ts).unwrap();
    let content = tmp.read(&kt_ptv_path(&dov));
    assert!(content.contains("AGk26cH00001,AGk26cH00002"));
    assert!(!content.contains(", "));
}

#[test]
fn generate_kt_ptv_rows_sorted_by_key_then_type() {
    let tmp = Disk::new();
    let dov = build(
        &tmp,
        "+AGk26cH00001\tx=1\ty=true\tz=hi\n\
         +AGk26cH00002\tx=many\ty=20262903143022\n",
    );
    let db = tmp.load(&dov);
    let dov_ts = tmp.footer(&dov);
    tmp.key_types(&dov, &db, &dov_ts).unwrap();
    let content = tmp.read(&kt_ptv_path(&dov));
    let data: Vec<&str> = content
        .lines()
        .filter(|l| !l.is_empty() && !l.starts_with('#'))
        .collect();
    assert!(data[0].starts_with("x\tnumber\t"));
    assert!(data[1].starts_with("x\tstring\t"));
    assert!(data[2].starts_with("y\tboolean\t"));
    assert!(data[3].starts_with("y\ttimestamp\t"));
    assert!(data[4].starts_with("z\tstring\t"));
}

#[test]
fn generate_kt_ptv_unicode_key_round_trips() {
    let tmp = Disk::new();
    let dov = build(&tmp, "+AGk26cH00001\t都市=東京\n");
    let db = tmp.load(&dov);
    let dov_ts = tmp.footer(&dov);
    tmp.key_types(&dov, &db, &dov_ts).unwrap();
    let content = tmp.read(&kt_ptv_path(&dov));
    assert!(content.contains("都市\tstring\t1\tAGk26cH00001\n"));
}

#[test]
fn generate_kt_ptv_escaped_tab_in_key_round_trips() {
    let tmp = Disk::new();
    let dov = build(&tmp, "+AGk26cH00001\twe\\x09ird=value\n");
    let db = tmp.load(&dov);
    let dov_ts = tmp.footer(&dov);
    tmp.key_types(&dov, &db, &dov_ts).unwrap();
    let content = tmp.read(&kt_ptv_path(&dov));
    assert!(content.contains("we\\x09ird\tstring\t1\tAGk26cH00001\n"));
}

#[test]
fn generate_kt_ptv_escaped_eq_in_key_round_trips() {
    let tmp = Disk::new();
    let dov = build(&tmp, "+AGk26cH00001\tk\\x3Dq=value\n");
    let db = tmp.load(&dov);
    let dov_ts = tmp.footer(&dov);
    tmp.key_types(&dov, &db, &dov_ts).unwrap();
    let content = tmp.read(&kt_ptv_path(&dov));
    assert!(content.contains("k\\x3Dq\tstring\t1\tAGk26cH00001\n"));
}

#[test]
fn generate_kt_ptv_footer_matches_dov_exact_bytes() {
    let tmp = Disk::new();
    let dov = build(&tmp, "+AGk26cH00001\tname=Alice\n");
    let db = tmp.load(&dov);
    let dov_ts = tmp.footer(&dov);
    tmp.key_types(&dov, &db, &dov_ts).unwrap();
    let kt_ts = tmp.footer(&kt_ptv_path(&dov));
    assert_eq!(kt_ts, dov_ts);
}

#[test]
fn generate_kt_ptv_byte_identical_across_runs() {
    let tmp = Disk::new();
    let dov = build(
        &tmp,
        "+AGk26cH00001\tname=Alice\tage=30\n\
         +AGk26cH00002\tname=Bob\tage=many\n",
    );
    let db = tmp.load(&dov);
    let dov_ts = tmp.footer(&dov);
    tmp.key_types(&dov, &db, &dov_ts).unwrap();
    let bytes1 = tmp.read(&kt_ptv_path(&dov));
    tmp.key_types(&dov, &db, &dov_ts).unwrap();
    let bytes2 = tmp.read(&kt_ptv_path(&dov));
    assert_eq!(bytes1, bytes2);
}

#[test]
fn generate_kt_ptv_packed_array_classified_array_count_one() {
    let tmp = Disk::new();
    let dov = build(&tmp, "+AGk26cH00001\trole=admin\trole=editor\n");
    let db = tmp.load(&dov);
    let dov_ts = tmp.footer(&dov);
    tmp.key_types(&dov, &db, &dov_ts).unwrap();
    let content = tmp.read(&kt_ptv_path(&dov));
    assert!(content.contains("role\tarray\t1\tAGk26cH00001\n"));
}

#[test]
fn generate_kt_ptv_no_object_type_in_output() {
    let tmp = Disk::new();
    let dov = build(
        &tmp,
        "+AGk26cH00001\tname=Alice\tage=30\trole=admin\trole=editor\tactive=true\n",
    );
    let db = tmp.load(&dov);
    let dov_ts = tmp.footer(&dov);
    tmp.key_types(&dov, &db, &dov_ts).unwrap();
    let content = tmp.read(&kt_ptv_path(&dov));
    for line in content.lines() {
        assert!(
            !line.contains("\tobject\t"),
            "found `object` type token in: {}",
            line
        );
    }
}

#[test]
fn generate_kt_ptv_rejects_pending() {
    let tmp = Disk::new();
    let dov = tmp.at("test.dov");
    let mut db = DotsvFile::empty();
    let actions = parse_action_str("+AGk26cH00001\tname=Alice\n").unwrap();
    apply_actions(&mut db, &actions).unwrap();
    tmp.save(&db, &dov);
    assert!(tmp.key_types(&dov, &db, "# 20260427000000").is_err());
}

#[test]
fn generate_kt_ptv_body_unchanged_when_only_dov_footer_changes() {
    let tmp = Disk::new();
    let dov = build(&tmp, "+AGk26cH00001\tname=Alice\n");
    let db = tmp.load(&dov);
    tmp.key_types(&dov, &db, "# 20260427120000").unwrap();
    let bytes_a = tmp.read(&kt_ptv_path(&dov));
    tmp.key_types(&dov, &db, "# 20260428120000").unwrap();
    let bytes_b = tmp.read(&kt_ptv_path(&dov));
    let strip_footer = |s: &str| -> Vec<u8> {
        s.lines()
            .filter(|l| !l.starts_with('#'))
            .collect::<Vec<_>>()
            .join("\n")
            .into_bytes()
    };
    assert_eq!(strip_footer(&bytes_a), strip_footer(&bytes_b));
    assert_ne!(bytes_a, bytes_b);
}
