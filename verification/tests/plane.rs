use std::cell::{Cell, RefCell};
use std::collections::BTreeMap;
use tsdb::action::parse_action_str;
use tsdb::clock::timestamp;
use tsdb::dotsv::{apply_actions, DotsvFile};
use tsdb::relate::last_nonempty_line;
use tsdb::error::TsdbError;
use tsdb::keytype::kt_ptv_path;
use tsdb::order::ord_ptv_path;
use tsdb::plane::{generate_ptvs, kv_ptv_path, uuid_ptv_path, vk_ptv_path, PtvFooters};

const PEOPLE: &str = "+AGk26cH00001\tname=Alice\tcity=Tokyo\n\
     +AGk26cH00002\tname=Bob\tcity=Tokyo\n\
     +AGk26cH00003\tname=Carol\tcity=London\n";

/// Files in memory, with the moments at which they were written.
struct Disk {
    files: RefCell<BTreeMap<String, (String, u64)>>,
    clock: Cell<u64>,
}

impl Disk {
    fn new() -> Disk {
        Disk { files: RefCell::new(BTreeMap::new()), clock: Cell::new(1_700_000_000) }
    }

    fn at(&self, name: &str) -> String {
        format!("/data/{}", name)
    }

    fn tick(&self) -> u64 {
        self.clock.set(self.clock.get() + 1);
        self.clock.get()
    }

    fn write(&self, path: &str, text: &str) {
        let now = self.tick();
        self.files.borrow_mut().insert(path.to_string(), (text.to_string(), now));
    }

    fn has(&self, path: &str) -> bool {
        self.files.borrow().contains_key(path)
    }

    fn read(&self, path: &str) -> String {
        self.files.borrow()[path].0.clone()
    }

    fn written(&self, path: &str) -> u64 {
        self.files.borrow()[path].1
    }

    fn save(&self, db: &DotsvFile, path: &str) {
        let stamp = timestamp(self.tick(), 0);
        self.write(path, &db.to_text(&stamp));
    }

    fn load(&self, path: &str) -> DotsvFile {
        DotsvFile::from_bytes(self.read(path).as_bytes()).unwrap()
    }

    fn footer(&self, path: &str) -> String {
        last_nonempty_line(&self.read(path), path).unwrap()
    }

    fn footer_if(&self, path: &str) -> Option<String> {
        if self.has(path) {
            Some(self.footer(path))
        } else {
            None
        }
    }

    fn plane(&self, dov: &str, db: &DotsvFile) -> Result<(), TsdbError> {
        let ts = self.footer(dov);
        let existing = PtvFooters {
            kv: self.footer_if(&kv_ptv_path(dov)),
            vk: self.footer_if(&vk_ptv_path(dov)),
            uuid: self.footer_if(&uuid_ptv_path(dov)),
            ord: self.footer_if(&ord_ptv_path(dov)),
            kt: self.footer_if(&kt_ptv_path(dov)),
        };
        if let Some(t) = generate_ptvs(db, &ts, &existing)? {
            self.write(&kv_ptv_path(dov), &t.kv);
            self.write(&vk_ptv_path(dov), &t.vk);
            self.write(&uuid_ptv_path(dov), &t.uuid);
            self.write(&ord_ptv_path(dov), &t.ord);
            self.write(&kt_ptv_path(dov), &t.kt);
        }
        Ok(())
    }
}

fn build(tmp: &Disk, action: &str) -> String {
    let dov = tmp.at("test.dov");
    let mut db = DotsvFile::empty();
    let actions = parse_action_str(action).unwrap();
    apply_actions(&mut db, &actions).unwrap();
    db.compact().unwrap();
    tmp.save(&db, &dov);
    dov
}

#[test]
fn test_kv_ptv_path() {
    let p = "/data/store.dov";
    assert_eq!(kv_ptv_path(p), "/data/store.kv.ptv");
}

#[test]
fn test_vk_ptv_path() {
    let p = "/data/store.dov";
    assert_eq!(vk_ptv_path(p), "/data/store.vk.ptv");
}

#[test]
fn test_generate_ptvs_creates_files() {
    let tmp = Disk::new();
    let dov = build(&tmp, PEOPLE);
    let db = tmp.load(&dov);
    tmp.plane(&dov, &db).unwrap();

    assert!(tmp.has(&kv_ptv_path(&dov)));
    assert!(tmp.has(&vk_ptv_path(&dov)));
}

#[test]
fn test_kv_ptv_is_flattened() {
    let tmp = Disk::new();
    let dov = build(&tmp, PEOPLE);
    let db = tmp.load(&dov);
    tmp.plane(&dov, &db).unwrap();

    let content = tmp.read(&kv_ptv_path(&dov));
    assert!(content.contains("city\tTokyo\tAGk26cH00001\n"));
    assert!(content.contains("city\tTokyo\tAGk26cH00002\n"));
    assert!(
        !content.contains(","),
        "ptv must not contain comma-joined uuid lists: {}",
        content
    );
}

#[test]
fn test_kv_ptv_row_count() {
    let tmp = Disk::new();
    let dov = build(&tmp, PEOPLE);
    let db = tmp.load(&dov);
    tmp.plane(&dov, &db).unwrap();

    let content = tmp.read(&kv_ptv_path(&dov));
    let data_rows = content
        .lines()
        .filter(|l| !l.is_empty() && !l.starts_with('#'))
        .count();
    assert_eq!(data_rows, 6);
}

#[test]
fn test_vk_ptv_is_flattened() {
    let tmp = Disk::new();
    let dov = build(&tmp, PEOPLE);
    let db = tmp.load(&dov);
    tmp.plane(&dov, &db).unwrap();

    let content = tmp.read(&vk_ptv_path(&dov));
    assert!(content.contains("Tokyo\tcity\tAGk26cH00001\n"));
    assert!(content.contains("Tokyo\tcity\tAGk26cH00002\n"));
    assert!(!content.contains(","));
}

#[test]
fn test_ptv_timestamp_matches_dov() {
    let tmp = Disk::new();
    let dov = build(&tmp, PEOPLE);
    let db = tmp.load(&dov);
    tmp.plane(&dov, &db).unwrap();

    let dov_ts = tmp.footer(&dov);
    let kv_ts = tmp.footer(&kv_ptv_path(&dov));
    let vk_ts = tmp.footer(&vk_ptv_path(&dov));
    assert_eq!(kv_ts, dov_ts);
    assert_eq!(vk_ts, dov_ts);
}

#[test]
fn test_generate_ptvs_skip_when_current() {
    let tmp = Disk::new();
    let dov = build(&tmp, PEOPLE);
    let db = tmp.load(&dov);

    tmp.plane(&dov, &db).unwrap();
    let mtime1 = tmp.written(&kv_ptv_path(&dov));

    tmp.plane(&dov, &db).unwrap();
    let mtime2 = tmp.written(&kv_ptv_path(&dov));
    assert_eq!(mtime1, mtime2);
}

#[test]
fn test_generate_ptvs_rejects_pending() {
    let tmp = Disk::new();
    let dov = tmp.at("test.dov");
    let mut db = DotsvFile::empty();
    let actions = parse_action_str("+AGk26cH00001\tname=Alice\n").unwrap();
    apply_actions(&mut db, &actions).unwrap();
    tmp.save(&db, &dov);
    assert!(tmp.plane(&dov, &db).is_err());
}
