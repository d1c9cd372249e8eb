use std::cell::{Cell, RefCell};
use std::collections::BTreeMap;
use tsdb::action::parse_action_str;
use tsdb::clock::timestamp;
use tsdb::dotsv::{apply_actions, DotsvFile};
use tsdb::relate::last_nonempty_line;
use tsdb::error::TsdbError;
use tsdb::relate::{generate_rtvs, kv_rtv_path, uuid_rtv_path, vk_rtv_path, RtvFooters};

const PEOPLE: &str = "+AGk26cH00001\tname=Alice\tcity=Tokyo\n\
     +AGk26cH00002\tname=Bob\tcity=Tokyo\n\
     +AGk26cH00003\tname=Carol\tcity=London\n";

/// Files in memory, with the moments at which they were written.
struct Disk {
    files: RefCell<BTreeMap<String, (String, u64)>>,
    clock: Cell<u64>,
}

impl Disk {
    fn new() -> Disk {
        Disk { files: RefCell::new(BTreeMap::new()), clock: Cell::new(1_700_000_000) }
    }

    fn at(&self, name: &str) -> String {
        format!("/data/{}", name)
    }

    fn tick(&self) -> u64 {
        self.clock.set(self.clock.get() + 1);
        self.clock.get()
    }

    fn write(&self, path: &str, text: &str) {
        let now = self.tick();
        self.files.borrow_mut().insert(path.to_string(), (text.to_string(), now));
    }

    fn has(&self, path: &str) -> bool {
        self.files.borrow().contains_key(path)
    }

    fn read(&self, path: &str) -> String {
        self.files.borrow()[path].0.clone()
    }

    fn written(&self, path: &str) -> u64 {
        self.files.borrow()[path].1
    }

    fn save(&self, db: &DotsvFile, path: &str) {
        let stamp = timestamp(self.tick(), 0);
        self.write(path, &db.to_text(&stamp));
    }

    fn load(&self, path: &str) -> DotsvFile {
        DotsvFile::from_bytes(self.read(path).as_bytes()).unwrap()
    }

    fn footer(&self, path: &str) -> String {
        last_nonempty_line(&self.read(path), path).unwrap()
    }

    fn footer_if(&self, path: &str) -> Option<String> {
        if self.has(path) {
            Some(self.footer(path))
        } else {
            None
        }
    }

    fn relate(&self, dov: &str, db: &DotsvFile) -> Result<(), TsdbError> {
        let ts = self.footer(dov);
        let existing = RtvFooters {
            kv: self.footer_if(&kv_rtv_path(dov)),
            vk: self.footer_if(&vk_rtv_path(dov)),
            uuid: self.footer_if(&uuid_rtv_path(dov)),
        };
        if let Some(t) = generate_rtvs(db, &ts, &existing)? {
            self.write(&kv_rtv_path(dov), &t.kv);
            self.write(&vk_rtv_path(dov), &t.vk);
            self.write(&uuid_rtv_path(dov), &t.uuid);
        }
        Ok(())
    }
}

fn build(tmp: &Disk, action: &str) -> String {
    let dov = tmp.at("test.dov");
    let mut db = DotsvFile::empty();
    let actions = parse_action_str(action).unwrap();
    apply_actions(&mut db, &actions).unwrap();
    db.compact().unwrap();
    tmp.save(&db, &dov);
    dov
}

#[test]
fn test_kv_rtv_path() {
    let p = "/data/store.dov";
    assert_eq!(kv_rtv_path(p), "/data/store.kv.rtv");
}

#[test]
fn test_vk_rtv_path() {
    let p = "/data/store.dov";
    assert_eq!(vk_rtv_path(p), "/data/store.vk.rtv");
}

#[test]
fn test_generate_rtvs_creates_files() {
    let tmp = Disk::new();
    let dov = build(&tmp, PEOPLE);
    let db = tmp.load(&dov);
    tmp.relate(&dov, &db).unwrap();

    assert!(tmp.has(&kv_rtv_path(&dov)), "kv.rtv should exist");
    assert!(tmp.has(&vk_rtv_path(&dov)), "vk.rtv should exist");
}

#[test]
fn test_kv_rtv_content() {
    let tmp = Disk::new();
    let dov = build(&tmp, PEOPLE);
    let db = tmp.load(&dov);
    tmp.relate(&dov, &db).unwrap();

    let content = tmp.read(&kv_rtv_path(&dov));
    assert!(
        content.contains("city\tLondon\tAGk26cH00003"),
        "kv.rtv missing city/London row: {}",
        content
    );
    assert!(
        content.contains("city\tTokyo\tAGk26cH00001,AGk26cH00002"),
        "kv.rtv missing city/Tokyo row: {}",
        content
    );
}

#[test]
fn test_vk_rtv_content() {
    let tmp = Disk::new();
    let dov = build(&tmp, PEOPLE);
    let db = tmp.load(&dov);
    tmp.relate(&dov, &db).unwrap();

    let content = tmp.read(&vk_rtv_path(&dov));
    assert!(
        content.contains("Tokyo\tcity\tAGk26cH00001,AGk26cH00002"),
        "vk.rtv missing Tokyo/city row: {}",
        content
    );
}

#[test]
fn test_generate_rtvs_timestamp_matches_dov() {
    let tmp = Disk::new();
    let dov = build(&tmp, PEOPLE);
    let db = tmp.load(&dov);
    tmp.relate(&dov, &db).unwrap();

    let dov_ts = tmp.footer(&dov);
    let kv_ts = tmp.footer(&kv_rtv_path(&dov));
    let vk_ts = tmp.footer(&vk_rtv_path(&dov));
    assert_eq!(kv_ts, dov_ts, "kv.rtv timestamp must match .dov");
    assert_eq!(vk_ts, dov_ts, "vk.rtv timestamp must match .dov");
}

#[test]
fn test_uuid_rtv_path() {
    let p = "/data/store.dov";
    assert_eq!(uuid_rtv_path(p), "/data/store.uuid.rtv");
}

#[test]
fn test_uuid_rtv_content() {
    let tmp = Disk::new();
    let dov = build(&tmp, PEOPLE);
    let db = tmp.load(&dov);
    tmp.relate(&dov, &db).unwrap();

    let content = tmp.read(&uuid_rtv_path(&dov));
    let lines: Vec<&str> = content.lines().collect();
    assert_eq!(lines.len(), 4);
    assert_eq!(lines[0], "AGk26cH00001");
    assert_eq!(lines[1], "AGk26cH00002");
    assert_eq!(lines[2], "AGk26cH00003");
}

#[test]
fn test_uuid_rtv_timestamp_matches_dov() {
    let tmp = Disk::new();
    let dov = build(&tmp, PEOPLE);
    let db = tmp.load(&dov);
    tmp.relate(&dov, &db).unwrap();

    let dov_ts = tmp.footer(&dov);
    let uuid_ts = tmp.footer(&uuid_rtv_path(&dov));
    assert_eq!(uuid_ts, dov_ts);
}

#[test]
fn test_generate_rtvs_skip_when_current() {
    let tmp = Disk::new();
    let dov = build(&tmp, PEOPLE);
    let db = tmp.load(&dov);

    tmp.relate(&dov, &db).unwrap();
    let kv_mtime = tmp.written(&kv_rtv_path(&dov));

    tmp.relate(&dov, &db).unwrap();
    let kv_mtime2 = tmp.written(&kv_rtv_path(&dov));
    assert_eq!(
        kv_mtime, kv_mtime2,
        "kv.rtv should not be rewritten when current"
    );
}
