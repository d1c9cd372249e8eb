use std::cell::{Cell, RefCell};
use std::collections::BTreeMap;
use tsdb::action::parse_action_str;
use tsdb::clock::timestamp;
use tsdb::dotsv::{apply_actions, DotsvFile};
use tsdb::relate::last_nonempty_line;
use tsdb::error::TsdbError;
use tsdb::query::{
    criteria_need_universe, execute_query, load_rtv_index, load_uuid_universe, parse_qtv,
    resolve_query_uuids, Criterion, FilterMode,
};
use tsdb::relate::{generate_rtvs, kv_rtv_path, uuid_rtv_path, vk_rtv_path, RtvFooters};

const PEOPLE: &str = "+AGk26cH00001\tname=Alice\tcity=Tokyo\n\
     +AGk26cH00002\tname=Bob\tcity=Tokyo\n\
     +AGk26cH00003\tname=Carol\tcity=London\n";

const MIXED: &str = "+AGk26cH00001\tname=Alice\tdone=true\n\
     +AGk26cH00002\tname=Bob\tdone=false\n\
     +AGk26cH00003\tname=Carol\n";

/// Files in memory, with the moments at which they were written.
struct Disk {
    files: RefCell<BTreeMap<String, (String, u64)>>,
    clock: Cell<u64>,
}

impl Disk {
    fn new() -> Disk {
        Disk { files: RefCell::new(BTreeMap::new()), clock: Cell::new(1_700_000_000) }
    }

    fn at(&self, name: &str) -> String {
        format!("/data/{}", name)
    }

    fn tick(&self) -> u64 {
        self.clock.set(self.clock.get() + 1);
        self.clock.get()
    }

    fn write(&self, path: &str, text: &str) {
        let now = self.tick();
        self.files.borrow_mut().insert(path.to_string(), (text.to_string(), now));
    }

    fn has(&self, path: &str) -> bool {
        self.files.borrow().contains_key(path)
    }

    fn read(&self, path: &str) -> String {
        self.files.borrow()[path].0.clone()
    }

    fn written(&self, path: &str) -> u64 {
        self.files.borrow()[path].1
    }

    fn save(&self, db: &DotsvFile, path: &str) {
        let stamp = timestamp(self.tick(), 0);
        self.write(path, &db.to_text(&stamp));
    }

    fn load(&self, path: &str) -> DotsvFile {
        DotsvFile::from_bytes(self.read(path).as_bytes()).unwrap()
    }

    fn footer(&self, path: &str) -> String {
        last_nonempty_line(&self.read(path), path).unwrap()
    }

    fn footer_if(&self, path: &str) -> Option<String> {
        if self.has(path) {
            Some(self.footer(path))
        } else {
            None
        }
    }

    fn relate(&self, dov: &str, db: &DotsvFile) -> Result<(), TsdbError> {
        let ts = self.footer(dov);
        let existing = RtvFooters {
            kv: self.footer_if(&kv_rtv_path(dov)),
            vk: self.footer_if(&vk_rtv_path(dov)),
            uuid: self.footer_if(&uuid_rtv_path(dov)),
        };
        if let Some(t) = generate_rtvs(db, &ts, &existing)? {
            self.write(&kv_rtv_path(dov), &t.kv);
            self.write(&vk_rtv_path(dov), &t.vk);
            self.write(&uuid_rtv_path(dov), &t.uuid);
        }
        Ok(())
    }
}

fn build(tmp: &Disk, action: &str) -> String {
    let dov = tmp.at("test.dov");
    let mut db = DotsvFile::empty();
    let actions = parse_action_str(action).unwrap();
    apply_actions(&mut db, &actions).unwrap();
    db.compact().unwrap();
    tmp.save(&db, &dov);
    dov
}

fn indexed(tmp: &Disk, action: &str) -> String {
    let dov = build(tmp, action);
    let db = tmp.load(&dov);
    tmp.relate(&dov, &db).unwrap();
    dov
}

#[test]
fn test_parse_qtv_default_intersect() {
    let tmp = Disk::new();
    let qtv = tmp.at("q.qtv");
    tmp.write(&qtv, "city\tTokyo\n");
    let query = parse_qtv(&tmp.read(&qtv)).unwrap();
    let crit = query.criteria;
    let mode = query.mode;
    assert_eq!(mode, FilterMode::Intersect);
    assert_eq!(crit.len(), 1);
}

#[test]
fn test_parse_qtv_union_mode() {
    let tmp = Disk::new();
    let qtv = tmp.at("q.qtv");
    tmp.write(&qtv, "# mode\tunion\ncity\tTokyo\n");
    let query = parse_qtv(&tmp.read(&qtv)).unwrap();
    let crit = query.criteria;
    let mode = query.mode;
    assert_eq!(mode, FilterMode::Union);
    assert_eq!(crit.len(), 1);
}

#[test]
fn test_query_key_value_intersect() {
    let tmp = Disk::new();
    let dov = indexed(&tmp, PEOPLE);
    let qtv = tmp.at("q.qtv");
    tmp.write(&qtv, "# mode\tintersect\ncity\tTokyo\nname\tAlice\n");

    let found = resolve_query_uuids(
        &tmp.read(&qtv),
        &tmp.read(&kv_rtv_path(&dov)),
        &tmp.read(&vk_rtv_path(&dov)),
        None,
    );
    assert_eq!(found.unwrap(), vec!["AGk26cH00001".to_string()]);
}

#[test]
fn test_query_token_searches_both_indexes() {
    let tmp = Disk::new();
    let dov = indexed(&tmp, PEOPLE);
    let qtv = tmp.at("q.qtv");
    tmp.write(&qtv, "city\n");

    let query = parse_qtv(&tmp.read(&qtv)).unwrap();
    let criteria = query.criteria;
    let mode = query.mode;
    let kv = load_rtv_index(&tmp.read(&kv_rtv_path(&dov)));
    let vk = load_rtv_index(&tmp.read(&vk_rtv_path(&dov)));
    let result = execute_query(&criteria, mode, &kv, &vk, None);
    assert_eq!(result.len(), 3);
}

#[test]
fn test_query_union_mode() {
    let tmp = Disk::new();
    let dov = indexed(&tmp, PEOPLE);
    let qtv = tmp.at("q.qtv");
    tmp.write(&qtv, "# mode\tunion\ncity\tLondon\nname\tBob\n");

    let query = parse_qtv(&tmp.read(&qtv)).unwrap();
    let criteria = query.criteria;
    let mode = query.mode;
    let kv = load_rtv_index(&tmp.read(&kv_rtv_path(&dov)));
    let vk = load_rtv_index(&tmp.read(&vk_rtv_path(&dov)));
    let result = execute_query(&criteria, mode, &kv, &vk, None);
    assert_eq!(result.len(), 2);
    assert!(result.contains(&"AGk26cH00002".to_string()));
    assert!(result.contains(&"AGk26cH00003".to_string()));
}

#[test]
fn test_query_intersect_empty_when_no_match() {
    let tmp = Disk::new();
    let dov = indexed(&tmp, PEOPLE);
    let qtv = tmp.at("q.qtv");
    tmp.write(&qtv, "# mode\tintersect\ncity\tTokyo\ncity\tLondon\n");

    let query = parse_qtv(&tmp.read(&qtv)).unwrap();
    let criteria = query.criteria;
    let mode = query.mode;
    let kv = load_rtv_index(&tmp.read(&kv_rtv_path(&dov)));
    let vk = load_rtv_index(&tmp.read(&vk_rtv_path(&dov)));
    let result = execute_query(&criteria, mode, &kv, &vk, None);
    assert!(result.is_empty());
}

#[test]
fn parse_qtv_present_form() {
    let tmp = Disk::new();
    let qtv = tmp.at("q.qtv");
    tmp.write(&qtv, "@present\tdone\n");
    let query = parse_qtv(&tmp.read(&qtv)).unwrap();
    let crit = query.criteria;
    assert_eq!(crit.len(), 1);
    match &crit[0] {
        Criterion::Present(k) => assert_eq!(k, "done"),
        _ => panic!("expected Present"),
    }
}

#[test]
fn parse_qtv_absent_form_key_only() {
    let tmp = Disk::new();
    let qtv = tmp.at("q.qtv");
    tmp.write(&qtv, "@absent\tdone\n");
    let query = parse_qtv(&tmp.read(&qtv)).unwrap();
    let crit = query.criteria;
    match &crit[0] {
        Criterion::AbsentKey(k) => assert_eq!(k, "done"),
        _ => panic!("expected AbsentKey"),
    }
}

#[test]
fn parse_qtv_absent_form_key_value() {
    let tmp = Disk::new();
    let qtv = tmp.at("q.qtv");
    tmp.write(&qtv, "@absent\tdone\ttrue\n");
    let query = parse_qtv(&tmp.read(&qtv)).unwrap();
    let crit = query.criteria;
    match &crit[0] {
        Criterion::AbsentKeyValue(k, v) => {
            assert_eq!(k, "done");
            assert_eq!(v, "true");
        }
        _ => panic!("expected AbsentKeyValue"),
    }
}

#[test]
fn parse_qtv_rejects_unknown_at_directive() {
    let tmp = Disk::new();
    let qtv = tmp.at("q.qtv");
    tmp.write(&qtv, "@bogus\tkey\n");
    let result = parse_qtv(&tmp.read(&qtv));
    assert!(result.is_err());
    let msg = result.unwrap_err().message();
    assert!(msg.contains("unknown qtv directive"), "got: {}", msg);
}

#[test]
fn parse_qtv_at_in_value_passes_as_two_column() {
    let tmp = Disk::new();
    let qtv = tmp.at("q.qtv");
    tmp.write(&qtv, "name\t@hidden\n");
    let query = parse_qtv(&tmp.read(&qtv)).unwrap();
    let crit = query.criteria;
    match &crit[0] {
        Criterion::KeyValue(k, v) => {
            assert_eq!(k, "name");
            assert_eq!(v, "@hidden");
        }
        _ => panic!("expected KeyValue, got {:?}", crit[0]),
    }
}

#[test]
fn parse_qtv_at_directive_with_unicode_key() {
    let tmp = Disk::new();
    let qtv = tmp.at("q.qtv");
    tmp.write(&qtv, "@present\t都市\n");
    let query = parse_qtv(&tmp.read(&qtv)).unwrap();
    let crit = query.criteria;
    match &crit[0] {
        Criterion::Present(k) => assert_eq!(k, "都市"),
        _ => panic!("expected Present"),
    }
}

#[test]
fn parse_qtv_at_directive_with_tab_in_key_unescapes() {
    let tmp = Disk::new();
    let qtv = tmp.at("q.qtv");
    tmp.write(&qtv, "@absent\tweird\\x09key\n");
    let query = parse_qtv(&tmp.read(&qtv)).unwrap();
    let crit = query.criteria;
    match &crit[0] {
        Criterion::AbsentKey(k) => assert_eq!(k, "weird\tkey"),
        _ => panic!("expected AbsentKey"),
    }
}

#[test]
fn query_present_returns_uuids_with_key() {
    let tmp = Disk::new();
    let dov = indexed(&tmp, MIXED);
    let kv = load_rtv_index(&tmp.read(&kv_rtv_path(&dov)));
    let vk = load_rtv_index(&tmp.read(&vk_rtv_path(&dov)));
    let crit = vec![Criterion::Present("done".to_string())];
    let result = execute_query(&crit, FilterMode::Intersect, &kv, &vk, None);
    assert_eq!(result.len(), 2);
    assert!(result.contains(&"AGk26cH00001".to_string()));
    assert!(result.contains(&"AGk26cH00002".to_string()));
}

#[test]
fn query_absent_returns_uuids_without_key() {
    let tmp = Disk::new();
    let dov = indexed(&tmp, MIXED);
    let kv = load_rtv_index(&tmp.read(&kv_rtv_path(&dov)));
    let vk = load_rtv_index(&tmp.read(&vk_rtv_path(&dov)));
    let universe = load_uuid_universe(&tmp.read(&uuid_rtv_path(&dov)));
    let crit = vec![Criterion::AbsentKey("done".to_string())];
    let result = execute_query(&crit, FilterMode::Intersect, &kv, &vk, Some(&universe));
    assert_eq!(result, vec!["AGk26cH00003".to_string()]);
}

#[test]
fn query_absent_key_value_excludes_matching_pair() {
    let tmp = Disk::new();
    let dov = indexed(&tmp, MIXED);
    let kv = load_rtv_index(&tmp.read(&kv_rtv_path(&dov)));
    let vk = load_rtv_index(&tmp.read(&vk_rtv_path(&dov)));
    let universe = load_uuid_universe(&tmp.read(&uuid_rtv_path(&dov)));
    let crit = vec![Criterion::AbsentKeyValue(
        "done".to_string(),
        "true".to_string(),
    )];
    let result = execute_query(&crit, FilterMode::Intersect, &kv, &vk, Some(&universe));
    assert_eq!(result.len(), 2);
    assert!(result.contains(&"AGk26cH00002".to_string()));
    assert!(result.contains(&"AGk26cH00003".to_string()));
}

#[test]
fn query_absent_empty_db() {
    let tmp = Disk::new();
    let dov = tmp.at("test.dov");
    let mut db = DotsvFile::empty();
    db.compact().unwrap();
    tmp.save(&db, &dov);
    let db = tmp.load(&dov);
    tmp.relate(&dov, &db).unwrap();

    let kv = load_rtv_index(&tmp.read(&kv_rtv_path(&dov)));
    let vk = load_rtv_index(&tmp.read(&vk_rtv_path(&dov)));
    let universe = load_uuid_universe(&tmp.read(&uuid_rtv_path(&dov)));
    let crit = vec![Criterion::AbsentKey("done".to_string())];
    let result = execute_query(&crit, FilterMode::Intersect, &kv, &vk, Some(&universe));
    assert!(result.is_empty());
}

#[test]
fn query_absent_no_one_has_key_returns_universe() {
    let tmp = Disk::new();
    let dov = indexed(&tmp, MIXED);
    let kv = load_rtv_index(&tmp.read(&kv_rtv_path(&dov)));
    let vk = load_rtv_index(&tmp.read(&vk_rtv_path(&dov)));
    let universe = load_uuid_universe(&tmp.read(&uuid_rtv_path(&dov)));
    let crit = vec![Criterion::AbsentKey("nonexistent".to_string())];
    let result = execute_query(&crit, FilterMode::Intersect, &kv, &vk, Some(&universe));
    assert_eq!(result.len(), 3);
}

#[test]
fn query_absent_intersect_with_value_filter() {
    let tmp = Disk::new();
    let dov = indexed(&tmp, MIXED);
    let kv = load_rtv_index(&tmp.read(&kv_rtv_path(&dov)));
    let vk = load_rtv_index(&tmp.read(&vk_rtv_path(&dov)));
    let universe = load_uuid_universe(&tmp.read(&uuid_rtv_path(&dov)));
    let crit = vec![
        Criterion::KeyValue("name".to_string(), "Alice".to_string()),
        Criterion::AbsentKeyValue("done".to_string(), "false".to_string()),
    ];
    let result = execute_query(&crit, FilterMode::Intersect, &kv, &vk, Some(&universe));
    assert_eq!(result, vec!["AGk26cH00001".to_string()]);
}

#[test]
fn query_present_in_union_mode() {
    let tmp = Disk::new();
    let dov = indexed(&tmp, MIXED);
    let kv = load_rtv_index(&tmp.read(&kv_rtv_path(&dov)));
    let vk = load_rtv_index(&tmp.read(&vk_rtv_path(&dov)));
    let crit = vec![
        Criterion::Present("done".to_string()),
        Criterion::KeyValue("name".to_string(), "Carol".to_string()),
    ];
    let result = execute_query(&crit, FilterMode::Union, &kv, &vk, None);
    assert_eq!(result.len(), 3);
}

#[test]
fn query_uuid_rtv_loaded_lazily() {
    let no_abs = vec![Criterion::Token("foo".to_string())];
    assert!(!criteria_need_universe(&no_abs));
    let with_abs = vec![Criterion::AbsentKey("k".to_string())];
    assert!(criteria_need_universe(&with_abs));
}

#[test]
fn query_at_present_stricter_than_bare_token() {
    let tmp = Disk::new();
    let dov = tmp.at("test.dov");
    let mut db = DotsvFile::empty();
    let actions = parse_action_str(
        "+AGk26cH00001\tname=Alice\ttag=done\n\
         +AGk26cH00002\tname=Bob\tdone=true\n",
    )
    .unwrap();
    apply_actions(&mut db, &actions).unwrap();
    db.compact().unwrap();
    tmp.save(&db, &dov);
    let db = tmp.load(&dov);
    tmp.relate(&dov, &db).unwrap();

    let kv = load_rtv_index(&tmp.read(&kv_rtv_path(&dov)));
    let vk = load_rtv_index(&tmp.read(&vk_rtv_path(&dov)));

    let bare = vec![Criterion::Token("done".to_string())];
    let bare_result = execute_query(&bare, FilterMode::Intersect, &kv, &vk, None);
    assert_eq!(bare_result.len(), 2);

    let present = vec![Criterion::Present("done".to_string())];
    let present_result = execute_query(&present, FilterMode::Intersect, &kv, &vk, None);
    assert_eq!(present_result, vec!["AGk26cH00002".to_string()]);
}

#[test]
fn absence_qtv_at_absent_with_value_includes_records_lacking_key() {
    let tmp = Disk::new();
    let dov = indexed(&tmp, MIXED);
    let kv = load_rtv_index(&tmp.read(&kv_rtv_path(&dov)));
    let vk = load_rtv_index(&tmp.read(&vk_rtv_path(&dov)));
    let universe = load_uuid_universe(&tmp.read(&uuid_rtv_path(&dov)));
    let crit = vec![Criterion::AbsentKeyValue(
        "done".to_string(),
        "true".to_string(),
    )];
    let result = execute_query(&crit, FilterMode::Intersect, &kv, &vk, Some(&universe));
    assert!(result.contains(&"AGk26cH00003".to_string()));
    assert!(result.contains(&"AGk26cH00002".to_string()));
    assert!(!result.contains(&"AGk26cH00001".to_string()));
}
