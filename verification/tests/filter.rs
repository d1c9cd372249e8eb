use std::cell::{Cell, RefCell};
use std::collections::BTreeMap;
use tsdb::action::parse_action_str;
use tsdb::clock::timestamp;
use tsdb::dotsv::{apply_actions, DotsvFile};
use tsdb::relate::last_nonempty_line;
use tsdb::error::TsdbError;
use tsdb::filter::{parse_ftv_str, required_indexes, Node, Op};
use tsdb::keytype::kt_ptv_path;
use tsdb::order::ord_ptv_path;
use tsdb::plane::{generate_ptvs, kv_ptv_path, uuid_ptv_path, vk_ptv_path, PtvFooters};
use tsdb::query::FilterMode;
use tsdb::relate::{generate_rtvs, kv_rtv_path, uuid_rtv_path, vk_rtv_path, RtvFooters};
use tsdb::resolve::{load_indexes, resolve_filter};

const FIXTURE: &str = "+AGk26cH00001\tname=Alice\tcity=Tokyo\tage=30\n\
     +AGk26cH00002\tname=Bob\tcity=Tokyo\tage=25\n\
     +AGk26cH00003\tname=Carol\tcity=London\tage=40\n\
     +AGk26cH00004\tname=Dave\n";

/// Files in memory, with the moments at which they were written.
struct Disk {
    files: RefCell<BTreeMap<String, (String, u64)>>,
    clock: Cell<u64>,
}

impl Disk {
    fn new() -> Disk {
        Disk { files: RefCell::new(BTreeMap::new()), clock: Cell::new(1_700_000_000) }
    }

    fn at(&self, name: &str) -> String {
        format!("/data/{}", name)
    }

    fn tick(&self) -> u64 {
        self.clock.set(self.clock.get() + 1);
        self.clock.get()
    }

    fn write(&self, path: &str, text: &str) {
        let now = self.tick();
        self.files.borrow_mut().insert(path.to_string(), (text.to_string(), now));
    }

    fn has(&self, path: &str) -> bool {
        self.files.borrow().contains_key(path)
    }

    fn read(&self, path: &str) -> String {
        self.files.borrow()[path].0.clone()
    }

    fn written(&self, path: &str) -> u64 {
        self.files.borrow()[path].1
    }

    fn save(&self, db: &DotsvFile, path: &str) {
        let stamp = timestamp(self.tick(), 0);
        self.write(path, &db.to_text(&stamp));
    }

    fn load(&self, path: &str) -> DotsvFile {
        DotsvFile::from_bytes(self.read(path).as_bytes()).unwrap()
    }

    fn footer(&self, path: &str) -> String {
        last_nonempty_line(&self.read(path), path).unwrap()
    }

    fn footer_if(&self, path: &str) -> Option<String> {
        if self.has(path) {
            Some(self.footer(path))
        } else {
            None
        }
    }

    fn relate(&self, dov: &str, db: &DotsvFile) -> Result<(), TsdbError> {
        let ts = self.footer(dov);
        let existing = RtvFooters {
            kv: self.footer_if(&kv_rtv_path(dov)),
            vk: self.footer_if(&vk_rtv_path(dov)),
            uuid: self.footer_if(&uuid_rtv_path(dov)),
        };
        if let Some(t) = generate_rtvs(db, &ts, &existing)? {
            self.write(&kv_rtv_path(dov), &t.kv);
            self.write(&vk_rtv_path(dov), &t.vk);
            self.write(&uuid_rtv_path(dov), &t.uuid);
        }
        Ok(())
    }

    fn plane(&self, dov: &str, db: &DotsvFile) -> Result<(), TsdbError> {
        let ts = self.footer(dov);
        let existing = PtvFooters {
            kv: self.footer_if(&kv_ptv_path(dov)),
            vk: self.footer_if(&vk_ptv_path(dov)),
            uuid: self.footer_if(&uuid_ptv_path(dov)),
            ord: self.footer_if(&ord_ptv_path(dov)),
            kt: self.footer_if(&kt_ptv_path(dov)),
        };
        if let Some(t) = generate_ptvs(db, &ts, &existing)? {
            self.write(&kv_ptv_path(dov), &t.kv);
            self.write(&vk_ptv_path(dov), &t.vk);
            self.write(&uuid_ptv_path(dov), &t.uuid);
            self.write(&ord_ptv_path(dov), &t.ord);
            self.write(&kt_ptv_path(dov), &t.kt);
        }
        Ok(())
    }

    fn filter(&self, ftv: &str, dov: &str) -> Result<Vec<String>, TsdbError> {
        let parsed = parse_ftv_str(&self.read(ftv))?;
        let (_, numeric) = required_indexes(&parsed.nodes);
        let ord = if numeric { Some(self.read(&ord_ptv_path(dov))) } else { None };
        let kv = self.read(&kv_ptv_path(dov));
        let idx = load_indexes(
            &self.read(&kv_rtv_path(dov)),
            &self.read(&uuid_rtv_path(dov)),
            Some(kv.as_str()),
            ord.as_deref(),
        );
        Ok(resolve_filter(&parsed, &idx).0)
    }
}

fn build(tmp: &Disk, action: &str) -> String {
    let dov = tmp.at("test.dov");
    let mut db = DotsvFile::empty();
    let actions = parse_action_str(action).unwrap();
    apply_actions(&mut db, &actions).unwrap();
    db.compact().unwrap();
    tmp.save(&db, &dov);
    dov
}

fn indexed(tmp: &Disk, action: &str) -> String {
    let dov = build(tmp, action);
    let db = tmp.load(&dov);
    tmp.relate(&dov, &db).unwrap();
    tmp.plane(&dov, &db).unwrap();
    dov
}

#[test]
fn ftv_parse_default_intersect() {
    let f = parse_ftv_str("eq\tname\tAlice\n").unwrap();
    assert_eq!(f.mode, FilterMode::Intersect);
    assert_eq!(f.nodes.len(), 1);
}

#[test]
fn ftv_parse_union_mode_decl() {
    let f = parse_ftv_str("# mode\tunion\neq\tname\tAlice\n").unwrap();
    assert_eq!(f.mode, FilterMode::Union);
}

#[test]
fn ftv_parse_has_predicate() {
    let f = parse_ftv_str("has\tcity\n").unwrap();
    match &f.nodes[0] {
        Node::Pred(p) => {
            assert_eq!(p.op, Op::Has);
            assert_eq!(p.key, "city");
            assert!(p.value.is_none());
        }
        _ => panic!("expected predicate"),
    }
}

#[test]
fn ftv_parse_nohas_predicate() {
    let f = parse_ftv_str("nohas\tcity\n").unwrap();
    match &f.nodes[0] {
        Node::Pred(p) => assert_eq!(p.op, Op::Nohas),
        _ => panic!("expected predicate"),
    }
}

#[test]
fn ftv_parse_eq_ne_pair() {
    let f = parse_ftv_str("eq\tname\tAlice\nne\tname\tBob\n").unwrap();
    assert_eq!(f.nodes.len(), 2);
}

#[test]
fn ftv_parse_lt_le_gt_ge_lex() {
    for op in &["lt", "le", "gt", "ge"] {
        let f = parse_ftv_str(&format!("{}\tname\tAlice\n", op)).unwrap();
        assert_eq!(f.nodes.len(), 1);
    }
}

#[test]
fn ftv_parse_neq_nne_numeric() {
    let f = parse_ftv_str("neq\tage\t30\nnne\tage\t40\n").unwrap();
    assert_eq!(f.nodes.len(), 2);
}

#[test]
fn ftv_parse_nlt_nle_ngt_nge_numeric() {
    for op in &["nlt", "nle", "ngt", "nge"] {
        let f = parse_ftv_str(&format!("{}\tage\t30\n", op)).unwrap();
        assert_eq!(f.nodes.len(), 1);
    }
}

#[test]
fn ftv_parse_pre_suf_sub() {
    for op in &["pre", "suf", "sub"] {
        let f = parse_ftv_str(&format!("{}\tname\tA\n", op)).unwrap();
        assert_eq!(f.nodes.len(), 1);
    }
}

#[test]
fn ftv_parse_and_block() {
    let f = parse_ftv_str("and\neq\tname\tAlice\nne\tname\tBob\nend\n").unwrap();
    match &f.nodes[0] {
        Node::And(c) => assert_eq!(c.len(), 2),
        _ => panic!("expected And"),
    }
}

#[test]
fn ftv_parse_or_block() {
    let f = parse_ftv_str("or\neq\tcity\tTokyo\neq\tcity\tOsaka\nend\n").unwrap();
    match &f.nodes[0] {
        Node::Or(c) => assert_eq!(c.len(), 2),
        _ => panic!("expected Or"),
    }
}

#[test]
fn ftv_parse_nested_and_in_or_4_deep_ok() {
    let src = "\
or
and
or
and
eq\tname\tAlice
end
end
end
end
";
    let f = parse_ftv_str(src).unwrap();
    assert_eq!(f.nodes.len(), 1);
}

#[test]
fn ftv_parse_nested_5_deep_rejected() {
    let src = "\
or
and
or
and
or
eq\tname\tAlice
end
end
end
end
end
";
    let result = parse_ftv_str(src);
    assert!(result.is_err());
    let msg = result.unwrap_err().message();
    assert!(msg.contains("nesting"), "got: {}", msg);
}

#[test]
fn ftv_parse_unknown_op_errors_with_line_no() {
    let src = "\nbogus\tkey\tval\n";
    let result = parse_ftv_str(src);
    assert!(result.is_err());
    let msg = result.unwrap_err().message();
    assert!(msg.contains("unknown op"), "got: {}", msg);
    assert!(msg.contains("line 2"), "got: {}", msg);
}

#[test]
fn ftv_parse_op_with_trailing_space_rejected() {
    let result = parse_ftv_str("eq \tname\tAlice\n");
    assert!(result.is_err());
}

#[test]
fn ftv_parse_pred_with_tab_in_value_escaped_round_trips() {
    let f = parse_ftv_str("eq\tname\thello\\x09world\n").unwrap();
    match &f.nodes[0] {
        Node::Pred(p) => assert_eq!(p.value.as_deref(), Some("hello\tworld")),
        _ => panic!("expected predicate"),
    }
}

#[test]
fn ftv_parse_blank_and_comment_lines_ignored() {
    let f = parse_ftv_str("\n# comment\n\neq\tname\tAlice\n# another\n").unwrap();
    assert_eq!(f.nodes.len(), 1);
}

#[test]
fn ftv_parse_array_shaped_value_rejected() {
    let result = parse_ftv_str("eq\troles\t[\"a\",\"b\"]\n");
    assert!(result.is_err());
}

#[test]
fn filter_has_returns_uuids_with_key() {
    let tmp = Disk::new();
    let dov = indexed(&tmp, FIXTURE);
    let ftv = tmp.at("f.ftv");
    tmp.write(&ftv, "has\tcity\n");
    let result = tmp.filter(&ftv, &dov).unwrap();
    assert_eq!(result.len(), 3);
    assert!(!result.contains(&"AGk26cH00004".to_string()));
}

#[test]
fn filter_nohas_returns_uuids_without_key() {
    let tmp = Disk::new();
    let dov = indexed(&tmp, FIXTURE);
    let ftv = tmp.at("f.ftv");
    tmp.write(&ftv, "nohas\tcity\n");
    let result = tmp.filter(&ftv, &dov).unwrap();
    assert_eq!(result, vec!["AGk26cH00004".to_string()]);
}

#[test]
fn filter_eq_returns_only_exact_match() {
    let tmp = Disk::new();
    let dov = indexed(&tmp, FIXTURE);
    let ftv = tmp.at("f.ftv");
    tmp.write(&ftv, "eq\tname\tAlice\n");
    let result = tmp.filter(&ftv, &dov).unwrap();
    assert_eq!(result, vec!["AGk26cH00001".to_string()]);
}

#[test]
fn filter_ne_returns_has_key_minus_eq() {
    let tmp = Disk::new();
    let dov = indexed(&tmp, FIXTURE);
    let ftv = tmp.at("f.ftv");
    tmp.write(&ftv, "ne\tcity\tTokyo\n");
    let result = tmp.filter(&ftv, &dov).unwrap();
    assert_eq!(result, vec!["AGk26cH00003".to_string()]);
}

#[test]
fn filter_lt_lex_includes_30_below_5() {
    let tmp = Disk::new();
    let dov = indexed(&tmp, FIXTURE);
    let ftv = tmp.at("f.ftv");
    tmp.write(&ftv, "lt\tage\t5\n");
    let result = tmp.filter(&ftv, &dov).unwrap();
    assert_eq!(result.len(), 3);
}

#[test]
fn filter_nlt_numeric_excludes_30_below_5() {
    let tmp = Disk::new();
    let dov = indexed(&tmp, FIXTURE);
    let ftv = tmp.at("f.ftv");
    tmp.write(&ftv, "nlt\tage\t5\n");
    let result = tmp.filter(&ftv, &dov).unwrap();
    assert!(result.is_empty());
}

#[test]
fn filter_neq_numeric_includes_30_and_30_dot_0() {
    let tmp = Disk::new();
    let dov = indexed(
        &tmp,
        "+AGk26cH00001\tage=30\n\
         +AGk26cH00002\tage=30.0\n\
         +AGk26cH00003\tage=31\n",
    );
    let ftv = tmp.at("f.ftv");
    tmp.write(&ftv, "neq\tage\t30\n");
    let result = tmp.filter(&ftv, &dov).unwrap();
    assert_eq!(result.len(), 2);
    assert!(result.contains(&"AGk26cH00001".to_string()));
    assert!(result.contains(&"AGk26cH00002".to_string()));
}

#[test]
fn filter_pre_matches_prefix() {
    let tmp = Disk::new();
    let dov = indexed(&tmp, FIXTURE);
    let ftv = tmp.at("f.ftv");
    tmp.write(&ftv, "pre\tname\tA\n");
    let result = tmp.filter(&ftv, &dov).unwrap();
    assert_eq!(result, vec!["AGk26cH00001".to_string()]);
}

#[test]
fn filter_suf_matches_suffix() {
    let tmp = Disk::new();
    let dov = indexed(&tmp, FIXTURE);
    let ftv = tmp.at("f.ftv");
    tmp.write(&ftv, "suf\tname\te\n");
    let result = tmp.filter(&ftv, &dov).unwrap();
    assert_eq!(result.len(), 2);
    assert!(result.contains(&"AGk26cH00001".to_string()));
    assert!(result.contains(&"AGk26cH00004".to_string()));
}

#[test]
fn filter_sub_matches_substring() {
    let tmp = Disk::new();
    let dov = indexed(&tmp, FIXTURE);
    let ftv = tmp.at("f.ftv");
    tmp.write(&ftv, "sub\tname\tar\n");
    let result = tmp.filter(&ftv, &dov).unwrap();
    assert_eq!(result, vec!["AGk26cH00003".to_string()]);
}

#[test]
fn filter_or_unions_subresults() {
    let tmp = Disk::new();
    let dov = indexed(&tmp, FIXTURE);
    let ftv = tmp.at("f.ftv");
    tmp.write(&ftv, "or\neq\tcity\tTokyo\neq\tcity\tLondon\nend\n");
    let result = tmp.filter(&ftv, &dov).unwrap();
    assert_eq!(result.len(), 3);
}

#[test]
fn filter_and_intersects_subresults() {
    let tmp = Disk::new();
    let dov = indexed(&tmp, FIXTURE);
    let ftv = tmp.at("f.ftv");
    tmp.write(&ftv, "and\nhas\tcity\nngt\tage\t29\nend\n");
    let result = tmp.filter(&ftv, &dov).unwrap();
    assert_eq!(result.len(), 2);
}

#[test]
fn filter_intersect_with_nohas() {
    let tmp = Disk::new();
    let dov = indexed(&tmp, FIXTURE);
    let ftv = tmp.at("f.ftv");
    tmp.write(&ftv, "has\tname\nnohas\tcity\n");
    let result = tmp.filter(&ftv, &dov).unwrap();
    assert_eq!(result, vec!["AGk26cH00004".to_string()]);
}

#[test]
fn filter_match_all_when_no_criteria() {
    let tmp = Disk::new();
    let dov = indexed(&tmp, FIXTURE);
    let ftv = tmp.at("f.ftv");
    tmp.write(&ftv, "# mode\tintersect\n");
    let result = tmp.filter(&ftv, &dov).unwrap();
    assert_eq!(result.len(), 4);
}

#[test]
fn filter_array_element_eq_via_kv_ptv() {
    let tmp = Disk::new();
    let dov = indexed(
        &tmp,
        "+AGk26cH00001\trole=admin\trole=editor\n\
         +AGk26cH00002\trole=viewer\n",
    );
    let ftv = tmp.at("f.ftv");
    tmp.write(&ftv, "eq\trole\tadmin\n");
    let result = tmp.filter(&ftv, &dov).unwrap();
    assert_eq!(result, vec!["AGk26cH00001".to_string()]);
}

#[test]
fn filter_array_element_numeric_via_ord_ptv() {
    let tmp = Disk::new();
    let dov = indexed(
        &tmp,
        "+AGk26cH00001\tscore=10\tscore=60\tscore=70\n\
         +AGk26cH00002\tscore=5\n",
    );
    let ftv = tmp.at("f.ftv");
    tmp.write(&ftv, "ngt\tscore\t50\n");
    let result = tmp.filter(&ftv, &dov).unwrap();
    assert_eq!(result, vec!["AGk26cH00001".to_string()]);
}

#[test]
fn filter_empty_database_returns_empty() {
    let tmp = Disk::new();
    let dov = tmp.at("test.dov");
    let mut db = DotsvFile::empty();
    db.compact().unwrap();
    tmp.save(&db, &dov);
    let db = tmp.load(&dov);
    tmp.relate(&dov, &db).unwrap();
    tmp.plane(&dov, &db).unwrap();
    let ftv = tmp.at("f.ftv");
    tmp.write(&ftv, "has\tanything\n");
    let result = tmp.filter(&ftv, &dov).unwrap();
    assert!(result.is_empty());
}

#[test]
fn filter_unicode_lex_byte_order() {
    let tmp = Disk::new();
    let dov = indexed(
        &tmp,
        "+AGk26cH00001\tcity=東京\n\
         +AGk26cH00002\tcity=Tokyo\n",
    );
    let ftv = tmp.at("f.ftv");
    tmp.write(&ftv, "gt\tcity\tT\n");
    let result = tmp.filter(&ftv, &dov).unwrap();
    assert_eq!(result.len(), 2);
}

#[test]
fn filter_escaped_tab_in_ftv_value() {
    let tmp = Disk::new();
    let dov = indexed(&tmp, "+AGk26cH00001\tnote=hello\\x09world\n");
    let ftv = tmp.at("f.ftv");
    tmp.write(&ftv, "eq\tnote\thello\\x09world\n");
    let result = tmp.filter(&ftv, &dov).unwrap();
    assert_eq!(result, vec!["AGk26cH00001".to_string()]);
}

#[test]
fn filter_negative_numbers_sort_correctly() {
    let tmp = Disk::new();
    let dov = indexed(
        &tmp,
        "+AGk26cH00001\ttemp=-30\n\
         +AGk26cH00002\ttemp=-5\n\
         +AGk26cH00003\ttemp=10\n",
    );
    let ftv = tmp.at("f.ftv");
    tmp.write(&ftv, "nlt\ttemp\t0\n");
    let result = tmp.filter(&ftv, &dov).unwrap();
    assert_eq!(result.len(), 2);
    assert!(result.contains(&"AGk26cH00001".to_string()));
    assert!(result.contains(&"AGk26cH00002".to_string()));
}

#[test]
fn filter_decimal_3_14_equals_3_14000_under_numeric() {
    let tmp = Disk::new();
    let dov = indexed(
        &tmp,
        "+AGk26cH00001\tpi=3.14\n\
         +AGk26cH00002\tpi=3.14000\n\
         +AGk26cH00003\tpi=3.15\n",
    );
    let ftv = tmp.at("f.ftv");
    tmp.write(&ftv, "neq\tpi\t3.14\n");
    let result = tmp.filter(&ftv, &dov).unwrap();
    assert_eq!(result.len(), 2);
    assert!(result.contains(&"AGk26cH00001".to_string()));
    assert!(result.contains(&"AGk26cH00002".to_string()));
}

#[test]
fn filter_numeric_against_mixed_column_warns_once() {
    let tmp = Disk::new();
    let dov = indexed(
        &tmp,
        "+AGk26cH00001\tage=30\n\
         +AGk26cH00002\tage=oldish\n\
         +AGk26cH00003\tage=NaN\n",
    );
    let ftv = tmp.at("f.ftv");
    tmp.write(&ftv, "ngt\tage\t10\n");
    let result = tmp.filter(&ftv, &dov).unwrap();
    assert_eq!(result, vec!["AGk26cH00001".to_string()]);
}

#[test]
#[allow(non_snake_case)]
fn absence_ftv_ne_with_value_does_NOT_include_records_lacking_key() {
    let tmp = Disk::new();
    let dov = indexed(
        &tmp,
        "+AGk26cH00001\tname=Alice\tdone=true\n\
         +AGk26cH00002\tname=Bob\tdone=false\n\
         +AGk26cH00003\tname=Carol\n",
    );
    let ftv = tmp.at("f.ftv");
    tmp.write(&ftv, "ne\tdone\ttrue\n");
    let result = tmp.filter(&ftv, &dov).unwrap();
    assert_eq!(result, vec!["AGk26cH00002".to_string()]);
}

#[test]
fn filter_nohas_on_unknown_key_returns_universe() {
    let tmp = Disk::new();
    let dov = indexed(&tmp, FIXTURE);
    let ftv = tmp.at("f.ftv");
    tmp.write(&ftv, "nohas\tnonexistent\n");
    let result = tmp.filter(&ftv, &dov).unwrap();
    assert_eq!(result.len(), 4);
}

#[test]
fn filter_nohas_on_universal_key_returns_empty() {
    let tmp = Disk::new();
    let dov = indexed(&tmp, FIXTURE);
    let ftv = tmp.at("f.ftv");
    tmp.write(&ftv, "nohas\tname\n");
    let result = tmp.filter(&ftv, &dov).unwrap();
    assert!(result.is_empty());
}

#[test]
fn filter_nohas_on_empty_db_returns_empty() {
    let tmp = Disk::new();
    let dov = tmp.at("test.dov");
    let mut db = DotsvFile::empty();
    db.compact().unwrap();
    tmp.save(&db, &dov);
    let db = tmp.load(&dov);
    tmp.relate(&dov, &db).unwrap();
    tmp.plane(&dov, &db).unwrap();
    let ftv = tmp.at("f.ftv");
    tmp.write(&ftv, "nohas\tcity\n");
    let result = tmp.filter(&ftv, &dov).unwrap();
    assert!(result.is_empty());
}

#[test]
fn filter_ne_on_kv_ptv_element_row_matches_per_element() {
    let tmp = Disk::new();
    let dov = indexed(
        &tmp,
        "+AGk26cH00001\trole=admin\trole=editor\n\
         +AGk26cH00002\trole=admin\n",
    );
    let ftv = tmp.at("f.ftv");
    tmp.write(&ftv, "ne\trole\tadmin\n");
    let result = tmp.filter(&ftv, &dov).unwrap();
    assert!(result.is_empty());
}

#[test]
fn filter_nohas_and_ne_compose_with_intersect() {
    let tmp = Disk::new();
    let dov = indexed(
        &tmp,
        "+AGk26cH00001\tname=Alice\tcity=Tokyo\n\
         +AGk26cH00002\tname=Bob\n\
         +AGk26cH00003\tname=Carol\tcity=London\n",
    );
    let ftv = tmp.at("f.ftv");
    tmp.write(&ftv, "has\tname\nnohas\tcity\n");
    let result = tmp.filter(&ftv, &dov).unwrap();
    assert_eq!(result, vec!["AGk26cH00002".to_string()]);
}

#[test]
fn filter_nohas_or_has_composes_with_union() {
    let tmp = Disk::new();
    let dov = indexed(
        &tmp,
        "+AGk26cH00001\tname=Alice\n\
         +AGk26cH00002\tcity=Tokyo\n",
    );
    let ftv = tmp.at("f.ftv");
    tmp.write(&ftv, "or\nhas\tname\nhas\tcity\nend\n");
    let result = tmp.filter(&ftv, &dov).unwrap();
    assert_eq!(result.len(), 2);
}
