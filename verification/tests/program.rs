use std::cell::{Cell, RefCell};
use std::collections::BTreeMap;
use tsdb::action::parse_action_str;
use tsdb::cli::{parse_args, Command, USAGE};
use tsdb::clock::timestamp;
use tsdb::current::needs_compaction;
use tsdb::dotsv::{maybe_compact, DotsvFile};
use tsdb::error::TsdbError;
use tsdb::filter::parse_ftv_str;
use tsdb::keytype::kt_ptv_path;
use tsdb::order::ord_ptv_path;
use tsdb::plane::{generate_ptvs, kv_ptv_path, uuid_ptv_path, vk_ptv_path, PtvFooters};
use tsdb::query::resolve_query_uuids;
use tsdb::records::{emit_records, parse_uuid_lines};
use tsdb::relate::{
    generate_rtvs, kv_rtv_path, last_nonempty_line, uuid_rtv_path, vk_rtv_path, RtvFooters,
};
use tsdb::resolve::{load_indexes, resolve_filter};
use tsdb::session::execute_actions;
use tsdb::show::{collect_record_lines, dtv_is_current, show_text, ShowTarget};

/// What a run of the program leaves.
#[derive(Debug)]
struct Output {
    code: i32,
    stdout: String,
    stderr: String,
}

/// Files in memory, with the moments at which they were written.
struct Disk {
    files: RefCell<BTreeMap<String, (String, u64)>>,
    clock: Cell<u64>,
}

impl Disk {
    fn new() -> Disk {
        Disk { files: RefCell::new(BTreeMap::new()), clock: Cell::new(1_700_000_000) }
    }

    fn at(&self, name: &str) -> String {
        format!("/data/{}", name)
    }

    fn tick(&self) -> u64 {
        self.clock.set(self.clock.get() + 1);
        self.clock.get()
    }

    fn write(&self, path: &str, text: &str) {
        let now = self.tick();
        self.files.borrow_mut().insert(path.to_string(), (text.to_string(), now));
    }

    fn has(&self, path: &str) -> bool {
        self.files.borrow().contains_key(path)
    }

    fn read(&self, path: &str) -> String {
        self.files.borrow()[path].0.clone()
    }

    fn written(&self, path: &str) -> u64 {
        self.files.borrow()[path].1
    }

    fn save(&self, db: &DotsvFile, path: &str) {
        let stamp = timestamp(self.tick(), 0);
        self.write(path, &db.to_text(&stamp));
    }

    fn load(&self, path: &str) -> DotsvFile {
        DotsvFile::from_bytes(self.read(path).as_bytes()).unwrap()
    }

    fn footer(&self, path: &str) -> String {
        last_nonempty_line(&self.read(path), path).unwrap()
    }

    fn footer_if(&self, path: &str) -> Option<String> {
        if self.has(path) {
            Some(self.footer(path))
        } else {
            None
        }
    }

    fn relate(&self, dov: &str, db: &DotsvFile) -> Result<(), TsdbError> {
        let ts = self.footer(dov);
        let existing = RtvFooters {
            kv: self.footer_if(&kv_rtv_path(dov)),
            vk: self.footer_if(&vk_rtv_path(dov)),
            uuid: self.footer_if(&uuid_rtv_path(dov)),
        };
        if let Some(t) = generate_rtvs(db, &ts, &existing)? {
            self.write(&kv_rtv_path(dov), &t.kv);
            self.write(&vk_rtv_path(dov), &t.vk);
            self.write(&uuid_rtv_path(dov), &t.uuid);
        }
        Ok(())
    }

    fn plane(&self, dov: &str, db: &DotsvFile) -> Result<(), TsdbError> {
        let ts = self.footer(dov);
        let existing = PtvFooters {
            kv: self.footer_if(&kv_ptv_path(dov)),
            vk: self.footer_if(&vk_ptv_path(dov)),
            uuid: self.footer_if(&uuid_ptv_path(dov)),
            ord: self.footer_if(&ord_ptv_path(dov)),
            kt: self.footer_if(&kt_ptv_path(dov)),
        };
        if let Some(t) = generate_ptvs(db, &ts, &existing)? {
            self.write(&kv_ptv_path(dov), &t.kv);
            self.write(&vk_ptv_path(dov), &t.vk);
            self.write(&uuid_ptv_path(dov), &t.uuid);
            self.write(&ord_ptv_path(dov), &t.ord);
            self.write(&kt_ptv_path(dov), &t.kt);
        }
        Ok(())
    }

    fn text(&self, path: &str) -> Result<String, TsdbError> {
        if self.has(path) {
            Ok(self.read(path))
        } else {
            Err(TsdbError::Io(format!("file not found: {}", path)))
        }
    }

    fn open(&self, dov: &str) -> Result<DotsvFile, TsdbError> {
        if self.has(dov) {
            DotsvFile::from_bytes(self.read(dov).as_bytes())
        } else {
            Ok(DotsvFile::empty())
        }
    }

    fn settle(&self, dov: &str) -> Result<DotsvFile, TsdbError> {
        let mut db = DotsvFile::from_bytes(self.text(dov)?.as_bytes())?;
        if needs_compaction(&db, self.footer_if(dov).as_deref()) {
            db.compact()?;
            self.save(&db, dov);
        }
        Ok(self.load(dov))
    }

    fn answer(
        &self,
        uuids: &[String],
        dov: &str,
        criteria: &str,
        show: Option<ShowTarget>,
        out: &mut String,
    ) -> Result<(), TsdbError> {
        let target = match show {
            None => {
                for u in uuids {
                    out.push_str(u);
                    out.push('\n');
                }
                return Ok(());
            }
            Some(target) => target,
        };
        let footer = self.footer(dov);
        let text = show_text(&collect_record_lines(uuids, &self.load(dov))?, &footer);
        match target {
            ShowTarget::Stdout => out.push_str(&text),
            ShowTarget::File(path) => {
                let written = if self.has(&path) { self.written(&path) as u128 } else { 0 };
                let asked = Some(self.written(criteria) as u128);
                if !dtv_is_current(&footer, &self.footer_if(&path), asked, written) {
                    self.write(&path, &text);
                }
            }
        }
        Ok(())
    }

    fn perform(&self, command: Command, stdin: &str, out: &mut String) -> Result<(), TsdbError> {
        match command {
            Command::Apply { dov, actions } => {
                let actions = parse_action_str(&self.text(&actions)?)?;
                let mut db = self.open(&dov)?;
                execute_actions(&mut db, &actions)?;
                maybe_compact(&mut db)?;
                self.save(&db, &dov);
                Ok(())
            }
            Command::Compact { dov } => {
                let mut db = self.open(&dov)?;
                db.compact()?;
                self.save(&db, &dov);
                Ok(())
            }
            Command::Relate { dov } => {
                let db = self.settle(&dov)?;
                self.relate(&dov, &db)
            }
            Command::Plane { dov } => {
                let db = self.settle(&dov)?;
                self.plane(&dov, &db)
            }
            Command::Query { qtv, dov, show } => {
                let db = self.settle(&dov)?;
                self.relate(&dov, &db)?;
                let uuids = resolve_query_uuids(
                    &self.text(&qtv)?,
                    &self.read(&kv_rtv_path(&dov)),
                    &self.read(&vk_rtv_path(&dov)),
                    Some(&self.read(&uuid_rtv_path(&dov))),
                )?;
                self.answer(&uuids, &dov, &qtv, show, out)
            }
            Command::Filter { ftv, dov, show } => {
                let db = self.settle(&dov)?;
                self.relate(&dov, &db)?;
                self.plane(&dov, &db)?;
                let filter = parse_ftv_str(&self.text(&ftv)?)?;
                let indexes = load_indexes(
                    &self.read(&kv_rtv_path(&dov)),
                    &self.read(&uuid_rtv_path(&dov)),
                    Some(&self.read(&kv_ptv_path(&dov))),
                    Some(&self.read(&ord_ptv_path(&dov))),
                );
                let uuids = resolve_filter(&filter, &indexes).0;
                self.answer(&uuids, &dov, &ftv, show, out)
            }
            Command::Records { input, dov } => {
                self.text(&dov)?;
                let text = if input == "-" { stdin.to_string() } else { self.text(&input)? };
                let uuids = parse_uuid_lines(&text)?;
                let db = self.settle(&dov)?;
                self.relate(&dov, &db)?;
                emit_records(out, &uuids, &db)
            }
            other => panic!("no work: {:?}", other),
        }
    }

    /// Run the program on these files.
    fn run(&self, args: &[&str], stdin: &str) -> Output {
        let mut all = vec!["tsdb".to_string()];
        all.extend(args.iter().map(|a| a.to_string()));
        let mut stdout = String::new();
        let (code, stderr) = match parse_args(&all) {
            Command::Help => {
                stdout.push_str(USAGE);
                (0, String::new())
            }
            Command::Version => (0, String::new()),
            Command::Usage => (2, USAGE.to_string()),
            Command::Refused(message) => (2, message),
            command => match self.perform(command, stdin, &mut stdout) {
                Ok(()) => (0, String::new()),
                Err(e) => (1, e.message()),
            },
        };
        Output { code, stdout, stderr }
    }
}

fn build(tmp: &Disk, action: &str) -> String {
    let dov = tmp.at("test.dov");
    let atv = tmp.at("seed.atv");
    tmp.write(&atv, action);
    let out = tmp.run(&[&dov, &atv], "");
    assert!(out.code == 0, "seed failed: {:?}", out);
    dov
}

#[test]
fn integration_records_file_input() {
    let tmp = Disk::new();
    let dov = build(
        &tmp,
        "+AGk26cH00001\tname=Alice\tage=30\n+AGk26cH00002\tname=Bob\n",
    );
    let utv = tmp.at("input.utv");
    tmp.write(&utv, "AGk26cH00001\nAGk26cH00002\n");
    let out = tmp.run(&["--records", &utv, &dov], "");
    assert!(out.code == 0, "{:?}", out);
    let s = out.stdout;
    let lines: Vec<&str> = s.lines().collect();
    assert_eq!(lines.len(), 2);
    assert!(lines[0].contains("\"_uuid\":\"AGk26cH00001\""));
    assert!(lines[0].contains("\"name\":\"Alice\""));
    assert!(lines[0].contains("\"age\":30"));
    assert!(lines[1].contains("\"_uuid\":\"AGk26cH00002\""));
    assert!(lines[1].contains("\"name\":\"Bob\""));
}

#[test]
fn integration_records_stdin_input() {
    let tmp = Disk::new();
    let dov = build(&tmp, "+AGk26cH00001\tname=Alice\n");
    let out = tmp.run(&["--records", "-", &dov], "AGk26cH00001\n");
    assert!(out.code == 0, "{:?}", out);
    let s = out.stdout;
    assert!(s.contains("\"name\":\"Alice\""));
}

#[test]
fn integration_records_dash_alias_for_stdin() {
    let tmp = Disk::new();
    let dov = build(&tmp, "+AGk26cH00001\tname=Alice\n");
    let out = tmp.run(&["--records", "-", &dov], "AGk26cH00001\n");
    assert!(out.code == 0);
}

#[test]
fn integration_records_pipeline_from_query() {
    let tmp = Disk::new();
    let dov = build(
        &tmp,
        "+AGk26cH00001\tname=Alice\tcity=Tokyo\n\
         +AGk26cH00002\tname=Bob\tcity=Osaka\n",
    );
    let qtv = tmp.at("q.qtv");
    tmp.write(&qtv, "city\tTokyo\n");

    let q = tmp.run(&["--query", &qtv, &dov], "");
    assert!(q.code == 0, "{:?}", q);

    let out = tmp.run(&["--records", "-", &dov], &q.stdout);
    assert!(out.code == 0);
    let s = out.stdout;
    assert!(s.contains("\"name\":\"Alice\""));
    assert!(!s.contains("\"name\":\"Bob\""));
}

#[test]
fn integration_records_pipeline_from_filter() {
    let tmp = Disk::new();
    let dov = build(
        &tmp,
        "+AGk26cH00001\tname=Alice\tage=30\n+AGk26cH00002\tname=Bob\tage=25\n",
    );
    let ftv = tmp.at("f.ftv");
    tmp.write(&ftv, "ngt\tage\t26\n");

    let f = tmp.run(&["--filter", &ftv, &dov], "");
    assert!(f.code == 0, "{:?}", f);

    let out = tmp.run(&["--records", "-", &dov], &f.stdout);
    assert!(out.code == 0);
    let s = out.stdout;
    assert!(s.contains("\"name\":\"Alice\""));
}

#[test]
fn integration_records_missing_dov_exit_2() {
    let tmp = Disk::new();
    let utv = tmp.at("input.utv");
    tmp.write(&utv, "AGk26cH00001\n");
    let s = tmp.run(&["--records", &utv, &tmp.at("nonexistent.dov")], "");
    assert!(s.code != 0);
}

#[test]
fn integration_records_missing_uuid_input_exit_2() {
    let tmp = Disk::new();
    let dov = build(&tmp, "+AGk26cH00001\tname=Alice\n");
    let s = tmp.run(&["--records", &tmp.at("nope.utv"), &dov], "");
    assert!(s.code != 0);
}

#[test]
fn integration_records_dash_path_rejected() {
    let tmp = Disk::new();
    let dov = build(&tmp, "+AGk26cH00001\tname=Alice\n");
    let s = tmp.run(&["--records", "--bad-path", &dov], "");
    assert!(s.code != 0);
    let code = s.code;
    assert_eq!(code, 2);
}

#[test]
fn integration_records_input_order_matches_input_file() {
    let tmp = Disk::new();
    let dov = build(
        &tmp,
        "+AGk26cH00001\tname=Alice\n\
         +AGk26cH00002\tname=Bob\n\
         +AGk26cH00003\tname=Carol\n",
    );
    let utv = tmp.at("input.utv");
    tmp.write(&utv, "AGk26cH00003\nAGk26cH00001\nAGk26cH00002\n");
    let out = tmp.run(&["--records", &utv, &dov], "");
    assert!(out.code == 0);
    let s = out.stdout;
    let lines: Vec<&str> = s.lines().collect();
    assert!(lines[0].contains("Carol"));
    assert!(lines[1].contains("Alice"));
    assert!(lines[2].contains("Bob"));
}

#[test]
fn integration_records_coerces_numbers_booleans_arrays() {
    let tmp = Disk::new();
    let dov = build(
        &tmp,
        "+AGk26cH00001\tn=42\tb=true\ta=x\ta=y\n",
    );
    let utv = tmp.at("input.utv");
    tmp.write(&utv, "AGk26cH00001\n");
    let out = tmp.run(&["--records", &utv, &dov], "");
    assert!(out.code == 0);
    let s = out.stdout;
    assert!(s.contains("\"n\":42"));
    assert!(s.contains("\"b\":true"));
    assert!(s.contains("\"a\":[\"x\",\"y\"]"));
}

#[test]
fn integration_records_timestamp_stays_string() {
    let tmp = Disk::new();
    let dov = build(
        &tmp,
        "+AGk26cH00001\tcreated=20262903143022\n",
    );
    let utv = tmp.at("input.utv");
    tmp.write(&utv, "AGk26cH00001\n");
    let out = tmp.run(&["--records", &utv, &dov], "");
    assert!(out.code == 0);
    let s = out.stdout;
    assert!(s.contains("\"created\":\"20262903143022\""));
}

#[test]
fn integration_argv_help_includes_records_line() {
    let tmp = Disk::new();
    let out = tmp.run(&["--help"], "");
    assert!(out.code == 0);
    let s = out.stdout;
    assert!(s.contains("--records"));
}

#[test]
fn integration_argv_help_plane_line_lists_five_files() {
    let tmp = Disk::new();
    let out = tmp.run(&["--help"], "");
    assert!(out.code == 0);
    let s = out.stdout;
    let plane_line = s
        .lines()
        .find(|l| l.contains("--plane"))
        .expect("--plane line missing in --help");
    assert!(
        plane_line.contains("kt.ptv"),
        "--plane help line missing kt.ptv: {}",
        plane_line
    );
}

#[test]
fn integration_records_with_show_flag_rejected() {
    let tmp = Disk::new();
    let dov = build(&tmp, "+AGk26cH00001\tname=Alice\n");
    let utv = tmp.at("input.utv");
    tmp.write(&utv, "AGk26cH00001\n");
    let s = tmp.run(&["--records", &utv, &dov, "--show"], "");
    assert!(s.code != 0);
}

#[test]
fn show_argv_query_without_show_unchanged() {
    let tmp = Disk::new();
    let dov = build(&tmp, "+AGk26cH00001\tname=Alice\n");
    let qtv = tmp.at("q.qtv");
    tmp.write(&qtv, "name\tAlice\n");
    let out = tmp.run(&["--query", &qtv, &dov], "");
    assert!(out.code == 0);
    let stdout = out.stdout.clone();
    assert_eq!(stdout, "AGk26cH00001\n");
}

#[test]
fn show_argv_show_flag_after_three_args_is_recognised() {
    let tmp = Disk::new();
    let dov = build(&tmp, "+AGk26cH00001\tname=Alice\n");
    let qtv = tmp.at("q.qtv");
    tmp.write(&qtv, "name\tAlice\n");
    let out = tmp.run(&["--query", &qtv, &dov, "--show"], "");
    assert!(out.code == 0, "stderr: {}", out.stderr.clone());
    let stdout = out.stdout.clone();
    assert!(stdout.contains("AGk26cH00001\tname=Alice"));
    assert!(stdout.lines().any(|l| l.starts_with("# ")));
}

#[test]
fn show_argv_show_flag_swallows_following_path_token() {
    let tmp = Disk::new();
    let dov = build(&tmp, "+AGk26cH00001\tname=Alice\n");
    let qtv = tmp.at("q.qtv");
    tmp.write(&qtv, "name\tAlice\n");
    let out_path = tmp.at("records.dtv");
    let out = tmp.run(&["--query", &qtv, &dov, "--show", &out_path], "");
    assert!(out.code == 0, "stderr: {}", out.stderr.clone());
    assert!(tmp.has(&out_path));
    let content = tmp.read(&out_path);
    assert!(content.contains("AGk26cH00001\tname=Alice"));
}

#[test]
fn show_dash_is_stdout_alias() {
    let tmp = Disk::new();
    let dov = build(&tmp, "+AGk26cH00001\tname=Alice\n");
    let qtv = tmp.at("q.qtv");
    tmp.write(&qtv, "name\tAlice\n");
    let out = tmp.run(&["--query", &qtv, &dov, "--show", "-"], "");
    assert!(out.code == 0);
    let stdout = out.stdout.clone();
    assert!(stdout.contains("AGk26cH00001\tname=Alice"));
}

#[test]
fn show_invalid_qtv_exits_2_no_dtv_written() {
    let tmp = Disk::new();
    let dov = build(&tmp, "+AGk26cH00001\tname=Alice\n");
    let qtv = tmp.at("q.qtv");
    tmp.write(&qtv, "@bogus\tkey\n");
    let out_path = tmp.at("o.dtv");
    let out = tmp.run(&["--query", &qtv, &dov, "--show", &out_path], "");
    assert!(out.code != 0);
    assert!(!tmp.has(&out_path));
}

#[test]
fn show_leading_dash_path_rejected() {
    let tmp = Disk::new();
    let dov = build(&tmp, "+AGk26cH00001\tname=Alice\n");
    let qtv = tmp.at("q.qtv");
    tmp.write(&qtv, "name\tAlice\n");
    let out = tmp.run(&["--query", &qtv, &dov, "--show", "-out.dtv"], "");
    assert!(out.code != 0);
    let stderr = out.stderr.clone();
    assert!(
        stderr.contains("must not start with '-'"),
        "expected diagnostic, got: {}",
        stderr
    );
}

#[test]
fn filter_show_combination_emits_full_records() {
    let tmp = Disk::new();
    let dov = build(
        &tmp,
        "+AGk26cH00001\tname=Alice\tage=30\n+AGk26cH00002\tname=Bob\tage=25\n",
    );
    let ftv = tmp.at("f.ftv");
    tmp.write(&ftv, "ngt\tage\t26\n");
    let out = tmp.run(&["--filter", &ftv, &dov, "--show"], "");
    assert!(out.code == 0, "stderr: {}", out.stderr.clone());
    let stdout = out.stdout.clone();
    assert!(stdout.contains("AGk26cH00001\t"));
    assert!(!stdout.contains("AGk26cH00002\t"));
}

#[test]
fn filter_show_to_dtv_atomic_write() {
    let tmp = Disk::new();
    let dov = build(&tmp, "+AGk26cH00001\tname=Alice\n");
    let ftv = tmp.at("f.ftv");
    tmp.write(&ftv, "has\tname\n");
    let out_path = tmp.at("o.dtv");
    let out = tmp.run(&["--filter", &ftv, &dov, "--show", &out_path], "");
    assert!(out.code == 0, "stderr: {}", out.stderr.clone());
    assert!(tmp.has(&out_path));
    assert!(!tmp.has(&format!("{}.tmp", out_path)));
}

#[test]
fn filter_lock_compatible_with_query() {
    let tmp = Disk::new();
    let dov = build(&tmp, "+AGk26cH00001\tname=Alice\n");
    let ftv = tmp.at("f.ftv");
    tmp.write(&ftv, "eq\tname\tAlice\n");
    let out = tmp.run(&["--filter", &ftv, &dov], "");
    assert!(out.code == 0, "stderr: {}", out.stderr.clone());
    let stdout = out.stdout.clone();
    assert_eq!(stdout, "AGk26cH00001\n");
}

#[test]
fn filter_invalid_ftv_exits_nonzero_no_dtv_written() {
    let tmp = Disk::new();
    let dov = build(&tmp, "+AGk26cH00001\tname=Alice\n");
    let ftv = tmp.at("f.ftv");
    tmp.write(&ftv, "bogus\tname\tAlice\n");
    let out_path = tmp.at("o.dtv");
    let out = tmp.run(&["--filter", &ftv, &dov, "--show", &out_path], "");
    assert!(out.code != 0);
    assert!(!tmp.has(&out_path));
}

#[test]
fn integration_plane_creates_kt_ptv() {
    let tmp = Disk::new();
    let dov = build(
        &tmp,
        "+AGk26cH00001\tname=Alice\tage=30\n+AGk26cH00002\tname=Bob\n",
    );
    let s = tmp.run(&["--plane", &dov], "");
    assert!(s.code == 0);
    let kt = tmp.at("test.kt.ptv");
    assert!(tmp.has(&kt));
    let content = tmp.read(&kt);
    assert!(content.contains("name\tstring\t"));
    assert!(content.contains("age\tnumber\t"));
}

#[test]
fn integration_plane_kt_ptv_grep_one_key_returns_all_types() {
    let tmp = Disk::new();
    let dov = build(
        &tmp,
        "+AGk26cH00001\tage=30\n\
         +AGk26cH00002\tage=many\n\
         +AGk26cH00003\tage=true\n",
    );
    let _ = tmp.run(&["--plane", &dov], "");
    let kt = tmp.at("test.kt.ptv");
    let content = tmp.read(&kt);
    let age_rows: Vec<&str> = content
        .lines()
        .filter(|l| l.starts_with("age\t"))
        .collect();
    assert_eq!(age_rows.len(), 3);
    let types: std::collections::HashSet<&str> = age_rows
        .iter()
        .map(|l| l.split('\t').nth(1).unwrap())
        .collect();
    assert!(types.contains("number"));
    assert!(types.contains("string"));
    assert!(types.contains("boolean"));
}

#[test]
fn integration_plane_skip_when_kt_ptv_present_and_current() {
    let tmp = Disk::new();
    let dov = build(&tmp, "+AGk26cH00001\tname=Alice\n");
    let _ = tmp.run(&["--plane", &dov], "");
    let kt = tmp.at("test.kt.ptv");
    let mtime1 = tmp.written(&kt);
    let _ = tmp.run(&["--plane", &dov], "");
    let mtime2 = tmp.written(&kt);
    assert_eq!(mtime1, mtime2, "kt.ptv should not be rewritten when current");
}

#[test]
fn integration_relate_does_not_create_kt_ptv() {
    let tmp = Disk::new();
    let dov = build(&tmp, "+AGk26cH00001\tname=Alice\n");
    let _ = tmp.run(&["--relate", &dov], "");
    let kt = tmp.at("test.kt.ptv");
    assert!(!tmp.has(&kt), "--relate must not create kt.ptv");
}

#[test]
fn integration_classifier_consistency_kt_ptv_and_records_agree_on_every_value() {
    let tmp = Disk::new();
    let dov = tmp.at("test.dov");
    let atv = tmp.at("seed.atv");

    let actions = "+AGk26cH00001\tstr_field=hello\n\
                   +AGk26cH00002\tnum_field=30\n\
                   +AGk26cH00003\tnum_field=-3.14\n\
                   +AGk26cH00004\tbool_field=true\n\
                   +AGk26cH00005\tbool_field=false\n\
                   +AGk26cH00006\tts_field=20262903143022\n\
                   +AGk26cH00007\tarr_field=admin\tarr_field=editor\n\
                   +AGk26cH00008\ttricky_field=00\n";
    tmp.write(&atv, &actions);

    let s = tmp.run(&[&dov, &atv], "");
    assert!(s.code == 0, "atv apply failed");

    let s = tmp.run(&["--plane", &dov], "");
    assert!(s.code == 0, "--plane failed");

    let kt_path = tmp.at("test.kt.ptv");
    let kt = tmp.read(&kt_path);

    let expectations: &[(&str, &str, fn(&str) -> bool)] = &[
        ("str_field", "string", |v: &str| {
            v.starts_with('"') && v.ends_with('"')
        }),
        ("num_field", "number", |v: &str| {
            !v.starts_with('"') && !v.starts_with('[') && (v.starts_with('-') || v.chars().next().is_some_and(|c| c.is_ascii_digit()))
        }),
        ("bool_field", "boolean", |v: &str| {
            v == "true" || v == "false"
        }),
        ("ts_field", "timestamp", |v: &str| {
            v == "\"20262903143022\""
        }),
        ("arr_field", "array", |v: &str| {
            v.starts_with('[') && v.ends_with(']')
        }),
        ("tricky_field", "string", |v: &str| {
            v == "\"00\""
        }),
    ];

    for (key, expected_type, _shape) in expectations {
        let needle = format!("{}\t{}\t", key, expected_type);
        assert!(
            kt.lines().any(|l| l.starts_with(&needle)),
            "kt.ptv missing row for ({}, {}); kt.ptv =\n{}",
            key,
            expected_type,
            kt
        );
    }

    let utv = tmp.at("input.utv");
    let uuid_list: String = (1..=8u32).map(|n| format!("AGk26cH{:05}\n", n)).collect();
    tmp.write(&utv, &uuid_list);

    let out = tmp.run(&["--records", &utv, &dov], "");
    assert!(out.code == 0, "--records failed: {:?}", out);
    let stdout = out.stdout;

    for (key, expected_type, shape) in expectations {
        let key_marker = format!("\"{}\":", key);
        let lines: Vec<&str> = stdout.lines().filter(|l| l.contains(&key_marker)).collect();
        assert!(
            !lines.is_empty(),
            "no records output line contains key {:?}; stdout =\n{}",
            key,
            stdout
        );
        for line in lines {
            let i = line.find(&key_marker).unwrap();
            let after = &line[i + key_marker.len()..];
            let value = if let Some(stripped) = after.strip_prefix('"') {
                let bytes = stripped.as_bytes();
                let mut j = 0;
                while j < bytes.len() {
                    if bytes[j] == b'\\' {
                        j += 2;
                        continue;
                    }
                    if bytes[j] == b'"' {
                        break;
                    }
                    j += 1;
                }
                &after[..j + 2]
            } else if after.starts_with('[') {
                let mut depth = 0i32;
                let bytes = after.as_bytes();
                let mut j = 0;
                let mut in_str = false;
                while j < bytes.len() {
                    let c = bytes[j];
                    if in_str {
                        if c == b'\\' {
                            j += 2;
                            continue;
                        }
                        if c == b'"' {
                            in_str = false;
                        }
                    } else {
                        if c == b'"' {
                            in_str = true;
                        } else if c == b'[' {
                            depth += 1;
                        } else if c == b']' {
                            depth -= 1;
                            if depth == 0 {
                                j += 1;
                                break;
                            }
                        }
                    }
                    j += 1;
                }
                &after[..j]
            } else {
                let end = after
                    .find(|c: char| c == ',' || c == '}')
                    .unwrap_or(after.len());
                &after[..end]
            };
            assert!(
                shape(value),
                "value {:?} for key {:?} (expected type {}) does not match shape predicate; line = {:?}",
                value,
                key,
                expected_type,
                line
            );
        }
    }
}

#[test]
fn test_full_workflow_append_and_read() {
    let tmp = Disk::new();
    let dov = tmp.at("test.dov");
    let action_file = tmp.at("actions.txt");
    tmp.write(&action_file, "+AGk26cH00001\tname=Alice\tage=30\n+AGk26cH00002\tname=Bob\n");
    assert_eq!(tmp.run(&[&dov, &action_file], "").code, 0);
    let db = tmp.load(&dov);
    assert!(db.uuid_exists("AGk26cH00001"));
    assert!(db.uuid_exists("AGk26cH00002"));
}

#[test]
fn test_full_workflow_delete() {
    let tmp = Disk::new();
    let dov = tmp.at("test.dov");
    let action1 = tmp.at("a1.txt");
    let action2 = tmp.at("a2.txt");
    tmp.write(&action1, "+AGk26cH00001\tname=Alice\n");
    assert_eq!(tmp.run(&[&dov, &action1], "").code, 0);
    tmp.write(&action2, "-AGk26cH00001\n");
    assert_eq!(tmp.run(&[&dov, &action2], "").code, 0);
    let db = tmp.load(&dov);
    assert!(!db.uuid_exists("AGk26cH00001"));
}

#[test]
fn test_compact_only() {
    let tmp = Disk::new();
    let dov = tmp.at("test.dov");
    let action = tmp.at("a.txt");
    tmp.write(&action, "+AGk26cH00001\tname=Alice\n");
    assert_eq!(tmp.run(&[&dov, &action], "").code, 0);
    assert_eq!(tmp.run(&[&dov, "--compact"], "").code, 0);
    let db = tmp.load(&dov);
    assert!(db.pending.is_empty());
    assert!(db.uuid_exists("AGk26cH00001"));
}
