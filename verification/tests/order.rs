use rand::rngs::StdRng;
use rand::SeedableRng;
use std::cell::{Cell, RefCell};
use std::collections::BTreeMap;
use tsdb::action::parse_action_str;
use tsdb::clock::timestamp;
use tsdb::dotsv::{apply_actions, DotsvFile};
use tsdb::relate::last_nonempty_line;
use tsdb::error::TsdbError;
use tsdb::order::{encode_norm, generate_ord_ptv, ord_ptv_path};

/// Files in memory, with the moments at which they were written.
struct Disk {
    files: RefCell<BTreeMap<String, (String, u64)>>,
    clock: Cell<u64>,
}

impl Disk {
    fn new() -> Disk {
        Disk { files: RefCell::new(BTreeMap::new()), clock: Cell::new(1_700_000_000) }
    }

    fn at(&self, name: &str) -> String {
        format!("/data/{}", name)
    }

    fn tick(&self) -> u64 {
        self.clock.set(self.clock.get() + 1);
        self.clock.get()
    }

    fn write(&self, path: &str, text: &str) {
        let now = self.tick();
        self.files.borrow_mut().insert(path.to_string(), (text.to_string(), now));
    }

    fn has(&self, path: &str) -> bool {
        self.files.borrow().contains_key(path)
    }

    fn read(&self, path: &str) -> String {
        self.files.borrow()[path].0.clone()
    }

    fn written(&self, path: &str) -> u64 {
        self.files.borrow()[path].1
    }

    fn save(&self, db: &DotsvFile, path: &str) {
        let stamp = timestamp(self.tick(), 0);
        self.write(path, &db.to_text(&stamp));
    }

    fn load(&self, path: &str) -> DotsvFile {
        DotsvFile::from_bytes(self.read(path).as_bytes()).unwrap()
    }

    fn footer(&self, path: &str) -> String {
        last_nonempty_line(&self.read(path), path).unwrap()
    }

    fn footer_if(&self, path: &str) -> Option<String> {
        if self.has(path) {
            Some(self.footer(path))
        } else {
            None
        }
    }

    fn order(&self, dov: &str, db: &DotsvFile) -> Result<(), TsdbError> {
        let text = generate_ord_ptv(db, &self.footer(dov))?;
        self.write(&ord_ptv_path(dov), &text);
        Ok(())
    }
}

fn build(tmp: &Disk, action: &str) -> String {
    let dov = tmp.at("test.dov");
    let mut db = DotsvFile::empty();
    let actions = parse_action_str(action).unwrap();
    apply_actions(&mut db, &actions).unwrap();
    db.compact().unwrap();
    tmp.save(&db, &dov);
    dov
}

fn sample_decimal<R: rand::Rng>(rng: &mut R) -> String {
    let negative = rng.gen_bool(0.5);
    let int_len = rng.gen_range(1..=4);
    let int_part: String = if int_len == 1 {
        rng.gen_range(0u8..=9).to_string()
    } else {
        let mut s = String::with_capacity(int_len);
        s.push(char::from(b'0' + rng.gen_range(1u8..=9)));
        for _ in 1..int_len {
            s.push(char::from(b'0' + rng.gen_range(0u8..=9)));
        }
        s
    };
    let has_frac = rng.gen_bool(0.5);
    let frac_part: String = if has_frac {
        let frac_len = rng.gen_range(1..=4);
        let mut s = String::with_capacity(frac_len);
        for _ in 0..frac_len {
            s.push(char::from(b'0' + rng.gen_range(0u8..=9)));
        }
        s
    } else {
        String::new()
    };
    let mut out = String::new();
    if negative {
        out.push('-');
    }
    out.push_str(&int_part);
    if !frac_part.is_empty() {
        out.push('.');
        out.push_str(&frac_part);
    }
    out
}

#[test]
fn norm_rejects_scientific_notation() {
    assert_eq!(encode_norm("1e3"), None);
    assert_eq!(encode_norm("1E3"), None);
    assert_eq!(encode_norm("3.14e2"), None);
}

#[test]
fn norm_rejects_hex() {
    assert_eq!(encode_norm("0x1A"), None);
    assert_eq!(encode_norm("0X1A"), None);
}

#[test]
fn norm_rejects_leading_zero() {
    assert_eq!(encode_norm("007"), None);
    assert_eq!(encode_norm("00"), None);
    assert_eq!(encode_norm("01"), None);
}

#[test]
fn norm_rejects_leading_whitespace() {
    assert_eq!(encode_norm(" 5"), None);
    assert_eq!(encode_norm("\t5"), None);
    assert_eq!(encode_norm("5 "), None);
}

#[test]
fn norm_rejects_plus_sign() {
    assert_eq!(encode_norm("+5"), None);
}

#[test]
fn norm_rejects_trailing_dot() {
    assert_eq!(encode_norm("5."), None);
}

#[test]
fn norm_rejects_lone_minus() {
    assert_eq!(encode_norm("-"), None);
}

#[test]
fn norm_rejects_empty() {
    assert_eq!(encode_norm(""), None);
}

#[test]
fn norm_accepts_zero() {
    assert!(encode_norm("0").is_some());
}

#[test]
fn norm_zero() {
    assert_eq!(encode_norm("0").unwrap(), "P0001_0");
}

#[test]
fn norm_positive_int() {
    assert_eq!(encode_norm("5").unwrap(), "P0001_5");
    assert_eq!(encode_norm("30").unwrap(), "P0002_30");
    assert_eq!(encode_norm("100").unwrap(), "P0003_100");
}

#[test]
fn norm_negative_int() {
    assert_eq!(encode_norm("-5").unwrap(), "N9998_4~");
    assert_eq!(encode_norm("-30").unwrap(), "N9997_69~");
}

#[test]
fn norm_positive_decimal() {
    assert_eq!(encode_norm("3.14").unwrap(), "P0001_3.14");
    assert_eq!(encode_norm("0.5").unwrap(), "P0001_0.5");
}

#[test]
fn norm_negative_decimal() {
    assert_eq!(encode_norm("-3.14").unwrap(), "N9998_6.85~");
}

#[test]
fn norm_trims_trailing_zeros() {
    assert_eq!(encode_norm("30").unwrap(), encode_norm("30.0").unwrap());
    assert_eq!(
        encode_norm("3.14").unwrap(),
        encode_norm("3.14000").unwrap()
    );
}

#[test]
fn norm_negative_zero_normalises_to_positive_zero() {
    assert_eq!(encode_norm("-0").unwrap(), encode_norm("0").unwrap());
    assert_eq!(encode_norm("-0.0").unwrap(), encode_norm("0").unwrap());
}

#[test]
fn norm_sort_agrees_with_numeric_across_sign_boundary() {
    let mut samples: Vec<(&str, f64)> = vec![
        ("-100", -100.0),
        ("-30", -30.0),
        ("-3.14", -3.14),
        ("-3.1", -3.1),
        ("-3", -3.0),
        ("-1", -1.0),
        ("0", 0.0),
        ("1", 1.0),
        ("3", 3.0),
        ("3.1", 3.1),
        ("3.14", 3.14),
        ("30", 30.0),
        ("100", 100.0),
    ];
    let mut by_norm: Vec<(String, f64)> = samples
        .iter()
        .map(|(s, v)| (encode_norm(s).unwrap(), *v))
        .collect();
    by_norm.sort_by(|a, b| a.0.cmp(&b.0));
    samples.sort_by(|a, b| a.1.partial_cmp(&b.1).unwrap());
    for ((_, expected_v), (_, actual_v)) in samples.iter().zip(by_norm.iter()) {
        assert!(
            (*expected_v - *actual_v).abs() < 1e-9,
            "sort mismatch: expected {} got {}",
            expected_v,
            actual_v
        );
    }
}

#[test]
fn norm_sort_agrees_with_numeric_property_1000_random_pairs() {
    let mut rng = StdRng::seed_from_u64(0xB014_06_27);
    for _ in 0..1000 {
        let a = sample_decimal(&mut rng);
        let b = sample_decimal(&mut rng);
        let na = encode_norm(&a).unwrap_or_else(|| panic!("a={:?}", a));
        let nb = encode_norm(&b).unwrap_or_else(|| panic!("b={:?}", b));
        let fa: f64 = a.parse().unwrap();
        let fb: f64 = b.parse().unwrap();
        let lex = na.cmp(&nb);
        let num = fa.partial_cmp(&fb).unwrap();
        if lex != std::cmp::Ordering::Equal {
            assert_eq!(
                lex, num,
                "lex_cmp({:?},{:?}) = {:?} but numeric_cmp({},{}) = {:?}",
                na, nb, lex, fa, fb, num
            );
        } else {
            assert!(
                (fa - fb).abs() < 1e-9,
                "norm collision for non-equal numerics: {:?} ({}) vs {:?} ({})",
                a,
                fa,
                b,
                fb
            );
        }
    }
}

#[test]
fn generate_ord_ptv_emits_only_numeric_values() {
    let tmp = Disk::new();
    let dov = build(
        &tmp,
        "+AGk26cH00001\tname=Alice\tage=30\n\
         +AGk26cH00002\tname=Bob\tage=25\n",
    );
    let db = tmp.load(&dov);
    tmp.order(&dov, &db).unwrap();
    let path = ord_ptv_path(&dov);
    let content = tmp.read(&path);
    assert!(content.contains("\tage\t25\tAGk26cH00002"));
    assert!(content.contains("\tage\t30\tAGk26cH00001"));
    assert!(!content.contains("\tname\t"));
}

#[test]
fn generate_ord_ptv_expands_array_elements() {
    let tmp = Disk::new();
    let dov = build(
        &tmp,
        "+AGk26cH00001\tscore=10\tscore=60\tscore=70\n",
    );
    let db = tmp.load(&dov);
    tmp.order(&dov, &db).unwrap();
    let content = tmp.read(&ord_ptv_path(&dov));
    let data_rows = content
        .lines()
        .filter(|l| !l.is_empty() && !l.starts_with('#'))
        .count();
    assert_eq!(data_rows, 3);
}

#[test]
fn generate_ord_ptv_footer_matches_dov() {
    let tmp = Disk::new();
    let dov = build(&tmp, "+AGk26cH00001\tage=30\n");
    let db = tmp.load(&dov);
    tmp.order(&dov, &db).unwrap();
    let dov_ts = tmp.footer(&dov);
    let ord_ts = tmp.footer(&ord_ptv_path(&dov));
    assert_eq!(ord_ts, dov_ts);
}

#[test]
fn generate_ord_ptv_byte_identical_across_runs() {
    let tmp = Disk::new();
    let dov = build(
        &tmp,
        "+AGk26cH00001\tage=30\n\
         +AGk26cH00002\tage=25\n\
         +AGk26cH00003\tage=-5\n",
    );
    let db = tmp.load(&dov);
    tmp.order(&dov, &db).unwrap();
    let bytes1 = tmp.read(&ord_ptv_path(&dov));
    tmp.order(&dov, &db).unwrap();
    let bytes2 = tmp.read(&ord_ptv_path(&dov));
    assert_eq!(bytes1, bytes2);
}
