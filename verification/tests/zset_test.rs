use redisops::zset::{score_is_nan, scores_equal, ZSet};

fn b(x: f64) -> u64 {
    x.to_bits()
}

fn names(entries: &[redisops::zset::Entry]) -> Vec<String> {
    entries.iter().map(|e| e.name.clone()).collect()
}

fn sample() -> ZSet {
    let mut z = ZSet::new();
    z.add("c".to_string(), b(1.0));
    z.add("a".to_string(), b(1.0));
    z.add("b".to_string(), b(2.0));
    z.add("d".to_string(), b(-1.0));
    z.add("e".to_string(), b(3.0));
    z
}

#[test]
fn add_reports_changes() {
    let mut z = ZSet::new();
    assert!(z.is_empty());
    assert!(z.add("a".to_string(), b(1.0)));
    assert!(!z.add("a".to_string(), b(1.0)));
    assert!(z.add("a".to_string(), b(2.0)));
    assert_eq!(z.score("a"), Some(b(2.0)));
    assert_eq!(z.len(), 1);
    assert!(!z.add("n".to_string(), f64::NAN.to_bits()));
    assert_eq!(z.score("n"), None);
    assert_eq!(z.len(), 1);
}

#[test]
fn zero_and_negative_zero_are_the_same_score() {
    let mut z = ZSet::new();
    assert!(z.add("a".to_string(), b(0.0)));
    assert!(!z.add("a".to_string(), b(-0.0)));
    assert_eq!(z.score("a"), Some(b(0.0)));
}

#[test]
fn remove_reports_membership() {
    let mut z = sample();
    assert!(z.remove("a"));
    assert!(!z.remove("a"));
    assert_eq!(z.len(), 4);
    assert_eq!(names(&z.query(b(f64::NEG_INFINITY), "", 0, 10)), vec!["d", "c", "b", "e"]);
}

#[test]
fn query_ranks_by_score_then_name() {
    let z = sample();
    let all = z.query(b(f64::NEG_INFINITY), "", 0, 100);
    assert_eq!(names(&all), vec!["d", "a", "c", "b", "e"]);
    assert_eq!(all[0].score, b(-1.0));
    assert_eq!(names(&z.query(b(1.0), "b", 0, 100)), vec!["c", "b", "e"]);
    assert_eq!(names(&z.query(b(1.0), "a", 1, 2)), vec!["c", "b"]);
    assert!(z.query(b(1.0), "a", 0, 0).is_empty());
    assert!(z.query(b(1.0), "a", 0, -3).is_empty());
    assert!(z.query(b(1.0), "a", 10, 3).is_empty());
}

#[test]
fn query_with_negative_offset_reaches_back() {
    let z = sample();
    // Start key (1.0, "c"): pairs before it are d, a.
    assert_eq!(names(&z.query(b(1.0), "c", -1, 3)), vec!["a", "c", "b"]);
    assert_eq!(names(&z.query(b(1.0), "c", -5, 3)), vec!["d", "a", "c"]);
    assert_eq!(names(&z.query(b(1.0), "c", -2, 1)), vec!["a"]);
    assert_eq!(names(&z.query(b(100.0), "", -2, 5)), vec!["b", "e"]);
}

#[test]
fn negative_scores_order_below_positive_ones() {
    let mut z = ZSet::new();
    z.add("neg".to_string(), b(-2.5));
    z.add("negzero".to_string(), b(-0.0));
    z.add("zero".to_string(), b(0.0));
    z.add("inf".to_string(), b(f64::INFINITY));
    z.add("ninf".to_string(), b(f64::NEG_INFINITY));
    assert_eq!(
        names(&z.query(b(f64::NEG_INFINITY), "", 0, 10)),
        vec!["ninf", "neg", "negzero", "zero", "inf"]
    );
}

#[test]
fn names_order_by_bytes() {
    let mut z = ZSet::new();
    for n in ["b", "ab", "a", "é", "B"] {
        z.add(n.to_string(), b(1.0));
    }
    assert_eq!(names(&z.query(b(1.0), "", 0, 10)), vec!["B", "a", "ab", "b", "é"]);
}

#[test]
fn nan_and_equality_of_scores() {
    assert!(score_is_nan(f64::NAN.to_bits()));
    assert!(!score_is_nan(f64::INFINITY.to_bits()));
    assert!(scores_equal(b(0.0), b(-0.0)));
    assert!(scores_equal(b(1.5), b(1.5)));
    assert!(!scores_equal(f64::NAN.to_bits(), f64::NAN.to_bits()));
    assert!(!scores_equal(b(1.0), b(2.0)));
}

#[test]
fn default_zset_is_empty() {
    let z = ZSet::default();
    assert_eq!(z.len(), 0);
}

#[test]
fn full_query_lists_every_member_once() {
    let mut z = sample();
    assert_eq!(z.len(), 5);
    z.add("a".to_string(), b(7.0));
    assert_eq!(z.len(), 5);
    z.add("f".to_string(), b(0.5));
    assert_eq!(z.len(), 6);
    assert!(z.remove("c"));
    assert_eq!(z.len(), 5);
    assert!(!z.remove("c"));
    assert_eq!(z.len(), 5);
    let all = z.query(b(f64::NEG_INFINITY), "", 0, i64::MAX);
    assert_eq!(all.len(), z.len());
    assert_eq!(names(&all), vec!["d", "f", "b", "e", "a"]);
}

#[test]
fn remove_after_add_restores_the_set() {
    let mut z = sample();
    let before: Vec<(String, u64)> =
        z.query(b(f64::NEG_INFINITY), "", 0, 100).iter().map(|e| (e.name.clone(), e.score)).collect();
    assert!(z.add("new".to_string(), b(1.5)));
    assert!(z.remove("new"));
    let after: Vec<(String, u64)> =
        z.query(b(f64::NEG_INFINITY), "", 0, 100).iter().map(|e| (e.name.clone(), e.score)).collect();
    assert_eq!(before, after);
    assert_eq!(z.score("new"), None);
}
