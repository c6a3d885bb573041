use cargo_flake::{tally, MergeError, TestResult};

fn result(name: &str, iterations: u16, successes: u16, failures: u16) -> TestResult {
    TestResult {
        name: name.to_string(),
        iterations,
        successes,
        failures,
    }
}

fn counts(r: &TestResult) -> (u16, u16, u16) {
    (r.iterations, r.successes, r.failures)
}

#[test]
fn test_long() {
    let mut sum: u128 = 1;
    for _ in 0..1_000_000_000 {
        sum = sum.saturating_add(sum);
        assert!(true)
    }
    assert!(sum > 2);
}

#[test]
fn new_result_is_empty() {
    let r = TestResult::new("a::b".to_string());
    assert_eq!(r.name, "a::b");
    assert_eq!(counts(&r), (0, 0, 0));
}

#[test]
fn record_counts_each_run_once() {
    let mut r = TestResult::new("t".to_string());
    r.record(true);
    r.record(false);
    r.record(false);
    assert_eq!(counts(&r), (3, 1, 2));
}

#[test]
fn merge_sums_counters() {
    let a = result("t", 7, 4, 3);
    let b = result("t", 5, 5, 0);
    let m = a.merge(&b).unwrap();
    assert_eq!(m.name, "t");
    assert_eq!(counts(&m), (12, 9, 3));
}

#[test]
fn merge_refuses_other_names() {
    let a = result("t", 1, 1, 0);
    let b = result("u", 1, 0, 1);
    assert_eq!(a.merge(&b).unwrap_err(), MergeError::MismatchedName);
}

#[test]
fn merge_commutative_associative_identity() {
    let mut seed: u32 = 12345;
    let mut next = || {
        seed = seed.wrapping_mul(1103515245).wrapping_add(12345);
        ((seed >> 16) % 1000) as u16
    };
    for _ in 0..200 {
        let (s1, f1, s2, f2, s3, f3) = (next(), next(), next(), next(), next(), next());
        let a = result("t", s1 + f1, s1, f1);
        let b = result("t", s2 + f2, s2, f2);
        let c = result("t", s3 + f3, s3, f3);
        let ab = a.merge(&b).unwrap();
        let ba = b.merge(&a).unwrap();
        assert_eq!(counts(&ab), counts(&ba));
        assert_eq!(counts(&ab), (a.iterations + b.iterations, s1 + s2, f1 + f2));
        let left = ab.merge(&c).unwrap();
        let right = a.merge(&b.merge(&c).unwrap()).unwrap();
        assert_eq!(counts(&left), counts(&right));
        let zero = TestResult::new("t".to_string());
        assert_eq!(counts(&zero.merge(&a).unwrap()), counts(&a));
        assert_eq!(counts(&a.merge(&zero).unwrap()), counts(&a));
    }
}

#[test]
fn tally_counts_outcomes() {
    let r = tally("t".to_string(), &vec![true, false, true, true, false]);
    assert_eq!(r.name, "t");
    assert_eq!(counts(&r), (5, 3, 2));
    let none = tally("t".to_string(), &vec![]);
    assert_eq!(counts(&none), (0, 0, 0));
}

#[test]
fn sharding_keeps_totals() {
    let outcomes: Vec<bool> = (0..30).map(|k| k % 3 != 0).collect();
    let whole = tally("t".to_string(), &outcomes);
    assert_eq!(counts(&whole), (30, 20, 10));
    for workers in 1..=7usize {
        let size = (outcomes.len() + workers - 1) / workers;
        let mut acc = TestResult::new("t".to_string());
        for shard in outcomes.chunks(size) {
            acc = acc.merge(&tally("t".to_string(), &shard.to_vec())).unwrap();
        }
        assert_eq!(counts(&acc), counts(&whole));
        assert_eq!(acc.successes + acc.failures, 30);
    }
}
