use cargo_flake::{
    discovery_command, flaky_results, plan_run, plan_tests, select_tests, starts_with, tally,
    test_command, Config, ConfigError, TestResult,
};

fn config() -> Config {
    Config {
        threads: None,
        features: None,
        prefix: None,
        iterations: None,
        tolerable_failures: None,
    }
}

fn result(name: &str, successes: u16, failures: u16) -> TestResult {
    TestResult {
        name: name.to_string(),
        iterations: successes + failures,
        successes,
        failures,
    }
}

fn names(v: &[&str]) -> Vec<String> {
    v.iter().map(|s| s.to_string()).collect()
}

#[test]
fn config_defaults() {
    let c = config();
    assert_eq!(c.iterations_per_test(), 100);
    assert_eq!(c.tolerance(), 0);
    assert_eq!(c.worker_count(8), Ok(8));
    let c = Config {
        threads: Some(3),
        iterations: Some(10),
        tolerable_failures: Some(2),
        ..config()
    };
    assert_eq!(c.iterations_per_test(), 10);
    assert_eq!(c.tolerance(), 2);
    assert_eq!(c.worker_count(8), Ok(3));
}

#[test]
fn zero_threads_refused() {
    let c = Config {
        threads: Some(0),
        ..config()
    };
    assert_eq!(c.worker_count(8), Err(ConfigError::ZeroThreads));
    assert_eq!(config().worker_count(0), Err(ConfigError::ZeroThreads));
}

#[test]
fn prefix_check() {
    assert!(starts_with(&"net::a".to_string(), &"net::".to_string()));
    assert!(starts_with(&"net".to_string(), &"".to_string()));
    assert!(!starts_with(&"ne".to_string(), &"net".to_string()));
    assert!(!starts_with(&"io::net".to_string(), &"net".to_string()));
}

#[test]
fn prefix_filter_keeps_order() {
    let all = names(&["net::a", "io::b", "net::c"]);
    assert_eq!(
        select_tests(all.clone(), &Some("net::".to_string())),
        names(&["net::a", "net::c"])
    );
    assert_eq!(select_tests(all.clone(), &None), all);
    assert!(select_tests(all, &Some("fs".to_string())).is_empty());
}

#[test]
fn commands_embed_features_and_name() {
    assert_eq!(discovery_command(&None), "cargo test -- --list");
    assert_eq!(
        discovery_command(&Some("a b".to_string())),
        "cargo test --features \"a b\" -- --list"
    );
    assert_eq!(test_command(&None, &"m::t".to_string()), "cargo test m::t");
    assert_eq!(
        test_command(&Some("x".to_string()), &"m::t".to_string()),
        "cargo test --features \"x\" m::t"
    );
}

#[test]
fn plans_use_configured_iterations() {
    let c = Config {
        iterations: Some(7),
        ..config()
    };
    let plans = plan_tests(names(&["a", "b"]), &c);
    assert_eq!(plans.len(), 2);
    assert_eq!(plans[1].name, "b");
    assert_eq!(plans[1].command, "cargo test b");
    assert_eq!(plans[1].iterations, 7);
    assert_eq!(plan_tests(names(&["a"]), &config())[0].iterations, 100);
}

#[test]
fn tolerance_boundary() {
    let results = vec![result("at", 8, 2), result("over", 7, 3), result("clean", 10, 0)];
    let kept = flaky_results(results, 2);
    assert_eq!(kept.len(), 1);
    assert_eq!(kept[0].name, "over");
}

#[test]
fn zero_tolerance_reports_any_failure() {
    let results = vec![result("one", 9, 1), result("none", 10, 0)];
    let kept = flaky_results(results, 0);
    assert_eq!(kept.len(), 1);
    assert_eq!(kept[0].name, "one");
    assert!(flaky_results(vec![], 0).is_empty());
}

#[test]
fn report_set_ignores_collection_order() {
    let a = vec![result("x", 1, 4), result("y", 5, 0), result("z", 2, 3)];
    let b = vec![result("z", 2, 3), result("x", 1, 4), result("y", 5, 0)];
    let mut na: Vec<String> = flaky_results(a, 0).into_iter().map(|r| r.name).collect();
    let mut nb: Vec<String> = flaky_results(b, 0).into_iter().map(|r| r.name).collect();
    na.sort();
    nb.sort();
    assert_eq!(na, nb);
    assert_eq!(na, names(&["x", "z"]));
}

#[test]
fn end_to_end_one_flaky_test() {
    let listing = "suite::steady: test\nsuite::shaky: test\nother::t: test\n";
    let c = Config {
        prefix: Some("suite::".to_string()),
        iterations: Some(10),
        ..config()
    };
    let plans = plan_run(listing, &c);
    assert_eq!(plans.len(), 2);
    let mut results = Vec::new();
    for plan in plans {
        let outcomes: Vec<bool> = (1..=plan.iterations)
            .map(|trial| !(plan.name == "suite::shaky" && trial % 2 == 1))
            .collect();
        results.push(tally(plan.name, &outcomes));
    }
    let report = flaky_results(results, c.tolerance());
    assert_eq!(report.len(), 1);
    assert_eq!(report[0].name, "suite::shaky");
    assert_eq!(report[0].failures, 5);
    assert_eq!(report[0].successes, 5);
    assert_eq!(report[0].iterations, 10);
}
