//! Detection of flaky tests: reading test names out of a discovery listing,
//! tallying repeated runs of each test, and keeping the tests whose failures
//! exceed a tolerance.
pub mod names;
pub mod outcome;
pub mod plan;

pub use names::parse_test_names;
pub use outcome::{tally, MergeError, TestResult};
pub use plan::{
    discovery_command, flaky_results, plan_run, plan_tests, select_tests, starts_with,
    test_command, Config, ConfigError, TestSetup, DEFAULT_ITERATIONS, DEFAULT_TOLERABLE_FAILURES,
};
