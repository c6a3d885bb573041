//! The decisions of a run: which tests to run, how to invoke them, how many
//! times, and which tallies to report.
use vstd::prelude::*;
use vstd::string::StringExecFns;
use crate::names::{chars_of, parse_test_names, test_names};
use crate::outcome::{Tally, TestResult};

verus! {

broadcast use vstd::string::group_string_axioms;

/// How many times each test runs when the configuration does not say.
pub const DEFAULT_ITERATIONS: u16 = 100;

/// How many failures a test may have when the configuration does not say.
pub const DEFAULT_TOLERABLE_FAILURES: u16 = 0;

/// The options of a run. Each one left out takes its default.
#[derive(Debug)]
pub struct Config {
    /// Worker count; the host's count of execution units by default.
    pub threads: Option<usize>,
    /// Space separated feature list handed to the test runner.
    pub features: Option<String>,
    /// Only tests whose name starts with this prefix run.
    pub prefix: Option<String>,
    /// How many times each test runs.
    pub iterations: Option<u16>,
    /// How many failures a test may have and still not be reported.
    pub tolerable_failures: Option<u16>,
}

/// What one test's repeated run needs.
#[derive(Debug)]
pub struct TestSetup {
    pub name: String,
    pub command: String,
    pub iterations: u16,
}

/// A configuration that no run can use.
#[derive(Debug, Clone, Copy, PartialEq, Eq, Structural)]
pub enum ConfigError {
    /// The worker count is zero.
    ZeroThreads,
}

/// The view of an optional string.
pub open spec fn opt_view(s: Option<String>) -> Option<Seq<char>> {
    match s {
        Some(v) => Some(v@),
        None => None,
    }
}

impl Config {
    pub open spec fn spec_iterations(&self) -> u16 {
        match self.iterations {
            Some(n) => n,
            None => DEFAULT_ITERATIONS,
        }
    }

    pub open spec fn spec_tolerance(&self) -> u16 {
        match self.tolerable_failures {
            Some(n) => n,
            None => DEFAULT_TOLERABLE_FAILURES,
        }
    }

    /// How many times each test runs.
    pub fn iterations_per_test(&self) -> (r: u16)
        ensures
            r == self.spec_iterations(),
    {
        match self.iterations {
            Some(n) => n,
            None => DEFAULT_ITERATIONS,
        }
    }

    /// How many failures a test may have and still not be reported.
    pub fn tolerance(&self) -> (r: u16)
        ensures
            r == self.spec_tolerance(),
    {
        match self.tolerable_failures {
            Some(n) => n,
            None => DEFAULT_TOLERABLE_FAILURES,
        }
    }

    /// The size of the worker pool, given the host's count of execution
    /// units. A count of zero is refused.
    pub fn worker_count(&self, available: usize) -> (r: Result<usize, ConfigError>)
        ensures
            ({
                let n = match self.threads {
                    Some(t) => t,
                    None => available,
                };
                &&& n == 0 <==> r == Err::<usize, ConfigError>(ConfigError::ZeroThreads)
                &&& n != 0 <==> r == Ok::<usize, ConfigError>(n)
            }),
    {
        let n = match self.threads {
            Some(t) => t,
            None => available,
        };
        if n == 0 {
            Err(ConfigError::ZeroThreads)
        } else {
            Ok(n)
        }
    }
}

/// Whether a test of this name runs under the prefix filter.
pub open spec fn selected(prefix: Option<Seq<char>>, name: Seq<char>) -> bool {
    match prefix {
        Some(p) => p.is_prefix_of(name),
        None => true,
    }
}

/// The names that the prefix filter keeps, in their order.
pub open spec fn kept_names(names: Seq<Seq<char>>, prefix: Option<Seq<char>>) -> Seq<Seq<char>>
    decreases names.len(),
{
    if names.len() == 0 {
        Seq::empty()
    } else if selected(prefix, names.last()) {
        kept_names(names.drop_last(), prefix).push(names.last())
    } else {
        kept_names(names.drop_last(), prefix)
    }
}

/// The feature option of a test runner invocation; nothing without features.
pub open spec fn features_part(features: Option<Seq<char>>) -> Seq<char> {
    match features {
        Some(f) => " --features \""@ + f + "\""@,
        None => Seq::empty(),
    }
}

/// The invocation that lists the tests of the project.
pub open spec fn discovery_invocation(features: Option<Seq<char>>) -> Seq<char> {
    "cargo test"@ + features_part(features) + " -- --list"@
}

/// The invocation that runs the test `name` once.
pub open spec fn test_invocation(features: Option<Seq<char>>, name: Seq<char>) -> Seq<char> {
    "cargo test"@ + features_part(features) + " "@ + name
}

/// Whether `prefix` begins `name`.
pub fn starts_with(name: &String, prefix: &String) -> (r: bool)
    ensures
        r == prefix@.is_prefix_of(name@),
{
    let n = chars_of(name.as_str());
    let p = chars_of(prefix.as_str());
    if p.len() > n.len() {
        return false;
    }
    let mut k: usize = 0;
    while k < p.len()
        invariant
            k <= p.len() <= n.len(),
            n@ == name@,
            p@ == prefix@,
            forall|j: int| 0 <= j < k ==> p@[j] == n@[j],
        decreases p.len() - k,
    {
        if p[k] != n[k] {
            return false;
        }
        k = k + 1;
    }
    assert(prefix@ =~= name@.subrange(0, prefix@.len() as int));
    true
}

/// The names that run under the prefix filter, in their order.
pub fn select_tests(names: Vec<String>, prefix: &Option<String>) -> (r: Vec<String>)
    ensures
        r.deep_view() == kept_names(names.deep_view(), opt_view(*prefix)),
{
    let ghost all = names.deep_view();
    let ghost pv = opt_view(*prefix);
    let mut r: Vec<String> = Vec::new();
    for name in it: names
        invariant
            it.seq() == names@,
            all == names.deep_view(),
            pv == opt_view(*prefix),
            r.deep_view() == kept_names(all.take(it.index()), pv),
    {
        let ghost before = r.deep_view();
        let keep = match prefix {
            Some(p) => starts_with(&name, p),
            None => true,
        };
        proof {
            assert(all.take(it.index() + 1).drop_last() =~= all.take(it.index()));
            assert(all[it.index()] == name@);
        }
        if keep {
            r.push(name);
            assert(r.deep_view() =~= before.push(all[it.index()]));
        }
    }
    assert(all.take(all.len() as int) =~= all);
    r
}

fn append_features(cmd: &mut String, features: &Option<String>)
    ensures
        final(cmd)@ == old(cmd)@ + features_part(opt_view(*features)),
{
    match features {
        Some(f) => {
            cmd.append(" --features \"");
            cmd.append(f.as_str());
            cmd.append("\"");
            assert(final(cmd)@ =~= old(cmd)@ + features_part(opt_view(*features)));
        },
        None => {
            assert(old(cmd)@ + features_part(opt_view(*features)) =~= old(cmd)@);
        },
    }
}

/// The invocation that lists the tests of the project.
pub fn discovery_command(features: &Option<String>) -> (r: String)
    ensures
        r@ == discovery_invocation(opt_view(*features)),
{
    let mut cmd = "cargo test".to_string();
    append_features(&mut cmd, features);
    cmd.append(" -- --list");
    cmd
}

/// The invocation that runs the test `name` once.
pub fn test_command(features: &Option<String>, name: &String) -> (r: String)
    ensures
        r@ == test_invocation(opt_view(*features), name@),
{
    let mut cmd = "cargo test".to_string();
    append_features(&mut cmd, features);
    cmd.append(" ");
    cmd.append(name.as_str());
    cmd
}

/// Whether `s` is the plan of the test `name` under `config`.
pub open spec fn plans_test(s: TestSetup, name: Seq<char>, config: Config) -> bool {
    &&& s.name@ == name
    &&& s.command@ == test_invocation(opt_view(config.features), name)
    &&& s.iterations == config.spec_iterations()
}

/// One plan for each name, in the same order.
pub fn plan_tests(names: Vec<String>, config: &Config) -> (r: Vec<TestSetup>)
    ensures
        r.len() == names.len(),
        forall|i: int| 0 <= i < r.len() ==> plans_test(#[trigger] r[i], names[i]@, *config),
{
    let ghost all = names@;
    let iterations = config.iterations_per_test();
    let mut r: Vec<TestSetup> = Vec::new();
    for name in it: names
        invariant
            it.seq() == all,
            iterations == config.spec_iterations(),
            r.len() == it.index(),
            forall|i: int| 0 <= i < r.len() ==> plans_test(#[trigger] r[i], all[i]@, *config),
    {
        let command = test_command(&config.features, &name);
        r.push(TestSetup { name, command, iterations });
    }
    r
}

/// The plans of a run: the tests of the listing that the prefix filter keeps,
/// each with its invocation and run count, in the order of the listing.
pub fn plan_run(listing: &str, config: &Config) -> (r: Vec<TestSetup>)
    ensures
        ({
            let kept = kept_names(test_names(listing@), opt_view(config.prefix));
            &&& r.len() == kept.len()
            &&& forall|i: int| 0 <= i < r.len() ==> plans_test(#[trigger] r[i], kept[i], *config)
        }),
{
    let names = parse_test_names(listing);
    let kept = select_tests(names, &config.prefix);
    let ghost kv = kept.deep_view();
    let r = plan_tests(kept, config);
    assert forall|i: int| 0 <= i < r.len() implies plans_test(#[trigger] r[i], kv[i], *config) by {
        assert(kv[i] == kept@[i]@);
    }
    r
}

/// The tallies that the tolerance leaves in the report, in their order.
pub open spec fn flaky(results: Seq<Tally>, tolerable_failures: nat) -> Seq<Tally>
    decreases results.len(),
{
    if results.len() == 0 {
        Seq::empty()
    } else if results.last().failures > tolerable_failures {
        flaky(results.drop_last(), tolerable_failures).push(results.last())
    } else {
        flaky(results.drop_last(), tolerable_failures)
    }
}

/// The views of a sequence of tallies.
pub open spec fn tallies(results: Seq<TestResult>) -> Seq<Tally> {
    results.map_values(|r: TestResult| r@)
}

/// The tallies with more failures than `tolerable_failures`, in their order.
pub fn flaky_results(results: Vec<TestResult>, tolerable_failures: u16) -> (r: Vec<TestResult>)
    ensures
        tallies(r@) == flaky(tallies(results@), tolerable_failures as nat),
{
    let ghost all = tallies(results@);
    let mut r: Vec<TestResult> = Vec::new();
    for result in it: results
        invariant
            it.seq() == results@,
            all == tallies(results@),
            tallies(r@) == flaky(all.take(it.index()), tolerable_failures as nat),
    {
        let ghost before = tallies(r@);
        proof {
            assert(all.take(it.index() + 1).drop_last() =~= all.take(it.index()));
            assert(all[it.index()] == result@);
        }
        if result.failures > tolerable_failures {
            r.push(result);
            assert(tallies(r@) =~= before.push(all[it.index()]));
        }
    }
    assert(all.take(all.len() as int) =~= all);
    r
}

/// A tally is reported exactly when it is among the results and has more
/// failures than are tolerated; a tally with as many failures as tolerated is
/// left out.
pub proof fn lemma_flaky_members(results: Seq<Tally>, tolerable_failures: nat)
    ensures
        forall|t: Tally| #[trigger]
            flaky(results, tolerable_failures).contains(t) <==> (results.contains(t)
                && t.failures > tolerable_failures),
    decreases results.len(),
{
    if results.len() > 0 {
        let rest = results.drop_last();
        lemma_flaky_members(rest, tolerable_failures);
        assert(results =~= rest.push(results.last()));
        assert forall|t: Tally| results.contains(t) <==> (rest.contains(t) || t
            == results.last()) by {
            if results.contains(t) {
                let k = choose|k: int| 0 <= k < results.len() && results[k] == t;
                if k < rest.len() {
                    assert(rest[k] == t);
                }
            }
            if rest.contains(t) {
                let k = choose|k: int| 0 <= k < rest.len() && rest[k] == t;
                assert(results[k] == t);
            }
            if t == results.last() {
                assert(results[results.len() - 1] == t);
            }
        }
        let f = flaky(rest, tolerable_failures);
        if results.last().failures > tolerable_failures {
            assert forall|t: Tally| f.push(results.last()).contains(t) <==> (f.contains(t) || t
                == results.last()) by {
                if f.push(results.last()).contains(t) {
                    let k = choose|k: int|
                        0 <= k < f.len() + 1 && f.push(results.last())[k] == t;
                    if k < f.len() {
                        assert(f[k] == t);
                    }
                }
                if f.contains(t) {
                    let k = choose|k: int| 0 <= k < f.len() && f[k] == t;
                    assert(f.push(results.last())[k] == t);
                }
                if t == results.last() {
                    assert(f.push(results.last())[f.len() as int] == t);
                }
            }
        }
        assert forall|t: Tally| #[trigger]
            flaky(results, tolerable_failures).contains(t) <==> (results.contains(t)
                && t.failures > tolerable_failures) by {
            assert(results.contains(t) <==> (rest.contains(t) || t == results.last()));
            assert(f.contains(t) <==> (rest.contains(t) && t.failures > tolerable_failures));
            if results.last().failures > tolerable_failures {
                assert(flaky(results, tolerable_failures) == f.push(results.last()));
                assert(f.push(results.last()).contains(t) <==> (f.contains(t) || t
                    == results.last()));
            } else {
                assert(flaky(results, tolerable_failures) == f);
            }
        }
    } else {
        assert forall|t: Tally| #[trigger]
            flaky(results, tolerable_failures).contains(t) <==> (results.contains(t)
                && t.failures > tolerable_failures) by {
            assert(flaky(results, tolerable_failures) =~= Seq::<Tally>::empty());
        }
    }
}

/// The set of reported tallies does not depend on the order in which the
/// results were collected.
pub proof fn lemma_flaky_order_free(a: Seq<Tally>, b: Seq<Tally>, tolerable_failures: nat)
    requires
        a.to_multiset() == b.to_multiset(),
    ensures
        flaky(a, tolerable_failures).to_set() == flaky(b, tolerable_failures).to_set(),
{
    lemma_flaky_members(a, tolerable_failures);
    lemma_flaky_members(b, tolerable_failures);
    a.to_multiset_ensures();
    b.to_multiset_ensures();
    assert forall|t: Tally| a.contains(t) <==> b.contains(t) by {
        assert(a.contains(t) <==> a.to_multiset().count(t) > 0);
        assert(b.contains(t) <==> b.to_multiset().count(t) > 0);
    }
    assert(flaky(a, tolerable_failures).to_set() =~= flaky(b, tolerable_failures).to_set());
}

} // verus!
