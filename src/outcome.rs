//! Per-test tallies of passed and failed runs, and their combination.
use vstd::prelude::*;

verus! {

/// The tally of one test's runs.
#[derive(Debug, Clone)]
pub struct TestResult {
    pub name: String,
    pub iterations: u16,
    pub successes: u16,
    pub failures: u16,
}

/// The mathematical content of a tally.
pub struct Tally {
    pub name: Seq<char>,
    pub iterations: nat,
    pub successes: nat,
    pub failures: nat,
}

/// Why two tallies could not be combined.
#[derive(Debug, Clone, Copy, PartialEq, Eq, Structural)]
pub enum MergeError {
    /// The tallies belong to different tests.
    MismatchedName,
}

impl View for TestResult {
    type V = Tally;

    open spec fn view(&self) -> Tally {
        Tally {
            name: self.name@,
            iterations: self.iterations as nat,
            successes: self.successes as nat,
            failures: self.failures as nat,
        }
    }
}

impl Tally {
    /// Every run counted is either a pass or a failure, never both.
    pub open spec fn wf(self) -> bool {
        self.successes + self.failures == self.iterations
    }
}

/// A tally with no runs.
pub open spec fn empty_tally(name: Seq<char>) -> Tally {
    Tally { name, iterations: 0, successes: 0, failures: 0 }
}

/// Two tallies of one test, counted together.
pub open spec fn combine(a: Tally, b: Tally) -> Tally {
    Tally {
        name: a.name,
        iterations: a.iterations + b.iterations,
        successes: a.successes + b.successes,
        failures: a.failures + b.failures,
    }
}

/// The number of passed runs among `outcomes`.
pub open spec fn count_passed(outcomes: Seq<bool>) -> nat
    decreases outcomes.len(),
{
    if outcomes.len() == 0 {
        0
    } else {
        count_passed(outcomes.drop_last()) + if outcomes.last() {
            1nat
        } else {
            0nat
        }
    }
}

/// The tally of a test whose runs had the given outcomes (`true` is a pass).
pub open spec fn tally_of(name: Seq<char>, outcomes: Seq<bool>) -> Tally {
    Tally {
        name,
        iterations: outcomes.len(),
        successes: count_passed(outcomes),
        failures: (outcomes.len() - count_passed(outcomes)) as nat,
    }
}

impl TestResult {
    /// A tally of `name` with no runs.
    pub fn new(name: String) -> (r: TestResult)
        ensures
            r@ == empty_tally(name@),
    {
        TestResult { name, iterations: 0, successes: 0, failures: 0 }
    }

    /// Counts one more run, a pass where `passed` holds and a failure otherwise.
    pub fn record(&mut self, passed: bool)
        requires
            old(self).iterations < u16::MAX,
            old(self)@.wf(),
        ensures
            final(self)@ == combine(old(self)@, tally_of(old(self)@.name, seq![passed])),
            final(self)@.wf(),
    {
        proof {
            lemma_count_single(passed);
        }
        self.iterations = self.iterations + 1;
        if passed {
            self.successes = self.successes + 1;
        } else {
            self.failures = self.failures + 1;
        }
    }

    /// Both tallies of one test counted together. Tallies of different tests
    /// are refused.
    pub fn merge(&self, other: &TestResult) -> (r: Result<TestResult, MergeError>)
        requires
            self.iterations + other.iterations <= u16::MAX,
            self.successes + other.successes <= u16::MAX,
            self.failures + other.failures <= u16::MAX,
        ensures
            self.name@ != other.name@ <==> r == Err::<TestResult, MergeError>(
                MergeError::MismatchedName,
            ),
            r matches Ok(m) ==> m@ == combine(self@, other@),
    {
        if self.name != other.name {
            return Err(MergeError::MismatchedName);
        }
        Ok(
            TestResult {
                name: self.name.clone(),
                iterations: self.iterations + other.iterations,
                successes: self.successes + other.successes,
                failures: self.failures + other.failures,
            },
        )
    }
}

proof fn lemma_count_single(passed: bool)
    ensures
        count_passed(seq![passed]) == if passed {
            1nat
        } else {
            0nat
        },
{
    assert(seq![passed].drop_last() =~= Seq::<bool>::empty());
    assert(count_passed(Seq::<bool>::empty()) == 0);
}

/// At most every run passed.
pub proof fn lemma_count_passed_bound(outcomes: Seq<bool>)
    ensures
        count_passed(outcomes) <= outcomes.len(),
    decreases outcomes.len(),
{
    if outcomes.len() > 0 {
        lemma_count_passed_bound(outcomes.drop_last());
    }
}

/// Passes of runs split in two parts add up.
pub proof fn lemma_count_passed_concat(a: Seq<bool>, b: Seq<bool>)
    ensures
        count_passed(a + b) == count_passed(a) + count_passed(b),
    decreases b.len(),
{
    if b.len() > 0 {
        assert((a + b).drop_last() =~= a + b.drop_last());
        lemma_count_passed_concat(a, b.drop_last());
    } else {
        assert(a + b =~= a);
    }
}

/// The tally of any runs counts each run once, as a pass or as a failure.
pub proof fn lemma_tally_wf(name: Seq<char>, outcomes: Seq<bool>)
    ensures
        tally_of(name, outcomes).wf(),
        tally_of(name, outcomes).iterations == outcomes.len(),
{
    lemma_count_passed_bound(outcomes);
}

/// Combining sums each counter.
pub proof fn lemma_combine_sums(a: Tally, b: Tally)
    ensures
        combine(a, b).iterations == a.iterations + b.iterations,
        combine(a, b).successes == a.successes + b.successes,
        combine(a, b).failures == a.failures + b.failures,
        a.wf() && b.wf() ==> combine(a, b).wf(),
{
}

/// Combining tallies of one test does not depend on their order.
pub proof fn lemma_combine_commutative(a: Tally, b: Tally)
    requires
        a.name == b.name,
    ensures
        combine(a, b) == combine(b, a),
{
}

/// Combining tallies does not depend on how they are grouped.
pub proof fn lemma_combine_associative(a: Tally, b: Tally, c: Tally)
    ensures
        combine(combine(a, b), c) == combine(a, combine(b, c)),
{
}

/// The tally with no runs changes nothing when combined, on either side.
pub proof fn lemma_combine_identity(a: Tally)
    ensures
        combine(empty_tally(a.name), a) == a,
        combine(a, empty_tally(a.name)) == a,
{
}

/// Splitting a test's runs between two workers and combining their tallies
/// gives the tally of all the runs.
pub proof fn lemma_tally_split(name: Seq<char>, a: Seq<bool>, b: Seq<bool>)
    ensures
        combine(tally_of(name, a), tally_of(name, b)) == tally_of(name, a + b),
{
    lemma_count_passed_concat(a, b);
    lemma_count_passed_bound(a);
    lemma_count_passed_bound(b);
}

/// The tallies of the shards of a test's runs, combined in order.
pub open spec fn combine_shards(name: Seq<char>, shards: Seq<Seq<bool>>) -> Tally
    decreases shards.len(),
{
    if shards.len() == 0 {
        empty_tally(name)
    } else {
        combine(tally_of(name, shards[0]), combine_shards(name, shards.drop_first()))
    }
}

/// However a test's runs are split among workers, combining the workers'
/// tallies gives the tally of all the runs: the same counts, with passes and
/// failures adding up to the number of runs.
pub proof fn lemma_tally_shards(name: Seq<char>, shards: Seq<Seq<bool>>)
    ensures
        combine_shards(name, shards) == tally_of(name, shards.flatten()),
        combine_shards(name, shards).wf(),
        combine_shards(name, shards).iterations == shards.flatten().len(),
    decreases shards.len(),
{
    if shards.len() == 0 {
        assert(count_passed(Seq::<bool>::empty()) == 0);
    } else {
        lemma_tally_shards(name, shards.drop_first());
        lemma_tally_split(name, shards[0], shards.drop_first().flatten());
    }
    lemma_tally_wf(name, shards.flatten());
}

/// The tally of the given outcomes, as one worker would count them run by run.
pub fn tally(name: String, outcomes: &Vec<bool>) -> (r: TestResult)
    requires
        outcomes.len() <= u16::MAX,
    ensures
        r@ == tally_of(name@, outcomes@),
        r@.wf(),
{
    let mut r = TestResult::new(name);
    let ghost name_v = r.name@;
    for k in 0..outcomes.len()
        invariant
            outcomes.len() <= u16::MAX,
            r@ == tally_of(name_v, outcomes@.take(k as int)),
            r@.wf(),
    {
        proof {
            lemma_tally_split(name_v, outcomes@.take(k as int), seq![outcomes@[k as int]]);
            assert(outcomes@.take(k as int) + seq![outcomes@[k as int]] =~= outcomes@.take(
                k + 1,
            ));
        }
        r.record(outcomes[k]);
    }
    assert(outcomes@.take(outcomes.len() as int) =~= outcomes@);
    r
}

} // verus!
