//! Qualification against fixture pages: each control page must compare
//! clean and each mutant must be caught, within budget, every time.
//!
//! Driving the browsers is the caller's; what each comparison means, how
//! every mutant is counted, and which thresholds a qualification run fails are here.
use crate::backtest::blackbox::ProcessEvidence;
use crate::backtest::model::Status;
use vstd::prelude::*;

verus! {

/// How one mutant fared over its repeated comparisons.
#[derive(Clone, Copy, Debug, PartialEq, Eq, Structural)]
pub enum MutationOutcome {
    Detected,
    Undetected,
    ExceededBudget,
}

/// Budget is decided before content: a mutant that ran out of time never
/// reached a verdict, so it is over budget whatever its content.
pub open spec fn classified(content_valid: bool, within_budget: bool) -> MutationOutcome {
    if !within_budget {
        MutationOutcome::ExceededBudget
    } else if content_valid {
        MutationOutcome::Detected
    } else {
        MutationOutcome::Undetected
    }
}

impl MutationOutcome {
    pub fn classify(content_valid: bool, within_budget: bool) -> (r: MutationOutcome)
        ensures
            r == classified(content_valid, within_budget),
    {
        if !within_budget {
            MutationOutcome::ExceededBudget
        } else if content_valid {
            MutationOutcome::Detected
        } else {
            MutationOutcome::Undetected
        }
    }
}

/// What a control page must compare to.
#[derive(Clone, Debug)]
pub struct ControlExpectation {
    pub findings: usize,
    pub duplicates: usize,
    pub maximum_duration_ms: u128,
}

/// What a mutant must compare to.
#[derive(Clone, Debug)]
pub struct MutationExpectation {
    pub finding: String,
    pub primary_findings: usize,
    pub unexpected_primary_findings: usize,
    pub duplicates: usize,
    pub maximum_duration_ms: u128,
}

/// One comparison as qualification sees it: its verdict, its findings, how
/// long it took, and whether its rendered report matches the first run's.
#[derive(Clone, Debug)]
pub struct RunObservation {
    pub status: Status,
    pub findings: usize,
    pub duplicates: usize,
    pub first_line: String,
    pub elapsed_ms: u128,
    pub under_five_seconds: bool,
    pub same_text: bool,
    pub same_json: bool,
}

/// A control comparison passes when it finds exactly what is expected,
/// within its budget, with the same report every time.
pub open spec fn control_passes(o: RunObservation, e: ControlExpectation) -> bool {
    &&& o.status == Status::Pass
    &&& o.findings == e.findings
    &&& o.duplicates == e.duplicates
    &&& o.elapsed_ms <= e.maximum_duration_ms
    &&& o.under_five_seconds
    &&& o.same_json
}

pub fn control_valid(o: &RunObservation, e: &ControlExpectation) -> (r: bool)
    ensures
        r == control_passes(*o, *e),
{
    o.status == Status::Pass && o.findings == e.findings && o.duplicates == e.duplicates && o.elapsed_ms
        <= e.maximum_duration_ms && o.under_five_seconds && o.same_json
}

/// What one comparison of a mutant established.
#[derive(Clone, Copy, Debug, PartialEq, Eq, Structural)]
pub struct MutationJudgement {
    /// It failed with exactly the expected finding, and the same report as
    /// the first run.
    pub content_expected: bool,
    /// It finished within the mutant's budget and under five seconds.
    pub within_budget: bool,
    /// It came to a conclusion, being neither inconclusive nor waiting on preparation.
    pub verdict_reached: bool,
}

pub open spec fn judged(o: RunObservation, e: MutationExpectation) -> MutationJudgement {
    MutationJudgement {
        content_expected: o.status == Status::Fail && o.findings == e.primary_findings
            && e.unexpected_primary_findings == 0 && o.duplicates == e.duplicates && o.first_line@
            == e.finding@ && o.same_text && o.same_json,
        within_budget: o.elapsed_ms <= e.maximum_duration_ms && o.under_five_seconds,
        verdict_reached: o.status == Status::Fail || o.status == Status::Pass,
    }
}

pub fn judge(o: &RunObservation, e: &MutationExpectation) -> (r: MutationJudgement)
    ensures
        r == judged(*o, *e),
{
    MutationJudgement {
        content_expected: o.status == Status::Fail && o.findings == e.primary_findings
            && e.unexpected_primary_findings == 0 && o.duplicates == e.duplicates && crate::text::str_eq(
            o.first_line.as_str(),
            e.finding.as_str(),
        ) && o.same_text && o.same_json,
        within_budget: o.elapsed_ms <= e.maximum_duration_ms && o.under_five_seconds,
        verdict_reached: o.status == Status::Fail || o.status == Status::Pass,
    }
}

/// What the comparisons of one mutant have shown so far.
#[derive(Clone, Copy, Debug, PartialEq, Eq, Structural)]
pub struct MutationProgress {
    pub content_valid: bool,
    pub within_budget: bool,
}

impl MutationProgress {
    pub fn new() -> (r: MutationProgress)
        ensures
            r.content_valid && r.within_budget,
    {
        MutationProgress { content_valid: true, within_budget: true }
    }

    /// Takes one comparison into account and says whether it was the
    /// expected one. A comparison that reached a wrong verdict in time
    /// makes the content invalid; any other unexpected one spends the
    /// budget.
    pub fn observe(&mut self, j: MutationJudgement) -> (expected: bool)
        ensures
            expected == (j.content_expected && j.within_budget),
            expected ==> *final(self) == *old(self),
            !expected && j.within_budget && j.verdict_reached ==> final(self).content_valid == false
                && final(self).within_budget == old(self).within_budget,
            !expected && !(j.within_budget && j.verdict_reached) ==> final(self).within_budget == false
                && final(self).content_valid == old(self).content_valid,
    {
        let expected = j.content_expected && j.within_budget;
        if expected {
        } else if j.within_budget && j.verdict_reached {
            self.content_valid = false;
        } else {
            self.within_budget = false;
        }
        expected
    }
}

/// The sum of the counts.
pub open spec fn sum_counts(counts: Seq<usize>) -> int
    decreases counts.len(),
{
    if counts.len() == 0 {
        0
    } else {
        sum_counts(counts.drop_last()) + counts.last()
    }
}

/// How many mutants a qualification runs: the mutants of every case
/// together, or `None` where there are more than a `usize` counts.
pub fn mutation_total(per_case: &Vec<usize>) -> (r: Option<usize>)
    ensures
        match r {
            Some(n) => n == sum_counts(per_case@),
            None => sum_counts(per_case@) > usize::MAX,
        },
{
    let mut total: usize = 0;
    let mut i: usize = 0;
    while i < per_case.len()
        invariant
            i <= per_case@.len(),
            total == sum_counts(per_case@.take(i as int)),
        decreases per_case@.len() - i,
    {
        assert(per_case@.take(i + 1).drop_last() =~= per_case@.take(i as int));
        let count = per_case[i];
        if total > usize::MAX - count {
            proof {
                lemma_sum_grows(per_case@, (i + 1) as int);
            }
            return None;
        }
        total = total + count;
        i += 1;
    }
    assert(per_case@.take(i as int) =~= per_case@);
    Some(total)
}

/// A sum of counts never shrinks as more counts join it.
proof fn lemma_sum_grows(counts: Seq<usize>, k: int)
    requires
        0 <= k <= counts.len(),
    ensures
        sum_counts(counts.take(k)) <= sum_counts(counts),
    decreases counts.len() - k,
{
    if k < counts.len() {
        lemma_sum_grows(counts, k + 1);
        assert(counts.take(k + 1).drop_last() =~= counts.take(k));
    } else {
        assert(counts.take(k) =~= counts);
    }
}

/// The running counts of a qualification.
#[derive(Clone, Debug)]
pub struct Tally {
    pub passed_comparisons: usize,
    pub detected: usize,
    pub undetected: usize,
    pub exceeded_budget: usize,
    pub duplicate_findings: usize,
    pub finished: usize,
    pub total: usize,
}

impl Tally {
    /// Every finished mutant sits in exactly one bucket, and no more
    /// mutants finish than there are.
    pub open spec fn wf(&self) -> bool {
        &&& self.detected + self.undetected + self.exceeded_budget == self.finished
        &&& self.finished <= self.total
    }

    pub fn new(total: usize) -> (r: Tally)
        ensures
            r.wf(),
            r.total == total,
            r.finished == 0 && r.passed_comparisons == 0 && r.duplicate_findings == 0,
    {
        Tally {
            passed_comparisons: 0,
            detected: 0,
            undetected: 0,
            exceeded_budget: 0,
            duplicate_findings: 0,
            finished: 0,
            total,
        }
    }

    /// Counts one comparison that came out as expected.
    pub fn pass(&mut self)
        requires
            old(self).passed_comparisons < usize::MAX,
        ensures
            final(self).passed_comparisons == old(self).passed_comparisons + 1,
            final(self).detected == old(self).detected,
            final(self).undetected == old(self).undetected,
            final(self).exceeded_budget == old(self).exceeded_budget,
            final(self).duplicate_findings == old(self).duplicate_findings,
            final(self).finished == old(self).finished,
            final(self).total == old(self).total,
    {
        self.passed_comparisons = self.passed_comparisons + 1;
    }

    /// Counts duplicate findings a comparison reported.
    pub fn duplicates(&mut self, count: usize)
        requires
            old(self).duplicate_findings + count <= usize::MAX,
        ensures
            final(self).duplicate_findings == old(self).duplicate_findings + count,
            final(self).passed_comparisons == old(self).passed_comparisons,
            final(self).detected == old(self).detected,
            final(self).undetected == old(self).undetected,
            final(self).exceeded_budget == old(self).exceeded_budget,
            final(self).finished == old(self).finished,
            final(self).total == old(self).total,
    {
        self.duplicate_findings = self.duplicate_findings + count;
    }

    /// Settles one mutant into exactly one bucket.
    pub fn finish(&mut self, progress: MutationProgress) -> (outcome: MutationOutcome)
        requires
            old(self).wf(),
            old(self).finished < old(self).total,
        ensures
            final(self).wf(),
            outcome == classified(progress.content_valid, progress.within_budget),
            final(self).finished == old(self).finished + 1,
            final(self).total == old(self).total,
            final(self).detected == old(self).detected + (if outcome == MutationOutcome::Detected { 1int } else { 0 }),
            final(self).undetected == old(self).undetected + (if outcome == MutationOutcome::Undetected { 1int } else { 0 }),
            final(self).exceeded_budget == old(self).exceeded_budget + (if outcome == MutationOutcome::ExceededBudget { 1int } else { 0 }),
            final(self).passed_comparisons == old(self).passed_comparisons,
            final(self).duplicate_findings == old(self).duplicate_findings,
    {
        let outcome = MutationOutcome::classify(progress.content_valid, progress.within_budget);
        match outcome {
            MutationOutcome::Detected => self.detected = self.detected + 1,
            MutationOutcome::Undetected => self.undetected = self.undetected + 1,
            MutationOutcome::ExceededBudget => self.exceeded_budget = self.exceeded_budget + 1,
        }
        self.finished = self.finished + 1;
        outcome
    }
}

/// Every mutant is counted exactly once against a denominator that never
/// shrinks: once all have finished, the three buckets sum to the total, so
/// excluding a budget failure from the score cannot hide it.
pub proof fn every_outcome_is_counted_once(t: Tally)
    requires
        t.wf(),
        t.finished == t.total,
    ensures
        t.detected + t.undetected + t.exceeded_budget == t.total,
{
}

/// The duration at the given percentile of ascending durations:
/// `ceil((n - 1) * percent / 100)` positions in, and zero for no durations.
pub open spec fn percentile_at(values: Seq<u128>, percent: nat) -> u128 {
    if values.len() == 0 {
        0
    } else {
        values[(((values.len() - 1) * percent + 99) / 100) as int]
    }
}

pub fn percentile(values: &Vec<u128>, percent: usize) -> (r: u128)
    requires
        percent <= 100,
        values@.len() * 100 <= usize::MAX,
    ensures
        r == percentile_at(values@, percent as nat),
{
    if values.len() == 0 {
        return 0;
    }
    let n = values.len() - 1;
    assert(n * percent <= n * 100) by (nonlinear_arith)
        requires
            percent <= 100,
    ;
    let index = (n * percent + 99) / 100;
    assert(index <= n) by (nonlinear_arith)
        requires
            index == (n * percent + 99) / 100,
            n * percent <= n * 100,
    ;
    values[index]
}

/// A reason qualification fails, in the order they are reported.
#[derive(Clone, Debug, PartialEq, Eq, Structural)]
pub enum GateFailure {
    SlowP95(u128),
    SlowP99(u128),
    SlowMaximum(u128),
    Duplicates(usize),
    Undetected { undetected: usize, total: usize },
    ExceededBudget { exceeded: usize, total: usize, detected: usize },
    ChildProcessFailed,
}

/// The thresholds over every comparison's duration, ascending, and the counts:
/// the ninety-fifth percentile must stay within four seconds, the
/// ninety-ninth within four and a half, every comparison under five; no
/// duplicate finding, no undetected mutant, none over budget, and the
/// child process, if one ran, must succeed.
pub open spec fn gate_failures(durations: Seq<u128>, t: Tally, child_failed: bool) -> Seq<GateFailure> {
    let p95 = percentile_at(durations, 95);
    let p99 = percentile_at(durations, 99);
    let maximum = if durations.len() == 0 { 0 } else { durations.last() };
    seq![] + when(p95 > 4000, GateFailure::SlowP95(p95)) + when(p99 > 4500, GateFailure::SlowP99(p99)) + when(
        maximum >= 5000,
        GateFailure::SlowMaximum(maximum),
    ) + when(t.duplicate_findings != 0, GateFailure::Duplicates(t.duplicate_findings)) + when(
        t.undetected != 0,
        GateFailure::Undetected { undetected: t.undetected, total: t.total },
    ) + when(
        t.exceeded_budget != 0,
        GateFailure::ExceededBudget { exceeded: t.exceeded_budget, total: t.total, detected: t.detected },
    ) + when(child_failed, GateFailure::ChildProcessFailed)
}

/// A failure when a condition holds.
pub open spec fn when(c: bool, f: GateFailure) -> Seq<GateFailure> {
    if c {
        seq![f]
    } else {
        seq![]
    }
}

fn push_when(r: &mut Vec<GateFailure>, c: bool, f: GateFailure)
    ensures
        final(r)@ == old(r)@ + when(c, f),
{
    if c {
        r.push(f);
    }
    assert(final(r)@ =~= old(r)@ + when(c, f));
}

pub fn gate(durations: &Vec<u128>, t: &Tally, child_failed: bool) -> (r: Vec<GateFailure>)
    requires
        durations@.len() * 100 <= usize::MAX,
    ensures
        r@ == gate_failures(durations@, *t, child_failed),
{
    let p95 = percentile(durations, 95);
    let p99 = percentile(durations, 99);
    let maximum = if durations.len() == 0 { 0 } else { durations[durations.len() - 1] };
    let mut r: Vec<GateFailure> = Vec::new();
    push_when(&mut r, p95 > 4000, GateFailure::SlowP95(p95));
    push_when(&mut r, p99 > 4500, GateFailure::SlowP99(p99));
    push_when(&mut r, maximum >= 5000, GateFailure::SlowMaximum(maximum));
    push_when(&mut r, t.duplicate_findings != 0, GateFailure::Duplicates(t.duplicate_findings));
    push_when(&mut r, t.undetected != 0, GateFailure::Undetected { undetected: t.undetected, total: t.total });
    push_when(
        &mut r,
        t.exceeded_budget != 0,
        GateFailure::ExceededBudget { exceeded: t.exceeded_budget, total: t.total, detected: t.detected },
    );
    push_when(&mut r, child_failed, GateFailure::ChildProcessFailed);
    r
}

/// The outcome of one mutant as the qualification report lists it.
#[derive(Clone, Debug)]
pub struct MutationResult {
    pub id: String,
    pub iterations: usize,
    pub durations_ms: Vec<u128>,
    pub finding: String,
    pub outcome: MutationOutcome,
}

/// The outcome of one fixture case.
#[derive(Clone, Debug)]
pub struct CaseResult {
    pub case: String,
    pub control_durations_ms: Vec<u128>,
    pub mutations: Vec<MutationResult>,
}

/// The qualification report.
#[derive(Clone, Debug)]
pub struct Qualification {
    pub cases: Vec<CaseResult>,
    pub comparisons: usize,
    pub passed_comparisons: usize,
    pub detected_mutations: usize,
    pub undetected_mutations: usize,
    pub exceeded_budget_mutations: usize,
    pub total_mutations: usize,
    pub maximum_ms: u128,
    pub p95_ms: u128,
    pub p99_ms: u128,
    pub duplicate_findings: usize,
    pub process_evidence: Option<ProcessEvidence>,
    pub failures: Vec<String>,
}

} // verus!
