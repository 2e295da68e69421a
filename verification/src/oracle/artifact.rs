//! A sealed oracle recording and the checks it must pass before it is
//! trusted: its digest, its format, its coverage of widths, scenarios and
//! domains, and the qualification of its obligations.
//!
//! Values are carried in serialized form: a domain holds the bytes its
//! digest was taken over, and sealing or verifying a whole artifact takes
//! the artifact's serialized form with an empty payload digest.
use vstd::prelude::*;
use crate::digest::{hex_of, sha256};
use crate::json::Json;
use crate::oracle::model::{Coverage, Environment, Obligation, ObligationStatus, Scenario, Step, Viewport};
use crate::order::views;
use crate::backtest::authored::joined_by;

verus! {

/// One observed domain of a checkpoint: its value, the value's serialized
/// form, and the digest recorded for it, taken over that form.
#[derive(Clone, Debug)]
pub struct Domain {
    pub digest: String,
    pub value: Json,
    pub encoded: Vec<u8>,
}

/// What was observed after one step of a scenario, domain by domain.
#[derive(Clone, Debug)]
pub struct Checkpoint {
    pub scenario: String,
    pub step: usize,
    pub viewport: Viewport,
    pub domains: Vec<(String, Domain)>,
}

/// A sealed recording of a page.
#[derive(Clone, Debug)]
pub struct Artifact {
    pub format: String,
    pub source: String,
    pub environment: Environment,
    pub scenarios: Vec<Scenario>,
    pub obligations: Vec<Obligation>,
    pub checkpoints: Vec<Checkpoint>,
    pub coverage: Coverage,
    pub payload_digest: String,
}

/// The format every artifact declares.
pub open spec fn artifact_format() -> Seq<char> {
    "recreate-oracle/v1"@
}

/// The domains every checkpoint records, in the order they are checked.
pub open spec fn domain_names() -> Seq<Seq<char>> {
    seq![
        "interaction"@,
        "async"@,
        "structure"@,
        "accessibility"@,
        "motion"@,
        "geometry"@,
        "style"@,
    ]
}

/// The domain names, in order.
pub fn domains() -> (r: Vec<&'static str>)
    ensures
        r@.len() == 7,
        forall|i: int| 0 <= i < 7 ==> r@[i]@ == #[trigger] domain_names()[i],
{
    let r = vec!["interaction", "async", "structure", "accessibility", "motion", "geometry", "style"];
    r
}

/// Why an artifact was refused.
#[derive(Clone, Debug)]
pub enum VerifyError {
    DigestMismatch,
    UnsupportedFormat,
    EmptySource,
    WidthCoverageIncomplete,
    ResponsiveCountMismatch,
    DomainContractIncomplete,
    DuplicateScenarioIds,
    ScenarioCoverageMismatch(String),
    UnqualifiedObligation(String),
    UnknownScenario(String),
    MissingDomain(String),
    DomainDigestMismatch(String),
    CoverageIncomplete(Vec<String>),
}

/// The abstract value of a refusal.
pub enum VerifyFault {
    DigestMismatch,
    UnsupportedFormat,
    EmptySource,
    WidthCoverageIncomplete,
    ResponsiveCountMismatch,
    DomainContractIncomplete,
    DuplicateScenarioIds,
    ScenarioCoverageMismatch(Seq<char>),
    UnqualifiedObligation(Seq<char>),
    UnknownScenario(Seq<char>),
    MissingDomain(Seq<char>),
    DomainDigestMismatch(Seq<char>),
    CoverageIncomplete(Seq<Seq<char>>),
}

impl View for VerifyError {
    type V = VerifyFault;

    open spec fn view(&self) -> VerifyFault {
        match self {
            VerifyError::DigestMismatch => VerifyFault::DigestMismatch,
            VerifyError::UnsupportedFormat => VerifyFault::UnsupportedFormat,
            VerifyError::EmptySource => VerifyFault::EmptySource,
            VerifyError::WidthCoverageIncomplete => VerifyFault::WidthCoverageIncomplete,
            VerifyError::ResponsiveCountMismatch => VerifyFault::ResponsiveCountMismatch,
            VerifyError::DomainContractIncomplete => VerifyFault::DomainContractIncomplete,
            VerifyError::DuplicateScenarioIds => VerifyFault::DuplicateScenarioIds,
            VerifyError::ScenarioCoverageMismatch(id) => VerifyFault::ScenarioCoverageMismatch(id@),
            VerifyError::UnqualifiedObligation(id) => VerifyFault::UnqualifiedObligation(id@),
            VerifyError::UnknownScenario(id) => VerifyFault::UnknownScenario(id@),
            VerifyError::MissingDomain(name) => VerifyFault::MissingDomain(name@),
            VerifyError::DomainDigestMismatch(name) => VerifyFault::DomainDigestMismatch(name@),
            VerifyError::CoverageIncomplete(items) => VerifyFault::CoverageIncomplete(views(items@)),
        }
    }
}

/// What a reader is told about a refused artifact.
pub open spec fn fault_message(f: VerifyFault) -> Seq<char> {
    match f {
        VerifyFault::DigestMismatch => "artifact digest mismatch"@,
        VerifyFault::UnsupportedFormat => "unsupported artifact format"@,
        VerifyFault::EmptySource => "artifact source is empty"@,
        VerifyFault::WidthCoverageIncomplete => "responsive width coverage is incomplete"@,
        VerifyFault::ResponsiveCountMismatch => "responsive checkpoint count does not match coverage"@,
        VerifyFault::DomainContractIncomplete => "artifact domain contract is incomplete"@,
        VerifyFault::DuplicateScenarioIds => "scenario ids are not unique"@,
        VerifyFault::ScenarioCoverageMismatch(id) => "scenario checkpoint coverage mismatch: "@ + id,
        VerifyFault::UnqualifiedObligation(id) => "unqualified obligation: "@ + id,
        VerifyFault::UnknownScenario(id) => "obligation references an unknown scenario: "@ + id,
        VerifyFault::MissingDomain(name) => "checkpoint missing domain "@ + name,
        VerifyFault::DomainDigestMismatch(name) => "checkpoint domain digest mismatch: "@ + name,
        VerifyFault::CoverageIncomplete(items) => "artifact coverage is incomplete: "@ + joined_by(items, ", "@),
    }
}

fn prefixed(prefix: &str, rest: &str) -> (r: String)
    ensures
        r@ == prefix@ + rest@,
{
    let mut r = String::new();
    crate::text::push_str(&mut r, prefix);
    crate::text::push_str(&mut r, rest);
    assert(r@ =~= prefix@ + rest@);
    r
}

impl VerifyError {
    /// The message a reader is shown.
    pub fn message(&self) -> (r: String)
        ensures
            r@ == fault_message(self@),
    {
        match self {
            VerifyError::DigestMismatch => String::from_str("artifact digest mismatch"),
            VerifyError::UnsupportedFormat => String::from_str("unsupported artifact format"),
            VerifyError::EmptySource => String::from_str("artifact source is empty"),
            VerifyError::WidthCoverageIncomplete => String::from_str("responsive width coverage is incomplete"),
            VerifyError::ResponsiveCountMismatch => String::from_str("responsive checkpoint count does not match coverage"),
            VerifyError::DomainContractIncomplete => String::from_str("artifact domain contract is incomplete"),
            VerifyError::DuplicateScenarioIds => String::from_str("scenario ids are not unique"),
            VerifyError::ScenarioCoverageMismatch(id) => prefixed("scenario checkpoint coverage mismatch: ", id.as_str()),
            VerifyError::UnqualifiedObligation(id) => prefixed("unqualified obligation: ", id.as_str()),
            VerifyError::UnknownScenario(id) => prefixed("obligation references an unknown scenario: ", id.as_str()),
            VerifyError::MissingDomain(name) => prefixed("checkpoint missing domain ", name.as_str()),
            VerifyError::DomainDigestMismatch(name) => prefixed("checkpoint domain digest mismatch: ", name.as_str()),
            VerifyError::CoverageIncomplete(items) => {
                let joined = crate::backtest::report::join_with(items, ", ");
                prefixed("artifact coverage is incomplete: ", joined.as_str())
            },
        }
    }
}

/// A checkpoint taken while sweeping widths.
pub open spec fn is_responsive(c: Checkpoint) -> bool {
    crate::text::is_prefix("responsive-"@, c.scenario@)
}

/// How many checkpoints were taken while sweeping widths.
pub open spec fn responsive_count(cs: Seq<Checkpoint>) -> nat
    decreases cs.len(),
{
    if cs.len() == 0 {
        0
    } else {
        responsive_count(cs.drop_last()) + if is_responsive(cs.last()) { 1nat } else { 0nat }
    }
}

/// How many checkpoints a step leaves: one per width of a resize path,
/// none for a reset or a hover, one for anything else.
pub open spec fn step_weight(s: Step) -> nat {
    match s {
        Step::ResizePath { widths, .. } => widths@.len(),
        Step::Reset => 0,
        Step::Hover { .. } => 0,
        _ => 1,
    }
}

/// How many checkpoints a scenario's steps leave.
pub open spec fn expected_checkpoints(steps: Seq<Step>) -> nat
    decreases steps.len(),
{
    if steps.len() == 0 {
        0
    } else {
        expected_checkpoints(steps.drop_last()) + step_weight(steps.last())
    }
}

/// How many checkpoints were taken in the scenario `id`.
pub open spec fn checkpoints_of(cs: Seq<Checkpoint>, id: Seq<char>) -> nat
    decreases cs.len(),
{
    if cs.len() == 0 {
        0
    } else {
        checkpoints_of(cs.drop_last(), id) + if cs.last().scenario@ == id { 1nat } else { 0nat }
    }
}

/// No two scenarios share an id.
pub open spec fn distinct_ids(s: Seq<Scenario>) -> bool {
    forall|i: int, j: int| 0 <= i < j < s.len() ==> s[i].id@ != s[j].id@
}

/// Some scenario has the id.
pub open spec fn known_scenario(s: Seq<Scenario>, id: Seq<char>) -> bool {
    exists|j: int| 0 <= j < s.len() && s[j].id@ == id
}

/// A scenario left a different number of checkpoints than its steps call
/// for.
pub open spec fn scenario_mismatch(a: Artifact, s: Scenario) -> bool {
    expected_checkpoints(s.steps@) != checkpoints_of(a.checkpoints@, s.id@)
}

/// The id of the first of the first `n` scenarios that left the wrong
/// number of checkpoints.
pub open spec fn first_scenario_mismatch(a: Artifact, n: int) -> Option<Seq<char>>
    decreases n,
{
    if n <= 0 {
        None
    } else {
        match first_scenario_mismatch(a, n - 1) {
            Some(id) => Some(id),
            None => if scenario_mismatch(a, a.scenarios@[n - 1]) {
                Some(a.scenarios@[n - 1].id@)
            } else {
                None
            },
        }
    }
}

/// A status that counts as met.
pub open spec fn is_met(st: ObligationStatus) -> bool {
    st == ObligationStatus::Qualified || st == ObligationStatus::UnreachableProven
}

/// What is wrong with one obligation: unmet (unless incomplete recordings
/// are allowed), or naming a scenario the artifact does not hold.
pub open spec fn obligation_fault(a: Artifact, o: Obligation, allow_incomplete: bool) -> Option<VerifyFault> {
    if !allow_incomplete && !is_met(o.status) {
        Some(VerifyFault::UnqualifiedObligation(o.id@))
    } else if exists|k: int|
        0 <= k < o.scenarios@.len() && !known_scenario(a.scenarios@, #[trigger] o.scenarios@[k]@) {
        Some(VerifyFault::UnknownScenario(o.id@))
    } else {
        None
    }
}

/// The fault of the first faulty obligation among the first `n`.
pub open spec fn first_obligation_fault(a: Artifact, allow_incomplete: bool, n: int) -> Option<VerifyFault>
    decreases n,
{
    if n <= 0 {
        None
    } else {
        match first_obligation_fault(a, allow_incomplete, n - 1) {
            Some(f) => Some(f),
            None => obligation_fault(a, a.obligations@[n - 1], allow_incomplete),
        }
    }
}

/// The first of the first `n` entries of a checkpoint's domains that bears
/// the name.
pub open spec fn domain_index(ds: Seq<(String, Domain)>, name: Seq<char>, n: int) -> Option<int>
    decreases n,
{
    if n <= 0 {
        None
    } else {
        match domain_index(ds, name, n - 1) {
            Some(i) => Some(i),
            None => if ds[n - 1].0@ == name { Some(n - 1) } else { None },
        }
    }
}

/// What is wrong with one named domain of a checkpoint: it is missing, or
/// its recorded digest is not the digest of its value.
pub open spec fn domain_fault(c: Checkpoint, name: Seq<char>) -> Option<VerifyFault> {
    match domain_index(c.domains@, name, c.domains@.len() as int) {
        None => Some(VerifyFault::MissingDomain(name)),
        Some(i) => if c.domains@[i].1.digest@ != hex_of(sha256(c.domains@[i].1.encoded@)) {
            Some(VerifyFault::DomainDigestMismatch(name))
        } else {
            None
        },
    }
}

/// The fault of the first faulty domain among the first `k` names.
pub open spec fn checkpoint_fault(c: Checkpoint, k: int) -> Option<VerifyFault>
    decreases k,
{
    if k <= 0 {
        None
    } else {
        match checkpoint_fault(c, k - 1) {
            Some(f) => Some(f),
            None => domain_fault(c, domain_names()[k - 1]),
        }
    }
}

/// The fault of the first faulty checkpoint among the first `n`.
pub open spec fn first_checkpoint_fault(cs: Seq<Checkpoint>, n: int) -> Option<VerifyFault>
    decreases n,
{
    if n <= 0 {
        None
    } else {
        match first_checkpoint_fault(cs, n - 1) {
            Some(f) => Some(f),
            None => checkpoint_fault(cs[n - 1], 7),
        }
    }
}

/// Why an artifact is refused, checked in this order, or `None` when it is
/// sound. `payload` is the artifact's serialized form with an empty
/// payload digest.
pub open spec fn artifact_fault(a: Artifact, payload: Seq<u8>, allow_incomplete: bool) -> Option<VerifyFault> {
    if hex_of(sha256(payload)) != a.payload_digest@ {
        Some(VerifyFault::DigestMismatch)
    } else if a.format@ != artifact_format() {
        Some(VerifyFault::UnsupportedFormat)
    } else if a.source@.len() == 0 {
        Some(VerifyFault::EmptySource)
    } else if a.coverage.widths_required != a.coverage.widths_observed {
        Some(VerifyFault::WidthCoverageIncomplete)
    } else if responsive_count(a.checkpoints@) != a.coverage.widths_observed {
        Some(VerifyFault::ResponsiveCountMismatch)
    } else if views(a.coverage.domains_required@) != domain_names() {
        Some(VerifyFault::DomainContractIncomplete)
    } else if !distinct_ids(a.scenarios@) {
        Some(VerifyFault::DuplicateScenarioIds)
    } else if first_scenario_mismatch(a, a.scenarios@.len() as int) is Some {
        Some(VerifyFault::ScenarioCoverageMismatch(first_scenario_mismatch(a, a.scenarios@.len() as int)->0))
    } else if first_obligation_fault(a, allow_incomplete, a.obligations@.len() as int) is Some {
        first_obligation_fault(a, allow_incomplete, a.obligations@.len() as int)
    } else if first_checkpoint_fault(a.checkpoints@, a.checkpoints@.len() as int) is Some {
        first_checkpoint_fault(a.checkpoints@, a.checkpoints@.len() as int)
    } else if !allow_incomplete && a.coverage.incomplete@.len() > 0 {
        Some(VerifyFault::CoverageIncomplete(views(a.coverage.incomplete@)))
    } else {
        None
    }
}

/// The abstract value of an optional refusal.
pub open spec fn fault_of(e: Option<VerifyError>) -> Option<VerifyFault> {
    match e {
        Some(e) => Some(e@),
        None => None,
    }
}

/// How many checkpoints were taken while sweeping widths.
fn count_responsive(cs: &Vec<Checkpoint>) -> (r: usize)
    ensures
        r == responsive_count(cs@),
{
    let mut r: usize = 0;
    let mut i: usize = 0;
    while i < cs.len()
        invariant
            i <= cs@.len(),
            r <= i,
            r == responsive_count(cs@.take(i as int)),
        decreases cs@.len() - i,
    {
        assert(cs@.take(i + 1 as int).drop_last() =~= cs@.take(i as int));
        if crate::text::starts_with(cs[i].scenario.as_str(), "responsive-") {
            r += 1;
        }
        i += 1;
    }
    assert(cs@.take(i as int) =~= cs@);
    r
}

/// How many checkpoints were taken in the scenario `id`.
fn count_checkpoints(cs: &Vec<Checkpoint>, id: &str) -> (r: usize)
    ensures
        r == checkpoints_of(cs@, id@),
{
    let mut r: usize = 0;
    let mut i: usize = 0;
    while i < cs.len()
        invariant
            i <= cs@.len(),
            r <= i,
            r == checkpoints_of(cs@.take(i as int), id@),
        decreases cs@.len() - i,
    {
        assert(cs@.take(i + 1 as int).drop_last() =~= cs@.take(i as int));
        if crate::text::str_eq(cs[i].scenario.as_str(), id) {
            r += 1;
        }
        i += 1;
    }
    assert(cs@.take(i as int) =~= cs@);
    r
}

/// How many checkpoints a list of steps calls for.
fn count_expected(steps: &Vec<Step>) -> (r: u128)
    ensures
        r == expected_checkpoints(steps@),
{
    let mut r: u128 = 0;
    let mut i: usize = 0;
    while i < steps.len()
        invariant
            i <= steps@.len(),
            r == expected_checkpoints(steps@.take(i as int)),
            r <= i * (usize::MAX as int),
        decreases steps@.len() - i,
    {
        assert(steps@.take(i + 1 as int).drop_last() =~= steps@.take(i as int));
        let w: usize = match &steps[i] {
            Step::ResizePath { widths, .. } => widths.len(),
            Step::Reset => 0,
            Step::Hover { .. } => 0,
            _ => 1,
        };
        assert(w == step_weight(steps@[i as int]));
        let ghost before: int = r as int;
        assert(before + w <= (i + 1) * (usize::MAX as int)) by (nonlinear_arith)
            requires
                before <= i * (usize::MAX as int),
                w <= usize::MAX,
        ;
        assert((i + 1) * (usize::MAX as int) <= usize::MAX as int * usize::MAX as int) by (nonlinear_arith)
            requires
                i < usize::MAX,
        ;
        assert(usize::MAX as int * usize::MAX as int <= u128::MAX) by (nonlinear_arith)
            requires
                usize::MAX <= u64::MAX,
        ;
        r = r + w as u128;
        i += 1;
    }
    assert(steps@.take(i as int) =~= steps@);
    r
}

/// Whether some scenario among the first `upto` has the id.
pub(crate) fn scenario_among(scenarios: &Vec<Scenario>, upto: usize, id: &str) -> (r: bool)
    requires
        upto <= scenarios@.len(),
    ensures
        r == exists|j: int| 0 <= j < upto && scenarios@[j].id@ == id@,
{
    let mut j: usize = 0;
    while j < upto
        invariant
            upto <= scenarios@.len(),
            j <= upto,
            forall|k: int| 0 <= k < j ==> scenarios@[k].id@ != id@,
        decreases upto - j,
    {
        if crate::text::str_eq(scenarios[j].id.as_str(), id) {
            return true;
        }
        j += 1;
    }
    false
}

/// Whether no two scenarios share an id.
fn ids_distinct(scenarios: &Vec<Scenario>) -> (r: bool)
    ensures
        r == distinct_ids(scenarios@),
{
    let mut i: usize = 0;
    while i < scenarios.len()
        invariant
            i <= scenarios@.len(),
            distinct_ids(scenarios@.take(i as int)),
        decreases scenarios@.len() - i,
    {
        if scenario_among(scenarios, i, scenarios[i].id.as_str()) {
            let ghost j = choose|j: int| 0 <= j < i && scenarios@[j].id@ == scenarios@[i as int].id@;
            assert(scenarios@[j].id@ == scenarios@[i as int].id@);
            return false;
        }
        assert forall|a: int, b: int| 0 <= a < b < i + 1 implies
            #[trigger] scenarios@.take(i + 1 as int)[a].id@ != #[trigger] scenarios@.take(i + 1 as int)[b].id@ by {
            if b < i {
                assert(scenarios@.take(i as int)[a] == scenarios@[a]);
                assert(scenarios@.take(i as int)[b] == scenarios@[b]);
            }
        }
        i += 1;
    }
    assert(scenarios@.take(i as int) =~= scenarios@);
    true
}

/// The first entry of a checkpoint's domains that bears the name.
pub(crate) fn find_domain(ds: &Vec<(String, Domain)>, name: &str) -> (r: Option<usize>)
    ensures
        match r {
            Some(i) => i < ds@.len() && domain_index(ds@, name@, ds@.len() as int) == Some(i as int),
            None => domain_index(ds@, name@, ds@.len() as int) is None,
        },
{
    let mut i: usize = 0;
    while i < ds.len()
        invariant
            i <= ds@.len(),
            domain_index(ds@, name@, i as int) is None,
        decreases ds@.len() - i,
    {
        if crate::text::str_eq(ds[i].0.as_str(), name) {
            proof {
                lemma_domain_index_stays(ds@, name@, i + 1, ds@.len() as int);
            }
            return Some(i);
        }
        i += 1;
    }
    None
}

/// Once found, the first match stays first however far the search goes.
proof fn lemma_domain_index_stays(ds: Seq<(String, Domain)>, name: Seq<char>, n: int, m: int)
    requires
        0 <= n <= m,
        domain_index(ds, name, n) is Some,
    ensures
        domain_index(ds, name, m) == domain_index(ds, name, n),
    decreases m - n,
{
    if m > n {
        lemma_domain_index_stays(ds, name, n, m - 1);
    }
}

/// Checks one named domain of a checkpoint.
fn check_domain(c: &Checkpoint, name: &str) -> (r: Option<VerifyError>)
    ensures
        fault_of(r) == domain_fault(*c, name@),
{
    match find_domain(&c.domains, name) {
        None => Some(VerifyError::MissingDomain(String::from_str(name))),
        Some(i) => {
            let expected = crate::digest::bytes(c.domains[i].1.encoded.as_slice());
            if crate::text::str_eq(c.domains[i].1.digest.as_str(), expected.as_str()) {
                None
            } else {
                Some(VerifyError::DomainDigestMismatch(String::from_str(name)))
            }
        },
    }
}

/// Checks every domain of a checkpoint, in the order of the domain names.
fn check_checkpoint(c: &Checkpoint) -> (r: Option<VerifyError>)
    ensures
        fault_of(r) == checkpoint_fault(*c, 7),
{
    let names = domains();
    let mut k: usize = 0;
    while k < names.len()
        invariant
            names@.len() == 7,
            forall|i: int| 0 <= i < 7 ==> names@[i]@ == #[trigger] domain_names()[i],
            k <= 7,
            checkpoint_fault(*c, k as int) is None,
        decreases 7 - k,
    {
        let found = check_domain(c, names[k]);
        if found.is_some() {
            proof {
                lemma_checkpoint_fault_stays(*c, k + 1, 7);
            }
            return found;
        }
        k += 1;
    }
    None
}

/// Once a domain faults, it stays the first fault however many names follow.
proof fn lemma_checkpoint_fault_stays(c: Checkpoint, n: int, m: int)
    requires
        0 <= n <= m,
        checkpoint_fault(c, n) is Some,
    ensures
        checkpoint_fault(c, m) == checkpoint_fault(c, n),
    decreases m - n,
{
    if m > n {
        lemma_checkpoint_fault_stays(c, n, m - 1);
    }
}

/// Whether the required domains are exactly the domain names, in order.
fn domains_complete(required: &Vec<String>) -> (r: bool)
    ensures
        r == (views(required@) == domain_names()),
{
    let names = domains();
    if required.len() != 7 {
        assert(views(required@).len() != domain_names().len());
        return false;
    }
    let mut k: usize = 0;
    while k < 7
        invariant
            names@.len() == 7,
            required@.len() == 7,
            forall|i: int| 0 <= i < 7 ==> names@[i]@ == #[trigger] domain_names()[i],
            k <= 7,
            forall|i: int| 0 <= i < k ==> required@[i]@ == #[trigger] domain_names()[i],
        decreases 7 - k,
    {
        if !crate::text::str_eq(required[k].as_str(), names[k]) {
            assert(views(required@)[k as int] != domain_names()[k as int]);
            return false;
        }
        k += 1;
    }
    assert(views(required@) =~= domain_names());
    true
}

/// Checks one obligation.
fn check_obligation(a: &Artifact, o: &Obligation, allow_incomplete: bool) -> (r: Option<VerifyError>)
    ensures
        fault_of(r) == obligation_fault(*a, *o, allow_incomplete),
{
    let met = match o.status {
        ObligationStatus::Qualified => true,
        ObligationStatus::UnreachableProven => true,
        _ => false,
    };
    if !allow_incomplete && !met {
        return Some(VerifyError::UnqualifiedObligation(o.id.clone()));
    }
    let mut k: usize = 0;
    while k < o.scenarios.len()
        invariant
            allow_incomplete || is_met(o.status),
            k <= o.scenarios@.len(),
            forall|j: int| 0 <= j < k ==> known_scenario(a.scenarios@, #[trigger] o.scenarios@[j]@),
        decreases o.scenarios@.len() - k,
    {
        if !scenario_among(&a.scenarios, a.scenarios.len(), o.scenarios[k].as_str()) {
            assert(!known_scenario(a.scenarios@, o.scenarios@[k as int]@));
            assert(exists|j: int|
                0 <= j < o.scenarios@.len() && !known_scenario(a.scenarios@, #[trigger] o.scenarios@[j]@));
            return Some(VerifyError::UnknownScenario(o.id.clone()));
        }
        k += 1;
    }
    None
}

/// The first scenario that left the wrong number of checkpoints.
fn first_scenario_error(a: &Artifact) -> (r: Option<VerifyError>)
    ensures
        fault_of(r) == match first_scenario_mismatch(*a, a.scenarios@.len() as int) {
            Some(id) => Some(VerifyFault::ScenarioCoverageMismatch(id)),
            None => None,
        },
{
    let mut i: usize = 0;
    while i < a.scenarios.len()
        invariant
            i <= a.scenarios@.len(),
            first_scenario_mismatch(*a, i as int) is None,
        decreases a.scenarios@.len() - i,
    {
        let expected = count_expected(&a.scenarios[i].steps);
        let actual = count_checkpoints(&a.checkpoints, a.scenarios[i].id.as_str());
        if expected != actual as u128 {
            proof {
                lemma_scenario_mismatch_stays(*a, i + 1, a.scenarios@.len() as int);
            }
            return Some(VerifyError::ScenarioCoverageMismatch(a.scenarios[i].id.clone()));
        }
        i += 1;
    }
    None
}

proof fn lemma_scenario_mismatch_stays(a: Artifact, n: int, m: int)
    requires
        0 <= n <= m,
        first_scenario_mismatch(a, n) is Some,
    ensures
        first_scenario_mismatch(a, m) == first_scenario_mismatch(a, n),
    decreases m - n,
{
    if m > n {
        lemma_scenario_mismatch_stays(a, n, m - 1);
    }
}

/// The fault of the first faulty obligation.
fn first_obligation_error(a: &Artifact, allow_incomplete: bool) -> (r: Option<VerifyError>)
    ensures
        fault_of(r) == first_obligation_fault(*a, allow_incomplete, a.obligations@.len() as int),
{
    let mut i: usize = 0;
    while i < a.obligations.len()
        invariant
            i <= a.obligations@.len(),
            first_obligation_fault(*a, allow_incomplete, i as int) is None,
        decreases a.obligations@.len() - i,
    {
        let found = check_obligation(a, &a.obligations[i], allow_incomplete);
        if found.is_some() {
            proof {
                lemma_obligation_fault_stays(*a, allow_incomplete, i + 1, a.obligations@.len() as int);
            }
            return found;
        }
        i += 1;
    }
    None
}

proof fn lemma_obligation_fault_stays(a: Artifact, allow_incomplete: bool, n: int, m: int)
    requires
        0 <= n <= m,
        first_obligation_fault(a, allow_incomplete, n) is Some,
    ensures
        first_obligation_fault(a, allow_incomplete, m) == first_obligation_fault(a, allow_incomplete, n),
    decreases m - n,
{
    if m > n {
        lemma_obligation_fault_stays(a, allow_incomplete, n, m - 1);
    }
}

/// The fault of the first faulty checkpoint.
fn first_checkpoint_error(cs: &Vec<Checkpoint>) -> (r: Option<VerifyError>)
    ensures
        fault_of(r) == first_checkpoint_fault(cs@, cs@.len() as int),
{
    let mut i: usize = 0;
    while i < cs.len()
        invariant
            i <= cs@.len(),
            first_checkpoint_fault(cs@, i as int) is None,
        decreases cs@.len() - i,
    {
        let found = check_checkpoint(&cs[i]);
        if found.is_some() {
            proof {
                lemma_checkpoint_faults_stay(cs@, i + 1, cs@.len() as int);
            }
            return found;
        }
        i += 1;
    }
    None
}

proof fn lemma_checkpoint_faults_stay(cs: Seq<Checkpoint>, n: int, m: int)
    requires
        0 <= n <= m,
        first_checkpoint_fault(cs, n) is Some,
    ensures
        first_checkpoint_fault(cs, m) == first_checkpoint_fault(cs, n),
    decreases m - n,
{
    if m > n {
        lemma_checkpoint_faults_stay(cs, n, m - 1);
    }
}

/// Records the digest of the artifact's serialized form, taken with an
/// empty payload digest.
pub fn seal(artifact: Artifact, payload: &[u8]) -> (r: Artifact)
    ensures
        r.payload_digest@ == hex_of(sha256(payload@)),
        r.payload_digest@.len() == 64,
        r.format == artifact.format,
        r.source == artifact.source,
        r.environment == artifact.environment,
        r.scenarios == artifact.scenarios,
        r.obligations == artifact.obligations,
        r.checkpoints == artifact.checkpoints,
        r.coverage == artifact.coverage,
{
    let mut a = artifact;
    a.payload_digest = crate::digest::bytes(payload);
    a
}

/// Checks an artifact before it is trusted, refusing it for the first
/// fault in the order of `artifact_fault`. With `allow_incomplete`, unmet
/// obligations and incomplete coverage are let through, for diagnosis.
/// `payload` is the artifact's serialized form with an empty payload
/// digest.
pub fn verify_with(artifact: &Artifact, payload: &[u8], allow_incomplete: bool) -> (r: Result<(), VerifyError>)
    ensures
        match artifact_fault(*artifact, payload@, allow_incomplete) {
            Some(f) => r is Err && r->Err_0@ == f,
            None => r is Ok,
        },
{
    let a = artifact;
    let expected = crate::digest::bytes(payload);
    if !crate::text::str_eq(expected.as_str(), a.payload_digest.as_str()) {
        return Err(VerifyError::DigestMismatch);
    }
    if !crate::text::str_eq(a.format.as_str(), "recreate-oracle/v1") {
        return Err(VerifyError::UnsupportedFormat);
    }
    if a.source.as_str().unicode_len() == 0 {
        return Err(VerifyError::EmptySource);
    }
    if a.coverage.widths_required != a.coverage.widths_observed {
        return Err(VerifyError::WidthCoverageIncomplete);
    }
    if count_responsive(&a.checkpoints) != a.coverage.widths_observed {
        return Err(VerifyError::ResponsiveCountMismatch);
    }
    if !domains_complete(&a.coverage.domains_required) {
        return Err(VerifyError::DomainContractIncomplete);
    }
    if !ids_distinct(&a.scenarios) {
        return Err(VerifyError::DuplicateScenarioIds);
    }
    match first_scenario_error(a) {
        Some(e) => {
            return Err(e);
        },
        None => {},
    }
    match first_obligation_error(a, allow_incomplete) {
        Some(e) => {
            return Err(e);
        },
        None => {},
    }
    match first_checkpoint_error(&a.checkpoints) {
        Some(e) => {
            return Err(e);
        },
        None => {},
    }
    if !allow_incomplete && a.coverage.incomplete.len() > 0 {
        return Err(VerifyError::CoverageIncomplete(a.coverage.incomplete.clone()));
    }
    Ok(())
}

/// Checks a complete artifact: `verify_with` that lets nothing incomplete
/// through.
pub fn verify(artifact: &Artifact, payload: &[u8]) -> (r: Result<(), VerifyError>)
    ensures
        match artifact_fault(*artifact, payload@, false) {
            Some(f) => r is Err && r->Err_0@ == f,
            None => r is Ok,
        },
{
    verify_with(artifact, payload, false)
}

/// The digest check passes exactly for the payload the artifact was sealed
/// with, up to its SHA-256: a payload whose digest differs is refused as a
/// digest mismatch, whatever else the artifact holds.
pub proof fn a_changed_payload_is_refused(a: Artifact, sealed: Seq<u8>, payload: Seq<u8>, allow_incomplete: bool)
    requires
        a.payload_digest@ == hex_of(sha256(sealed)),
    ensures
        hex_of(sha256(payload)) != hex_of(sha256(sealed))
            ==> artifact_fault(a, payload, allow_incomplete) == Some(VerifyFault::DigestMismatch),
        artifact_fault(a, sealed, allow_incomplete) != Some(VerifyFault::DigestMismatch),
{
    lemma_obligation_faults_name_obligations(a, allow_incomplete, a.obligations@.len() as int);
    lemma_checkpoint_faults_name_domains(a.checkpoints@, a.checkpoints@.len() as int);
}

proof fn lemma_obligation_faults_name_obligations(a: Artifact, allow_incomplete: bool, n: int)
    ensures
        first_obligation_fault(a, allow_incomplete, n) is None
            || first_obligation_fault(a, allow_incomplete, n)->0 is UnqualifiedObligation
            || first_obligation_fault(a, allow_incomplete, n)->0 is UnknownScenario,
    decreases n,
{
    if n > 0 {
        lemma_obligation_faults_name_obligations(a, allow_incomplete, n - 1);
    }
}

proof fn lemma_checkpoint_faults_name_domains(cs: Seq<Checkpoint>, n: int)
    ensures
        first_checkpoint_fault(cs, n) is None
            || first_checkpoint_fault(cs, n)->0 is MissingDomain
            || first_checkpoint_fault(cs, n)->0 is DomainDigestMismatch,
    decreases n,
{
    if n > 0 {
        lemma_checkpoint_faults_name_domains(cs, n - 1);
        lemma_domain_faults_name_domains(cs[n - 1], 7);
    }
}

proof fn lemma_domain_faults_name_domains(c: Checkpoint, k: int)
    ensures
        checkpoint_fault(c, k) is None
            || checkpoint_fault(c, k)->0 is MissingDomain
            || checkpoint_fault(c, k)->0 is DomainDigestMismatch,
    decreases k,
{
    if k > 0 {
        lemma_domain_faults_name_domains(c, k - 1);
    }
}

/// Allowing incomplete recordings only lets more through: an artifact that
/// passes the complete check passes the diagnostic one.
pub proof fn the_diagnostic_check_accepts_every_complete_artifact(a: Artifact, payload: Seq<u8>)
    requires
        artifact_fault(a, payload, false) is None,
    ensures
        artifact_fault(a, payload, true) is None,
{
    lemma_allowing_keeps_obligations_sound(a, a.obligations@.len() as int);
}

proof fn lemma_allowing_keeps_obligations_sound(a: Artifact, n: int)
    requires
        first_obligation_fault(a, false, n) is None,
    ensures
        first_obligation_fault(a, true, n) is None,
    decreases n,
{
    if n > 0 {
        lemma_allowing_keeps_obligations_sound(a, n - 1);
    }
}

} // verus!
