//! Narrowing a recording before a candidate is collected against it.
use vstd::prelude::*;
use crate::json::{index_key, is_true, is_true_at, lookup, Json};
use crate::oracle::artifact::{domain_index, find_domain, scenario_among, Artifact, Checkpoint};
use crate::oracle::model::{Obligation, ObligationStatus, Scenario, Step};
use crate::order::views;

verus! {

/// The items whose flag is set, in order.
pub open spec fn flagged<T>(s: Seq<T>, flags: Seq<bool>) -> Seq<T>
    decreases s.len(),
{
    if s.len() == 0 {
        seq![]
    } else {
        let rest = flagged(s.drop_last(), flags.drop_last());
        if flags.last() {
            rest.push(s.last())
        } else {
            rest
        }
    }
}

/// Keeps the items whose flag is set, in order.
fn keep_flagged<T>(v: &mut Vec<T>, flags: &Vec<bool>)
    requires
        flags@.len() == old(v)@.len(),
    ensures
        final(v)@ == flagged(old(v)@, flags@),
{
    let ghost orig = v@;
    let mut i: usize = 0;
    let mut j: usize = 0;
    while j < flags.len()
        invariant
            j <= flags@.len(),
            flags@.len() == orig.len(),
            v@ == flagged(orig.take(j as int), flags@.take(j as int)) + orig.skip(j as int),
            i == flagged(orig.take(j as int), flags@.take(j as int)).len(),
        decreases flags@.len() - j,
    {
        let ghost before = v@;
        let ghost kept = flagged(orig.take(j as int), flags@.take(j as int));
        proof {
            assert(orig.take(j + 1).drop_last() =~= orig.take(j as int));
            assert(flags@.take(j + 1).drop_last() =~= flags@.take(j as int));
            assert(before[i as int] == orig[j as int]);
        }
        let len = v.len();
        assert(i < len);
        if flags[j] {
            i += 1;
            proof {
                assert(v@ =~= kept.push(orig[j as int]) + orig.skip(j + 1));
            }
        } else {
            v.remove(i);
            proof {
                assert(v@ =~= kept + orig.skip(j + 1));
            }
        }
        j += 1;
    }
    proof {
        assert(orig.take(j as int) =~= orig);
        assert(flags@.take(j as int) =~= flags@);
        assert(orig.skip(j as int) =~= Seq::<T>::empty());
        assert(v@ =~= flagged(orig, flags@));
    }
}

/// A step that exercises an interaction: an activation, a hover or a key.
pub open spec fn interacts(s: Step) -> bool {
    s is Activate || s is Hover || s is Key
}

/// A scenario with at least one interaction.
pub open spec fn interactive(sc: Scenario) -> bool {
    exists|i: int| 0 <= i < sc.steps@.len() && interacts(#[trigger] sc.steps@[i])
}

/// A checkpoint taken in one of the scenarios.
pub open spec fn taken_in(scenarios: Seq<Scenario>, c: Checkpoint) -> bool {
    exists|j: int| 0 <= j < scenarios.len() && scenarios[j].id@ == c.scenario@
}

fn has_interaction(sc: &Scenario) -> (r: bool)
    ensures
        r == interactive(*sc),
{
    let mut i: usize = 0;
    while i < sc.steps.len()
        invariant
            i <= sc.steps@.len(),
            forall|k: int| 0 <= k < i ==> !interacts(#[trigger] sc.steps@[k]),
        decreases sc.steps@.len() - i,
    {
        match &sc.steps[i] {
            Step::Activate { .. } => {
                return true;
            },
            Step::Hover { .. } => {
                return true;
            },
            Step::Key { .. } => {
                return true;
            },
            _ => {},
        }
        i += 1;
    }
    false
}

/// Narrows a recording to its interactive scenarios and the checkpoints
/// taken in them.
pub fn retain_interactions(expected: &mut Artifact)
    ensures
        final(expected).scenarios@ == flagged(
            old(expected).scenarios@,
            old(expected).scenarios@.map_values(|s: Scenario| interactive(s)),
        ),
        final(expected).checkpoints@ == flagged(
            old(expected).checkpoints@,
            old(expected).checkpoints@.map_values(|c: Checkpoint| taken_in(final(expected).scenarios@, c)),
        ),
        final(expected).format == old(expected).format,
        final(expected).source == old(expected).source,
        final(expected).environment == old(expected).environment,
        final(expected).obligations == old(expected).obligations,
        final(expected).coverage == old(expected).coverage,
        final(expected).payload_digest == old(expected).payload_digest,
{
    let mut keep: Vec<bool> = Vec::new();
    let mut i: usize = 0;
    while i < expected.scenarios.len()
        invariant
            i <= expected.scenarios@.len(),
            keep@ == expected.scenarios@.take(i as int).map_values(|s: Scenario| interactive(s)),
        decreases expected.scenarios@.len() - i,
    {
        let k = has_interaction(&expected.scenarios[i]);
        keep.push(k);
        i += 1;
        assert(keep@ =~= expected.scenarios@.take(i as int).map_values(|s: Scenario| interactive(s)));
    }
    assert(expected.scenarios@.take(i as int) =~= expected.scenarios@);
    keep_flagged(&mut expected.scenarios, &keep);
    let mut taken: Vec<bool> = Vec::new();
    let mut i: usize = 0;
    while i < expected.checkpoints.len()
        invariant
            i <= expected.checkpoints@.len(),
            taken@ == expected.checkpoints@.take(i as int).map_values(
                |c: Checkpoint| taken_in(expected.scenarios@, c),
            ),
        decreases expected.checkpoints@.len() - i,
    {
        let t = scenario_among(&expected.scenarios, expected.scenarios.len(), expected.checkpoints[i].scenario.as_str());
        taken.push(t);
        i += 1;
        assert(taken@ =~= expected.checkpoints@.take(i as int).map_values(
            |c: Checkpoint| taken_in(expected.scenarios@, c),
        ));
    }
    assert(expected.checkpoints@.take(i as int) =~= expected.checkpoints@);
    keep_flagged(&mut expected.checkpoints, &taken);
}

/// The value a checkpoint records for a domain it has.
pub open spec fn domain_value(c: Checkpoint, name: Seq<char>) -> Json {
    c.domains@[domain_index(c.domains@, name, c.domains@.len() as int)->0].1.value
}

/// A checkpoint that records the domain.
pub open spec fn records(c: Checkpoint, name: Seq<char>) -> bool {
    domain_index(c.domains@, name, c.domains@.len() as int) is Some
}

/// A value is a non-empty array.
pub open spec fn non_empty_array(v: Json) -> bool {
    v is Array && v->Array_0@.len() > 0
}

fn is_non_empty_array(v: Option<&Json>) -> (r: bool)
    ensures
        r == match v {
            Some(x) => non_empty_array(*x),
            None => false,
        },
{
    match v {
        Some(Json::Array(items)) => items.len() > 0,
        _ => false,
    }
}

fn domain_of<'a>(c: &'a Checkpoint, name: &str) -> (r: &'a Json)
    requires
        records(*c, name@),
    ensures
        *r == domain_value(*c, name@),
{
    match find_domain(&c.domains, name) {
        Some(i) => &c.domains[i].1.value,
        None => {
            proof {
                assert(false);
            }
            &c.domains[0].1.value
        },
    }
}

/// The checkpoint's structure lists ambiguous nodes.
pub open spec fn is_ambiguous(c: Checkpoint) -> bool {
    non_empty_array(index_key(domain_value(c, "structure"@), "ambiguous"@))
}

/// The checkpoint saw network traffic: network entries, loaded resources,
/// or a network state of the document.
pub open spec fn saw_network(c: Checkpoint) -> bool {
    let v = domain_value(c, "async"@);
    non_empty_array(index_key(v, "network"@)) || non_empty_array(index_key(v, "resources"@))
        || index_key(index_key(v, "documentState"@), "network"@) is Text
}

/// Some network entry of the checkpoint has a body the browser could not
/// provide.
pub open spec fn lacks_body(c: Checkpoint) -> bool {
    match index_key(domain_value(c, "async"@), "network"@) {
        Json::Array(entries) => exists|i: int| 0 <= i < entries@.len() && body_unavailable(#[trigger] entries@[i]),
        _ => false,
    }
}

/// Whether the checkpoint's structure lists ambiguous nodes.
pub fn has_ambiguous_nodes(c: &Checkpoint) -> (r: bool)
    requires
        records(*c, "structure"@),
    ensures
        r == is_ambiguous(*c),
{
    let structure = domain_of(c, "structure");
    is_non_empty_array(lookup(structure, "ambiguous"))
}

/// The checkpoint saw network traffic: network entries, loaded resources,
/// or a network state of the document.
pub fn has_network_evidence(c: &Checkpoint) -> (r: bool)
    requires
        records(*c, "async"@),
    ensures
        r == saw_network(*c),
{
    let asynchronous = domain_of(c, "async");
    if is_non_empty_array(lookup(asynchronous, "network")) || is_non_empty_array(lookup(asynchronous, "resources")) {
        return true;
    }
    match lookup(asynchronous, "documentState") {
        Some(state) => match lookup(state, "network") {
            Some(Json::Text(_)) => true,
            _ => false,
        },
        None => false,
    }
}

/// A network entry whose body the browser could not provide.
pub open spec fn body_unavailable(entry: Json) -> bool {
    is_true(index_key(entry, "body_unavailable"@))
}

/// Whether some network entry has a body the browser could not provide.
pub fn has_unavailable_network_body(c: &Checkpoint) -> (r: bool)
    requires
        records(*c, "async"@),
    ensures
        r == lacks_body(*c),
{
    let asynchronous = domain_of(c, "async");
    match lookup(asynchronous, "network") {
        Some(Json::Array(entries)) => {
            let mut i: usize = 0;
            while i < entries.len()
                invariant
                    index_key(domain_value(*c, "async"@), "network"@) == Json::Array(*entries),
                    i <= entries@.len(),
                    forall|k: int| 0 <= k < i ==> !body_unavailable(#[trigger] entries@[k]),
                decreases entries@.len() - i,
            {
                if is_true_at(lookup(&entries[i], "body_unavailable")) {
                    assert(body_unavailable(entries@[i as int]));
                    assert(exists|j: int| 0 <= j < entries@.len() && body_unavailable(#[trigger] entries@[j]));
                    let ghost v = index_key(domain_value(*c, "async"@), "network"@);
                    assert(v is Array && v->Array_0 == *entries);
                    return true;
                }
                i += 1;
            }
            false
        },
        _ => false,
    }
}

/// How many widths a step of a responsive scenario observes.
pub open spec fn width_steps(s: Step) -> nat {
    match s {
        Step::SetViewport { .. } => 1,
        Step::ResizePath { widths, .. } => widths@.len(),
        _ => 0,
    }
}

/// How many widths a list of steps observes.
pub open spec fn widths_of(steps: Seq<Step>) -> nat
    decreases steps.len(),
{
    if steps.len() == 0 {
        0
    } else {
        widths_of(steps.drop_last()) + width_steps(steps.last())
    }
}

/// How many widths the responsive scenarios observe.
pub open spec fn responsive_widths(scenarios: Seq<Scenario>) -> nat
    decreases scenarios.len(),
{
    if scenarios.len() == 0 {
        0
    } else {
        responsive_widths(scenarios.drop_last()) + if crate::text::is_prefix(
            "responsive-"@,
            scenarios.last().id@,
        ) {
            widths_of(scenarios.last().steps@)
        } else {
            0
        }
    }
}

proof fn lemma_responsive_prefix(scenarios: Seq<Scenario>, i: int)
    requires
        0 <= i <= scenarios.len(),
    ensures
        responsive_widths(scenarios.take(i)) <= responsive_widths(scenarios),
    decreases scenarios.len() - i,
{
    if i < scenarios.len() {
        lemma_responsive_prefix(scenarios, i + 1);
        assert(scenarios.take(i + 1).drop_last() =~= scenarios.take(i));
    } else {
        assert(scenarios.take(i) =~= scenarios);
    }
}

fn count_widths(steps: &Vec<Step>) -> (r: u128)
    ensures
        r == widths_of(steps@),
{
    let mut r: u128 = 0;
    let mut k: usize = 0;
    while k < steps.len()
        invariant
            k <= steps@.len(),
            r == widths_of(steps@.take(k as int)),
            r <= k * (usize::MAX as int),
        decreases steps@.len() - k,
    {
        assert(steps@.take(k + 1).drop_last() =~= steps@.take(k as int));
        let w: usize = match &steps[k] {
            Step::SetViewport { .. } => 1,
            Step::ResizePath { widths, .. } => widths.len(),
            _ => 0,
        };
        let ghost before: int = r as int;
        assert(before + w <= (k + 1) * (usize::MAX as int)) by (nonlinear_arith)
            requires
                before <= k * (usize::MAX as int),
                w <= usize::MAX,
        ;
        assert((k + 1) * (usize::MAX as int) <= usize::MAX as int * usize::MAX as int) by (nonlinear_arith)
            requires
                k < usize::MAX,
        ;
        assert(usize::MAX as int * usize::MAX as int <= u128::MAX) by (nonlinear_arith)
            requires
                usize::MAX <= u64::MAX,
        ;
        r = r + w as u128;
        k += 1;
    }
    assert(steps@.take(k as int) =~= steps@);
    r
}

/// How many widths the responsive scenarios observe; the count must fit.
pub fn responsive_width_count(scenarios: &[Scenario]) -> (r: usize)
    requires
        responsive_widths(scenarios@) <= usize::MAX,
    ensures
        r == responsive_widths(scenarios@),
{
    let mut total: usize = 0;
    let mut i: usize = 0;
    while i < scenarios.len()
        invariant
            i <= scenarios@.len(),
            responsive_widths(scenarios@) <= usize::MAX,
            total == responsive_widths(scenarios@.take(i as int)),
        decreases scenarios@.len() - i,
    {
        proof {
            assert(scenarios@.take(i + 1).drop_last() =~= scenarios@.take(i as int));
            lemma_responsive_prefix(scenarios@, i + 1);
        }
        if crate::text::starts_with(scenarios[i].id.as_str(), "responsive-") {
            let w = count_widths(&scenarios[i].steps);
            total = total + w as usize;
        }
        i += 1;
    }
    assert(scenarios@.take(i as int) =~= scenarios@);
    total
}

/// Puts discovered scenarios before the closing asynchronous one: the last
/// scenario is set aside, the discovered ones appended, and the set-aside
/// one put back only if it is the asynchronous settling.
pub open spec fn placed(scenarios: Seq<Scenario>, discovered: Seq<Scenario>) -> Seq<Scenario> {
    if scenarios.len() == 0 {
        discovered
    } else if scenarios.last().id@ == "async-settled"@ {
        scenarios.drop_last() + discovered + seq![scenarios.last()]
    } else {
        scenarios.drop_last() + discovered
    }
}

/// Puts discovered scenarios before the closing asynchronous one.
pub fn insert_before_async(scenarios: &mut Vec<Scenario>, discovered: Vec<Scenario>)
    ensures
        final(scenarios)@ == placed(old(scenarios)@, discovered@),
{
    let last = scenarios.pop();
    let mut discovered = discovered;
    scenarios.append(&mut discovered);
    match last {
        Some(s) => {
            if str_eq_async(&s) {
                scenarios.push(s);
            }
        },
        None => {},
    }
}

fn str_eq_async(s: &Scenario) -> (r: bool)
    ensures
        r == (s.id@ == "async-settled"@),
{
    crate::text::str_eq(s.id.as_str(), "async-settled")
}

/// A scenario a diagnostic recording keeps: one that drives interactions,
/// state sequences, successors or keyboard navigation.
pub open spec fn diagnostic_scenario(id: Seq<char>) -> bool {
    crate::text::is_prefix("interaction-"@, id) || crate::text::is_prefix("state-sequence-"@, id)
        || crate::text::is_prefix("keyboard-navigation"@, id) || crate::text::is_prefix("successor-"@, id)
}

fn is_diagnostic_scenario(id: &str) -> (r: bool)
    ensures
        r == diagnostic_scenario(id@),
{
    crate::text::starts_with(id, "interaction-") || crate::text::starts_with(id, "state-sequence-")
        || crate::text::starts_with(id, "keyboard-navigation") || crate::text::starts_with(id, "successor-")
}

/// Keeps the scenarios a diagnostic recording drives, in order.
pub fn retain_diagnostic_scenarios(scenarios: &mut Vec<Scenario>)
    ensures
        final(scenarios)@ == flagged(old(scenarios)@, old(scenarios)@.map_values(|s: Scenario| diagnostic_scenario(s.id@))),
{
    let mut keep: Vec<bool> = Vec::new();
    let mut i: usize = 0;
    while i < scenarios.len()
        invariant
            i <= scenarios@.len(),
            keep@ == scenarios@.take(i as int).map_values(|s: Scenario| diagnostic_scenario(s.id@)),
        decreases scenarios@.len() - i,
    {
        let k = is_diagnostic_scenario(scenarios[i].id.as_str());
        keep.push(k);
        i += 1;
        assert(keep@ =~= scenarios@.take(i as int).map_values(|s: Scenario| diagnostic_scenario(s.id@)));
    }
    assert(scenarios@.take(i as int) =~= scenarios@);
    keep_flagged(scenarios, &keep);
}

/// Some scenario has the id.
pub open spec fn names_scenario(scenarios: Seq<Scenario>, id: Seq<char>) -> bool {
    exists|j: int| 0 <= j < scenarios.len() && scenarios[j].id@ == id
}

/// An obligation narrowed to the kept scenarios: it names only those, and a
/// qualified one left naming none becomes uncovered.
pub open spec fn narrowed(before: Obligation, after: Obligation, scenarios: Seq<Scenario>) -> bool {
    let kept = flagged(before.scenarios@, before.scenarios@.map_values(|n: String| names_scenario(scenarios, n@)));
    &&& after.id == before.id
    &&& after.kind == before.kind
    &&& after.scenarios@ == kept
    &&& after.status == (if kept.len() == 0 && before.status == ObligationStatus::Qualified {
        ObligationStatus::Uncovered
    } else {
        before.status
    })
}

fn narrow(o: &mut Obligation, scenarios: &Vec<Scenario>)
    ensures
        narrowed(*old(o), *final(o), scenarios@),
{
    let mut keep: Vec<bool> = Vec::new();
    let mut i: usize = 0;
    while i < o.scenarios.len()
        invariant
            i <= o.scenarios@.len(),
            keep@ == o.scenarios@.take(i as int).map_values(|n: String| names_scenario(scenarios@, n@)),
        decreases o.scenarios@.len() - i,
    {
        let k = scenario_among(scenarios, scenarios.len(), o.scenarios[i].as_str());
        keep.push(k);
        i += 1;
        assert(keep@ =~= o.scenarios@.take(i as int).map_values(|n: String| names_scenario(scenarios@, n@)));
    }
    assert(o.scenarios@.take(i as int) =~= o.scenarios@);
    keep_flagged(&mut o.scenarios, &keep);
    if o.scenarios.len() == 0 && o.status == ObligationStatus::Qualified {
        o.status = ObligationStatus::Uncovered;
    }
}

/// Narrows what discovery found to what a diagnostic recording drives: the
/// diagnostic scenarios, and each obligation to the scenarios kept.
pub fn retain_diagnostic(scenarios: &mut Vec<Scenario>, obligations: &mut Vec<Obligation>)
    ensures
        final(scenarios)@ == flagged(old(scenarios)@, old(scenarios)@.map_values(|s: Scenario| diagnostic_scenario(s.id@))),
        final(obligations)@.len() == old(obligations)@.len(),
        forall|i: int|
            0 <= i < old(obligations)@.len() ==> narrowed(
                #[trigger] old(obligations)@[i],
                final(obligations)@[i],
                final(scenarios)@,
            ),
{
    retain_diagnostic_scenarios(scenarios);
    let ghost before = obligations@;
    let mut i: usize = 0;
    while i < obligations.len()
        invariant
            i <= obligations@.len(),
            obligations@.len() == before.len(),
            forall|j: int| i <= j < obligations@.len() ==> #[trigger] obligations@[j] == before[j],
            forall|j: int| 0 <= j < i ==> narrowed(#[trigger] before[j], obligations@[j], scenarios@),
        decreases obligations@.len() - i,
    {
        let mut o = obligations.remove(i);
        narrow(&mut o, scenarios);
        obligations.insert(i, o);
        i += 1;
    }
}

/// The ids of the obligations neither qualified nor proven unreachable, in
/// order.
pub open spec fn unmet_ids(obligations: Seq<Obligation>) -> Seq<Seq<char>>
    decreases obligations.len(),
{
    if obligations.len() == 0 {
        seq![]
    } else {
        let o = obligations.last();
        unmet_ids(obligations.drop_last()) + if o.status == ObligationStatus::Qualified || o.status
            == ObligationStatus::UnreachableProven {
            seq![]
        } else {
            seq![o.id@]
        }
    }
}

/// Every checkpoint records its structure and asynchronous work.
pub open spec fn records_all(checkpoints: Seq<Checkpoint>) -> bool {
    forall|i: int| 0 <= i < checkpoints.len() ==> records(#[trigger] checkpoints[i], "structure"@) && records(checkpoints[i], "async"@)
}

/// What a recording could not cover, in the order it is listed: a trace
/// that instrumentation perturbed (only a diagnostic recording goes on
/// past one), what a diagnostic recording skips, every unmet obligation,
/// ambiguous nodes, fetches without any network evidence, and response
/// bodies the browser could not provide.
pub open spec fn incomplete_list(
    diagnostic: bool,
    trace: Option<(Seq<char>, Seq<char>)>,
    obligations: Seq<Obligation>,
    checkpoints: Seq<Checkpoint>,
) -> Seq<Seq<char>> {
    (match trace {
        Some(t) => seq!["diagnostic-trace-instability:"@ + t.0 + ":"@ + t.1],
        None => seq![],
    }) + (if diagnostic {
        seq!["diagnostic-source-self-unverified"@, "diagnostic-discovered-responsive-motion-skipped"@]
    } else {
        seq![]
    }) + unmet_ids(obligations) + (if exists|i: int| 0 <= i < checkpoints.len() && is_ambiguous(#[trigger] checkpoints[i]) {
        seq!["ambiguous-node-assignment"@]
    } else {
        seq![]
    }) + (if (exists|i: int| 0 <= i < obligations.len() && (#[trigger] obligations[i]).kind@ == "fetch"@) && !(exists|i: int|
        0 <= i < checkpoints.len() && saw_network(#[trigger] checkpoints[i])) {
        seq!["network-registration-without-response-fixture"@]
    } else {
        seq![]
    }) + (if exists|i: int| 0 <= i < checkpoints.len() && lacks_body(#[trigger] checkpoints[i]) {
        seq!["network-response-body-unavailable"@]
    } else {
        seq![]
    })
}

/// Why a recording is refused: instrumentation perturbed the traced
/// checkpoint, at a domain and path, with the traced and clean values.
pub open spec fn perturbed_message(domain: Seq<char>, path: Seq<char>, traced: Seq<char>, clean: Seq<char>) -> Seq<char> {
    "discovery instrumentation perturbed "@ + domain + " at "@ + path + ": traced="@ + traced + " clean="@ + clean
}

fn push_owned(v: &mut Vec<String>, s: &str)
    ensures
        views(final(v)@) == views(old(v)@).push(s@),
{
    v.push(String::from_str(s));
    assert(views(v@) =~= views(old(v)@).push(s@));
}

/// What a recording could not cover; refused when instrumentation
/// perturbed the trace and the recording is not diagnostic. `trace` is
/// the perturbation found, as domain, path, traced value and clean value.
pub fn coverage_incomplete(
    diagnostic: bool,
    trace: Option<(String, String, String, String)>,
    obligations: &Vec<Obligation>,
    checkpoints: &Vec<Checkpoint>,
) -> (r: Result<Vec<String>, String>)
    requires
        records_all(checkpoints@),
    ensures
        match trace {
            Some(t) => !diagnostic ==> r is Err && r->Err_0@ == perturbed_message(t.0@, t.1@, t.2@, t.3@),
            None => true,
        },
        (trace is None || diagnostic) ==> r is Ok && views(r->Ok_0@) == incomplete_list(
            diagnostic,
            match trace {
                Some(t) => Some((t.0@, t.1@)),
                None => None,
            },
            obligations@,
            checkpoints@,
        ),
{
    let mut out: Vec<String> = Vec::new();
    let ghost spec_trace = match &trace {
        Some(t) => Some((t.0@, t.1@)),
        None => None,
    };
    match &trace {
        Some((domain, path, traced, clean)) => {
            if !diagnostic {
                let mut m = String::from_str("discovery instrumentation perturbed ");
                crate::text::push_str(&mut m, domain.as_str());
                crate::text::push_str(&mut m, " at ");
                crate::text::push_str(&mut m, path.as_str());
                crate::text::push_str(&mut m, ": traced=");
                crate::text::push_str(&mut m, traced.as_str());
                crate::text::push_str(&mut m, " clean=");
                crate::text::push_str(&mut m, clean.as_str());
                return Err(m);
            }
            let mut line = String::from_str("diagnostic-trace-instability:");
            crate::text::push_str(&mut line, domain.as_str());
            crate::text::push_str(&mut line, ":");
            crate::text::push_str(&mut line, path.as_str());
            out.push(line);
        },
        None => {},
    }
    let ghost part1 = views(out@);
    if diagnostic {
        push_owned(&mut out, "diagnostic-source-self-unverified");
        push_owned(&mut out, "diagnostic-discovered-responsive-motion-skipped");
    }
    let ghost part2 = views(out@);
    let mut i: usize = 0;
    let mut fetch = false;
    while i < obligations.len()
        invariant
            i <= obligations@.len(),
            views(out@) == part2 + unmet_ids(obligations@.take(i as int)),
            fetch == exists|j: int| 0 <= j < i && (#[trigger] obligations@[j]).kind@ == "fetch"@,
        decreases obligations@.len() - i,
    {
        proof {
            assert(obligations@.take(i + 1).drop_last() =~= obligations@.take(i as int));
        }
        let o = &obligations[i];
        let met = match o.status {
            ObligationStatus::Qualified => true,
            ObligationStatus::UnreachableProven => true,
            _ => false,
        };
        let ghost prev = out@;
        if !met {
            out.push(o.id.clone());
            assert(views(out@) =~= views(prev).push(o.id@));
        }
        assert(met == (o.status == ObligationStatus::Qualified || o.status == ObligationStatus::UnreachableProven));
        if crate::text::str_eq(o.kind.as_str(), "fetch") {
            fetch = true;
        }
        i += 1;
        assert(views(out@) =~= part2 + unmet_ids(obligations@.take(i as int)));
    }
    assert(obligations@.take(i as int) =~= obligations@);
    let mut ambiguous = false;
    let mut network = false;
    let mut lacking = false;
    let mut k: usize = 0;
    while k < checkpoints.len()
        invariant
            k <= checkpoints@.len(),
            records_all(checkpoints@),
            ambiguous == exists|j: int| 0 <= j < k && is_ambiguous(#[trigger] checkpoints@[j]),
            network == exists|j: int| 0 <= j < k && saw_network(#[trigger] checkpoints@[j]),
            lacking == exists|j: int| 0 <= j < k && lacks_body(#[trigger] checkpoints@[j]),
        decreases checkpoints@.len() - k,
    {
        let c = &checkpoints[k];
        if has_ambiguous_nodes(c) {
            ambiguous = true;
        }
        if has_network_evidence(c) {
            network = true;
        }
        if has_unavailable_network_body(c) {
            lacking = true;
        }
        k += 1;
    }
    let ghost part3 = views(out@);
    if ambiguous {
        push_owned(&mut out, "ambiguous-node-assignment");
    }
    if fetch && !network {
        push_owned(&mut out, "network-registration-without-response-fixture");
    }
    if lacking {
        push_owned(&mut out, "network-response-body-unavailable");
    }
    assert(views(out@) =~= incomplete_list(diagnostic, spec_trace, obligations@, checkpoints@));
    Ok(out)
}

/// How many network responses a checkpoint lists.
pub open spec fn network_entries(c: Checkpoint) -> nat {
    match index_key(domain_value(c, "async"@), "network"@) {
        Json::Array(entries) => entries@.len(),
        _ => 0,
    }
}

/// How many network responses the checkpoints list in all.
pub open spec fn network_total(cs: Seq<Checkpoint>) -> nat
    decreases cs.len(),
{
    if cs.len() == 0 {
        0
    } else {
        network_total(cs.drop_last()) + network_entries(cs.last())
    }
}

proof fn lemma_network_prefix(cs: Seq<Checkpoint>, i: int)
    requires
        0 <= i <= cs.len(),
    ensures
        network_total(cs.take(i)) <= network_total(cs),
    decreases cs.len() - i,
{
    if i < cs.len() {
        lemma_network_prefix(cs, i + 1);
        assert(cs.take(i + 1).drop_last() =~= cs.take(i));
    } else {
        assert(cs.take(i) =~= cs);
    }
}

/// How many network responses the checkpoints list in all; the count must
/// fit.
pub fn network_response_count(checkpoints: &Vec<Checkpoint>) -> (r: usize)
    requires
        forall|i: int| 0 <= i < checkpoints@.len() ==> records(#[trigger] checkpoints@[i], "async"@),
        network_total(checkpoints@) <= usize::MAX,
    ensures
        r == network_total(checkpoints@),
{
    let mut total: usize = 0;
    let mut i: usize = 0;
    while i < checkpoints.len()
        invariant
            i <= checkpoints@.len(),
            forall|j: int| 0 <= j < checkpoints@.len() ==> records(#[trigger] checkpoints@[j], "async"@),
            network_total(checkpoints@) <= usize::MAX,
            total == network_total(checkpoints@.take(i as int)),
        decreases checkpoints@.len() - i,
    {
        proof {
            assert(checkpoints@.take(i + 1).drop_last() =~= checkpoints@.take(i as int));
            lemma_network_prefix(checkpoints@, i + 1);
        }
        let asynchronous = domain_of(&checkpoints[i], "async");
        match lookup(asynchronous, "network") {
            Some(Json::Array(entries)) => {
                total = total + entries.len();
            },
            _ => {},
        }
        i += 1;
    }
    assert(checkpoints@.take(i as int) =~= checkpoints@);
    total
}

} // verus!
