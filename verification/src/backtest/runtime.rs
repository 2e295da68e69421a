//! What a page did while it loaded and while it was driven: console errors
//! and requests, compared per state against the recreation's.
use crate::backtest::authored::{joined_by, scope_of, state_scope};
use crate::backtest::compare::{Scope, finding, finding_value};
use crate::backtest::display::{signed_delta, signed_delta_value};
use crate::backtest::model::{Finding, FindingView, State, finding_views};
use crate::order::views;
use crate::text::{decimal, push_str, str_eq};
use vstd::prelude::*;

verus! {

broadcast use vstd::string::group_string_axioms;

/// The last state recorded at a width under a scenario.
pub open spec fn state_at(states: Seq<State>, w: u32, sc: Seq<char>) -> Option<State>
    decreases states.len(),
{
    if states.len() == 0 {
        None
    } else if states.last().viewport.width == w && states.last().scenario@ == sc {
        Some(states.last())
    } else {
        state_at(states.drop_last(), w, sc)
    }
}

/// The first state recorded at a width under a scenario.
pub open spec fn first_state_at(states: Seq<State>, w: u32, sc: Seq<char>) -> Option<State>
    decreases states.len(),
{
    if states.len() == 0 {
        None
    } else if states[0].viewport.width == w && states[0].scenario@ == sc {
        Some(states[0])
    } else {
        first_state_at(states.drop_first(), w, sc)
    }
}

pub fn last_state_index(states: &Vec<State>, w: u32, sc: &str) -> (r: Option<usize>)
    ensures
        match r {
            Some(i) => i < states@.len() && state_at(states@, w, sc@) == Some(states@[i as int]),
            None => state_at(states@, w, sc@) is None,
        },
{
    let mut j: usize = states.len();
    assert(states@.take(j as int) =~= states@);
    while j > 0
        invariant
            j <= states@.len(),
            state_at(states@, w, sc@) == state_at(states@.take(j as int), w, sc@),
        decreases j,
    {
        let ghost p = states@.take(j as int);
        assert(p.drop_last() =~= states@.take(j - 1));
        assert(p.last() == states@[j - 1]);
        if states[j - 1].viewport.width == w && str_eq(states[j - 1].scenario.as_str(), sc) {
            return Some(j - 1);
        }
        j -= 1;
    }
    None
}

fn first_state_index(states: &Vec<State>, w: u32, sc: &str) -> (r: Option<usize>)
    ensures
        match r {
            Some(i) => i < states@.len() && first_state_at(states@, w, sc@) == Some(states@[i as int]),
            None => first_state_at(states@, w, sc@) is None,
        },
{
    let mut i: usize = 0;
    assert(states@.skip(0) =~= states@);
    while i < states.len()
        invariant
            i <= states@.len(),
            first_state_at(states@, w, sc@) == first_state_at(states@.skip(i as int), w, sc@),
        decreases states@.len() - i,
    {
        assert(states@.skip(i as int)[0] == states@[i as int]);
        if states[i].viewport.width == w && str_eq(states[i].scenario.as_str(), sc) {
            return Some(i);
        }
        assert(states@.skip(i as int).drop_first() =~= states@.skip(i + 1));
        i += 1;
    }
    None
}

/// The events after a baseline the list starts with, or the whole list
/// when it does not start with it.
pub open spec fn suffix_after(events: Seq<Seq<char>>, baseline: Seq<Seq<char>>) -> Seq<Seq<char>> {
    if baseline.len() <= events.len() && events.take(baseline.len() as int) == baseline {
        events.skip(baseline.len() as int)
    } else {
        events
    }
}

pub fn event_suffix(events: &Vec<String>, baseline: &Vec<String>) -> (r: Vec<String>)
    ensures
        views(r@) == suffix_after(views(events@), views(baseline@)),
{
    let mut prefixed = baseline.len() <= events.len();
    let mut i: usize = 0;
    while prefixed && i < baseline.len()
        invariant
            prefixed ==> baseline@.len() <= events@.len(),
            i <= baseline@.len(),
            prefixed ==> forall|j: int| 0 <= j < i ==> events@[j]@ == baseline@[j]@,
            !prefixed ==> !(baseline@.len() <= events@.len() && views(events@).take(baseline@.len() as int)
                == views(baseline@)),
        decreases baseline@.len() - i,
    {
        if !str_eq(events[i].as_str(), baseline[i].as_str()) {
            prefixed = false;
            assert(views(events@).take(baseline@.len() as int)[i as int] != views(baseline@)[i as int]);
        }
        i += 1;
    }
    if prefixed {
        assert(views(events@).take(baseline@.len() as int) =~= views(baseline@));
    }
    let start: usize = if prefixed { baseline.len() } else { 0 };
    let mut r: Vec<String> = Vec::new();
    let mut k: usize = start;
    while k < events.len()
        invariant
            start <= k <= events@.len(),
            views(r@) == views(events@).subrange(start as int, k as int),
        decreases events@.len() - k,
    {
        let e = events[k].clone();
        let ghost before = r@;
        r.push(e);
        assert(views(r@) =~= views(before).push(e@));
        k += 1;
        assert(views(r@) =~= views(events@).subrange(start as int, k as int));
    }
    assert(views(events@).subrange(start as int, events@.len() as int) =~= views(events@).skip(start as int));
    assert(views(events@).skip(0) =~= views(events@));
    r
}

/// A list of events written for a finding: joined by `|`, or `0` when
/// there are none.
pub open spec fn events_text(events: Seq<Seq<char>>) -> Seq<char> {
    if joined_by(events, "|"@).len() == 0 {
        "0"@
    } else {
        joined_by(events, "|"@)
    }
}

/// The finding for two event lists that differ: their values, and the
/// change in count when the counts differ.
pub open spec fn event_values(
    scope: Scope,
    target: Seq<char>,
    property: Seq<char>,
    s: Seq<Seq<char>>,
    c: Seq<Seq<char>>,
) -> Seq<FindingView> {
    if s == c {
        seq![]
    } else {
        seq![
            finding_value(
                scope,
                target,
                property,
                events_text(s),
                events_text(c),
                if s.len() != c.len() {
                    Some(signed_delta_value(c.len() - s.len()))
                } else {
                    None
                },
            ),
        ]
    }
}

fn join_events(events: &Vec<String>) -> (r: String)
    ensures
        r@ == joined_by(views(events@), "|"@),
{
    let mut r = String::new();
    let mut i: usize = 0;
    while i < events.len()
        invariant
            i <= events@.len(),
            r@ == joined_by(views(events@).take(i as int), "|"@),
        decreases events@.len() - i,
    {
        proof {
            reveal_strlit("|");
            let t = views(events@).take(i + 1 as int);
            assert(t.drop_last() =~= views(events@).take(i as int));
            assert(t.last() == events@[i as int]@);
        }
        if i > 0 {
            push_str(&mut r, "|");
        }
        push_str(&mut r, events[i].as_str());
        i += 1;
        proof {
            if i == 1 {
                assert(views(events@).take(1).len() == 1);
            }
        }
        assert(r@ =~= joined_by(views(events@).take(i as int), "|"@));
    }
    assert(views(events@).take(events@.len() as int) =~= views(events@));
    r
}

fn same_events(a: &Vec<String>, b: &Vec<String>) -> (r: bool)
    ensures
        r == (views(a@) == views(b@)),
{
    if a.len() != b.len() {
        assert(views(a@).len() != views(b@).len());
        return false;
    }
    let mut i: usize = 0;
    while i < a.len()
        invariant
            a@.len() == b@.len(),
            i <= a@.len(),
            forall|j: int| 0 <= j < i ==> a@[j]@ == b@[j]@,
        decreases a@.len() - i,
    {
        if !str_eq(a[i].as_str(), b[i].as_str()) {
            assert(views(a@)[i as int] != views(b@)[i as int]);
            return false;
        }
        i += 1;
    }
    assert(views(a@) =~= views(b@));
    true
}

pub fn push_event_values(
    state: &State,
    target: &str,
    property: &str,
    source: &Vec<String>,
    candidate: &Vec<String>,
    findings: &mut Vec<Finding>,
)
    ensures
        finding_views(final(findings)@) == finding_views(old(findings)@) + event_values(
            scope_of(*state),
            target@,
            property@,
            views(source@),
            views(candidate@),
        ),
{
    if same_events(source, candidate) {
        assert(finding_views(final(findings)@) =~= finding_views(old(findings)@));
        return;
    }
    let scope = state_scope(state);
    let expected = join_events(source);
    let actual = join_events(candidate);
    let shown_expected = if expected.as_str().unicode_len() == 0 { String::from_str("0") } else { expected };
    let shown_actual = if actual.as_str().unicode_len() == 0 { String::from_str("0") } else { actual };
    let delta = if source.len() != candidate.len() {
        Some(signed_delta(candidate.len() as i128 - source.len() as i128))
    } else {
        None
    };
    let f = finding(&scope, target, property, shown_expected.as_str(), shown_actual.as_str(), delta);
    let ghost before = finding_views(findings@);
    findings.push(f);
    assert(finding_views(findings@) =~= before.push(f@));
}

/// How two lists of load events compare: nothing when they are the same; the
/// counts when the counts differ; otherwise the values.
pub open spec fn load_list(scope: Scope, target: Seq<char>, property: Seq<char>, s: Seq<Seq<char>>, c: Seq<Seq<char>>) -> Seq<
    FindingView,
> {
    if s == c {
        seq![]
    } else if s.len() != c.len() {
        seq![
            finding_value(
                scope,
                target,
                property,
                decimal(s.len()),
                decimal(c.len()),
                Some(signed_delta_value(c.len() - s.len())),
            ),
        ]
    } else {
        event_values(scope, target, property, s, c)
    }
}

/// Console errors, then requests, while the page loaded.
pub open spec fn load_findings(s: State, c: State) -> Seq<FindingView> {
    load_list(scope_of(s), "window"@, "console-errors"@, views(s.runtime.console_errors@), views(c.runtime.console_errors@))
        + load_list(scope_of(s), "network"@, "unexpected-requests"@, views(s.runtime.requests@), views(c.runtime.requests@))
}

fn load_events_of(state: &State, target: &str, property: &str, source: &Vec<String>, candidate: &Vec<String>, findings: &mut Vec<Finding>)
    ensures
        finding_views(final(findings)@) == finding_views(old(findings)@) + load_list(
            scope_of(*state),
            target@,
            property@,
            views(source@),
            views(candidate@),
        ),
{
    if same_events(source, candidate) {
        assert(finding_views(final(findings)@) =~= finding_views(old(findings)@));
        return;
    }
    if source.len() != candidate.len() {
        let scope = state_scope(state);
        let f = finding(
            &scope,
            target,
            property,
            crate::text::decimal_string(source.len() as u128).as_str(),
            crate::text::decimal_string(candidate.len() as u128).as_str(),
            Some(signed_delta(candidate.len() as i128 - source.len() as i128)),
        );
        let ghost before = finding_views(findings@);
        findings.push(f);
        assert(finding_views(findings@) =~= before.push(f@));
    } else {
        push_event_values(state, target, property, source, candidate, findings);
    }
}

pub fn compare_load_events(source: &State, candidate: &State, findings: &mut Vec<Finding>)
    ensures
        finding_views(final(findings)@) == finding_views(old(findings)@) + load_findings(*source, *candidate),
{
    let ghost start = finding_views(findings@);
    load_events_of(source, "window", "console-errors", &source.runtime.console_errors, &candidate.runtime.console_errors, findings);
    load_events_of(source, "network", "unexpected-requests", &source.runtime.requests, &candidate.runtime.requests, findings);
    assert(finding_views(findings@) =~= start + load_findings(*source, *candidate));
}

/// The console errors of an optional load state, or none.
pub open spec fn errors_of(s: Option<State>) -> Seq<Seq<char>> {
    match s {
        Some(x) => views(x.runtime.console_errors@),
        None => seq![],
    }
}

/// The requests of an optional load state, or none.
pub open spec fn requests_of(s: Option<State>) -> Seq<Seq<char>> {
    match s {
        Some(x) => views(x.runtime.requests@),
        None => seq![],
    }
}

/// What an interaction added on top of the page's load: the console errors
/// and requests after those the load state already had.
pub open spec fn interaction_findings(s: State, c: State, sl: Option<State>, cl: Option<State>) -> Seq<FindingView> {
    event_values(
        scope_of(s),
        "window"@,
        "console-errors"@,
        suffix_after(views(s.runtime.console_errors@), errors_of(sl)),
        suffix_after(views(c.runtime.console_errors@), errors_of(cl)),
    ) + event_values(
        scope_of(s),
        "network"@,
        "unexpected-requests"@,
        suffix_after(views(s.runtime.requests@), requests_of(sl)),
        suffix_after(views(c.runtime.requests@), requests_of(cl)),
    )
}

pub fn compare_interaction_events(
    source: &State,
    candidate: &State,
    source_load: Option<&State>,
    candidate_load: Option<&State>,
    findings: &mut Vec<Finding>,
)
    ensures
        finding_views(final(findings)@) == finding_views(old(findings)@) + interaction_findings(
            *source,
            *candidate,
            match source_load {
                Some(x) => Some(*x),
                None => None,
            },
            match candidate_load {
                Some(x) => Some(*x),
                None => None,
            },
        ),
{
    let empty: Vec<String> = Vec::new();
    assert(views(empty@) =~= Seq::<Seq<char>>::empty());
    let ghost start = finding_views(findings@);
    let se = event_suffix(&source.runtime.console_errors, match source_load { Some(x) => &x.runtime.console_errors, None => &empty });
    let ce = event_suffix(&candidate.runtime.console_errors, match candidate_load { Some(x) => &x.runtime.console_errors, None => &empty });
    push_event_values(source, "window", "console-errors", &se, &ce, findings);
    let sr = event_suffix(&source.runtime.requests, match source_load { Some(x) => &x.runtime.requests, None => &empty });
    let cr = event_suffix(&candidate.runtime.requests, match candidate_load { Some(x) => &x.runtime.requests, None => &empty });
    push_event_values(source, "network", "unexpected-requests", &sr, &cr, findings);
    assert(finding_views(findings@) =~= start + interaction_findings(
        *source,
        *candidate,
        match source_load {
            Some(x) => Some(*x),
            None => None,
        },
        match candidate_load {
            Some(x) => Some(*x),
            None => None,
        },
    ));
}

/// The load-state findings over the first `n` source states.
pub open spec fn load_walk(ss: Seq<State>, cs: Seq<State>, n: int) -> Seq<FindingView>
    decreases n,
{
    if n <= 0 {
        seq![]
    } else {
        let e = ss[n - 1];
        load_walk(ss, cs, n - 1) + if e.scenario@ == "load"@ {
            match state_at(cs, e.viewport.width, "load"@) {
                Some(a) => load_findings(e, a),
                None => seq![],
            }
        } else {
            seq![]
        }
    }
}

/// The interaction findings over the first `n` source states.
pub open spec fn interaction_walk(ss: Seq<State>, cs: Seq<State>, n: int) -> Seq<FindingView>
    decreases n,
{
    if n <= 0 {
        seq![]
    } else {
        let e = ss[n - 1];
        interaction_walk(ss, cs, n - 1) + if e.scenario@ != "base"@ && e.scenario@ != "load"@ {
            match state_at(cs, e.viewport.width, e.scenario@) {
                Some(a) => interaction_findings(
                    e,
                    a,
                    first_state_at(ss, e.viewport.width, "load"@),
                    state_at(cs, e.viewport.width, "load"@),
                ),
                None => seq![],
            }
        } else {
            seq![]
        }
    }
}

/// Run-time findings: every load state's events, then every interaction's.
pub open spec fn runtime_findings(ss: Seq<State>, cs: Seq<State>) -> Seq<FindingView> {
    load_walk(ss, cs, ss.len() as int) + interaction_walk(ss, cs, ss.len() as int)
}

pub fn compare_runtime(source: &Vec<State>, candidate: &Vec<State>) -> (r: Vec<Finding>)
    ensures
        finding_views(r@) == runtime_findings(source@, candidate@),
{
    let mut findings: Vec<Finding> = Vec::new();
    let mut i: usize = 0;
    while i < source.len()
        invariant
            i <= source@.len(),
            finding_views(findings@) == load_walk(source@, candidate@, i as int),
        decreases source@.len() - i,
    {
        let expected = &source[i];
        let ghost before = finding_views(findings@);
        if str_eq(expected.scenario.as_str(), "load") {
            match last_state_index(candidate, expected.viewport.width, "load") {
                Some(k) => {
                    compare_load_events(expected, &candidate[k], &mut findings);
                },
                None => {},
            }
        }
        assert(finding_views(findings@) =~= before + (if expected.scenario@ == "load"@ {
            match state_at(candidate@, expected.viewport.width, "load"@) {
                Some(a) => load_findings(*expected, a),
                None => seq![],
            }
        } else {
            seq![]
        }));
        i += 1;
    }
    let ghost loads = finding_views(findings@);
    let mut i: usize = 0;
    while i < source.len()
        invariant
            i <= source@.len(),
            finding_views(findings@) == loads + interaction_walk(source@, candidate@, i as int),
        decreases source@.len() - i,
    {
        let expected = &source[i];
        let ghost before = finding_views(findings@);
        if !str_eq(expected.scenario.as_str(), "base") && !str_eq(expected.scenario.as_str(), "load") {
            match last_state_index(candidate, expected.viewport.width, expected.scenario.as_str()) {
                Some(k) => {
                    let source_load = match first_state_index(source, expected.viewport.width, "load") {
                        Some(q) => Some(&source[q]),
                        None => None,
                    };
                    let candidate_load = match last_state_index(candidate, expected.viewport.width, "load") {
                        Some(q) => Some(&candidate[q]),
                        None => None,
                    };
                    compare_interaction_events(expected, &candidate[k], source_load, candidate_load, &mut findings);
                },
                None => {},
            }
        }
        assert(finding_views(findings@) =~= before + (if expected.scenario@ != "base"@ && expected.scenario@ != "load"@ {
            match state_at(candidate@, expected.viewport.width, expected.scenario@) {
                Some(a) => interaction_findings(
                    *expected,
                    a,
                    first_state_at(source@, expected.viewport.width, "load"@),
                    state_at(candidate@, expected.viewport.width, "load"@),
                ),
                None => seq![],
            }
        } else {
            seq![]
        }));
        i += 1;
    }
    findings
}

/// Requests made while the page loads are compared: when the two request
/// lists differ, the load comparison reports an `unexpected-requests`
/// difference on `network`, with both counts when the counts differ; when
/// they are the same, it reports none.
pub proof fn differing_load_requests_are_reported(s: State, c: State)
    ensures
        views(s.runtime.requests@) != views(c.runtime.requests@) ==> exists|i: int|
            0 <= i < load_findings(s, c).len() && (#[trigger] load_findings(s, c)[i]).target == "network"@
                && load_findings(s, c)[i].property == "unexpected-requests"@ && (s.runtime.requests@.len()
                != c.runtime.requests@.len() ==> load_findings(s, c)[i].source == decimal(s.runtime.requests@.len())
                && load_findings(s, c)[i].candidate == decimal(c.runtime.requests@.len())),
        views(s.runtime.requests@) == views(c.runtime.requests@) ==> forall|i: int|
            0 <= i < load_findings(s, c).len() ==> (#[trigger] load_findings(s, c)[i]).property
                != "unexpected-requests"@,
{
    reveal_strlit("console-errors");
    reveal_strlit("unexpected-requests");
    assert("console-errors"@.len() != "unexpected-requests"@.len());
    let sr = views(s.runtime.requests@);
    let cr = views(c.runtime.requests@);
    let first = load_list(scope_of(s), "window"@, "console-errors"@, views(s.runtime.console_errors@), views(c.runtime.console_errors@));
    let second = load_list(scope_of(s), "network"@, "unexpected-requests"@, sr, cr);
    let all = load_findings(s, c);
    assert(all == first + second);
    assert(sr.len() == s.runtime.requests@.len());
    assert(cr.len() == c.runtime.requests@.len());
    assert forall|i: int| 0 <= i < first.len() implies (#[trigger] first[i]).property == "console-errors"@ by {}
    if sr != cr {
        assert(second.len() >= 1);
        let i = first.len() as int;
        assert(all[i] == second[0]);
    } else {
        assert(second.len() == 0);
        assert forall|i: int| 0 <= i < all.len() implies (#[trigger] all[i]).property != "unexpected-requests"@ by {
            assert(all[i] == first[i]);
        }
    }
}

/// Console errors while the page loads are compared too: when the two
/// lists differ, the load comparison reports a `console-errors` difference
/// on `window`, first, with both counts when the counts differ; when they
/// are the same, none.
pub proof fn differing_load_errors_are_reported(s: State, c: State)
    ensures
        views(s.runtime.console_errors@) != views(c.runtime.console_errors@) ==> {
            let r = load_findings(s, c);
            &&& r.len() >= 1
            &&& r[0].target == "window"@
            &&& r[0].property == "console-errors"@
            &&& s.runtime.console_errors@.len() != c.runtime.console_errors@.len() ==> r[0].source == decimal(
                s.runtime.console_errors@.len(),
            ) && r[0].candidate == decimal(c.runtime.console_errors@.len())
        },
        views(s.runtime.console_errors@) == views(c.runtime.console_errors@) ==> forall|i: int|
            0 <= i < load_findings(s, c).len() ==> (#[trigger] load_findings(s, c)[i]).property != "console-errors"@,
{
    reveal_strlit("console-errors");
    reveal_strlit("unexpected-requests");
    assert("console-errors"@.len() != "unexpected-requests"@.len());
    let se = views(s.runtime.console_errors@);
    let ce = views(c.runtime.console_errors@);
    let first = load_list(scope_of(s), "window"@, "console-errors"@, se, ce);
    let second = load_list(scope_of(s), "network"@, "unexpected-requests"@, views(s.runtime.requests@), views(c.runtime.requests@));
    let all = load_findings(s, c);
    assert(all == first + second);
    assert(se.len() == s.runtime.console_errors@.len());
    assert(ce.len() == c.runtime.console_errors@.len());
    assert forall|i: int| 0 <= i < second.len() implies (#[trigger] second[i]).property == "unexpected-requests"@ by {}
    if se != ce {
        assert(all[0] == first[0]);
    } else {
        assert(first.len() == 0);
        assert forall|i: int| 0 <= i < all.len() implies (#[trigger] all[i]).property != "console-errors"@ by {
            assert(all[i] == second[i]);
        }
    }
}

} // verus!
