//! The rules of the interaction graph a recording explores: how a replay
//! prefix is prepared, where each discovered edge's scenario goes, and
//! when exploration stops.
use crate::oracle::discovery::Control;
use crate::oracle::model::{Obligation, ObligationStatus, Scenario, Step, StepView, step_views};
use crate::text::{decimal, push_decimal, push_str, str_eq};
use vstd::prelude::*;

verus! {

/// At most this many distinct states are explored.
pub const MAX_STATES: usize = 32;

/// At most this many edges are taken.
pub const MAX_EDGES: usize = 256;

/// A step as it is replayed to reach a state: activations and hovers are
/// replayed in their preparing form, everything else as it is.
pub open spec fn prepared(step: StepView) -> StepView {
    match step {
        StepView::Activate { anchor } => StepView::PrepareActivate { anchor },
        StepView::PrepareActivate { anchor } => StepView::PrepareActivate { anchor },
        StepView::Hover { anchor } => StepView::PrepareHover { anchor },
        StepView::PrepareHover { anchor } => StepView::PrepareHover { anchor },
        other => other,
    }
}

pub fn prepare(step: &Step) -> (r: Step)
    ensures
        r@ == prepared(step@),
{
    match step {
        Step::Activate { anchor } => Step::PrepareActivate { anchor: anchor.clone() },
        Step::PrepareActivate { anchor } => Step::PrepareActivate { anchor: anchor.clone() },
        Step::Hover { anchor } => Step::PrepareHover { anchor: anchor.clone() },
        Step::PrepareHover { anchor } => Step::PrepareHover { anchor: anchor.clone() },
        Step::Reset => Step::Reset,
        Step::SetViewport { width, height } => Step::SetViewport { width: *width, height: *height },
        Step::ResizePath { widths, height } => Step::ResizePath { widths: widths.clone(), height: *height },
        Step::AdvanceTime { milliseconds } => Step::AdvanceTime { milliseconds: *milliseconds },
        Step::Key { key } => Step::Key { key: key.clone() },
        Step::SeekAnimations { milliseconds } => Step::SeekAnimations { milliseconds: *milliseconds },
    }
}

/// Replays a prefix: each step prepared, in order.
pub fn prepare_all(prefix: &Vec<Step>) -> (r: Vec<Step>)
    ensures
        step_views(r@) == step_views(prefix@).map_values(|s: StepView| prepared(s)),
{
    let mut r: Vec<Step> = Vec::new();
    let mut i: usize = 0;
    while i < prefix.len()
        invariant
            i <= prefix@.len(),
            step_views(r@) == step_views(prefix@).take(i as int).map_values(|s: StepView| prepared(s)),
        decreases prefix@.len() - i,
    {
        let p = prepare(&prefix[i]);
        let ghost before = r@;
        r.push(p);
        proof {
            assert(step_views(r@) =~= step_views(before).push(p@));
            assert(step_views(prefix@).take(i + 1 as int) =~= step_views(prefix@).take(i as int).push(prefix@[i as int]@));
        }
        i += 1;
        assert(step_views(r@) =~= step_views(prefix@).take(i as int).map_values(|s: StepView| prepared(s)));
    }
    assert(step_views(prefix@).take(prefix@.len() as int) =~= step_views(prefix@));
    r
}

/// The obligation kind an action satisfies.
pub open spec fn kind_of(step: StepView) -> Seq<char> {
    match step {
        StepView::Hover { .. } => "trusted-hover"@,
        StepView::Activate { .. } => "trusted-activation"@,
        StepView::Key { .. } => "trusted-key"@,
        _ => "browser-action"@,
    }
}

pub fn action_kind(step: &Step) -> (r: &'static str)
    ensures
        r@ == kind_of(step@),
{
    match step {
        Step::Hover { .. } => "trusted-hover",
        Step::Activate { .. } => "trusted-activation",
        Step::Key { .. } => "trusted-key",
        _ => "browser-action",
    }
}

/// Something exploration could not cover, and why.
pub fn uncovered(kind: &str, detail: &str) -> (r: Obligation)
    ensures
        r.id@ == kind@ + seq![':'] + detail@,
        r.kind@ == kind@,
        r.status == ObligationStatus::Uncovered,
        r.scenarios@.len() == 0,
{
    let mut id = String::new();
    push_str(&mut id, kind);
    push_str(&mut id, ":");
    push_str(&mut id, detail);
    proof {
        reveal_strlit(":");
    }
    Obligation { id, kind: String::from_str(kind), status: ObligationStatus::Uncovered, scenarios: Vec::new() }
}

/// The two actions tried on every control: hovering it, then activating it.
pub fn actions(control: &Control) -> (r: Vec<Step>)
    ensures
        step_views(r@) == seq![StepView::Hover { anchor: control.anchor@ }, StepView::Activate { anchor: control.anchor@ }],
{
    let mut r: Vec<Step> = Vec::new();
    r.push(Step::Hover { anchor: control.anchor.clone() });
    r.push(Step::Activate { anchor: control.anchor.clone() });
    assert(step_views(r@) =~= seq![StepView::Hover { anchor: control.anchor@ }, StepView::Activate { anchor: control.anchor@ }]);
    r
}

/// Appends an action isolated from the ones before it: a reset, the
/// prepared prefix, then the action.
pub fn append_isolated(steps: &mut Vec<Step>, prefix: &Vec<Step>, action: Step)
    ensures
        step_views(final(steps)@) == step_views(old(steps)@) + seq![StepView::Reset] + step_views(prefix@).map_values(
            |s: StepView| prepared(s),
        ) + seq![action@],
{
    steps.push(Step::Reset);
    let mut prepared_prefix = prepare_all(prefix);
    let ghost middle = prepared_prefix@;
    steps.append(&mut prepared_prefix);
    steps.push(action);
    assert(step_views(final(steps)@) =~= step_views(old(steps)@) + seq![StepView::Reset] + step_views(middle) + seq![
        action@,
    ]);
}

/// Where the scenario of a discovered edge goes.
#[derive(Clone, Copy, Debug, PartialEq, Eq, Structural)]
pub enum Route {
    /// Hovers of one state share one scenario.
    Hover,
    /// Activations that leave the state unchanged share one scenario, each
    /// isolated by a reset.
    Stable,
    /// Anything else gets a scenario of its own.
    Own,
}

pub open spec fn routed(action: StepView, digest: Seq<char>, state_digest: Seq<char>) -> Route {
    if action is Hover {
        Route::Hover
    } else if action is Activate && digest == state_digest {
        Route::Stable
    } else {
        Route::Own
    }
}

pub fn route(action: &Step, digest: &str, state_digest: &str) -> (r: Route)
    ensures
        r == routed(action@, digest@, state_digest@),
{
    match action {
        Step::Hover { .. } => Route::Hover,
        Step::Activate { .. } => if str_eq(digest, state_digest) {
            Route::Stable
        } else {
            Route::Own
        },
        _ => Route::Own,
    }
}

/// Whether another edge may be taken from a state: none once `MAX_EDGES`
/// have been, when exploration stops with the edge budget uncovered at the
/// state.
pub fn edge_budget(edges: usize, state_digest: &str) -> (r: Option<Obligation>)
    ensures
        edges < MAX_EDGES ==> r is None,
        edges >= MAX_EDGES ==> (r matches Some(o) && o.id@ == "edge-budget"@ + seq![':'] + state_digest@
            && o.kind@ == "edge-budget"@ && o.status == ObligationStatus::Uncovered && o.scenarios@.len() == 0),
{
    if edges >= MAX_EDGES {
        Some(uncovered("edge-budget", state_digest))
    } else {
        None
    }
}

/// What follows an edge.
#[derive(Clone, Copy, Debug, PartialEq, Eq, Structural)]
pub enum Next {
    /// The edge stayed in its state or reached a state already seen.
    Known,
    /// A new state, but the state budget is spent: exploration stops.
    StateBudget,
    /// A new state to explore.
    Explore,
}

pub open spec fn next_of(digest: Seq<char>, state_digest: Seq<char>, seen: Seq<Seq<char>>) -> Next {
    if digest == state_digest || seen.contains(digest) {
        Next::Known
    } else if seen.len() >= MAX_STATES {
        Next::StateBudget
    } else {
        Next::Explore
    }
}

pub fn next_state(digest: &String, state_digest: &String, seen: &Vec<String>) -> (r: Next)
    ensures
        r == next_of(digest@, state_digest@, crate::order::views(seen@)),
{
    if str_eq(digest.as_str(), state_digest.as_str()) {
        return Next::Known;
    }
    let mut i: usize = 0;
    while i < seen.len()
        invariant
            i <= seen@.len(),
            forall|j: int| 0 <= j < i ==> seen@[j]@ != digest@,
        decreases seen@.len() - i,
    {
        if str_eq(seen[i].as_str(), digest.as_str()) {
            assert(crate::order::views(seen@)[i as int] == digest@);
            return Next::Known;
        }
        i += 1;
    }
    assert(!crate::order::views(seen@).contains(digest@)) by {
        if crate::order::views(seen@).contains(digest@) {
            let j = choose|j: int| 0 <= j < seen@.len() && crate::order::views(seen@)[j] == digest@;
            assert(seen@[j]@ == digest@);
        }
    }
    if seen.len() >= MAX_STATES {
        Next::StateBudget
    } else {
        Next::Explore
    }
}

/// The scenario of an edge with a scenario of its own: from a fresh page,
/// the prepared prefix, then the action.
pub fn own_scenario(edges: usize, prefix: &Vec<Step>, action: Step) -> (r: Scenario)
    ensures
        r.id@ == "edge-"@ + decimal(edges as nat),
        step_views(r.steps@) == seq![StepView::Reset] + step_views(prefix@).map_values(|s: StepView| prepared(s)) + seq![
            action@,
        ],
{
    let mut steps: Vec<Step> = Vec::new();
    let ghost a = action@;
    append_isolated(&mut steps, prefix, action);
    let mut id = String::new();
    push_str(&mut id, "edge-");
    push_decimal(&mut id, edges as u128);
    proof {
        reveal_strlit("edge-");
        assert(step_views(steps@) =~= seq![StepView::Reset] + step_views(prefix@).map_values(|s: StepView| prepared(s)) + seq![a]);
    }
    Scenario { id, steps }
}

/// The obligation an edge satisfies.
pub fn edge_obligation(edges: usize, action: &Step, scenario: String) -> (r: Obligation)
    ensures
        r.id@ == "edge:"@ + decimal(edges as nat),
        r.kind@ == kind_of(action@),
        r.status == ObligationStatus::Qualified,
        r.scenarios@ == seq![scenario],
{
    let mut id = String::new();
    push_str(&mut id, "edge:");
    push_decimal(&mut id, edges as u128);
    proof {
        reveal_strlit("edge:");
    }
    let mut scenarios: Vec<String> = Vec::new();
    scenarios.push(scenario);
    Obligation { id, kind: String::from_str(action_kind(action)), status: ObligationStatus::Qualified, scenarios }
}

} // verus!
