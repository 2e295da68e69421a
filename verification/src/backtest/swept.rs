//! Findings from the width sweep: each diverging node is reported once, over
//! the width interval it differs on, and every width the sweep never reached
//! is reported as uncovered.
use crate::backtest::compare::{
    Scope, collapse_consequences, collapsed, compare_node, finding, finding_value, length_difference,
    node_difference,
};
use crate::backtest::display::visibility_word;
use crate::backtest::model::{
    Artifact, Finding, FindingView, NodeEvidence, SweepNode, SweepNodeView, SweepProbe, finding_opt,
    finding_views, probes_wf,
};
use crate::backtest::motion::{identities, last_with, motion_difference, motions_wf};
use crate::backtest::sweep::{
    diverging, diverging_targets, first_at, interval, interval_value, node_at, opt_view, source_at,
    source_value,
};
use crate::keyed::{entries, get};
use crate::order::{
    ascending_u32, enumerate_strings, enumerate_u32, insert_u32, lemma_enumerate_strings, lemma_enumerate_u32,
    views,
};
use vstd::prelude::*;

verus! {

broadcast use vstd::string::group_string_axioms;

/// How two swept nodes differ: visibility, then the painted box, then the
/// transform.
pub open spec fn swept_node_difference(scope: Scope, t: Seq<char>, a: SweepNodeView, b: SweepNodeView) -> Option<
    FindingView,
> {
    let sized = a.width > 0 && a.height > 0 && b.width > 0 && b.height > 0;
    if a.visible != b.visible {
        Some(finding_value(scope, t, "visibility"@, visibility_word(a.visible), visibility_word(b.visible), None))
    } else if sized && length_difference(scope, t, "x"@, a.x, b.x) is Some {
        length_difference(scope, t, "x"@, a.x, b.x)
    } else if sized && length_difference(scope, t, "y"@, a.y, b.y) is Some {
        length_difference(scope, t, "y"@, a.y, b.y)
    } else if sized && length_difference(scope, t, "width"@, a.width, b.width) is Some {
        length_difference(scope, t, "width"@, a.width, b.width)
    } else if sized && length_difference(scope, t, "height"@, a.height, b.height) is Some {
        length_difference(scope, t, "height"@, a.height, b.height)
    } else if a.transform != b.transform {
        Some(finding_value(scope, t, "transform"@, a.transform, b.transform, None))
    } else {
        None
    }
}

/// The first candidate probe taken at a width.
pub open spec fn probe_at(c: Seq<SweepProbe>, w: u32) -> Option<SweepProbe> {
    match first_at(c, w, c.len() as int) {
        Some(i) => Some(c[i]),
        None => None,
    }
}

/// A claimed source node, where the source claims one.
pub open spec fn flat(v: Option<Option<SweepNodeView>>) -> Option<SweepNodeView> {
    match v {
        Some(Some(n)) => Some(n),
        _ => None,
    }
}

/// The finding for one diverging target: the difference at the lowest
/// width of its interval, labelled with the interval.
pub open spec fn target_finding(s: Seq<SweepProbe>, c: Seq<SweepProbe>, t: Seq<char>) -> Option<FindingView> {
    match interval_value(s, c, t) {
        None => None,
        Some((lo, hi)) => {
            let span = Scope::Span { lo, hi };
            let expected = flat(source_value(s, lo, t));
            let actual = match probe_at(c, lo) {
                Some(p) => node_at(p, t),
                None => None,
            };
            match (expected, actual) {
                (Some(e), Some(a)) => swept_node_difference(span, t, e, a),
                (Some(_), None) => Some(finding_value(span, t, "node"@, "present"@, "missing"@, None)),
                (None, Some(_)) => Some(finding_value(span, t, "node"@, "missing"@, "present"@, None)),
                (None, None) => None,
            }
        },
    }
}

/// The findings of a list of targets, in its order.
pub open spec fn targets_findings(s: Seq<SweepProbe>, c: Seq<SweepProbe>, ts: Seq<Seq<char>>) -> Seq<
    FindingView,
>
    decreases ts.len(),
{
    if ts.len() == 0 {
        seq![]
    } else {
        targets_findings(s, c, ts.drop_last()) + match target_finding(s, c, ts.last()) {
            Some(f) => seq![f],
            None => seq![],
        }
    }
}

/// The finding for a width the sweep never measured.
pub open spec fn coverage_finding(w: u32) -> FindingView {
    finding_value(Scope::Span { lo: w, hi: w }, "viewport"@, "coverage"@, "measured"@, "UNCOVERED"@, None)
}

/// Every width either side never measured, ascending, once each.
pub open spec fn uncovered_views(su: Seq<u32>, cu: Seq<u32>) -> Seq<FindingView> {
    enumerate_u32(Set::new(|w: u32| su.contains(w) || cu.contains(w))).map_values(|w: u32| coverage_finding(w))
}

/// What the sweep reports: with probes on both sides, one finding per
/// diverging target in ascending order, stripped of consequences; then the
/// uncovered widths.
pub open spec fn sweep_comparison(s: Seq<SweepProbe>, c: Seq<SweepProbe>, su: Seq<u32>, cu: Seq<u32>) -> Seq<
    FindingView,
> {
    if s.len() == 0 || c.len() == 0 {
        uncovered_views(su, cu)
    } else {
        collapsed(targets_findings(s, c, enumerate_strings(Set::new(|k: Seq<char>| diverging(s, c, k)))))
            + uncovered_views(su, cu)
    }
}

/// A swept node as evidence: the painted box, visibility and transform,
/// with nothing else recorded.
fn as_evidence(n: &SweepNode) -> (r: NodeEvidence)
    ensures
        r.tag@.len() == 0,
        r.parent@.len() == 0,
        r.order == 0,
        r.text@.len() == 0,
        r.visible == n.visible,
        r.x == n.x,
        r.y == n.y,
        r.width == n.width,
        r.height == n.height,
        r.background@.len() == 0,
        r.color@.len() == 0,
        r.font_weight@.len() == 0,
        r.border_color@.len() == 0,
        r.border_radius@.len() == 0,
        r.box_shadow@.len() == 0,
        r.opacity@.len() == 0,
        r.transform@ == n.transform@,
        r.role@.len() == 0,
        r.accessible_name@.len() == 0,
        r.rendered_content_sha256@.len() == 0,
        !r.animated,
        r.animation_duration_ms is None,
        r.animation_delay_ms is None,
        r.animation_easing@.len() == 0,
        r.animation_direction@.len() == 0,
        r.motions@.len() == 0,
{
    NodeEvidence {
        tag: String::new(),
        parent: String::new(),
        order: 0,
        text: String::new(),
        visible: n.visible,
        clipped: false,
        x: n.x,
        y: n.y,
        width: n.width,
        height: n.height,
        background: String::new(),
        color: String::new(),
        font_size: String::new(),
        font_family: String::new(),
        font_weight: String::new(),
        line_height: String::new(),
        border_color: String::new(),
        border_radius: String::new(),
        box_shadow: String::new(),
        opacity: String::new(),
        transform: n.transform.clone(),
        role: String::new(),
        accessible_name: String::new(),
        raster_kind: String::new(),
        rendered_content_sha256: String::new(),
        animated: false,
        animation_duration_ms: None,
        animation_delay_ms: None,
        animation_easing: String::new(),
        animation_direction: String::new(),
        motions: Vec::new(),
    }
}

/// Comparing two swept nodes as evidence is comparing them as swept nodes.
proof fn lemma_swept_as_evidence(lo: u32, hi: u32, t: Seq<char>, e: NodeEvidence, a: NodeEvidence, ev: SweepNodeView, av: SweepNodeView)
    requires
        e.tag@.len() == 0 && a.tag@.len() == 0,
        e.parent@.len() == 0 && a.parent@.len() == 0,
        e.order == 0 && a.order == 0,
        e.text@.len() == 0 && a.text@.len() == 0,
        e.visible == ev.visible && a.visible == av.visible,
        e.x == ev.x && a.x == av.x,
        e.y == ev.y && a.y == av.y,
        e.width == ev.width && a.width == av.width,
        e.height == ev.height && a.height == av.height,
        e.background@.len() == 0 && a.background@.len() == 0,
        e.color@.len() == 0 && a.color@.len() == 0,
        e.font_weight@.len() == 0 && a.font_weight@.len() == 0,
        e.border_color@.len() == 0 && a.border_color@.len() == 0,
        e.border_radius@.len() == 0 && a.border_radius@.len() == 0,
        e.box_shadow@.len() == 0 && a.box_shadow@.len() == 0,
        e.opacity@.len() == 0 && a.opacity@.len() == 0,
        e.transform@ == ev.transform && a.transform@ == av.transform,
        e.role@.len() == 0 && a.role@.len() == 0,
        e.accessible_name@.len() == 0 && a.accessible_name@.len() == 0,
        e.rendered_content_sha256@.len() == 0 && a.rendered_content_sha256@.len() == 0,
        !e.animated && !a.animated,
        e.animation_duration_ms is None && a.animation_duration_ms is None,
        e.animation_delay_ms is None && a.animation_delay_ms is None,
        e.animation_easing@.len() == 0 && a.animation_easing@.len() == 0,
        e.animation_direction@.len() == 0 && a.animation_direction@.len() == 0,
        e.motions@.len() == 0 && a.motions@.len() == 0,
    ensures
        node_difference(Scope::Span { lo, hi }, t, e, a) == swept_node_difference(Scope::Span { lo, hi }, t, ev, av),
{
    let span = Scope::Span { lo, hi };
    assert(e.tag@ =~= a.tag@);
    assert(e.parent@ =~= a.parent@);
    assert(e.text@ =~= a.text@);
    assert(e.role@ =~= a.role@);
    assert(e.accessible_name@ =~= a.accessible_name@);
    assert(e.background@ =~= a.background@);
    assert(e.color@ =~= a.color@);
    assert(e.font_weight@ =~= a.font_weight@);
    assert(e.border_color@ =~= a.border_color@);
    assert(e.border_radius@ =~= a.border_radius@);
    assert(e.box_shadow@ =~= a.box_shadow@);
    assert(e.opacity@ =~= a.opacity@);
    assert(e.animation_easing@ =~= a.animation_easing@);
    assert(e.animation_direction@ =~= a.animation_direction@);
    reveal_strlit("sweep");
    reveal_strlit("animation:");
    assert(!crate::text::is_prefix("animation:"@, "sweep"@));
    let keys = identities(e.motions@, a.motions@);
    assert forall|k: Seq<char>| !#[trigger] keys.contains(k) by {
        assert(last_with(e.motions@, k) is None);
        assert(last_with(a.motions@, k) is None);
    }
    assert(motion_difference(span, t, e.motions@, a.motions@) is None);
}


/// The finding for a width the sweep never measured.
fn coverage(w: u32) -> (r: Finding)
    ensures
        r@ == coverage_finding(w),
{
    finding(&Scope::Span { lo: w, hi: w }, "viewport", "coverage", "measured", "UNCOVERED", None)
}

/// Widths the sweep ran out of time to measure, on either side, ascending
/// and once each.
pub fn uncovered_findings(source: &Artifact, candidate: &Artifact) -> (r: Vec<Finding>)
    ensures
        finding_views(r@) == uncovered_views(source.uncovered@, candidate.uncovered@),
{
    let ghost set = Set::new(|w: u32| source.uncovered@.contains(w) || candidate.uncovered@.contains(w));
    let mut widths: Vec<u32> = Vec::new();
    let mut i: usize = 0;
    while i < source.uncovered.len()
        invariant
            i <= source.uncovered@.len(),
            ascending_u32(widths@),
            forall|w: u32| #[trigger] widths@.contains(w) <==> source.uncovered@.take(i as int).contains(w),
        decreases source.uncovered@.len() - i,
    {
        let w = source.uncovered[i];
        insert_u32(&mut widths, w);
        proof {
            let t = source.uncovered@.take(i + 1 as int);
            assert(t =~= source.uncovered@.take(i as int).push(w));
            assert forall|y: u32| #[trigger] widths@.contains(y) <==> t.contains(y) by {
                if t.contains(y) && y != w {
                    let k = choose|k: int| 0 <= k < t.len() && t[k] == y;
                    assert(source.uncovered@.take(i as int)[k] == y);
                }
                if source.uncovered@.take(i as int).contains(y) {
                    let k = choose|k: int| 0 <= k < i && source.uncovered@.take(i as int)[k] == y;
                    assert(t[k] == y);
                }
                if y == w {
                    assert(t[i as int] == y);
                }
            }
        }
        i += 1;
    }
    assert(source.uncovered@.take(source.uncovered@.len() as int) =~= source.uncovered@);
    let mut i: usize = 0;
    while i < candidate.uncovered.len()
        invariant
            i <= candidate.uncovered@.len(),
            ascending_u32(widths@),
            forall|w: u32| #[trigger] widths@.contains(w) <==> (source.uncovered@.contains(w)
                || candidate.uncovered@.take(i as int).contains(w)),
        decreases candidate.uncovered@.len() - i,
    {
        let w = candidate.uncovered[i];
        insert_u32(&mut widths, w);
        proof {
            let t = candidate.uncovered@.take(i + 1 as int);
            assert(t =~= candidate.uncovered@.take(i as int).push(w));
            assert forall|y: u32| #[trigger] widths@.contains(y) <==> (source.uncovered@.contains(y) || t.contains(y)) by {
                if t.contains(y) && y != w {
                    let k = choose|k: int| 0 <= k < t.len() && t[k] == y;
                    assert(candidate.uncovered@.take(i as int)[k] == y);
                }
                if candidate.uncovered@.take(i as int).contains(y) {
                    let k = choose|k: int| 0 <= k < i && candidate.uncovered@.take(i as int)[k] == y;
                    assert(t[k] == y);
                }
                if y == w {
                    assert(t[i as int] == y);
                }
            }
        }
        i += 1;
    }
    assert(candidate.uncovered@.take(candidate.uncovered@.len() as int) =~= candidate.uncovered@);
    proof {
        assert forall|w: u32| #[trigger] widths@.contains(w) <==> set.contains(w) by {}
        lemma_enumerate_u32(widths@, set);
    }
    let mut r: Vec<Finding> = Vec::new();
    let mut k: usize = 0;
    while k < widths.len()
        invariant
            k <= widths@.len(),
            finding_views(r@) == widths@.take(k as int).map_values(|w: u32| coverage_finding(w)),
        decreases widths@.len() - k,
    {
        let f = coverage(widths[k]);
        let ghost before = r@;
        r.push(f);
        proof {
            assert(finding_views(r@) =~= finding_views(before).push(f@));
            assert(widths@.take(k + 1 as int).map_values(|w: u32| coverage_finding(w)) =~= widths@.take(
                k as int,
            ).map_values(|w: u32| coverage_finding(w)).push(coverage_finding(widths@[k as int])));
        }
        k += 1;
    }
    assert(widths@.take(widths@.len() as int) =~= widths@);
    r
}

/// The first candidate probe taken at a width.
fn probe_index(c: &Vec<SweepProbe>, w: u32) -> (r: Option<usize>)
    ensures
        match r {
            Some(i) => i < c@.len() && first_at(c@, w, c@.len() as int) == Some(i as int),
            None => first_at(c@, w, c@.len() as int) is None,
        },
{
    let mut i: usize = 0;
    while i < c.len()
        invariant
            i <= c@.len(),
            first_at(c@, w, i as int) is None,
        decreases c@.len() - i,
    {
        if c[i].width == w {
            assert(first_at(c@, w, i + 1) == Some(i as int));
            proof {
                lemma_first_at_stays(c@, w, i + 1, c@.len() as int);
            }
            return Some(i);
        }
        i += 1;
    }
    None
}

/// Once found, the first probe at a width stays the first.
proof fn lemma_first_at_stays(s: Seq<SweepProbe>, w: u32, m: int, n: int)
    requires
        0 <= m <= n,
        first_at(s, w, m) is Some,
    ensures
        first_at(s, w, n) == first_at(s, w, m),
    decreases n - m,
{
    if n > m {
        lemma_first_at_stays(s, w, m, n - 1);
    }
}

/// The finding for one diverging target.
fn target_diff(source: &Vec<SweepProbe>, candidate: &Vec<SweepProbe>, target: &String) -> (r: Option<Finding>)
    requires
        probes_wf(source@),
        probes_wf(candidate@),
    ensures
        finding_opt(r) == target_finding(source@, candidate@, target@),
{
    let (lo, hi) = match interval(source, candidate, target) {
        Some(p) => p,
        None => return None,
    };
    let span = Scope::Span { lo, hi };
    let expected: Option<&SweepNode> = match source_at(source, lo, target) {
        Some(Some(n)) => Some(n),
        _ => None,
    };
    let actual: Option<&SweepNode> = match probe_index(candidate, lo) {
        Some(i) => {
            assert(candidate@[i as int].wf());
            get(&candidate[i].nodes, target)
        },
        None => None,
    };
    assert(opt_view(expected) == flat(source_value(source@, lo, target@)));
    match (expected, actual) {
        (Some(e), Some(a)) => {
            let ev = as_evidence(e);
            let av = as_evidence(a);
            proof {
                lemma_swept_as_evidence(lo, hi, target@, ev, av, e@, a@);
            }
            compare_node(&span, target.as_str(), &ev, &av)
        },
        (Some(_), None) => Some(finding(&span, target.as_str(), "node", "present", "missing", None)),
        (None, Some(_)) => Some(finding(&span, target.as_str(), "node", "missing", "present", None)),
        (None, None) => None,
    }
}

/// What the sweep reports, in the order a report lists it.
pub fn compare_sweep(source: &Artifact, candidate: &Artifact) -> (r: Vec<Finding>)
    requires
        probes_wf(source.sweep@),
        probes_wf(candidate.sweep@),
    ensures
        finding_views(r@) == sweep_comparison(source.sweep@, candidate.sweep@, source.uncovered@, candidate.uncovered@),
{
    if source.sweep.len() == 0 || candidate.sweep.len() == 0 {
        return uncovered_findings(source, candidate);
    }
    let s = &source.sweep;
    let c = &candidate.sweep;
    let targets = diverging_targets(s, c);
    let ghost ts = views(targets@);
    proof {
        let set = Set::new(|k: Seq<char>| diverging(s@, c@, k));
        assert forall|k: Seq<char>| #[trigger] ts.contains(k) <==> set.contains(k) by {}
        lemma_enumerate_strings(ts, set);
    }
    let mut findings: Vec<Finding> = Vec::new();
    let mut i: usize = 0;
    while i < targets.len()
        invariant
            i <= targets@.len(),
            ts == views(targets@),
            probes_wf(s@),
            probes_wf(c@),
            finding_views(findings@) == targets_findings(s@, c@, ts.take(i as int)),
        decreases targets@.len() - i,
    {
        let value = target_diff(s, c, &targets[i]);
        proof {
            let t = ts.take(i + 1 as int);
            assert(t.drop_last() =~= ts.take(i as int));
            assert(t.last() == targets@[i as int]@);
        }
        match value {
            Some(f) => {
                findings.push(f);
                assert(finding_views(findings@) =~= targets_findings(s@, c@, ts.take(i + 1 as int)));
            },
            None => {
                assert(finding_views(findings@) =~= targets_findings(s@, c@, ts.take(i + 1 as int)));
            },
        }
        i += 1;
    }
    assert(ts.take(targets@.len() as int) =~= ts);
    collapse_consequences(&mut findings);
    let mut uncovered = uncovered_findings(source, candidate);
    let ghost before = findings@;
    findings.append(&mut uncovered);
    assert(finding_views(findings@) =~= finding_views(before) + uncovered_views(source.uncovered@, candidate.uncovered@));
    findings
}

} // verus!
