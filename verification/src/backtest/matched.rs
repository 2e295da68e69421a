//! What differs between two elements matched by meaning: their text and
//! role, their rendered content, their type, their box, their colours and
//! their motion. Each family reports at most one property.
use crate::backtest::authored::{scope_of, state_scope};
use crate::backtest::compare::{content_property, content_property_of, finding, finding_value, Scope};
use crate::backtest::display::{
    compact_number, compact_value, css_pixel_delta, pixel_delta, quoted, quoted_value, signed_number, signed_value,
    truncate, truncated,
};
use crate::backtest::grouping::{first_family, normalized_font_family};
use crate::backtest::model::{finding_opt, finding_views, Finding, FindingView, NodeEvidence, State};
use crate::backtest::motion::{compare_motion, motion_difference, motions_wf};
use crate::backtest::semantic::{kind_of, semantic_kind, semantic_text, text_of};
use crate::text::{push_str, str_eq};
use vstd::prelude::*;

verus! {

broadcast use vstd::string::group_string_axioms;

/// A finding when there is one, as a sequence of at most one.
pub open spec fn listed(f: Option<FindingView>) -> Seq<FindingView> {
    match f {
        Some(v) => seq![v],
        None => seq![],
    }
}

/// The text a reader knows the element by, shortened for a finding line.
pub open spec fn shown_text(n: NodeEvidence) -> Seq<char> {
    quoted_value(truncated(text_of(n), 72))
}

/// The element reads differently.
pub open spec fn text_change(scope: Scope, target: Seq<char>, s: NodeEvidence, c: NodeEvidence) -> Option<FindingView> {
    if text_of(s) != text_of(c) {
        Some(finding_value(scope, target, "text"@, shown_text(s), shown_text(c), None))
    } else {
        None
    }
}

/// The element is a different kind of thing.
pub open spec fn role_change(scope: Scope, target: Seq<char>, s: NodeEvidence, c: NodeEvidence) -> Option<FindingView> {
    if kind_of(s) != kind_of(c) {
        Some(finding_value(scope, target, "role"@, kind_of(s), kind_of(c), None))
    } else {
        None
    }
}

/// An image or inline SVG paints something else.
pub open spec fn content_change(scope: Scope, target: Seq<char>, s: NodeEvidence, c: NodeEvidence) -> Option<
    FindingView,
> {
    if content_property(s, c) is Some && s.rendered_content_sha256@ != c.rendered_content_sha256@ {
        Some(finding_value(scope, target, content_property(s, c)->0, "expected"@, "different"@, None))
    } else {
        None
    }
}

/// The first of size, weight, family and line height that differs.
pub open spec fn type_change(scope: Scope, target: Seq<char>, s: NodeEvidence, c: NodeEvidence) -> Option<FindingView> {
    if s.font_size@ != c.font_size@ {
        Some(
            finding_value(
                scope,
                target,
                "font-size"@,
                s.font_size@,
                c.font_size@,
                pixel_delta(s.font_size@, c.font_size@),
            ),
        )
    } else if s.font_weight@ != c.font_weight@ {
        Some(finding_value(scope, target, "font-weight"@, s.font_weight@, c.font_weight@, None))
    } else if first_family(s.font_family@) != first_family(c.font_family@) {
        Some(
            finding_value(
                scope,
                target,
                "font-family"@,
                first_family(s.font_family@),
                first_family(c.font_family@),
                None,
            ),
        )
    } else if s.line_height@ != c.line_height@ {
        Some(
            finding_value(
                scope,
                target,
                "line-height"@,
                s.line_height@,
                c.line_height@,
                pixel_delta(s.line_height@, c.line_height@),
            ),
        )
    } else {
        None
    }
}

/// One edge or extent, when it moved by two pixels or more.
pub open spec fn moved(scope: Scope, target: Seq<char>, property: Seq<char>, e: i64, a: i64) -> Option<FindingView> {
    if e - a >= 200 || a - e >= 200 {
        Some(
            finding_value(
                scope,
                target,
                property,
                compact_value(e as int),
                compact_value(a as int),
                Some(signed_value(a - e) + "px"@),
            ),
        )
    } else {
        None
    }
}

/// The first of x, y, width and height that moved.
pub open spec fn box_change(scope: Scope, target: Seq<char>, s: NodeEvidence, c: NodeEvidence) -> Option<FindingView> {
    if moved(scope, target, "x"@, s.x, c.x) is Some {
        moved(scope, target, "x"@, s.x, c.x)
    } else if moved(scope, target, "y"@, s.y, c.y) is Some {
        moved(scope, target, "y"@, s.y, c.y)
    } else if moved(scope, target, "width"@, s.width, c.width) is Some {
        moved(scope, target, "width"@, s.width, c.width)
    } else {
        moved(scope, target, "height"@, s.height, c.height)
    }
}

/// The text colour, else the background.
pub open spec fn paint_change(scope: Scope, target: Seq<char>, s: NodeEvidence, c: NodeEvidence) -> Option<FindingView> {
    if s.color@ != c.color@ {
        Some(finding_value(scope, target, "color"@, s.color@, c.color@, None))
    } else if s.background@ != c.background@ {
        Some(finding_value(scope, target, "background"@, s.background@, c.background@, None))
    } else {
        None
    }
}

/// Everything that differs between two matched elements, family by family.
pub open spec fn matched_findings(s: State, target: Seq<char>, a: NodeEvidence, b: NodeEvidence) -> Seq<FindingView> {
    let scope = scope_of(s);
    listed(text_change(scope, target, a, b)) + listed(role_change(scope, target, a, b)) + listed(
        content_change(scope, target, a, b),
    ) + listed(type_change(scope, target, a, b)) + listed(box_change(scope, target, a, b)) + listed(
        paint_change(scope, target, a, b),
    ) + listed(motion_difference(scope, target, a.motions@, b.motions@))
}

/// Appends a finding when there is one.
fn push_found(out: &mut Vec<Finding>, f: Option<Finding>)
    ensures
        finding_views(final(out)@) == finding_views(old(out)@) + listed(finding_opt(f)),
{
    let ghost before = finding_views(out@);
    match f {
        Some(v) => {
            out.push(v);
            assert(finding_views(out@) =~= before + listed(finding_opt(Some(v))));
        },
        None => {
            assert(finding_views(out@) =~= before + listed(finding_opt(f)));
        },
    }
}

fn type_diff(scope: &Scope, target: &str, s: &NodeEvidence, c: &NodeEvidence) -> (r: Option<Finding>)
    ensures
        finding_opt(r) == type_change(*scope, target@, *s, *c),
{
    if !str_eq(s.font_size.as_str(), c.font_size.as_str()) {
        let d = css_pixel_delta(s.font_size.as_str(), c.font_size.as_str());
        return Some(finding(scope, target, "font-size", s.font_size.as_str(), c.font_size.as_str(), d));
    }
    if !str_eq(s.font_weight.as_str(), c.font_weight.as_str()) {
        return Some(finding(scope, target, "font-weight", s.font_weight.as_str(), c.font_weight.as_str(), None));
    }
    let sf = normalized_font_family(s.font_family.as_str());
    let cf = normalized_font_family(c.font_family.as_str());
    if !str_eq(sf.as_str(), cf.as_str()) {
        return Some(finding(scope, target, "font-family", sf.as_str(), cf.as_str(), None));
    }
    if !str_eq(s.line_height.as_str(), c.line_height.as_str()) {
        let d = css_pixel_delta(s.line_height.as_str(), c.line_height.as_str());
        return Some(finding(scope, target, "line-height", s.line_height.as_str(), c.line_height.as_str(), d));
    }
    None
}

fn moved_by(scope: &Scope, target: &str, property: &str, e: i64, a: i64) -> (r: Option<Finding>)
    ensures
        finding_opt(r) == moved(*scope, target@, property@, e, a),
{
    let d: i128 = a as i128 - e as i128;
    if d >= 200 || d <= -200 {
        let mut delta = signed_number(d);
        push_str(&mut delta, "px");
        Some(
            finding(
                scope,
                target,
                property,
                compact_number(e as i128).as_str(),
                compact_number(a as i128).as_str(),
                Some(delta),
            ),
        )
    } else {
        None
    }
}

fn box_diff(scope: &Scope, target: &str, s: &NodeEvidence, c: &NodeEvidence) -> (r: Option<Finding>)
    ensures
        finding_opt(r) == box_change(*scope, target@, *s, *c),
{
    let r = moved_by(scope, target, "x", s.x, c.x);
    if r.is_some() {
        return r;
    }
    let r = moved_by(scope, target, "y", s.y, c.y);
    if r.is_some() {
        return r;
    }
    let r = moved_by(scope, target, "width", s.width, c.width);
    if r.is_some() {
        return r;
    }
    moved_by(scope, target, "height", s.height, c.height)
}

/// Compares two elements matched by meaning, at the recorded state `state`,
/// under the name `target`.
pub fn compare_semantic_node(state: &State, target: &str, source: &NodeEvidence, candidate: &NodeEvidence) -> (r:
    Vec<Finding>)
    requires
        motions_wf(source.motions@),
        motions_wf(candidate.motions@),
    ensures
        finding_views(r@) == matched_findings(*state, target@, *source, *candidate),
{
    let scope = state_scope(state);
    let mut out: Vec<Finding> = Vec::new();
    let st = semantic_text(source);
    let ct = semantic_text(candidate);
    let text = if !str_eq(st.as_str(), ct.as_str()) {
        Some(
            finding(
                &scope,
                target,
                "text",
                quoted(truncate(st.as_str(), 72).as_str()).as_str(),
                quoted(truncate(ct.as_str(), 72).as_str()).as_str(),
                None,
            ),
        )
    } else {
        None
    };
    push_found(&mut out, text);
    let sk = semantic_kind(source);
    let ck = semantic_kind(candidate);
    let role = if !str_eq(sk.as_str(), ck.as_str()) {
        Some(finding(&scope, target, "role", sk.as_str(), ck.as_str(), None))
    } else {
        None
    };
    push_found(&mut out, role);
    let content = match content_property_of(source, candidate) {
        Some(p) => if !str_eq(source.rendered_content_sha256.as_str(), candidate.rendered_content_sha256.as_str()) {
            Some(finding(&scope, target, p, "expected", "different", None))
        } else {
            None
        },
        None => None,
    };
    push_found(&mut out, content);
    push_found(&mut out, type_diff(&scope, target, source, candidate));
    push_found(&mut out, box_diff(&scope, target, source, candidate));
    let paint = if !str_eq(source.color.as_str(), candidate.color.as_str()) {
        Some(finding(&scope, target, "color", source.color.as_str(), candidate.color.as_str(), None))
    } else if !str_eq(source.background.as_str(), candidate.background.as_str()) {
        Some(finding(&scope, target, "background", source.background.as_str(), candidate.background.as_str(), None))
    } else {
        None
    };
    push_found(&mut out, paint);
    push_found(&mut out, compare_motion(&scope, target, source, candidate));
    out
}

} // verus!
