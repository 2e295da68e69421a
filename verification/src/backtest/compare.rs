//! The comparison rules: which differences between a source state and a
//! candidate state are reported, in what words, and in what order.
use crate::backtest::display::{
    compact_number, compact_value, quoted, quoted_value, round_pixels, rounded_pixels,
    signed_delta, signed_delta_value, signed_number, signed_value, visibility, visibility_word,
};
use crate::backtest::model::{Finding, FindingView, NodeEvidence, finding_opt, finding_views};
use crate::backtest::motion::{a_motion_finding_is_never_a_position_or_transform, not_moved, a_motion_list_compared_with_itself_differs_in_nothing, compare_motion, motion_difference, motions_wf};
use crate::text::{decimal, push_char, push_decimal, push_signed_decimal, push_str, signed_decimal, str_eq, starts_with, is_prefix};
use vstd::prelude::*;

verus! {

broadcast use vstd::string::group_string_axioms;

/// What a finding was measured against: one recorded viewport and scenario,
/// or an inclusive width interval of the sweep.
#[derive(Clone, Debug)]
pub enum Scope {
    Recorded { viewport: u32, scenario: String },
    Span { lo: u32, hi: u32 },
}

/// The `V…` prefix a reader sees.
pub open spec fn scope_label(s: Scope) -> Seq<char> {
    match s {
        Scope::Recorded { viewport, .. } => seq!['V'] + decimal(viewport as nat),
        Scope::Span { lo, hi } => if lo == hi {
            seq!['V'] + decimal(lo as nat)
        } else {
            seq!['V'] + decimal(lo as nat) + seq!['-'] + decimal(hi as nat)
        },
    }
}

/// The width part of a finding key; an interval keeps both endpoints so it
/// never collides with a finding recorded at one width.
pub open spec fn scope_key(s: Scope) -> Seq<char> {
    match s {
        Scope::Recorded { viewport, .. } => decimal(viewport as nat),
        Scope::Span { lo, hi } => decimal(lo as nat) + seq!['-'] + decimal(hi as nat),
    }
}

pub open spec fn scope_viewport(s: Scope) -> u32 {
    match s {
        Scope::Recorded { viewport, .. } => viewport,
        Scope::Span { lo, .. } => lo,
    }
}

pub open spec fn scope_scenario(s: Scope) -> Seq<char> {
    match s {
        Scope::Recorded { scenario, .. } => scenario@,
        Scope::Span { .. } => "sweep"@,
    }
}

impl Scope {
    pub fn label(&self) -> (r: String)
        ensures
            r@ == scope_label(*self),
    {
        let mut r = String::new();
        push_char(&mut r, 'V');
        match self {
            Scope::Recorded { viewport, .. } => push_decimal(&mut r, *viewport as u128),
            Scope::Span { lo, hi } => {
                push_decimal(&mut r, *lo as u128);
                if *lo != *hi {
                    push_char(&mut r, '-');
                    push_decimal(&mut r, *hi as u128);
                }
            },
        }
        assert(r@ =~= scope_label(*self));
        r
    }

    pub fn key_prefix(&self) -> (r: String)
        ensures
            r@ == scope_key(*self),
    {
        let mut r = String::new();
        match self {
            Scope::Recorded { viewport, .. } => push_decimal(&mut r, *viewport as u128),
            Scope::Span { lo, hi } => {
                push_decimal(&mut r, *lo as u128);
                push_char(&mut r, '-');
                push_decimal(&mut r, *hi as u128);
            },
        }
        assert(r@ =~= scope_key(*self));
        r
    }

    pub fn viewport(&self) -> (r: u32)
        ensures
            r == scope_viewport(*self),
    {
        match self {
            Scope::Recorded { viewport, .. } => *viewport,
            Scope::Span { lo, .. } => *lo,
        }
    }

    pub fn scenario(&self) -> (r: String)
        ensures
            r@ == scope_scenario(*self),
    {
        match self {
            Scope::Recorded { scenario, .. } => scenario.clone(),
            Scope::Span { .. } => String::from_str("sweep"),
        }
    }
}

/// A value of a finding line: a delta, when there is one, follows after a
/// space.
pub open spec fn delta_suffix(delta: Option<Seq<char>>) -> Seq<char> {
    match delta {
        Some(d) => seq![' '] + d,
        None => seq![],
    }
}

/// The one line a reader sees for a finding. An element present on only
/// one side is stated in the words the grouped findings use.
pub open spec fn finding_line(
    scope: Scope,
    target: Seq<char>,
    property: Seq<char>,
    source: Seq<char>,
    candidate: Seq<char>,
    delta: Option<Seq<char>>,
) -> Seq<char> {
    let head = scope_label(scope) + seq![' '] + scope_scenario(scope) + seq![' '] + target;
    if (property == "content"@ || property == "node"@) && source == "present"@ && candidate == "missing"@ {
        head + " missing"@
    } else if (property == "content"@ || property == "node"@) && source == "missing"@ && candidate
        == "present"@ {
        head + " unexpected"@
    } else {
        head + seq![' '] + property + seq![' '] + rounded_pixels(source) + "->"@ + rounded_pixels(
            candidate,
        ) + delta_suffix(delta)
    }
}

/// The finding for one difference.
pub open spec fn finding_value(
    scope: Scope,
    target: Seq<char>,
    property: Seq<char>,
    source: Seq<char>,
    candidate: Seq<char>,
    delta: Option<Seq<char>>,
) -> FindingView {
    FindingView {
        key: scope_key(scope) + seq![':'] + target + seq![':'] + property,
        line: finding_line(scope, target, property, source, candidate, delta),
        viewport: scope_viewport(scope),
        scenario: scope_scenario(scope),
        target,
        property,
        source,
        candidate,
        severity: "error"@,
        confidence: "exact"@,
        items: seq![],
    }
}

/// The abstract value of an optional delta.
pub open spec fn opt_seq(d: Option<String>) -> Option<Seq<char>> {
    match d {
        Some(v) => Some(v@),
        None => None,
    }
}

/// Builds the finding for one difference.
pub fn finding(
    scope: &Scope,
    target: &str,
    property: &str,
    source: &str,
    candidate: &str,
    delta: Option<String>,
) -> (r: Finding)
    ensures
        r@ == finding_value(*scope, target@, property@, source@, candidate@, opt_seq(delta)),
{
    let label = scope.label();
    let scenario = scope.scenario();
    let mut line = String::new();
    push_str(&mut line, label.as_str());
    push_char(&mut line, ' ');
    push_str(&mut line, scenario.as_str());
    push_char(&mut line, ' ');
    push_str(&mut line, target);
    let structural = str_eq(property, "content") || str_eq(property, "node");
    if structural && str_eq(source, "present") && str_eq(candidate, "missing") {
        push_str(&mut line, " missing");
    } else if structural && str_eq(source, "missing") && str_eq(candidate, "present") {
        push_str(&mut line, " unexpected");
    } else {
        push_char(&mut line, ' ');
        push_str(&mut line, property);
        push_char(&mut line, ' ');
        push_str(&mut line, round_pixels(source).as_str());
        push_str(&mut line, "->");
        push_str(&mut line, round_pixels(candidate).as_str());
        match &delta {
            Some(d) => {
                push_char(&mut line, ' ');
                push_str(&mut line, d.as_str());
            },
            None => {},
        }
    }
    let mut key = scope.key_prefix();
    push_char(&mut key, ':');
    push_str(&mut key, target);
    push_char(&mut key, ':');
    push_str(&mut key, property);
    let r = Finding {
        key,
        line,
        viewport: scope.viewport(),
        scenario,
        target: String::from_str(target),
        property: String::from_str(property),
        source: String::from_str(source),
        candidate: String::from_str(candidate),
        severity: String::from_str("error"),
        confidence: String::from_str("exact"),
        items: Vec::new(),
    };
    proof {
        assert(r@.key =~= finding_value(*scope, target@, property@, source@, candidate@, opt_seq(delta)).key);
        assert(r@.line =~= finding_value(*scope, target@, property@, source@, candidate@, opt_seq(delta)).line);
        assert(r@.items =~= Seq::<Seq<char>>::empty());
    }
    r
}


/// Where a scenario sorts in a report: the recorded base state first, then
/// the swept intervals, then interactions, and the load state last.
pub open spec fn scenario_order(v: Seq<char>) -> u8 {
    if v == "base"@ {
        0
    } else if v == "sweep"@ {
        1
    } else if is_prefix("click:"@, v) {
        2
    } else if is_prefix("hover:"@, v) {
        3
    } else if is_prefix("animation:"@, v) {
        4
    } else if is_prefix("timer:"@, v) {
        5
    } else if v == "load"@ {
        6
    } else {
        7
    }
}

pub fn scenario_rank(value: &str) -> (r: u8)
    ensures
        r == scenario_order(value@),
{
    if str_eq(value, "base") {
        0
    } else if str_eq(value, "sweep") {
        1
    } else if starts_with(value, "click:") {
        2
    } else if starts_with(value, "hover:") {
        3
    } else if starts_with(value, "animation:") {
        4
    } else if starts_with(value, "timer:") {
        5
    } else if str_eq(value, "load") {
        6
    } else {
        7
    }
}

/// How many findings repeat a key an earlier finding already has.
pub open spec fn repeated_keys(s: Seq<FindingView>) -> nat
    decreases s.len(),
{
    if s.len() == 0 {
        0
    } else {
        repeated_keys(s.drop_last()) + if exists|j: int| 0 <= j < s.len() - 1 && #[trigger] s[j].key == s.last().key {
            1nat
        } else {
            0nat
        }
    }
}

/// The number of findings whose key an earlier finding already has.
pub fn duplicate_keys(findings: &Vec<Finding>) -> (r: usize)
    ensures
        r == repeated_keys(finding_views(findings@)),
{
    let ghost all = finding_views(findings@);
    let mut count: usize = 0;
    let mut i: usize = 0;
    while i < findings.len()
        invariant
            i <= findings@.len(),
            all == finding_views(findings@),
            count == repeated_keys(all.take(i as int)),
            count <= i,
        decreases findings@.len() - i,
    {
        let mut seen = false;
        let mut j: usize = 0;
        while j < i
            invariant
                j <= i < findings@.len(),
                all == finding_views(findings@),
                seen == exists|k: int| 0 <= k < j && #[trigger] all[k].key == all[i as int].key,
            decreases i - j,
        {
            assert(all[j as int] == findings@[j as int]@);
            assert(all[i as int] == findings@[i as int]@);
            let same = str_eq(findings[j].key.as_str(), findings[i].key.as_str());
            proof {
                assert(same == (all[j as int].key == all[i as int].key));
                if !same && !seen {
                    assert forall|k: int| 0 <= k < j + 1 implies !(#[trigger] all[k].key == all[i as int].key) by {
                        if k < j {
                            assert(!(all[k].key == all[i as int].key));
                        }
                    }
                }
            }
            if same {
                seen = true;
            }
            j += 1;
        }
        proof {
            let t = all.take(i + 1 as int);
            assert(t.drop_last() =~= all.take(i as int));
            assert(t.last() == all[i as int]);
            assert((exists|k: int| 0 <= k < t.len() - 1 && #[trigger] t[k].key == t.last().key) == seen) by {
                if seen {
                    let k = choose|k: int| 0 <= k < i && #[trigger] all[k].key == all[i as int].key;
                    assert(t[k].key == t.last().key);
                }
                if exists|k: int| 0 <= k < t.len() - 1 && #[trigger] t[k].key == t.last().key {
                    let k = choose|k: int| 0 <= k < t.len() - 1 && #[trigger] t[k].key == t.last().key;
                    assert(all[k].key == all[i as int].key);
                }
            }
        }
        if seen {
            count += 1;
        }
        i += 1;
    }
    assert(all.take(findings@.len() as int) =~= all);
    count
}

/// A difference that an element appearing, disappearing or resizing causes
/// elsewhere: a position, a height, a transform, or raw pixels.
pub open spec fn consequence(property: Seq<char>) -> bool {
    property == "x"@ || property == "y"@ || property == "height"@ || property == "transform"@
        || property == "pixels"@
}

fn is_consequence(property: &str) -> (r: bool)
    ensures
        r == consequence(property@),
{
    str_eq(property, "x") || str_eq(property, "y") || str_eq(property, "height") || str_eq(
        property,
        "transform",
    ) || str_eq(property, "pixels")
}

/// The findings that are not consequences, in order.
pub open spec fn primary(s: Seq<FindingView>) -> Seq<FindingView>
    decreases s.len(),
{
    if s.len() == 0 {
        seq![]
    } else if consequence(s.last().property) {
        primary(s.drop_last())
    } else {
        primary(s.drop_last()).push(s.last())
    }
}

/// Drops the differences an already-reported difference caused.
///
/// An element that appears, disappears or changes size moves everything
/// after it, so a position or height difference is only worth stating when
/// nothing else in the same comparison explains it.
pub open spec fn collapsed(s: Seq<FindingView>) -> Seq<FindingView> {
    if exists|i: int| 0 <= i < s.len() && !consequence(#[trigger] s[i].property) {
        primary(s)
    } else {
        s
    }
}

pub fn collapse_consequences(findings: &mut Vec<Finding>)
    ensures
        finding_views(final(findings)@) == collapsed(finding_views(old(findings)@)),
{
    let ghost all = finding_views(findings@);
    let mut kept: Vec<Finding> = Vec::new();
    let mut any_primary = false;
    let mut i: usize = 0;
    while i < findings.len()
        invariant
            i <= findings@.len(),
            all == finding_views(findings@),
            finding_views(kept@) == primary(all.take(i as int)),
            any_primary == exists|k: int| 0 <= k < i && !consequence(#[trigger] all[k].property),
        decreases findings@.len() - i,
    {
        proof {
            let t = all.take(i + 1 as int);
            assert(t.drop_last() =~= all.take(i as int));
            assert(t.last() == all[i as int]);
            assert(all[i as int] == findings@[i as int]@);
        }
        let follows = is_consequence(findings[i].property.as_str());
        proof {
            assert(follows == consequence(all[i as int].property));
            if follows && !any_primary {
                assert forall|k: int| 0 <= k < i + 1 implies consequence(#[trigger] all[k].property) by {
                    if k < i {
                        assert(consequence(all[k].property));
                    }
                }
            }
        }
        if !follows {
            kept.push(findings[i].duplicate());
            any_primary = true;
            assert(finding_views(kept@) =~= primary(all.take(i as int)).push(all[i as int]));
        }
        i += 1;
    }
    assert(all.take(findings@.len() as int) =~= all);
    if any_primary {
        *findings = kept;
    }
}


/// Where an animated scenario is being compared.
pub open spec fn animating(scope: Scope) -> bool {
    is_prefix("animation:"@, scope_scenario(scope))
}

/// The content property a node's rendered pixels are compared under: only
/// images and inline SVG with a recorded hash on both sides.
pub open spec fn content_property(s: NodeEvidence, c: NodeEvidence) -> Option<Seq<char>> {
    if s.rendered_content_sha256@.len() == 0 || c.rendered_content_sha256@.len() == 0 || s.tag@ != c.tag@ {
        None
    } else if s.tag@ == "img"@ {
        Some("image-content"@)
    } else if s.tag@ == "svg"@ {
        Some("svg-content"@)
    } else {
        None
    }
}

/// Milliseconds as a finding writes them.
pub open spec fn ms(v: int) -> Seq<char> {
    signed_decimal(v) + "ms"@
}

/// An optional duration, absent counting as zero.
pub open spec fn or_zero_u(v: Option<u64>) -> int {
    match v {
        Some(x) => x as int,
        None => 0,
    }
}

/// An optional delay, absent counting as zero.
pub open spec fn or_zero_i(v: Option<i64>) -> int {
    match v {
        Some(x) => x as int,
        None => 0,
    }
}

/// What the node is: its tag, place in the tree, text, visibility,
/// accessibility and rendered content.
pub open spec fn identity_difference(scope: Scope, target: Seq<char>, s: NodeEvidence, c: NodeEvidence) -> Option<
    FindingView,
> {
    if s.tag@ != c.tag@ {
        Some(finding_value(scope, target, "node"@, s.tag@, c.tag@, None))
    } else if s.parent@ != c.parent@ {
        Some(finding_value(scope, target, "parent"@, s.parent@, c.parent@, None))
    } else if s.order != c.order {
        Some(finding_value(scope, target, "order"@, decimal(s.order as nat), decimal(c.order as nat), None))
    } else if s.text@ != c.text@ {
        Some(finding_value(scope, target, "text"@, quoted_value(s.text@), quoted_value(c.text@), None))
    } else if s.visible != c.visible {
        Some(
            finding_value(
                scope,
                target,
                "visibility"@,
                visibility_word(s.visible),
                visibility_word(c.visible),
                None,
            ),
        )
    } else if s.role@ != c.role@ {
        Some(finding_value(scope, target, "role"@, s.role@, c.role@, None))
    } else if s.accessible_name@ != c.accessible_name@ {
        Some(
            finding_value(
                scope,
                target,
                "name"@,
                quoted_value(s.accessible_name@),
                quoted_value(c.accessible_name@),
                None,
            ),
        )
    } else if content_property(s, c) is Some && s.rendered_content_sha256@ != c.rendered_content_sha256@ {
        Some(finding_value(scope, target, content_property(s, c)->0, "expected"@, "different"@, None))
    } else {
        None
    }
}

/// The animation timing of a node.
pub open spec fn timing_difference(scope: Scope, target: Seq<char>, s: NodeEvidence, c: NodeEvidence) -> Option<
    FindingView,
> {
    if s.animation_duration_ms != c.animation_duration_ms {
        Some(
            finding_value(
                scope,
                target,
                "duration"@,
                ms(or_zero_u(s.animation_duration_ms)),
                ms(or_zero_u(c.animation_duration_ms)),
                Some(
                    signed_delta_value(or_zero_u(c.animation_duration_ms) - or_zero_u(s.animation_duration_ms))
                        + "ms"@,
                ),
            ),
        )
    } else if s.animation_delay_ms != c.animation_delay_ms {
        Some(
            finding_value(
                scope,
                target,
                "delay"@,
                ms(or_zero_i(s.animation_delay_ms)),
                ms(or_zero_i(c.animation_delay_ms)),
                Some(signed_delta_value(or_zero_i(c.animation_delay_ms) - or_zero_i(s.animation_delay_ms)) + "ms"@),
            ),
        )
    } else if s.animation_easing@ != c.animation_easing@ {
        Some(finding_value(scope, target, "easing"@, s.animation_easing@, c.animation_easing@, None))
    } else if s.animation_direction@ != c.animation_direction@ {
        Some(finding_value(scope, target, "direction"@, s.animation_direction@, c.animation_direction@, None))
    } else {
        None
    }
}

/// One length compared to half a pixel.
pub open spec fn length_difference(scope: Scope, target: Seq<char>, property: Seq<char>, e: i64, a: i64) -> Option<
    FindingView,
> {
    if e - a >= 50 || a - e >= 50 {
        Some(
            finding_value(
                scope,
                target,
                property,
                compact_value(e as int),
                compact_value(a as int),
                Some(signed_value(a - e) + "px"@),
            ),
        )
    } else {
        None
    }
}

/// Position and size, when both boxes have an area. Position is skipped for
/// an animated node outside an animation scenario, where it depends on the
/// moment it was captured.
pub open spec fn geometry_difference(scope: Scope, target: Seq<char>, s: NodeEvidence, c: NodeEvidence) -> Option<
    FindingView,
> {
    if !(s.width > 0 && s.height > 0 && c.width > 0 && c.height > 0) {
        None
    } else {
        let positioned = (!s.animated && !c.animated) || animating(scope);
        if positioned && length_difference(scope, target, "x"@, s.x, c.x) is Some {
            length_difference(scope, target, "x"@, s.x, c.x)
        } else if positioned && length_difference(scope, target, "y"@, s.y, c.y) is Some {
            length_difference(scope, target, "y"@, s.y, c.y)
        } else if length_difference(scope, target, "width"@, s.width, c.width) is Some {
            length_difference(scope, target, "width"@, s.width, c.width)
        } else {
            length_difference(scope, target, "height"@, s.height, c.height)
        }
    }
}

/// Computed style. A node that animates outside an animation scenario is
/// captured mid-motion, so its transform is not compared there.
pub open spec fn style_difference(scope: Scope, target: Seq<char>, s: NodeEvidence, c: NodeEvidence) -> Option<
    FindingView,
> {
    let transform = if s.animated && !animating(scope) {
        c.transform@
    } else {
        s.transform@
    };
    if s.background@ != c.background@ {
        Some(finding_value(scope, target, "background"@, s.background@, c.background@, None))
    } else if s.font_weight@ != c.font_weight@ {
        Some(finding_value(scope, target, "font-weight"@, s.font_weight@, c.font_weight@, None))
    } else if s.color@ != c.color@ {
        Some(finding_value(scope, target, "color"@, s.color@, c.color@, None))
    } else if s.border_color@ != c.border_color@ {
        Some(finding_value(scope, target, "border-color"@, s.border_color@, c.border_color@, None))
    } else if s.border_radius@ != c.border_radius@ {
        Some(finding_value(scope, target, "border-radius"@, s.border_radius@, c.border_radius@, None))
    } else if s.box_shadow@ != c.box_shadow@ {
        Some(finding_value(scope, target, "box-shadow"@, s.box_shadow@, c.box_shadow@, None))
    } else if s.opacity@ != c.opacity@ {
        Some(finding_value(scope, target, "opacity"@, s.opacity@, c.opacity@, None))
    } else if transform != c.transform@ {
        Some(finding_value(scope, target, "transform"@, transform, c.transform@, None))
    } else {
        None
    }
}

/// The first difference between two nodes under one target, in the order a
/// reader needs them: what the node is, its animation in an animation
/// scenario, its box, its style, its timing, and its motions.
pub open spec fn node_difference(scope: Scope, target: Seq<char>, s: NodeEvidence, c: NodeEvidence) -> Option<
    FindingView,
> {
    if identity_difference(scope, target, s, c) is Some {
        identity_difference(scope, target, s, c)
    } else if animating(scope) && timing_difference(scope, target, s, c) is Some {
        timing_difference(scope, target, s, c)
    } else if geometry_difference(scope, target, s, c) is Some {
        geometry_difference(scope, target, s, c)
    } else if style_difference(scope, target, s, c) is Some {
        style_difference(scope, target, s, c)
    } else if timing_difference(scope, target, s, c) is Some {
        timing_difference(scope, target, s, c)
    } else {
        motion_difference(scope, target, s.motions@, c.motions@)
    }
}


pub fn content_property_of(s: &NodeEvidence, c: &NodeEvidence) -> (r: Option<&'static str>)
    ensures
        match r {
            Some(p) => content_property(*s, *c) == Some(p@),
            None => content_property(*s, *c) is None,
        },
{
    if s.rendered_content_sha256.as_str().unicode_len() == 0 || c.rendered_content_sha256.as_str().unicode_len()
        == 0 || !str_eq(s.tag.as_str(), c.tag.as_str()) {
        None
    } else if str_eq(s.tag.as_str(), "img") {
        Some("image-content")
    } else if str_eq(s.tag.as_str(), "svg") {
        Some("svg-content")
    } else {
        None
    }
}

fn ms_of(v: i128) -> (r: String)
    requires
        v > i128::MIN,
    ensures
        r@ == ms(v as int),
{
    let mut r = String::new();
    push_signed_decimal(&mut r, v);
    push_str(&mut r, "ms");
    r
}

fn identity_diff(scope: &Scope, target: &str, s: &NodeEvidence, c: &NodeEvidence) -> (r: Option<Finding>)
    ensures
        finding_opt(r) == identity_difference(*scope, target@, *s, *c),
{
    if !str_eq(s.tag.as_str(), c.tag.as_str()) {
        return Some(finding(scope, target, "node", s.tag.as_str(), c.tag.as_str(), None));
    }
    if !str_eq(s.parent.as_str(), c.parent.as_str()) {
        return Some(finding(scope, target, "parent", s.parent.as_str(), c.parent.as_str(), None));
    }
    if s.order != c.order {
        let so = crate::text::decimal_string(s.order as u128);
        let co = crate::text::decimal_string(c.order as u128);
        return Some(finding(scope, target, "order", so.as_str(), co.as_str(), None));
    }
    if !str_eq(s.text.as_str(), c.text.as_str()) {
        return Some(
            finding(scope, target, "text", quoted(s.text.as_str()).as_str(), quoted(c.text.as_str()).as_str(), None),
        );
    }
    if s.visible != c.visible {
        return Some(
            finding(
                scope,
                target,
                "visibility",
                visibility(s.visible).as_str(),
                visibility(c.visible).as_str(),
                None,
            ),
        );
    }
    if !str_eq(s.role.as_str(), c.role.as_str()) {
        return Some(finding(scope, target, "role", s.role.as_str(), c.role.as_str(), None));
    }
    if !str_eq(s.accessible_name.as_str(), c.accessible_name.as_str()) {
        return Some(
            finding(
                scope,
                target,
                "name",
                quoted(s.accessible_name.as_str()).as_str(),
                quoted(c.accessible_name.as_str()).as_str(),
                None,
            ),
        );
    }
    match content_property_of(s, c) {
        Some(property) => {
            if !str_eq(s.rendered_content_sha256.as_str(), c.rendered_content_sha256.as_str()) {
                return Some(finding(scope, target, property, "expected", "different", None));
            }
        },
        None => {},
    }
    None
}

fn timing_diff(scope: &Scope, target: &str, s: &NodeEvidence, c: &NodeEvidence) -> (r: Option<Finding>)
    ensures
        finding_opt(r) == timing_difference(*scope, target@, *s, *c),
{
    if s.animation_duration_ms != c.animation_duration_ms {
        let sv: u64 = match s.animation_duration_ms {
            Some(v) => v,
            None => 0,
        };
        let cv: u64 = match c.animation_duration_ms {
            Some(v) => v,
            None => 0,
        };
        let mut delta = signed_delta(cv as i128 - sv as i128);
        push_str(&mut delta, "ms");
        return Some(
            finding(scope, target, "duration", ms_of(sv as i128).as_str(), ms_of(cv as i128).as_str(), Some(delta)),
        );
    }
    if s.animation_delay_ms != c.animation_delay_ms {
        let sv: i64 = match s.animation_delay_ms {
            Some(v) => v,
            None => 0,
        };
        let cv: i64 = match c.animation_delay_ms {
            Some(v) => v,
            None => 0,
        };
        let mut delta = signed_delta(cv as i128 - sv as i128);
        push_str(&mut delta, "ms");
        return Some(
            finding(scope, target, "delay", ms_of(sv as i128).as_str(), ms_of(cv as i128).as_str(), Some(delta)),
        );
    }
    if !str_eq(s.animation_easing.as_str(), c.animation_easing.as_str()) {
        return Some(
            finding(scope, target, "easing", s.animation_easing.as_str(), c.animation_easing.as_str(), None),
        );
    }
    if !str_eq(s.animation_direction.as_str(), c.animation_direction.as_str()) {
        return Some(
            finding(scope, target, "direction", s.animation_direction.as_str(), c.animation_direction.as_str(), None),
        );
    }
    None
}

fn length_diff(scope: &Scope, target: &str, property: &str, e: i64, a: i64) -> (r: Option<Finding>)
    ensures
        finding_opt(r) == length_difference(*scope, target@, property@, e, a),
{
    let d: i128 = a as i128 - e as i128;
    if d >= 50 || d <= -50 {
        let mut delta = signed_number(d);
        push_str(&mut delta, "px");
        Some(
            finding(
                scope,
                target,
                property,
                compact_number(e as i128).as_str(),
                compact_number(a as i128).as_str(),
                Some(delta),
            ),
        )
    } else {
        None
    }
}

fn geometry_diff(scope: &Scope, target: &str, s: &NodeEvidence, c: &NodeEvidence) -> (r: Option<Finding>)
    ensures
        finding_opt(r) == geometry_difference(*scope, target@, *s, *c),
{
    if !(s.width > 0 && s.height > 0 && c.width > 0 && c.height > 0) {
        return None;
    }
    let scenario = scope.scenario();
    let positioned = (!s.animated && !c.animated) || starts_with(scenario.as_str(), "animation:");
    if positioned {
        let r = length_diff(scope, target, "x", s.x, c.x);
        if r.is_some() {
            return r;
        }
        let r = length_diff(scope, target, "y", s.y, c.y);
        if r.is_some() {
            return r;
        }
    }
    let r = length_diff(scope, target, "width", s.width, c.width);
    if r.is_some() {
        return r;
    }
    length_diff(scope, target, "height", s.height, c.height)
}

fn style_diff(scope: &Scope, target: &str, s: &NodeEvidence, c: &NodeEvidence) -> (r: Option<Finding>)
    ensures
        finding_opt(r) == style_difference(*scope, target@, *s, *c),
{
    let scenario = scope.scenario();
    let transform = if s.animated && !starts_with(scenario.as_str(), "animation:") {
        c.transform.as_str()
    } else {
        s.transform.as_str()
    };
    if !str_eq(s.background.as_str(), c.background.as_str()) {
        return Some(finding(scope, target, "background", s.background.as_str(), c.background.as_str(), None));
    }
    if !str_eq(s.font_weight.as_str(), c.font_weight.as_str()) {
        return Some(finding(scope, target, "font-weight", s.font_weight.as_str(), c.font_weight.as_str(), None));
    }
    if !str_eq(s.color.as_str(), c.color.as_str()) {
        return Some(finding(scope, target, "color", s.color.as_str(), c.color.as_str(), None));
    }
    if !str_eq(s.border_color.as_str(), c.border_color.as_str()) {
        return Some(
            finding(scope, target, "border-color", s.border_color.as_str(), c.border_color.as_str(), None),
        );
    }
    if !str_eq(s.border_radius.as_str(), c.border_radius.as_str()) {
        return Some(
            finding(scope, target, "border-radius", s.border_radius.as_str(), c.border_radius.as_str(), None),
        );
    }
    if !str_eq(s.box_shadow.as_str(), c.box_shadow.as_str()) {
        return Some(finding(scope, target, "box-shadow", s.box_shadow.as_str(), c.box_shadow.as_str(), None));
    }
    if !str_eq(s.opacity.as_str(), c.opacity.as_str()) {
        return Some(finding(scope, target, "opacity", s.opacity.as_str(), c.opacity.as_str(), None));
    }
    if !str_eq(transform, c.transform.as_str()) {
        return Some(finding(scope, target, "transform", transform, c.transform.as_str(), None));
    }
    None
}

/// The first difference between two nodes under one target.
pub fn compare_node(scope: &Scope, target: &str, source: &NodeEvidence, candidate: &NodeEvidence) -> (r:
    Option<Finding>)
    requires
        motions_wf(source.motions@),
        motions_wf(candidate.motions@),
    ensures
        finding_opt(r) == node_difference(*scope, target@, *source, *candidate),
{
    let r = identity_diff(scope, target, source, candidate);
    if r.is_some() {
        return r;
    }
    let scenario = scope.scenario();
    if starts_with(scenario.as_str(), "animation:") {
        let r = timing_diff(scope, target, source, candidate);
        if r.is_some() {
            return r;
        }
    }
    let r = geometry_diff(scope, target, source, candidate);
    if r.is_some() {
        return r;
    }
    let r = style_diff(scope, target, source, candidate);
    if r.is_some() {
        return r;
    }
    let r = timing_diff(scope, target, source, candidate);
    if r.is_some() {
        return r;
    }
    compare_motion(scope, target, source, candidate)
}

/// A node compared with itself yields no finding, in any scope.
pub proof fn a_node_compared_with_itself_differs_in_nothing(scope: Scope, target: Seq<char>, n: NodeEvidence)
    ensures
        node_difference(scope, target, n, n) is None,
{
    a_motion_list_compared_with_itself_differs_in_nothing(scope, target, n.motions@);
}

/// Outside an animation scenario an animated node is captured mid-motion,
/// so its position is not compared, and the transform of an animated source
/// node is not compared either: the first difference is the same whatever
/// position (and, for an animated source, transform) the source holds.
pub proof fn an_animated_nodes_position_and_transform_are_not_compared(
    scope: Scope,
    target: Seq<char>,
    s: NodeEvidence,
    c: NodeEvidence,
)
    requires
        !animating(scope),
    ensures
        s.animated || c.animated ==> node_difference(scope, target, s, c) == node_difference(
            scope,
            target,
            NodeEvidence { x: c.x, y: c.y, ..s },
            c,
        ),
        s.animated ==> node_difference(scope, target, s, c) == node_difference(
            scope,
            target,
            NodeEvidence { x: c.x, y: c.y, transform: c.transform, ..s },
            c,
        ),
{
}

proof fn lemma_node_literals()
    ensures
        not_moved("node"@),
        not_moved("parent"@),
        not_moved("order"@),
        not_moved("text"@),
        not_moved("visibility"@),
        not_moved("role"@),
        not_moved("name"@),
        not_moved("image-content"@),
        not_moved("svg-content"@),
        not_moved("duration"@),
        not_moved("delay"@),
        not_moved("easing"@),
        not_moved("direction"@),
        not_moved("width"@),
        not_moved("height"@),
        not_moved("background"@),
        not_moved("font-weight"@),
        not_moved("color"@),
        not_moved("border-color"@),
        not_moved("border-radius"@),
        not_moved("box-shadow"@),
        not_moved("opacity"@),
        "transform"@ != "x"@ && "transform"@ != "y"@,
{
    reveal_strlit("x");
    reveal_strlit("y");
    reveal_strlit("transform");
    reveal_strlit("node");
    reveal_strlit("parent");
    reveal_strlit("order");
    reveal_strlit("text");
    reveal_strlit("visibility");
    reveal_strlit("role");
    reveal_strlit("name");
    reveal_strlit("image-content");
    reveal_strlit("svg-content");
    reveal_strlit("duration");
    reveal_strlit("delay");
    reveal_strlit("easing");
    reveal_strlit("direction");
    reveal_strlit("width");
    reveal_strlit("height");
    reveal_strlit("background");
    reveal_strlit("font-weight");
    reveal_strlit("color");
    reveal_strlit("border-color");
    reveal_strlit("border-radius");
    reveal_strlit("box-shadow");
    reveal_strlit("opacity");
    assert("x"@.len() == 1 && "y"@.len() == 1 && "transform"@.len() == 9);
    assert("node"@.len() == 4 && "parent"@.len() == 6 && "order"@.len() == 5 && "text"@.len() == 4);
    assert("visibility"@.len() == 10 && "role"@.len() == 4 && "name"@.len() == 4);
    assert("image-content"@.len() == 13 && "svg-content"@.len() == 11);
    assert("duration"@.len() == 8 && "delay"@.len() == 5 && "easing"@.len() == 6);
    assert("direction"@.len() == 9 && "direction"@[0] != "transform"@[0]);
    assert("width"@.len() == 5 && "height"@.len() == 6 && "background"@.len() == 10);
    assert("font-weight"@.len() == 11 && "color"@.len() == 5 && "border-color"@.len() == 12);
    assert("border-radius"@.len() == 13 && "box-shadow"@.len() == 10 && "opacity"@.len() == 7);
}

/// Outside an animation scenario an animated node is never reported with a
/// position (`x`, `y`), and an animated source node never with a
/// `transform`: what differs there depends on the moment it was captured.
pub proof fn an_animated_node_is_never_reported_by_position_or_transform(
    scope: Scope,
    target: Seq<char>,
    s: NodeEvidence,
    c: NodeEvidence,
)
    requires
        !animating(scope),
        s.animated || c.animated,
    ensures
        node_difference(scope, target, s, c) matches Some(f) ==> f.property != "x"@ && f.property != "y"@,
        s.animated ==> (node_difference(scope, target, s, c) matches Some(f) ==> not_moved(f.property)),
{
    lemma_node_literals();
    a_motion_finding_is_never_a_position_or_transform(scope, target, s.motions@, c.motions@);
    if content_property(s, c) is Some {
        assert(content_property(s, c)->0 == "image-content"@ || content_property(s, c)->0 == "svg-content"@);
    }
    if s.animated {
        assert(!(if s.animated && !animating(scope) { c.transform@ } else { s.transform@ } != c.transform@));
    }
}

/// The keys of a list of findings, in order.
pub open spec fn keys_of(s: Seq<FindingView>) -> Seq<Seq<char>> {
    s.map_values(|f: FindingView| f.key)
}

/// Every finding repeats a key or brings a new one: the repeated ones
/// number the findings less the distinct keys, and there are none exactly
/// when no two findings share a key.
pub proof fn repeated_keys_count_the_findings_beyond_the_distinct_keys(s: Seq<FindingView>)
    ensures
        repeated_keys(s) + keys_of(s).to_set().len() == s.len(),
        repeated_keys(s) == 0 <==> forall|i: int, j: int| 0 <= i < j < s.len() ==> s[i].key != s[j].key,
    decreases s.len(),
{
    if s.len() == 0 {
        assert(keys_of(s).to_set() =~= Set::<Seq<char>>::empty());
    } else {
        let t = s.drop_last();
        repeated_keys_count_the_findings_beyond_the_distinct_keys(t);
        assert(keys_of(s) =~= keys_of(t).push(s.last().key));
        keys_of(t).lemma_push_to_set_commute(s.last().key);
        vstd::seq_lib::seq_to_set_is_finite(keys_of(t));
        let seen = exists|j: int| 0 <= j < s.len() - 1 && #[trigger] s[j].key == s.last().key;
        if seen {
            let j = choose|j: int| 0 <= j < s.len() - 1 && #[trigger] s[j].key == s.last().key;
            assert(keys_of(t)[j] == s.last().key);
            assert(keys_of(t).to_set().contains(s.last().key));
            assert(keys_of(t).to_set().insert(s.last().key) =~= keys_of(t).to_set());
            assert(repeated_keys(s) > 0);
        } else {
            assert(!keys_of(t).to_set().contains(s.last().key)) by {
                if keys_of(t).to_set().contains(s.last().key) {
                    let j = choose|j: int| 0 <= j < keys_of(t).len() && keys_of(t)[j] == s.last().key;
                    assert(s[j].key == s.last().key);
                }
            }
            assert forall|i: int, j: int| 0 <= i < j < s.len() && repeated_keys(t) == 0 implies s[i].key != s[j].key by {
                if j == s.len() - 1 {
                    assert(!(s[i].key == s.last().key));
                } else {
                    assert(t[i] == s[i] && t[j] == s[j]);
                }
            }
        }
        if repeated_keys(s) == 0 {
            assert forall|i: int, j: int| 0 <= i < j < t.len() implies t[i].key != t[j].key by {
                assert(t[i] == s[i] && t[j] == s[j]);
            }
        }
        if forall|i: int, j: int| 0 <= i < j < s.len() ==> s[i].key != s[j].key {
            assert forall|i: int, j: int| 0 <= i < j < t.len() implies t[i].key != t[j].key by {
                assert(t[i] == s[i] && t[j] == s[j]);
            }
            assert(!seen) by {
                if seen {
                    let j = choose|j: int| 0 <= j < s.len() - 1 && #[trigger] s[j].key == s.last().key;
                    assert(s[j].key != s[s.len() - 1].key);
                }
            }
        }
    }
}

/// Two nodes that differ only in their shadow are reported by it: the
/// difference names `box-shadow` and carries both shadows as recorded.
pub proof fn a_shadow_that_alone_differs_is_reported(
    scope: Scope,
    target: Seq<char>,
    s: NodeEvidence,
    c: NodeEvidence,
)
    requires
        c == (NodeEvidence { box_shadow: c.box_shadow, ..s }),
        s.box_shadow@ != c.box_shadow@,
    ensures
        node_difference(scope, target, s, c) matches Some(f) && f.property == "box-shadow"@
            && f.source == s.box_shadow@ && f.candidate == c.box_shadow@ && f.target == target,
{
    a_node_compared_with_itself_differs_in_nothing(scope, target, s);
    assert(identity_difference(scope, target, s, c) == identity_difference(scope, target, s, s));
    assert(timing_difference(scope, target, s, c) == timing_difference(scope, target, s, s));
    assert(geometry_difference(scope, target, s, c) == geometry_difference(scope, target, s, s));
}

/// Two nodes that differ in one recorded string alone are reported by
/// it: what the node is (`node`, `parent`, `role`), its computed style,
/// or its animation's easing or direction, each with both values as
/// recorded.
pub proof fn a_value_that_alone_differs_is_reported(scope: Scope, target: Seq<char>, s: NodeEvidence, c: NodeEvidence)
    ensures
        c == (NodeEvidence { tag: c.tag, ..s }) && s.tag@ != c.tag@ ==> (node_difference(scope, target, s, c) matches Some(f) && f.property == "node"@
            && f.source == s.tag@ && f.candidate == c.tag@),
        c == (NodeEvidence { parent: c.parent, ..s }) && s.parent@ != c.parent@ ==> (node_difference(scope, target, s, c) matches Some(f) && f.property == "parent"@
            && f.source == s.parent@ && f.candidate == c.parent@),
        c == (NodeEvidence { role: c.role, ..s }) && s.role@ != c.role@ ==> (node_difference(scope, target, s, c) matches Some(f) && f.property == "role"@
            && f.source == s.role@ && f.candidate == c.role@),
        c == (NodeEvidence { background: c.background, ..s }) && s.background@ != c.background@ ==> (node_difference(scope, target, s, c) matches Some(f) && f.property == "background"@
            && f.source == s.background@ && f.candidate == c.background@),
        c == (NodeEvidence { font_weight: c.font_weight, ..s }) && s.font_weight@ != c.font_weight@ ==> (node_difference(scope, target, s, c) matches Some(f) && f.property == "font-weight"@
            && f.source == s.font_weight@ && f.candidate == c.font_weight@),
        c == (NodeEvidence { color: c.color, ..s }) && s.color@ != c.color@ ==> (node_difference(scope, target, s, c) matches Some(f) && f.property == "color"@
            && f.source == s.color@ && f.candidate == c.color@),
        c == (NodeEvidence { border_color: c.border_color, ..s }) && s.border_color@ != c.border_color@ ==> (node_difference(scope, target, s, c) matches Some(f) && f.property == "border-color"@
            && f.source == s.border_color@ && f.candidate == c.border_color@),
        c == (NodeEvidence { border_radius: c.border_radius, ..s }) && s.border_radius@ != c.border_radius@ ==> (node_difference(scope, target, s, c) matches Some(f) && f.property == "border-radius"@
            && f.source == s.border_radius@ && f.candidate == c.border_radius@),
        c == (NodeEvidence { opacity: c.opacity, ..s }) && s.opacity@ != c.opacity@ ==> (node_difference(scope, target, s, c) matches Some(f) && f.property == "opacity"@
            && f.source == s.opacity@ && f.candidate == c.opacity@),
        c == (NodeEvidence { animation_easing: c.animation_easing, ..s }) && s.animation_easing@ != c.animation_easing@ ==> (node_difference(scope, target, s, c) matches Some(f) && f.property == "easing"@
            && f.source == s.animation_easing@ && f.candidate == c.animation_easing@),
        c == (NodeEvidence { animation_direction: c.animation_direction, ..s }) && s.animation_direction@ != c.animation_direction@ ==> (node_difference(scope, target, s, c) matches Some(f) && f.property == "direction"@
            && f.source == s.animation_direction@ && f.candidate == c.animation_direction@),
{
    a_node_compared_with_itself_differs_in_nothing(scope, target, s);
}

} // verus!
