//! Comparing one recorded state of a page whose elements carry authored
//! targets, and the state-wide checks every comparison shares: pending
//! work, layout shift, stylesheet breakpoints and rendered pixels.
use crate::backtest::compare::{
    Scope, collapse_consequences, collapsed, compare_node, finding, finding_value, node_difference,
};
use crate::backtest::motion::motions_wf;
use crate::backtest::display::{signed_delta, signed_delta_value};
use crate::backtest::model::{
    Finding, FindingView, LayoutShiftEvidence, NodeEvidence, RasterTileEvidence, State, finding_views,
};
use crate::backtest::semantic::{semantic_target, target_of};
use crate::keyed::{entries, get, has_key, keys_distinct, lemma_lookup_distinct, lookup, union_keys};
use crate::order::{ascending_strings, enumerate_strings, insert_string, lemma_enumerate_strings, views};
use crate::text::{contains_seq, contains_str, decimal, is_prefix, push_char, push_decimal, push_str, replace_all, replaced, starts_with, str_eq};
use vstd::prelude::*;

verus! {

broadcast use vstd::string::group_string_axioms;

/// The scope of a recorded state: its width and scenario.
pub open spec fn scope_of(s: State) -> Scope {
    Scope::Recorded { viewport: s.viewport.width, scenario: s.scenario }
}

pub fn state_scope(s: &State) -> (r: Scope)
    ensures
        r == scope_of(*s),
{
    Scope::Recorded { viewport: s.viewport.width, scenario: s.scenario.clone() }
}

/// The summed layout-shift score of a state, in millionths.
pub open spec fn shift_total(shifts: Seq<LayoutShiftEvidence>) -> int
    decreases shifts.len(),
{
    if shifts.len() == 0 {
        0
    } else {
        shift_total(shifts.drop_last()) + shifts.last().value
    }
}

pub fn layout_shift_total(state: &State) -> (r: i128)
    requires
        state.runtime.layout_shifts@.len() < 0x1_0000_0000,
    ensures
        r == shift_total(state.runtime.layout_shifts@),
{
    let shifts = &state.runtime.layout_shifts;
    let mut total: i128 = 0;
    let mut i: usize = 0;
    while i < shifts.len()
        invariant
            i <= shifts@.len(),
            total == shift_total(shifts@.take(i as int)),
            shifts@.len() < 0x1_0000_0000,
            -(i as int) * 0x8000_0000_0000_0000 <= total <= (i as int) * 0x8000_0000_0000_0000,
        decreases shifts@.len() - i,
    {
        assert(shifts@.take(i + 1 as int).drop_last() =~= shifts@.take(i as int));
        total = total + shifts[i].value as i128;
        i += 1;
    }
    assert(shifts@.take(shifts@.len() as int) =~= shifts@);
    total
}

/// A score in millionths without false precision: a whole number when it
/// is within a hundredth of one, otherwise two decimals.
pub open spec fn compact_millionths(m: int) -> Seq<char> {
    let a = if m < 0 { -m } else { m };
    let sign: Seq<char> = if m < 0 { seq!['-'] } else { seq![] };
    let h = (a + 5000) / 10000;
    if a % 1_000_000 < 10000 {
        if a / 1_000_000 == 0 {
            "0"@
        } else {
            sign + decimal((a / 1_000_000) as nat)
        }
    } else {
        sign + decimal((h / 100) as nat) + seq!['.'] + crate::backtest::display::two_digits((h % 100) as nat)
    }
}

/// A score in millionths with an explicit sign.
pub open spec fn signed_millionths(m: int) -> Seq<char> {
    let c = compact_millionths(m);
    if c.len() > 0 && c[0] == '-' {
        c
    } else {
        seq!['+'] + c
    }
}

pub fn compact_score(m: i128) -> (r: String)
    requires
        m > i128::MIN,
    ensures
        r@ == compact_millionths(m as int),
{
    let a: u128 = if m < 0 { (-m) as u128 } else { m as u128 };
    let mut r = String::new();
    let rest = a % 1_000_000;
    if rest < 10000 {
        let whole = a / 1_000_000;
        if whole == 0 {
            push_char(&mut r, '0');
            proof {
                reveal_strlit("0");
            }
        } else {
            if m < 0 {
                push_char(&mut r, '-');
            }
            push_decimal(&mut r, whole);
        }
    } else {
        let h = a / 10000 + (if a % 10000 >= 5000 { 1 } else { 0 });
        assert(h == (a + 5000) / 10000);
        if m < 0 {
            push_char(&mut r, '-');
        }
        push_decimal(&mut r, h / 100);
        push_char(&mut r, '.');
        let f = h % 100;
        push_char(&mut r, ((f / 10) as u8 + 48) as char);
        push_char(&mut r, ((f % 10) as u8 + 48) as char);
    }
    assert(r@ =~= compact_millionths(m as int));
    r
}

pub fn signed_score(m: i128) -> (r: String)
    requires
        m > i128::MIN,
    ensures
        r@ == signed_millionths(m as int),
{
    let c = compact_score(m);
    let cs = crate::text::chars_of(c.as_str());
    if cs.len() > 0 && cs[0] == '-' {
        c
    } else {
        let mut r = String::new();
        push_char(&mut r, '+');
        push_str(&mut r, c.as_str());
        assert(r@ =~= signed_millionths(m as int));
        r
    }
}

/// The first source named by any layout shift, source side first.
pub open spec fn first_shift_source(shifts: Seq<LayoutShiftEvidence>) -> Option<Seq<char>>
    decreases shifts.len(),
{
    if shifts.len() == 0 {
        None
    } else if shifts[0].sources@.len() > 0 {
        Some(shifts[0].sources@[0]@)
    } else {
        first_shift_source(shifts.drop_first())
    }
}

/// Where a shift is reported: near the first element any shift names.
pub open spec fn shift_label(s: State, c: State) -> Seq<char> {
    match first_shift_source(s.runtime.layout_shifts@ + c.runtime.layout_shifts@) {
        Some(src) => "layout near "@ + src,
        None => "layout"@,
    }
}

/// Work still pending when the state was captured, and layout that moved
/// on its own.
pub open spec fn pending_findings(s: State, c: State) -> Seq<FindingView> {
    let scope = scope_of(s);
    let st = s.runtime.pending_timers;
    let ct = c.runtime.pending_timers;
    let sf = s.runtime.pending_frames;
    let cf = c.runtime.pending_frames;
    let ss = shift_total(s.runtime.layout_shifts@);
    let cs = shift_total(c.runtime.layout_shifts@);
    (if st != ct {
        seq![
            finding_value(
                scope,
                "runtime"@,
                "pending-timers"@,
                decimal(st as nat),
                decimal(ct as nat),
                Some(signed_delta_value(ct - st)),
            ),
        ]
    } else {
        seq![]
    }) + (if sf != cf {
        seq![
            finding_value(
                scope,
                "runtime"@,
                "pending-frames"@,
                decimal(sf as nat),
                decimal(cf as nat),
                Some(signed_delta_value(cf - sf)),
            ),
        ]
    } else {
        seq![]
    }) + (if ss - cs >= 1000 || cs - ss >= 1000 {
        seq![
            finding_value(
                scope,
                shift_label(s, c),
                "shift-score"@,
                compact_millionths(ss),
                compact_millionths(cs),
                Some(signed_millionths(cs - ss)),
            ),
        ]
    } else {
        seq![]
    })
}

fn first_source(shifts: &Vec<LayoutShiftEvidence>) -> (r: Option<String>)
    ensures
        match r {
            Some(v) => first_shift_source(shifts@) == Some(v@),
            None => first_shift_source(shifts@) is None,
        },
{
    let mut i: usize = 0;
    assert(shifts@.skip(0) =~= shifts@);
    while i < shifts.len()
        invariant
            i <= shifts@.len(),
            first_shift_source(shifts@) == first_shift_source(shifts@.skip(i as int)),
        decreases shifts@.len() - i,
    {
        assert(shifts@.skip(i as int)[0] == shifts@[i as int]);
        if shifts[i].sources.len() > 0 {
            return Some(shifts[i].sources[0].clone());
        }
        assert(shifts@.skip(i as int).drop_first() =~= shifts@.skip(i + 1));
        i += 1;
    }
    None
}

/// The first source of a pair of shift lists, the first list first.
proof fn lemma_first_source_concat(a: Seq<LayoutShiftEvidence>, b: Seq<LayoutShiftEvidence>)
    ensures
        first_shift_source(a + b) == match first_shift_source(a) {
            Some(v) => Some(v),
            None => first_shift_source(b),
        },
    decreases a.len(),
{
    if a.len() > 0 {
        assert((a + b).drop_first() =~= a.drop_first() + b);
        assert((a + b)[0] == a[0]);
        lemma_first_source_concat(a.drop_first(), b);
    } else {
        assert(a + b =~= b);
    }
}

/// Compares pending timers, pending animation frames and the layout-shift
/// score, appending a finding for each that differs.
pub fn compare_pending_work(source: &State, candidate: &State, findings: &mut Vec<Finding>)
    requires
        source.runtime.layout_shifts@.len() < 0x1_0000_0000,
        candidate.runtime.layout_shifts@.len() < 0x1_0000_0000,
    ensures
        finding_views(final(findings)@) == finding_views(old(findings)@) + pending_findings(*source, *candidate),
{
    let scope = state_scope(source);
    let ghost start = finding_views(findings@);
    let st = source.runtime.pending_timers;
    let ct = candidate.runtime.pending_timers;
    if st != ct {
        let f = finding(
            &scope,
            "runtime",
            "pending-timers",
            crate::text::decimal_string(st as u128).as_str(),
            crate::text::decimal_string(ct as u128).as_str(),
            Some(signed_delta(ct as i128 - st as i128)),
        );
        findings.push(f);
    }
    let ghost a = finding_views(findings@);
    let sf = source.runtime.pending_frames;
    let cf = candidate.runtime.pending_frames;
    if sf != cf {
        let f = finding(
            &scope,
            "runtime",
            "pending-frames",
            crate::text::decimal_string(sf as u128).as_str(),
            crate::text::decimal_string(cf as u128).as_str(),
            Some(signed_delta(cf as i128 - sf as i128)),
        );
        findings.push(f);
    }
    let ghost b = finding_views(findings@);
    let ss = layout_shift_total(source);
    let cs = layout_shift_total(candidate);
    proof {
        lemma_shift_bound(source.runtime.layout_shifts@);
        lemma_shift_bound(candidate.runtime.layout_shifts@);
    }
    if ss - cs >= 1000 || cs - ss >= 1000 {
        let label = match first_source(&source.runtime.layout_shifts) {
            Some(v) => {
                let mut l = String::new();
                push_str(&mut l, "layout near ");
                push_str(&mut l, v.as_str());
                l
            },
            None => match first_source(&candidate.runtime.layout_shifts) {
                Some(v) => {
                    let mut l = String::new();
                    push_str(&mut l, "layout near ");
                    push_str(&mut l, v.as_str());
                    l
                },
                None => String::from_str("layout"),
            },
        };
        proof {
            lemma_first_source_concat(source.runtime.layout_shifts@, candidate.runtime.layout_shifts@);
            assert(label@ == shift_label(*source, *candidate));
        }
        let f = finding(
            &scope,
            label.as_str(),
            "shift-score",
            compact_score(ss).as_str(),
            compact_score(cs).as_str(),
            Some(signed_score(cs - ss)),
        );
        findings.push(f);
    }
    proof {
        assert(finding_views(findings@) =~= finding_views(old(findings)@) + pending_findings(*source, *candidate));
    }
}

/// A shift total stays far inside what the arithmetic holds.
proof fn lemma_shift_bound(shifts: Seq<LayoutShiftEvidence>)
    ensures
        -(shifts.len() as int) * 0x8000_0000_0000_0000 <= shift_total(shifts) <= (shifts.len() as int)
            * 0x8000_0000_0000_0000,
    decreases shifts.len(),
{
    if shifts.len() > 0 {
        lemma_shift_bound(shifts.drop_last());
    }
}


/// A media condition written one way: spaces dropped, `max-width:` as
/// `width<=` and `min-width:` as `width>=`, so range syntax and the older
/// form of one breakpoint compare equal.
pub open spec fn canonical(band: Seq<char>) -> Seq<char> {
    replaced(replaced(replaced(band, " "@, ""@), "max-width:"@, "width<="@), "min-width:"@, "width>="@)
}

pub fn canonical_band(band: &str) -> (r: String)
    ensures
        r@ == canonical(band@),
{
    proof {
        reveal_strlit(" ");
        reveal_strlit("max-width:");
        reveal_strlit("min-width:");
    }
    let text = replace_all(band, " ", "");
    let text = replace_all(text.as_str(), "max-width:", "width<=");
    replace_all(text.as_str(), "min-width:", "width>=")
}

/// The candidate's breakpoints the source never declares, in order.
pub open spec fn invented(source: Seq<String>, candidate: Seq<String>) -> Seq<Seq<char>>
    decreases candidate.len(),
{
    if candidate.len() == 0 {
        seq![]
    } else {
        let rest = invented(source, candidate.drop_last());
        let band = candidate.last()@;
        if exists|i: int| 0 <= i < source.len() && canonical(#[trigger] source[i]@) == canonical(band) {
            rest
        } else {
            rest.push(band)
        }
    }
}

/// Strings joined by a separator.
pub open spec fn joined_by(parts: Seq<Seq<char>>, sep: Seq<char>) -> Seq<char>
    decreases parts.len(),
{
    if parts.len() == 0 {
        seq![]
    } else if parts.len() == 1 {
        parts[0]
    } else {
        joined_by(parts.drop_last(), sep) + sep + parts.last()
    }
}

/// What a candidate's stylesheets add that the source's do not: invented
/// breakpoints, a flood of fixed pixel lengths, more pinned grid tracks.
pub open spec fn stylesheet_findings(s: State, c: State) -> Seq<FindingView> {
    let scope = scope_of(c);
    let extra = invented(s.stylesheet.viewport_bands@, c.stylesheet.viewport_bands@);
    let ep = s.stylesheet.frozen_pixels as int;
    let ap = c.stylesheet.frozen_pixels as int;
    let sat = if ep * 2 > usize::MAX { usize::MAX as int } else { ep * 2 };
    (if extra.len() > 0 {
        seq![finding_value(scope, "stylesheet"@, "invented breakpoints"@, "none"@, joined_by(extra, " "@), None)]
    } else {
        seq![]
    }) + (if ap > sat && ap > ep + 24 {
        seq![
            finding_value(
                scope,
                "stylesheet"@,
                "sampled pixel lengths"@,
                decimal(ep as nat),
                decimal(ap as nat),
                Some(seq!['+'] + decimal((ap - ep) as nat)),
            ),
        ]
    } else {
        seq![]
    }) + (if s.stylesheet.frozen_tracks < c.stylesheet.frozen_tracks {
        seq![
            finding_value(
                scope,
                "stylesheet"@,
                "pinned grid track count"@,
                decimal(s.stylesheet.frozen_tracks as nat),
                decimal(c.stylesheet.frozen_tracks as nat),
                None,
            ),
        ]
    } else {
        seq![]
    })
}

pub fn compare_stylesheet(source: &State, candidate: &State) -> (r: Vec<Finding>)
    ensures
        finding_views(r@) == stylesheet_findings(*source, *candidate),
{
    let scope = state_scope(candidate);
    let sb = &source.stylesheet.viewport_bands;
    let cb = &candidate.stylesheet.viewport_bands;
    let mut expected: Vec<String> = Vec::new();
    let mut i: usize = 0;
    while i < sb.len()
        invariant
            i <= sb@.len(),
            expected@.len() == i,
            forall|k: int| 0 <= k < i ==> (#[trigger] expected@[k])@ == canonical(sb@[k]@),
        decreases sb@.len() - i,
    {
        expected.push(canonical_band(sb[i].as_str()));
        i += 1;
    }
    let mut joined = String::new();
    let mut count: usize = 0;
    let mut j: usize = 0;
    while j < cb.len()
        invariant
            j <= cb@.len(),
            expected@.len() == sb@.len(),
            forall|k: int| 0 <= k < sb@.len() ==> (#[trigger] expected@[k])@ == canonical(sb@[k]@),
            count == invented(sb@, cb@.take(j as int)).len(),
            count <= j,
            joined@ == joined_by(invented(sb@, cb@.take(j as int)), " "@),
        decreases cb@.len() - j,
    {
        let band = canonical_band(cb[j].as_str());
        let mut known = false;
        let mut k: usize = 0;
        while k < expected.len()
            invariant
                k <= expected@.len(),
                expected@.len() == sb@.len(),
                forall|q: int| 0 <= q < sb@.len() ==> (#[trigger] expected@[q])@ == canonical(sb@[q]@),
                known == exists|q: int| 0 <= q < k && canonical(#[trigger] sb@[q]@) == band@,
            decreases expected@.len() - k,
        {
            let same = str_eq(expected[k].as_str(), band.as_str());
            proof {
                if !same && !known {
                    assert forall|q: int| 0 <= q < k + 1 implies canonical(#[trigger] sb@[q]@) != band@ by {
                        if q < k {
                            assert(!(canonical(sb@[q]@) == band@));
                        }
                    }
                }
                if same {
                    assert(canonical(sb@[k as int]@) == band@);
                }
            }
            if same {
                known = true;
            }
            k += 1;
        }
        proof {
            let t = cb@.take(j + 1 as int);
            assert(t.drop_last() =~= cb@.take(j as int));
            assert(t.last() == cb@[j as int]);
        }
        if !known {
            if count > 0 {
                push_char(&mut joined, ' ');
            }
            push_str(&mut joined, cb[j].as_str());
            proof {
                reveal_strlit(" ");
                let prev = invented(sb@, cb@.take(j as int));
                let next = invented(sb@, cb@.take(j + 1 as int));
                assert(next == prev.push(cb@[j as int]@));
                assert(next.drop_last() =~= prev);
                if prev.len() == 0 {
                    assert(joined@ =~= joined_by(next, " "@));
                } else {
                    assert(joined@ =~= joined_by(next, " "@));
                }
            }
            count = count + 1;
        }
        j += 1;
    }
    assert(cb@.take(cb@.len() as int) =~= cb@);
    proof {
        reveal_strlit(" ");
        reveal_strlit("none");
    }
    let mut r: Vec<Finding> = Vec::new();
    if count > 0 {
        r.push(finding(&scope, "stylesheet", "invented breakpoints", "none", joined.as_str(), None));
    }
    let ghost r1 = finding_views(r@);
    let ep = source.stylesheet.frozen_pixels;
    let ap = candidate.stylesheet.frozen_pixels;
    let sat: usize = if ep > usize::MAX / 2 { usize::MAX } else { ep * 2 };
    if ap > sat && ap as u128 > ep as u128 + 24 {
        let mut delta = String::new();
        push_char(&mut delta, '+');
        push_decimal(&mut delta, (ap - ep) as u128);
        r.push(
            finding(
                &scope,
                "stylesheet",
                "sampled pixel lengths",
                crate::text::decimal_string(ep as u128).as_str(),
                crate::text::decimal_string(ap as u128).as_str(),
                Some(delta),
            ),
        );
    }
    let ghost r2 = finding_views(r@);
    let st = source.stylesheet.frozen_tracks;
    let ct = candidate.stylesheet.frozen_tracks;
    if st < ct {
        r.push(
            finding(
                &scope,
                "stylesheet",
                "pinned grid track count",
                crate::text::decimal_string(st as u128).as_str(),
                crate::text::decimal_string(ct as u128).as_str(),
                None,
            ),
        );
    }
    assert(finding_views(r@) =~= stylesheet_findings(*source, *candidate));
    r
}


/// At most the first twelve characters of a digest.
pub open spec fn prefix12(s: Seq<char>) -> Seq<char> {
    if s.len() >= 12 {
        s.take(12)
    } else {
        s
    }
}

/// The finding for a screenshot that changed where no element explains it.
pub open spec fn pixel_finding(s: State, c: State) -> FindingView {
    finding_value(scope_of(s), "viewport"@, "pixels"@, prefix12(s.screenshot_sha256@), prefix12(c.screenshot_sha256@), None)
}

fn first12(value: &str) -> (r: String)
    ensures
        r@ == prefix12(value@),
{
    let cs = crate::text::chars_of(value);
    if cs.len() < 12 {
        return String::from_str(value);
    }
    let mut head: Vec<char> = Vec::new();
    let mut i: usize = 0;
    while i < 12
        invariant
            i <= 12 <= cs@.len(),
            head@ == cs@.take(i as int),
        decreases 12 - i,
    {
        head.push(cs[i]);
        i += 1;
        assert(head@ =~= cs@.take(i as int));
    }
    crate::text::string_of(&head)
}

pub fn viewport_pixel_finding(source: &State, candidate: &State) -> (r: Finding)
    ensures
        r@ == pixel_finding(*source, *candidate),
{
    let scope = state_scope(source);
    finding(
        &scope,
        "viewport",
        "pixels",
        first12(source.screenshot_sha256.as_str()).as_str(),
        first12(candidate.screenshot_sha256.as_str()).as_str(),
        None,
    )
}

/// The painted area of a node, in square hundredths of a pixel.
pub open spec fn area(n: NodeEvidence) -> int {
    n.width * n.height
}

/// A visible raster element with an area that overlaps a tile. Tiles are
/// measured in whole pixels, elements in hundredths.
pub open spec fn covers(n: NodeEvidence, t: RasterTileEvidence) -> bool {
    &&& n.visible
    &&& n.raster_kind@.len() > 0
    &&& n.width > 0
    &&& n.height > 0
    &&& n.x < (t.x + t.width) * 100
    &&& n.y < (t.y + t.height) * 100
    &&& n.x + n.width > t.x * 100
    &&& n.y + n.height > t.y * 100
}

/// The first smallest element among the first `n` nodes covering a tile.
pub open spec fn smallest_cover(nodes: Seq<(Seq<char>, NodeEvidence)>, t: RasterTileEvidence, n: int) -> Option<int>
    decreases n,
{
    if n <= 0 {
        None
    } else {
        let best = smallest_cover(nodes, t, n - 1);
        if covers(nodes[n - 1].1, t) && (best is None || area(nodes[n - 1].1) < area(nodes[best->0].1)) {
            Some(n - 1)
        } else {
            best
        }
    }
}

/// Which element a changed tile belongs to: the smallest raster element
/// covering it, the first of equals, named for a reader, with its kind of
/// raster content.
pub open spec fn owner_of(s: State, t: RasterTileEvidence) -> Option<(Seq<char>, Seq<char>)> {
    let nodes = entries(s.nodes@);
    match smallest_cover(nodes, t, nodes.len() as int) {
        Some(i) => Some((target_of(s, nodes[i].0, nodes[i].1), nodes[i].1.raster_kind@)),
        None => None,
    }
}

proof fn lemma_smallest_cover_bounds(nodes: Seq<(Seq<char>, NodeEvidence)>, t: RasterTileEvidence, n: int)
    requires
        0 <= n <= nodes.len(),
    ensures
        smallest_cover(nodes, t, n) matches Some(i) ==> 0 <= i < n,
    decreases n,
{
    if n > 0 {
        lemma_smallest_cover_bounds(nodes, t, n - 1);
    }
}

fn area_of(n: &NodeEvidence) -> (r: i128)
    ensures
        r == area(*n),
{
    let w = n.width as i128;
    let h = n.height as i128;
    assert(-0x8000_0000_0000_0000 <= w < 0x8000_0000_0000_0000);
    assert(-0x8000_0000_0000_0000 <= h < 0x8000_0000_0000_0000);
    assert(-0x4000_0000_0000_0000_0000_0000_0000_0000 <= w * h <= 0x4000_0000_0000_0000_0000_0000_0000_0000) by (nonlinear_arith)
        requires
            -0x8000_0000_0000_0000 <= w < 0x8000_0000_0000_0000,
            -0x8000_0000_0000_0000 <= h < 0x8000_0000_0000_0000,
    ;
    w * h
}

fn covers_node(n: &NodeEvidence, t: &RasterTileEvidence) -> (r: bool)
    ensures
        r == covers(*n, *t),
{
    let left = t.x as i128 * 100;
    let top = t.y as i128 * 100;
    let right = (t.x as i128 + t.width as i128) * 100;
    let bottom = (t.y as i128 + t.height as i128) * 100;
    n.visible && n.raster_kind.as_str().unicode_len() > 0 && n.width > 0 && n.height > 0 && (n.x as i128)
        < right && (n.y as i128) < bottom && (n.x as i128 + n.width as i128) > left && (n.y as i128
        + n.height as i128) > top
}

pub fn raster_owner(state: &State, tile: &RasterTileEvidence) -> (r: Option<(String, String)>)
    requires
        state.wf(),
    ensures
        match r {
            Some((t, k)) => owner_of(*state, *tile) == Some((t@, k@)),
            None => owner_of(*state, *tile) is None,
        },
{
    let ghost nodes = entries(state.nodes@);
    let mut best: Option<usize> = None;
    let mut i: usize = 0;
    while i < state.nodes.len()
        invariant
            i <= state.nodes@.len(),
            nodes == entries(state.nodes@),
            match best {
                Some(b) => smallest_cover(nodes, *tile, i as int) == Some(b as int),
                None => smallest_cover(nodes, *tile, i as int) is None,
            },
        decreases state.nodes@.len() - i,
    {
        proof {
            lemma_smallest_cover_bounds(nodes, *tile, i as int);
        }
        let node = &state.nodes[i].1;
        assert(nodes[i as int].1 == *node);
        if covers_node(node, tile) {
            match best {
                None => {
                    best = Some(i);
                },
                Some(b) => {
                    let current = &state.nodes[b].1;
                    assert(nodes[b as int].1 == *current);
                    if area_of(node) < area_of(current) {
                        best = Some(i);
                    }
                },
            }
        }
        i += 1;
    }
    proof {
        lemma_smallest_cover_bounds(nodes, *tile, state.nodes@.len() as int);
    }
    match best {
        Some(b) => {
            assert(nodes[b as int] == (state.nodes@[b as int].0@, state.nodes@[b as int].1));
            let target = semantic_target(state, state.nodes[b].0.as_str(), &state.nodes[b].1);
            Some((target, state.nodes[b].1.raster_kind.clone()))
        },
        None => None,
    }
}


/// The rectangle a tile covers.
pub open spec fn tile_key(t: RasterTileEvidence) -> (u32, u32, u32, u32) {
    (t.x, t.y, t.width, t.height)
}

/// The last tile over a rectangle.
pub open spec fn tile_at(tiles: Seq<RasterTileEvidence>, k: (u32, u32, u32, u32)) -> Option<RasterTileEvidence>
    decreases tiles.len(),
{
    if tiles.len() == 0 {
        None
    } else if tile_key(tiles.last()) == k {
        Some(tiles.last())
    } else {
        tile_at(tiles.drop_last(), k)
    }
}

/// Over the first `n` source tiles: the element each changed tile belongs
/// to, the first claim on a target winning, and whether some changed or
/// unmatched tile belongs to no element.
pub open spec fn raster_walk(s: State, c: State, n: int) -> (Seq<(Seq<char>, Seq<char>)>, bool)
    decreases n,
{
    if n <= 0 {
        (seq![], false)
    } else {
        let (o, u) = raster_walk(s, c, n - 1);
        let st = s.raster_tiles@[n - 1];
        match tile_at(c.raster_tiles@, tile_key(st)) {
            None => (o, true),
            Some(ct) => if st.sha256@ == ct.sha256@ {
                (o, u)
            } else {
                let claim = match owner_of(s, st) {
                    Some(x) => Some(x),
                    None => owner_of(c, ct),
                };
                match claim {
                    Some((t, p)) => (if has_key(o, t) { o } else { o.push((t, p)) }, u),
                    None => (o, true),
                }
            },
        }
    }
}

/// The kind of raster content claimed for a target.
pub open spec fn claimed(o: Seq<(Seq<char>, Seq<char>)>, t: Seq<char>) -> Seq<char> {
    match lookup(o, t) {
        Some(p) => p,
        None => seq![],
    }
}

/// Changed pixels, attributed to the elements that own them in ascending
/// order of their names; where tiles are missing on a side, or a change has
/// no owner and nothing else was found, the whole viewport when asked to
/// fall back to it.
pub open spec fn raster_findings(s: State, c: State, fallback: bool) -> Seq<FindingView> {
    if s.raster_tiles@.len() == 0 || c.raster_tiles@.len() == 0 {
        if fallback {
            seq![pixel_finding(s, c)]
        } else {
            seq![]
        }
    } else {
        let (o, u) = raster_walk(s, c, s.raster_tiles@.len() as int);
        let owned = enumerate_strings(Set::new(|t: Seq<char>| has_key(o, t))).map_values(
            |t: Seq<char>| finding_value(scope_of(s), t, claimed(o, t), "expected"@, "different"@, None),
        );
        if owned.len() == 0 && u && fallback {
            seq![pixel_finding(s, c)]
        } else {
            owned
        }
    }
}

fn tile_index(tiles: &Vec<RasterTileEvidence>, t: &RasterTileEvidence) -> (r: Option<usize>)
    ensures
        match r {
            Some(i) => i < tiles@.len() && tile_at(tiles@, tile_key(*t)) == Some(tiles@[i as int]),
            None => tile_at(tiles@, tile_key(*t)) is None,
        },
{
    let mut j: usize = tiles.len();
    assert(tiles@.take(j as int) =~= tiles@);
    while j > 0
        invariant
            j <= tiles@.len(),
            tile_at(tiles@, tile_key(*t)) == tile_at(tiles@.take(j as int), tile_key(*t)),
        decreases j,
    {
        let ghost p = tiles@.take(j as int);
        assert(p.drop_last() =~= tiles@.take(j - 1));
        assert(p.last() == tiles@[j - 1]);
        let c = &tiles[j - 1];
        if c.x == t.x && c.y == t.y && c.width == t.width && c.height == t.height {
            return Some(j - 1);
        }
        j -= 1;
    }
    None
}

/// The position of a claimed target.
fn claim_index(pairs: &Vec<(String, String)>, t: &String) -> (r: Option<usize>)
    ensures
        match r {
            Some(i) => i < pairs@.len() && pairs@[i as int].0@ == t@,
            None => !has_key(entries(pairs@), t@),
        },
{
    crate::keyed::position(pairs, t)
}

pub fn compare_raster_tiles(source: &State, candidate: &State, fallback_to_viewport: bool) -> (r: Vec<Finding>)
    requires
        source.wf(),
        candidate.wf(),
    ensures
        finding_views(r@) == raster_findings(*source, *candidate, fallback_to_viewport),
{
    if source.raster_tiles.len() == 0 || candidate.raster_tiles.len() == 0 {
        let mut r: Vec<Finding> = Vec::new();
        if fallback_to_viewport {
            r.push(viewport_pixel_finding(source, candidate));
        }
        assert(finding_views(r@) =~= raster_findings(*source, *candidate, fallback_to_viewport));
        return r;
    }
    let mut pairs: Vec<(String, String)> = Vec::new();
    let mut keys: Vec<String> = Vec::new();
    let mut unowned = false;
    let mut i: usize = 0;
    while i < source.raster_tiles.len()
        invariant
            i <= source.raster_tiles@.len(),
            source.wf(),
            candidate.wf(),
            (entries(pairs@), unowned) == raster_walk(*source, *candidate, i as int),
            keys_distinct(entries(pairs@)),
            ascending_strings(views(keys@)),
            forall|k: Seq<char>| #[trigger] views(keys@).contains(k) <==> has_key(entries(pairs@), k),
        decreases source.raster_tiles@.len() - i,
    {
        let st = &source.raster_tiles[i];
        let ghost prev_o = entries(pairs@);
        let ghost prev_u = unowned;
        assert(raster_walk(*source, *candidate, i + 1) == match tile_at(candidate.raster_tiles@, tile_key(*st)) {
            None => (prev_o, true),
            Some(ct) => if st.sha256@ == ct.sha256@ {
                (prev_o, prev_u)
            } else {
                let claim = match owner_of(*source, *st) {
                    Some(x) => Some(x),
                    None => owner_of(*candidate, ct),
                };
                match claim {
                    Some((t, p)) => (if has_key(prev_o, t) { prev_o } else { prev_o.push((t, p)) }, prev_u),
                    None => (prev_o, true),
                }
            },
        });
        match tile_index(&candidate.raster_tiles, st) {
            None => {
                unowned = true;
            },
            Some(ci) => {
                let ct = &candidate.raster_tiles[ci];
                if !str_eq(st.sha256.as_str(), ct.sha256.as_str()) {
                    let claim = match raster_owner(source, st) {
                        Some(x) => Some(x),
                        None => raster_owner(candidate, ct),
                    };
                    let ghost spec_claim = match owner_of(*source, *st) {
                        Some(x) => Some(x),
                        None => owner_of(*candidate, *ct),
                    };
                    assert(match claim {
                        Some((t, p)) => spec_claim == Some((t@, p@)),
                        None => spec_claim is None,
                    });
                    match claim {
                        Some((t, p)) => {
                            match claim_index(&pairs, &t) {
                                Some(q) => {
                                    assert(entries(pairs@)[q as int].0 == t@);
                                    assert(has_key(prev_o, t@));
                                },
                                None => {
                                    let ghost before = pairs@;
                                    insert_string(&mut keys, &t);
                                    pairs.push((t, p));
                                    proof {
                                        assert(entries(pairs@) =~= entries(before).push((t@, p@)));
                                        assert forall|a: int, b: int|
                                            0 <= a < b < entries(pairs@).len() implies #[trigger] entries(pairs@)[a].0
                                            != #[trigger] entries(pairs@)[b].0 by {
                                            if b == before.len() {
                                                assert(entries(before)[a].0 == entries(pairs@)[a].0);
                                                if entries(pairs@)[a].0 == t@ {
                                                    assert(has_key(entries(before), t@));
                                                }
                                            }
                                        }
                                        assert forall|k: Seq<char>| #[trigger] views(keys@).contains(k) <==> has_key(
                                            entries(pairs@),
                                            k,
                                        ) by {
                                            if has_key(entries(pairs@), k) && k != t@ {
                                                let q = choose|q: int|
                                                    0 <= q < entries(pairs@).len() && #[trigger] entries(pairs@)[q].0 == k;
                                                assert(q < before.len());
                                                assert(entries(before)[q].0 == k);
                                            }
                                            if has_key(entries(before), k) {
                                                let q = choose|q: int|
                                                    0 <= q < entries(before).len() && #[trigger] entries(before)[q].0 == k;
                                                assert(entries(pairs@)[q].0 == k);
                                            }
                                            if k == t@ {
                                                assert(entries(pairs@)[before.len() as int].0 == k);
                                            }
                                        }
                                    }
                                },
                            }
                        },
                        None => {
                            unowned = true;
                        },
                    }
                }
            },
        }
        assert((entries(pairs@), unowned) == raster_walk(*source, *candidate, i + 1));
        i += 1;
    }
    let ghost o = entries(pairs@);
    let ghost set = Set::new(|t: Seq<char>| has_key(o, t));
    proof {
        assert forall|k: Seq<char>| #[trigger] views(keys@).contains(k) <==> set.contains(k) by {}
        lemma_enumerate_strings(views(keys@), set);
    }
    let scope = state_scope(source);
    let mut r: Vec<Finding> = Vec::new();
    let mut k: usize = 0;
    while k < keys.len()
        invariant
            k <= keys@.len(),
            o == entries(pairs@),
            keys_distinct(o),
            scope == scope_of(*source),
            forall|q: Seq<char>| #[trigger] views(keys@).contains(q) <==> has_key(o, q),
            finding_views(r@) == views(keys@).take(k as int).map_values(
                |t: Seq<char>| finding_value(scope_of(*source), t, claimed(o, t), "expected"@, "different"@, None),
            ),
        decreases keys@.len() - k,
    {
        let t = &keys[k];
        assert(views(keys@)[k as int] == t@);
        assert(views(keys@).contains(t@));
        let q = match claim_index(&pairs, t) {
            Some(q) => q,
            None => {
                assert(false);
                0
            },
        };
        proof {
            assert(o[q as int] == (pairs@[q as int].0@, pairs@[q as int].1@));
            lemma_lookup_distinct(o, q as int);
        }
        let f = finding(&scope, t.as_str(), pairs[q].1.as_str(), "expected", "different", None);
        let ghost before = r@;
        r.push(f);
        proof {
            assert(finding_views(r@) =~= finding_views(before).push(f@));
            assert(views(keys@).take(k + 1 as int) =~= views(keys@).take(k as int).push(t@));
        }
        k += 1;
        assert(finding_views(r@) =~= views(keys@).take(k as int).map_values(
            |t: Seq<char>| finding_value(scope_of(*source), t, claimed(o, t), "expected"@, "different"@, None),
        ));
    }
    assert(views(keys@).take(keys@.len() as int) =~= views(keys@));
    if r.len() == 0 && unowned && fallback_to_viewport {
        r.push(viewport_pixel_finding(source, candidate));
        assert(finding_views(r@) =~= seq![pixel_finding(*source, *candidate)]);
    }
    r
}


/// A target an authored page names by its own id rather than by its path
/// from the document root.
pub open spec fn authored_key(k: Seq<char>) -> bool {
    k != "html"@ && !contains_seq(k, ">"@)
}

/// Whether a page's elements carry authored targets.
pub open spec fn authored(s: State) -> bool {
    exists|i: int| 0 <= i < s.nodes@.len() && authored_key(#[trigger] s.nodes@[i].0@)
}

pub fn has_authored_targets(state: &State) -> (r: bool)
    ensures
        r == authored(*state),
{
    let mut i: usize = 0;
    while i < state.nodes.len()
        invariant
            i <= state.nodes@.len(),
            forall|j: int| 0 <= j < i ==> !authored_key(#[trigger] state.nodes@[j].0@),
        decreases state.nodes@.len() - i,
    {
        let k = state.nodes[i].0.as_str();
        if !str_eq(k, "html") && !contains_str(k, ">") {
            return true;
        }
        i += 1;
    }
    false
}

/// A target inside a structural root already reported: its path starts
/// with the root's path and `>`.
pub open spec fn covered(roots: Seq<Seq<char>>, t: Seq<char>) -> bool {
    exists|i: int| 0 <= i < roots.len() && is_prefix(#[trigger] roots[i] + ">"@, t)
}

/// The node findings of an authored comparison over targets in order, with
/// the structural roots found so far: a node present on one side only, or
/// one whose parent changed, hides every difference beneath it.
pub open spec fn authored_walk(s: State, c: State, ts: Seq<Seq<char>>) -> (Seq<FindingView>, Seq<Seq<char>>)
    decreases ts.len(),
{
    if ts.len() == 0 {
        (seq![], seq![])
    } else {
        let (f, roots) = authored_walk(s, c, ts.drop_last());
        let t = ts.last();
        if covered(roots, t) {
            (f, roots)
        } else {
            match (lookup(entries(s.nodes@), t), lookup(entries(c.nodes@), t)) {
                (Some(_), None) => (f.push(finding_value(scope_of(s), t, "node"@, "present"@, "missing"@, None)), roots.push(t)),
                (None, Some(_)) => (f.push(finding_value(scope_of(s), t, "node"@, "missing"@, "present"@, None)), roots.push(t)),
                (Some(e), Some(a)) => match node_difference(scope_of(s), t, e, a) {
                    Some(v) => (f.push(v), if v.property == "parent"@ { roots.push(t) } else { roots }),
                    None => (f, roots),
                },
                (None, None) => (f, roots),
            }
        }
    }
}

/// Every target either side has, ascending.
pub open spec fn all_targets(s: State, c: State) -> Seq<Seq<char>> {
    enumerate_strings(Set::new(|k: Seq<char>| has_key(entries(s.nodes@), k) || has_key(entries(c.nodes@), k)))
}

/// After a click, which element holds focus.
pub open spec fn focus_findings(s: State, c: State) -> Seq<FindingView> {
    if is_prefix("click:"@, s.scenario@) && s.active_element@ != c.active_element@ {
        seq![finding_value(scope_of(s), "active-element"@, "focus"@, s.active_element@, c.active_element@, None)]
    } else {
        seq![]
    }
}

/// An authored comparison: node differences, focus after a click, pending
/// work, stripped of consequences; and when nothing else differs but the
/// screenshot does, the pixels, attributed where possible.
pub open spec fn authored_findings(s: State, c: State) -> Seq<FindingView> {
    let base = collapsed(authored_walk(s, c, all_targets(s, c)).0 + focus_findings(s, c) + pending_findings(s, c));
    if base.len() == 0 && s.screenshot_sha256@.len() > 0 && s.screenshot_sha256@ != c.screenshot_sha256@ {
        raster_findings(s, c, true)
    } else {
        base
    }
}

/// A node found under a key of a well-formed state is well formed.
proof fn lemma_found_node(s: State, k: Seq<char>)
    requires
        s.wf(),
        lookup(entries(s.nodes@), k) is Some,
    ensures
        motions_wf(lookup(entries(s.nodes@), k)->0.motions@),
{
    let e = entries(s.nodes@);
    let i = choose|i: int| 0 <= i < e.len() && #[trigger] e[i].0 == k;
    assert(e[i].1 == s.nodes@[i].1);
}

fn is_covered(roots: &Vec<String>, t: &str) -> (r: bool)
    ensures
        r == covered(views(roots@), t@),
{
    let mut i: usize = 0;
    while i < roots.len()
        invariant
            i <= roots@.len(),
            forall|j: int| 0 <= j < i ==> !is_prefix(#[trigger] views(roots@)[j] + ">"@, t@),
        decreases roots@.len() - i,
    {
        let mut p = roots[i].clone();
        push_str(&mut p, ">");
        assert(views(roots@)[i as int] == roots@[i as int]@);
        if starts_with(t, p.as_str()) {
            return true;
        }
        i += 1;
    }
    false
}

pub fn compare_authored_state(source: &State, candidate: &State) -> (r: Vec<Finding>)
    requires
        source.wf(),
        candidate.wf(),
        source.runtime.layout_shifts@.len() < 0x1_0000_0000,
        candidate.runtime.layout_shifts@.len() < 0x1_0000_0000,
    ensures
        finding_views(r@) == authored_findings(*source, *candidate),
{
    let scope = state_scope(source);
    let targets = union_keys(&source.nodes, &candidate.nodes);
    let ghost ts = views(targets@);
    proof {
        let set = Set::new(|k: Seq<char>| has_key(entries(source.nodes@), k) || has_key(entries(candidate.nodes@), k));
        assert forall|k: Seq<char>| #[trigger] ts.contains(k) <==> set.contains(k) by {}
        lemma_enumerate_strings(ts, set);
    }
    let mut findings: Vec<Finding> = Vec::new();
    let mut roots: Vec<String> = Vec::new();
    let mut i: usize = 0;
    while i < targets.len()
        invariant
            i <= targets@.len(),
            ts == views(targets@),
            source.wf(),
            candidate.wf(),
            scope == scope_of(*source),
            (finding_views(findings@), views(roots@)) == authored_walk(*source, *candidate, ts.take(i as int)),
        decreases targets@.len() - i,
    {
        let t = &targets[i];
        proof {
            let p = ts.take(i + 1 as int);
            assert(p.drop_last() =~= ts.take(i as int));
            assert(p.last() == t@);
        }
        let ghost f0 = finding_views(findings@);
        let ghost r0 = views(roots@);
        if !is_covered(&roots, t.as_str()) {
            match (get(&source.nodes, t), get(&candidate.nodes, t)) {
                (Some(_), None) => {
                    findings.push(finding(&scope, t.as_str(), "node", "present", "missing", None));
                    roots.push(t.clone());
                    assert(finding_views(findings@) =~= f0.push(finding_value(scope_of(*source), t@, "node"@, "present"@, "missing"@, None)));
                    assert(views(roots@) =~= r0.push(t@));
                },
                (None, Some(_)) => {
                    findings.push(finding(&scope, t.as_str(), "node", "missing", "present", None));
                    roots.push(t.clone());
                    assert(finding_views(findings@) =~= f0.push(finding_value(scope_of(*source), t@, "node"@, "missing"@, "present"@, None)));
                    assert(views(roots@) =~= r0.push(t@));
                },
                (Some(e), Some(a)) => {
                    proof {
                        lemma_found_node(*source, t@);
                        lemma_found_node(*candidate, t@);
                    }
                    match compare_node(&scope, t.as_str(), e, a) {
                        Some(v) => {
                            let parent = str_eq(v.property.as_str(), "parent");
                            let ghost fv = v@;
                            findings.push(v);
                            assert(finding_views(findings@) =~= f0.push(fv));
                            if parent {
                                roots.push(t.clone());
                                assert(views(roots@) =~= r0.push(t@));
                            }
                        },
                        None => {},
                    }
                },
                (None, None) => {},
            }
        }
        i += 1;
    }
    assert(ts.take(targets@.len() as int) =~= ts);
    let ghost walked = finding_views(findings@);
    if starts_with(source.scenario.as_str(), "click:") && !str_eq(
        source.active_element.as_str(),
        candidate.active_element.as_str(),
    ) {
        findings.push(
            finding(
                &scope,
                "active-element",
                "focus",
                source.active_element.as_str(),
                candidate.active_element.as_str(),
                None,
            ),
        );
    }
    assert(finding_views(findings@) =~= walked + focus_findings(*source, *candidate));
    compare_pending_work(source, candidate, &mut findings);
    collapse_consequences(&mut findings);
    if findings.len() == 0 && source.screenshot_sha256.as_str().unicode_len() > 0 && !str_eq(
        source.screenshot_sha256.as_str(),
        candidate.screenshot_sha256.as_str(),
    ) {
        let mut extra = compare_raster_tiles(source, candidate, true);
        findings.append(&mut extra);
        assert(finding_views(findings@) =~= raster_findings(*source, *candidate, true));
    }
    findings
}

} // verus!
