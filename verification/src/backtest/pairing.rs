//! Comparison by meaning: the elements a reader perceives on each page are
//! paired, by what they say first and by where they sit last, and each pair
//! is compared; an element on one side only is reported as missing or
//! unexpected.
//!
//! Where the elements sit is measured in floating point by the caller, which
//! hands in, for each source element, the candidate elements nearest first,
//! and which pairs are near enough to be one element.
use crate::backtest::model::{NodeEvidence, State};
use crate::backtest::semantic::{kind_of, region_node, semantic_kind, semantic_text, text_of};
use crate::keyed::{entries, get, lookup};
use crate::backtest::authored::scope_of;
use crate::backtest::compare::finding_value;
use crate::backtest::display::{truncated, two_digits};
use crate::backtest::authored::state_scope;
use crate::backtest::compare::finding;
use crate::backtest::display::truncate;
use crate::backtest::model::{finding_views, Finding, FindingView};
use crate::text::{push_decimal, push_str};
use crate::backtest::authored::{pending_findings, raster_findings, stylesheet_findings};
use crate::backtest::authored::{canonical, invented};
use crate::backtest::compact::{compacted, family_keys, family_report, geometric, ungrouped};
use crate::backtest::compare::Scope;
use crate::backtest::model::{MotionCheckpoint, MotionEvidence};
use crate::backtest::motion::{checkpoint_difference, checkpoints_from, identity_difference, last_with, motion_difference, motion_label, motion_pair, value_difference};
use crate::backtest::topology::{changes_in, cohort_members, dominant, region_kinds, side_nodes};
use crate::backtest::matched::matched_findings;
use crate::backtest::semantic::{region_of, target_of};
use crate::backtest::topology::{bounded, overlap_area, overlap_of, pair_views, pairs_bounded, topology_findings, Bounds, LayoutPair, LayoutPairView};
use crate::backtest::authored::compare_pending_work;
use crate::backtest::semantic::{semantic_region, semantic_target};
use crate::text::is_prefix;
use crate::order::{ascending_keys, enumerate_keys, key_lt, lex_lt, views};
use crate::text::{ascii_lower, decimal, str_eq, to_ascii_lower};
use vstd::prelude::*;

verus! {

broadcast use vstd::string::group_string_axioms;

/// An element a reader perceives: visible, with an area, and with text or
/// a landmark role.
pub open spec fn perceived(n: NodeEvidence) -> bool {
    n.visible && n.width > 0 && n.height > 0 && (text_of(n).len() > 0 || region_node(n))
}

/// A kind that repeats its container's text rather than adding its own.
pub open spec fn echo_kind(k: Seq<char>) -> bool {
    k == "text"@ || k == "generic"@ || k == "LabelText"@ || k == "paragraph"@
}

/// A kind that only wraps.
pub open spec fn wrapper_kind(k: Seq<char>) -> bool {
    k == "generic"@ || k == "div"@ || k == "span"@
}

/// Whether one of at most `steps` ancestors, from `parent` up, says `text`
/// (ignoring ASCII case) and is more than a wrapper.
pub open spec fn echoes_from(nodes: Seq<(Seq<char>, NodeEvidence)>, parent: Seq<char>, text: Seq<char>, steps: nat) -> bool
    decreases steps,
{
    if steps == 0 {
        false
    } else {
        match lookup(nodes, parent) {
            None => false,
            Some(a) => (ascii_lower(text_of(a)) == ascii_lower(text) && !wrapper_kind(kind_of(a))) || echoes_from(
                nodes,
                a.parent@,
                text,
                (steps - 1) as nat,
            ),
        }
    }
}

/// A text element that repeats what one of its four nearest ancestors
/// already says.
pub open spec fn echoes_ancestor(s: State, n: NodeEvidence) -> bool {
    echo_kind(kind_of(n)) && text_of(n).len() > 0 && echoes_from(entries(s.nodes@), n.parent@, text_of(n), 4)
}

/// An element compared by meaning.
pub open spec fn listed(s: State, n: NodeEvidence) -> bool {
    perceived(n) && !echoes_ancestor(s, n)
}

/// The positions, among the first `k` nodes, of those compared by meaning.
pub open spec fn listed_below(s: State, k: int) -> Seq<usize>
    decreases k,
{
    if k <= 0 {
        seq![]
    } else {
        listed_below(s, k - 1) + if listed(s, s.nodes@[k - 1].1) {
            seq![(k - 1) as usize]
        } else {
            seq![]
        }
    }
}

/// The positions of the nodes compared by meaning, in key order.
pub open spec fn semantic_positions(s: State) -> Seq<usize> {
    listed_below(s, s.nodes@.len() as int)
}

/// Whether two texts are equal ignoring ASCII case.
pub fn same_ignoring_case(a: &str, b: &str) -> (r: bool)
    ensures
        r == (ascii_lower(a@) == ascii_lower(b@)),
{
    let x = to_ascii_lower(a);
    let y = to_ascii_lower(b);
    str_eq(x.as_str(), y.as_str())
}

fn is_echo_kind(k: &str) -> (r: bool)
    ensures
        r == echo_kind(k@),
{
    str_eq(k, "text") || str_eq(k, "generic") || str_eq(k, "LabelText") || str_eq(k, "paragraph")
}

fn is_wrapper_kind(k: &str) -> (r: bool)
    ensures
        r == wrapper_kind(k@),
{
    str_eq(k, "generic") || str_eq(k, "div") || str_eq(k, "span")
}

/// Whether a text element repeats an ancestor's text.
fn duplicates_semantic_ancestor(state: &State, node: &NodeEvidence) -> (r: bool)
    requires
        state.wf(),
    ensures
        r == echoes_ancestor(*state, *node),
{
    let kind = semantic_kind(node);
    if !is_echo_kind(kind.as_str()) {
        return false;
    }
    let text = semantic_text(node);
    if text.as_str().unicode_len() == 0 {
        return false;
    }
    let ghost es = entries(state.nodes@);
    let mut parent = node.parent.clone();
    let mut steps: usize = 4;
    while steps > 0
        invariant
            state.wf(),
            es == entries(state.nodes@),
            steps <= 4,
            text@ == text_of(*node),
            echoes_ancestor(*state, *node) == echoes_from(es, parent@, text@, steps as nat),
        decreases steps,
    {
        match get(&state.nodes, &parent) {
            None => {
                return false;
            },
            Some(ancestor) => {
                let t = semantic_text(ancestor);
                let k = semantic_kind(ancestor);
                if same_ignoring_case(t.as_str(), text.as_str()) && !is_wrapper_kind(k.as_str()) {
                    return true;
                }
                parent = ancestor.parent.clone();
                steps = steps - 1;
            },
        }
    }
    false
}

/// The positions of the nodes compared by meaning, in key order.
pub fn semantic_nodes(state: &State) -> (r: Vec<usize>)
    requires
        state.wf(),
    ensures
        r@ == semantic_positions(*state),
        forall|k: int| 0 <= k < r@.len() ==> (#[trigger] r@[k]) < state.nodes@.len(),
{
    let mut out: Vec<usize> = Vec::new();
    let mut i: usize = 0;
    while i < state.nodes.len()
        invariant
            i <= state.nodes@.len(),
            state.wf(),
            out@ == listed_below(*state, i as int),
            forall|k: int| 0 <= k < out@.len() ==> (#[trigger] out@[k]) < i,
        decreases state.nodes@.len() - i,
    {
        let node = &state.nodes[i].1;
        let text = semantic_text(node);
        let shown = node.visible && node.width > 0 && node.height > 0 && (text.as_str().unicode_len() > 0
            || crate::backtest::semantic::is_semantic_region(node));
        let keep = shown && !duplicates_semantic_ancestor(state, node);
        let ghost before = out@;
        if keep {
            out.push(i);
        }
        proof {
            assert(out@ =~= listed_below(*state, i + 1));
            assert forall|k: int| 0 <= k < out@.len() implies (#[trigger] out@[k]) < i + 1 by {
                if k < before.len() {
                    assert(out@[k] == before[k]);
                }
            }
        }
        i += 1;
    }
    out
}


/// The box of a node.
pub open spec fn box_of(n: NodeEvidence) -> Bounds {
    Bounds { x: n.x, y: n.y, width: n.width, height: n.height }
}

/// Whether `key` names the node whose parent is `parent`, or one of at
/// most `steps` ancestors from there up.
pub open spec fn related_from(nodes: Seq<(Seq<char>, NodeEvidence)>, parent: Seq<char>, key: Seq<char>, steps: nat) -> bool
    decreases steps,
{
    if steps == 0 {
        false
    } else if parent == key {
        true
    } else {
        match lookup(nodes, parent) {
            None => false,
            Some(a) => related_from(nodes, a.parent@, key, (steps - 1) as nat),
        }
    }
}

/// Whether the node keyed `key` contains `other`, within 24 generations.
pub open spec fn related(s: State, key: Seq<char>, other: NodeEvidence) -> bool {
    related_from(entries(s.nodes@), other.parent@, key, 24)
}

/// The perceived elements that carry text.
pub open spec fn texted_below(s: State, ps: Seq<usize>) -> Seq<usize>
    decreases ps.len(),
{
    if ps.len() == 0 {
        seq![]
    } else {
        texted_below(s, ps.drop_last()) + if text_of(s.nodes@[ps.last() as int].1).len() > 0 {
            seq![ps.last()]
        } else {
            seq![]
        }
    }
}

pub open spec fn texted(s: State) -> Seq<usize> {
    texted_below(s, semantic_positions(s))
}

/// Two texts painted over each other: their boxes share at least 16 square
/// pixels and at least 8% of the smaller box, and neither element contains
/// the other.
pub open spec fn collide(s: State, a: int, b: int) -> bool {
    let (ka, na) = (s.nodes@[a].0@, s.nodes@[a].1);
    let (kb, nb) = (s.nodes@[b].0@, s.nodes@[b].1);
    let area = overlap_area(box_of(na), box_of(nb));
    let sa = na.width * na.height;
    let sb = nb.width * nb.height;
    let smallest = if sa < sb { sa } else { sb };
    &&& area >= 160000
    &&& smallest > 0
    &&& 100 * area >= 8 * smallest
    &&& !related(s, ka, nb)
    &&& !related(s, kb, na)
}

/// The two texts of a collision, shortened and in ascending order.
pub open spec fn collision_key(s: State, a: int, b: int) -> Seq<Seq<char>> {
    let x = truncated(text_of(s.nodes@[a].1), 32);
    let y = truncated(text_of(s.nodes@[b].1), 32);
    if lex_lt(y, x) {
        seq![y, x]
    } else {
        seq![x, y]
    }
}

/// The collisions of the element at `ts[l]` with those after it, up to `r`.
pub open spec fn collisions_after(s: State, ts: Seq<usize>, l: int, r: int) -> Seq<(Seq<Seq<char>>, int)>
    decreases r - l,
{
    if r <= l + 1 {
        seq![]
    } else {
        collisions_after(s, ts, l, r - 1) + if collide(s, ts[l] as int, ts[r - 1] as int) {
            seq![
                (
                    collision_key(s, ts[l] as int, ts[r - 1] as int),
                    overlap_area(box_of(s.nodes@[ts[l] as int].1), box_of(s.nodes@[ts[r - 1] as int].1)),
                ),
            ]
        } else {
            seq![]
        }
    }
}

/// Every collision of the first `l` elements with those after them, in the
/// order the pairs are visited.
pub open spec fn collisions_upto(s: State, ts: Seq<usize>, l: int) -> Seq<(Seq<Seq<char>>, int)>
    decreases l,
{
    if l <= 0 {
        seq![]
    } else {
        collisions_upto(s, ts, l - 1) + collisions_after(s, ts, l - 1, ts.len() as int)
    }
}

/// Every pair of texts painted over each other, each with its area.
pub open spec fn collision_events(s: State) -> Seq<(Seq<Seq<char>>, int)> {
    collisions_upto(s, texted(s), texted(s).len() as int)
}

/// The pairs of texts among collisions.
pub open spec fn event_keys(events: Seq<(Seq<Seq<char>>, int)>) -> Set<Seq<Seq<char>>> {
    Set::new(|k: Seq<Seq<char>>| exists|i: int| 0 <= i < events.len() && (#[trigger] events[i]).0 == k)
}

/// The texts that collide somewhere on a page.
pub open spec fn collision_keys(s: State) -> Set<Seq<Seq<char>>> {
    event_keys(collision_events(s))
}

/// The area recorded last for a pair of texts.
pub open spec fn last_area(events: Seq<(Seq<Seq<char>>, int)>, k: Seq<Seq<char>>) -> int
    decreases events.len(),
{
    if events.len() == 0 {
        0
    } else if events.last().0 == k {
        events.last().1
    } else {
        last_area(events.drop_last(), k)
    }
}

/// An area in square hundredths of a pixel as square pixels: whole when
/// under a hundredth from a whole number, otherwise at two decimals.
pub open spec fn area_text(a: int) -> Seq<char> {
    if a % 10000 < 100 {
        decimal((a / 10000) as nat)
    } else {
        let h = (a + 50) / 100;
        decimal((h / 100) as nat) + seq!['.'] + two_digits((h % 100) as nat)
    }
}

/// The collision findings for the pairs `keys`, each stated at the
/// recreation.
pub open spec fn collision_findings(c: State, keys: Seq<Seq<Seq<char>>>) -> Seq<FindingView>
    decreases keys.len(),
{
    if keys.len() == 0 {
        seq![]
    } else {
        let k = keys.last();
        collision_findings(c, keys.drop_last()) + if collision_keys(c).contains(k) {
            seq![
                finding_value(
                    scope_of(c),
                    k[0] + " over "@ + k[1],
                    "overlap"@,
                    "clear"@,
                    area_text(last_area(collision_events(c), k)) + "px²"@,
                    None,
                ),
            ]
        } else {
            seq![]
        }
    }
}

/// The texts the recreation paints over each other and the source does
/// not, in ascending order of the two texts.
pub open spec fn new_collisions(s: State, c: State) -> Seq<FindingView> {
    collision_findings(c, enumerate_keys(collision_keys(c).difference(collision_keys(s))))
}


/// Every node's box is one a browser can lay out.
pub open spec fn boxes_bounded(s: State) -> bool {
    forall|i: int| 0 <= i < s.nodes@.len() ==> bounded(box_of(#[trigger] s.nodes@[i].1))
}

fn box_exec(n: &NodeEvidence) -> (r: Bounds)
    ensures
        r == box_of(*n),
{
    Bounds { x: n.x, y: n.y, width: n.width, height: n.height }
}

/// The perceived elements that carry text.
fn texted_of(state: &State, ps: &Vec<usize>) -> (r: Vec<usize>)
    requires
        forall|k: int| 0 <= k < ps@.len() ==> (#[trigger] ps@[k]) < state.nodes@.len(),
    ensures
        r@ == texted_below(*state, ps@),
        forall|k: int| 0 <= k < r@.len() ==> (#[trigger] r@[k]) < state.nodes@.len(),
{
    let mut out: Vec<usize> = Vec::new();
    let mut i: usize = 0;
    assert(ps@.take(0) =~= Seq::<usize>::empty());
    while i < ps.len()
        invariant
            i <= ps@.len(),
            forall|k: int| 0 <= k < ps@.len() ==> (#[trigger] ps@[k]) < state.nodes@.len(),
            out@ == texted_below(*state, ps@.take(i as int)),
            forall|k: int| 0 <= k < out@.len() ==> (#[trigger] out@[k]) < state.nodes@.len(),
        decreases ps@.len() - i,
    {
        let p = ps[i];
        let t = semantic_text(&state.nodes[p].1);
        let ghost before = out@;
        if t.as_str().unicode_len() > 0 {
            out.push(p);
        }
        proof {
            assert(ps@.take(i + 1).drop_last() =~= ps@.take(i as int));
            assert(ps@.take(i + 1).last() == p);
            assert(out@ =~= texted_below(*state, ps@.take(i + 1)));
            assert forall|k: int| 0 <= k < out@.len() implies (#[trigger] out@[k]) < state.nodes@.len() by {
                if k < before.len() {
                    assert(out@[k] == before[k]);
                }
            }
        }
        i += 1;
    }
    assert(ps@.take(ps@.len() as int) =~= ps@);
    out
}

/// Whether the node keyed `key` contains `other`.
fn contains_node(state: &State, key: &String, other: &NodeEvidence) -> (r: bool)
    requires
        state.wf(),
    ensures
        r == related(*state, key@, *other),
{
    let ghost es = entries(state.nodes@);
    let mut parent = other.parent.clone();
    let mut steps: usize = 24;
    while steps > 0
        invariant
            state.wf(),
            es == entries(state.nodes@),
            steps <= 24,
            related(*state, key@, *other) == related_from(es, parent@, key@, steps as nat),
        decreases steps,
    {
        if str_eq(parent.as_str(), key.as_str()) {
            return true;
        }
        match get(&state.nodes, &parent) {
            None => {
                return false;
            },
            Some(ancestor) => {
                parent = ancestor.parent.clone();
                steps = steps - 1;
            },
        }
    }
    false
}

/// A recorded collision per pair of texts, in ascending order of the texts,
/// each with the area recorded last.
spec fn tally_keys(m: Seq<(Vec<String>, i128)>) -> Seq<Seq<Seq<char>>> {
    m.map_values(|e: (Vec<String>, i128)| views(e.0@))
}

spec fn tallies(m: Seq<(Vec<String>, i128)>, events: Seq<(Seq<Seq<char>>, int)>) -> bool {
    &&& ascending_keys(tally_keys(m))
    &&& forall|k: Seq<Seq<char>>| #[trigger] tally_keys(m).contains(k) <==> event_keys(events).contains(k)
    &&& forall|j: int| 0 <= j < m.len() ==> (#[trigger] m[j]).1 as int == last_area(events, views(m[j].0@))
    &&& forall|j: int| 0 <= j < m.len() ==> 0 <= (#[trigger] m[j]).1 < 0x10_0000_0000_0000_0000
}

proof fn lemma_last_area_push(events: Seq<(Seq<Seq<char>>, int)>, e: (Seq<Seq<char>>, int), k: Seq<Seq<char>>)
    ensures
        last_area(events.push(e), k) == if e.0 == k {
            e.1
        } else {
            last_area(events, k)
        },
{
    assert(events.push(e).drop_last() =~= events);
}

/// Records a collision's area under its pair of texts, replacing an earlier
/// one.
fn record(m: &mut Vec<(Vec<String>, i128)>, key: Vec<String>, area: i128, Ghost(events): Ghost<Seq<(Seq<Seq<char>>, int)>>)
    requires
        tallies(old(m)@, events),
        0 <= area < 0x10_0000_0000_0000_0000,
    ensures
        tallies(final(m)@, events.push((views(key@), area as int))),
{
    let ghost k = views(key@);
    let ghost e = (k, area as int);
    let ghost ev = events.push(e);
    let ghost before = tally_keys(old(m)@);
    let ghost old_m = m@;
    assert forall|w: Seq<Seq<char>>| #[trigger] event_keys(ev).contains(w) <==> (event_keys(events).contains(w) || w == k) by {
        if event_keys(ev).contains(w) {
            let i = choose|i: int| 0 <= i < ev.len() && (#[trigger] ev[i]).0 == w;
            if i < events.len() {
                assert(events[i] == ev[i]);
            }
        }
        if event_keys(events).contains(w) {
            let i = choose|i: int| 0 <= i < events.len() && (#[trigger] events[i]).0 == w;
            assert(ev[i] == events[i]);
        }
        if w == k {
            assert(ev[events.len() as int].0 == w);
        }
    }
    let mut i: usize = 0;
    while i < m.len() && crate::order::key_less(&m[i].0, &key)
        invariant
            i <= m@.len(),
            k == views(key@),
            m@ == old_m,
            before == tally_keys(m@),
            forall|j: int| 0 <= j < i ==> key_lt(#[trigger] before[j], k),
        decreases m@.len() - i,
    {
        assert(before[i as int] == views(m@[i as int].0@));
        i += 1;
    }
    if i < m.len() && crate::order::key_equal(&m[i].0, &key) {
        let (kk, _) = m.remove(i);
        m.insert(i, (kk, area));
        proof {
            assert(before[i as int] == k);
            let after = tally_keys(m@);
            assert(after =~= before);
            assert forall|j: int| 0 <= j < m@.len() implies (#[trigger] m@[j]).1 as int == last_area(ev, views(m@[j].0@)) by {
                lemma_last_area_push(events, e, views(m@[j].0@));
                if j != i {
                    assert(m@[j] == old_m[j]);
                    assert(before[j] != k) by {
                        if j < i {
                            crate::order::lemma_key_irreflexive(k);
                        } else {
                            assert(key_lt(before[i as int], before[j]));
                            crate::order::lemma_key_irreflexive(k);
                        }
                    }
                } else {
                    assert(views(m@[j].0@) == k);
                }
            }
        }
    } else {
        proof {
            if i < before.len() {
                crate::order::lemma_key_total(before[i as int], k);
                assert(key_lt(k, before[i as int]));
            }
        }
        m.insert(i, (key, area));
        proof {
            let after = tally_keys(m@);
            assert(after =~= before.take(i as int).push(k) + before.skip(i as int));
            assert forall|a: int, b: int| 0 <= a < b < after.len() implies key_lt(#[trigger] after[a], #[trigger] after[b]) by {
                if a < i && b > i {
                    assert(after[b] == before[b - 1]);
                    assert(after[a] == before[a]);
                    if b - 1 > i {
                        crate::order::lemma_key_transitive(k, before[i as int], before[b - 1]);
                    }
                    crate::order::lemma_key_transitive(after[a], k, after[b]);
                } else if a == i && b > i {
                    assert(after[b] == before[b - 1]);
                    if b - 1 > i {
                        crate::order::lemma_key_transitive(k, before[i as int], before[b - 1]);
                    }
                } else if a < i && b < i {
                    assert(after[a] == before[a]);
                    assert(after[b] == before[b]);
                } else if a > i {
                    assert(after[a] == before[a - 1]);
                    assert(after[b] == before[b - 1]);
                } else {
                    assert(after[a] == before[a]);
                }
            }
            assert(!before.contains(k)) by {
                if before.contains(k) {
                    let j = choose|j: int| 0 <= j < before.len() && before[j] == k;
                    if j < i {
                        crate::order::lemma_key_irreflexive(k);
                    } else if j == i {
                        crate::order::lemma_key_irreflexive(k);
                    } else {
                        crate::order::lemma_key_transitive(k, before[i as int], before[j]);
                        crate::order::lemma_key_irreflexive(k);
                    }
                }
            }
            assert forall|w: Seq<Seq<char>>| #[trigger] after.contains(w) <==> (before.contains(w) || w == k) by {
                if after.contains(w) && w != k {
                    let j = choose|j: int| 0 <= j < after.len() && after[j] == w;
                    if j < i {
                        assert(before[j] == w);
                    } else {
                        assert(before[j - 1] == w);
                    }
                }
                if before.contains(w) {
                    let j = choose|j: int| 0 <= j < before.len() && before[j] == w;
                    if j < i {
                        assert(after[j] == w);
                    } else {
                        assert(after[j + 1] == w);
                    }
                }
                if w == k {
                    assert(after[i as int] == w);
                }
            }
            assert forall|j: int| 0 <= j < m@.len() implies (#[trigger] m@[j]).1 as int == last_area(ev, views(m@[j].0@)) by {
                lemma_last_area_push(events, e, views(m@[j].0@));
                if j != i {
                    let o = if j < i { j } else { j - 1 };
                    assert(m@[j] == old_m[o]);
                    assert(before[o] != k);
                    assert(views(m@[j].0@) == before[o]);
                } else {
                    assert(views(m@[j].0@) == k);
                }
            }
        }
    }
}


fn collide_exec(state: &State, a: usize, b: usize) -> (r: bool)
    requires
        state.wf(),
        boxes_bounded(*state),
        a < state.nodes@.len(),
        b < state.nodes@.len(),
    ensures
        r == collide(*state, a as int, b as int),
{
    let na = &state.nodes[a].1;
    let nb = &state.nodes[b].1;
    assert(bounded(box_of(state.nodes@[a as int].1)));
    assert(bounded(box_of(state.nodes@[b as int].1)));
    let area = overlap_of(box_exec(na), box_exec(nb));
    proof {
        let (w1, h1, w2, h2) = (na.width as int, na.height as int, nb.width as int, nb.height as int);
        assert(-0x1_0000_0000_0000_0000 <= w1 * h1 <= 0x1_0000_0000_0000_0000) by (nonlinear_arith)
            requires
                -0x1_0000_0000 < w1 < 0x1_0000_0000,
                -0x1_0000_0000 < h1 < 0x1_0000_0000,
        ;
        assert(-0x1_0000_0000_0000_0000 <= w2 * h2 <= 0x1_0000_0000_0000_0000) by (nonlinear_arith)
            requires
                -0x1_0000_0000 < w2 < 0x1_0000_0000,
                -0x1_0000_0000 < h2 < 0x1_0000_0000,
        ;
        assert(0 <= area < 0x10_0000_0000_0000_0000);
    }
    let sa: i128 = na.width as i128 * na.height as i128;
    let sb: i128 = nb.width as i128 * nb.height as i128;
    let smallest = if sa < sb {
        sa
    } else {
        sb
    };
    if area < 160000 || smallest <= 0 || 100 * area < 8 * smallest {
        return false;
    }
    !contains_node(state, &state.nodes[a].0, nb) && !contains_node(state, &state.nodes[b].0, na)
}


/// The two texts of a collision, shortened and in ascending order.
fn collision_key_of(state: &State, a: usize, b: usize) -> (r: Vec<String>)
    requires
        a < state.nodes@.len(),
        b < state.nodes@.len(),
    ensures
        views(r@) == collision_key(*state, a as int, b as int),
{
    let x = truncate(semantic_text(&state.nodes[a].1).as_str(), 32);
    let y = truncate(semantic_text(&state.nodes[b].1).as_str(), 32);
    let mut r: Vec<String> = Vec::new();
    if crate::order::lex_less(&crate::text::chars_of(y.as_str()), &crate::text::chars_of(x.as_str())) {
        r.push(y);
        r.push(x);
    } else {
        r.push(x);
        r.push(y);
    }
    assert(views(r@) =~= collision_key(*state, a as int, b as int));
    r
}

/// Every pair of texts a page paints over each other, with the area
/// recorded last for each.
fn collisions(state: &State) -> (r: Vec<(Vec<String>, i128)>)
    requires
        state.wf(),
        boxes_bounded(*state),
    ensures
        tallies(r@, collision_events(*state)),
{
    let ps = semantic_nodes(state);
    let ts = texted_of(state, &ps);
    let ghost tv = ts@;
    assert(tv == texted(*state));
    let t = ts.len();
    let mut m: Vec<(Vec<String>, i128)> = Vec::new();
    proof {
        assert(collisions_upto(*state, tv, 0) =~= Seq::<(Seq<Seq<char>>, int)>::empty());
        assert forall|k: Seq<Seq<char>>| #[trigger] tally_keys(m@).contains(k) <==> event_keys(
            collisions_upto(*state, tv, 0),
        ).contains(k) by {
            if event_keys(collisions_upto(*state, tv, 0)).contains(k) {
                let i = choose|i: int| 0 <= i < collisions_upto(*state, tv, 0).len() && (#[trigger] collisions_upto(
                    *state,
                    tv,
                    0,
                )[i]).0 == k;
            }
        }
    }
    let mut l: usize = 0;
    while l < t
        invariant
            l <= t,
            t == tv.len(),
            tv == ts@,
            state.wf(),
            boxes_bounded(*state),
            forall|k: int| 0 <= k < ts@.len() ==> (#[trigger] ts@[k]) < state.nodes@.len(),
            tallies(m@, collisions_upto(*state, tv, l as int)),
        decreases t - l,
    {
        let mut r: usize = l + 1;
        let ghost base = collisions_upto(*state, tv, l as int);
        assert(collisions_after(*state, tv, l as int, r as int) =~= Seq::<(Seq<Seq<char>>, int)>::empty());
        assert(base + collisions_after(*state, tv, l as int, r as int) =~= base);
        while r < t
            invariant
                l < r <= t,
                t == tv.len(),
                tv == ts@,
                state.wf(),
                boxes_bounded(*state),
                forall|k: int| 0 <= k < ts@.len() ==> (#[trigger] ts@[k]) < state.nodes@.len(),
                base == collisions_upto(*state, tv, l as int),
                tallies(m@, base + collisions_after(*state, tv, l as int, r as int)),
            decreases t - r,
        {
            let a = ts[l];
            let b = ts[r];
            let ghost so_far = base + collisions_after(*state, tv, l as int, r as int);
            if collide_exec(state, a, b) {
                let key = collision_key_of(state, a, b);
                assert(bounded(box_of(state.nodes@[a as int].1)));
                assert(bounded(box_of(state.nodes@[b as int].1)));
                let area = overlap_of(box_exec(&state.nodes[a].1), box_exec(&state.nodes[b].1));
                record(&mut m, key, area, Ghost(so_far));
                assert(so_far.push((views(key@), area as int)) =~= base + collisions_after(*state, tv, l as int, r + 1));
            } else {
                assert(so_far =~= base + collisions_after(*state, tv, l as int, r + 1));
            }
            r += 1;
        }
        assert(collisions_upto(*state, tv, l + 1) =~= base + collisions_after(*state, tv, l as int, t as int));
        l += 1;
    }
    m
}

/// Square pixels from square hundredths of a pixel.
fn area_string(a: i128) -> (r: String)
    requires
        0 <= a < 0x10_0000_0000_0000_0000,
    ensures
        r@ == area_text(a as int),
{
    let mut r = String::new();
    if a % 10000 < 100 {
        push_decimal(&mut r, (a / 10000) as u128);
    } else {
        let h = (a + 50) / 100;
        push_decimal(&mut r, (h / 100) as u128);
        crate::text::push_char(&mut r, '.');
        let f = h % 100;
        crate::text::push_char(&mut r, ((f / 10) as u8 + 48) as char);
        crate::text::push_char(&mut r, ((f % 10) as u8 + 48) as char);
    }
    assert(r@ =~= area_text(a as int));
    r
}

/// Whether a list of tallies records a pair of texts.
fn recorded(m: &Vec<(Vec<String>, i128)>, key: &Vec<String>) -> (r: bool)
    ensures
        r == tally_keys(m@).contains(views(key@)),
{
    let mut i: usize = 0;
    while i < m.len()
        invariant
            i <= m@.len(),
            forall|j: int| 0 <= j < i ==> tally_keys(m@)[j] != views(key@),
        decreases m@.len() - i,
    {
        if crate::order::key_equal(&m[i].0, key) {
            assert(tally_keys(m@)[i as int] == views(key@));
            return true;
        }
        i += 1;
    }
    false
}

/// The texts the recreation paints over each other and the source does not.
pub fn compare_text_collisions(source: &State, candidate: &State) -> (r: Vec<Finding>)
    requires
        source.wf(),
        candidate.wf(),
        boxes_bounded(*source),
        boxes_bounded(*candidate),
    ensures
        finding_views(r@) == new_collisions(*source, *candidate),
{
    let sm = collisions(source);
    let cm = collisions(candidate);
    let ghost ck = tally_keys(cm@);
    let ghost sk = tally_keys(sm@);
    let ghost ce = collision_events(*candidate);
    let scope = state_scope(candidate);
    let mut out: Vec<Finding> = Vec::new();
    let ghost mut q: Seq<Seq<Seq<char>>> = Seq::empty();
    let mut j: usize = 0;
    while j < cm.len()
        invariant
            j <= cm@.len(),
            ck == tally_keys(cm@),
            sk == tally_keys(sm@),
            ce == collision_events(*candidate),
            tallies(cm@, ce),
            tallies(sm@, collision_events(*source)),
            scope == scope_of(*candidate),
            ascending_keys(q),
            forall|a: int| 0 <= a < q.len() ==> exists|b: int| 0 <= b < j && ck[b] == #[trigger] q[a],
            forall|w: Seq<Seq<char>>| #[trigger] q.contains(w) <==> (exists|b: int| 0 <= b < j && ck[b] == w && !sk.contains(w)),
            finding_views(out@) == collision_findings(*candidate, q),
        decreases cm@.len() - j,
    {
        let ghost k = ck[j as int];
        assert(k == views(cm@[j as int].0@));
        let ghost q0 = q;
        if !recorded(&sm, &cm[j].0) {
            let key = &cm[j].0;
            assert(views(key@).len() == 2) by {
                assert(ck.contains(k));
                assert(event_keys(ce).contains(k));
                let i = choose|i: int| 0 <= i < ce.len() && (#[trigger] ce[i]).0 == k;
                lemma_event_shape(*candidate, i);
            }
            let mut target = String::new();
            push_str(&mut target, key[0].as_str());
            push_str(&mut target, " over ");
            push_str(&mut target, key[1].as_str());
            assert(0 <= cm@[j as int].1 < 0x10_0000_0000_0000_0000);
            let mut shown = area_string(cm[j].1);
            push_str(&mut shown, "px²");
            let f = finding(&scope, target.as_str(), "overlap", "clear", shown.as_str(), None);
            let ghost before = finding_views(out@);
            out.push(f);
            proof {
                q = q0.push(k);
                assert(target@ =~= k[0] + " over "@ + k[1]);
                assert(q.drop_last() =~= q0);
                assert(q.last() == k);
                assert(ck.contains(k));
                assert(collision_keys(*candidate).contains(k));
                assert(q.drop_last() =~= q0);
                assert(finding_views(out@) =~= before.push(f@));
                assert(cm@[j as int].1 as int == last_area(ce, k));
                assert forall|a: int, b: int| 0 <= a < b < q.len() implies key_lt(#[trigger] q[a], #[trigger] q[b]) by {
                    if b == q0.len() {
                        let bb = choose|bb: int| 0 <= bb < j && ck[bb] == q0[a];
                        assert(key_lt(ck[bb], ck[j as int]));
                    } else {
                        assert(q[a] == q0[a] && q[b] == q0[b]);
                    }
                }
                assert forall|a: int| 0 <= a < q.len() implies exists|b: int| 0 <= b < j + 1 && ck[b] == #[trigger] q[a] by {
                    if a == q0.len() {
                        assert(ck[j as int] == q[a]);
                    } else {
                        assert(q[a] == q0[a]);
                        let bb = choose|bb: int| 0 <= bb < j && ck[bb] == q0[a];
                        assert(ck[bb] == q[a]);
                    }
                }
                assert forall|w: Seq<Seq<char>>| #[trigger] q.contains(w) <==> (exists|b: int|
                    0 <= b < j + 1 && ck[b] == w && !sk.contains(w)) by {
                    if q.contains(w) {
                        let a = choose|a: int| 0 <= a < q.len() && q[a] == w;
                        if a == q0.len() {
                            assert(ck[j as int] == w);
                        } else {
                            assert(q0[a] == w);
                            assert(q0.contains(w));
                        }
                    }
                    if exists|b: int| 0 <= b < j + 1 && ck[b] == w && !sk.contains(w) {
                        let b = choose|b: int| 0 <= b < j + 1 && ck[b] == w && !sk.contains(w);
                        if b == j {
                            assert(q[q0.len() as int] == w);
                        } else {
                            assert(q0.contains(w));
                            let a = choose|a: int| 0 <= a < q0.len() && q0[a] == w;
                            assert(q[a] == w);
                        }
                    }
                }
            }
        } else {
            proof {
                assert forall|w: Seq<Seq<char>>| #[trigger] q.contains(w) <==> (exists|b: int|
                    0 <= b < j + 1 && ck[b] == w && !sk.contains(w)) by {
                    if exists|b: int| 0 <= b < j + 1 && ck[b] == w && !sk.contains(w) {
                        let b = choose|b: int| 0 <= b < j + 1 && ck[b] == w && !sk.contains(w);
                        if b == j {
                            assert(sk.contains(k));
                        }
                    }
                }
            }
        }
        j += 1;
    }
    proof {
        let d = collision_keys(*candidate).difference(collision_keys(*source));
        assert forall|w: Seq<Seq<char>>| #[trigger] q.contains(w) <==> d.contains(w) by {
            if q.contains(w) {
                let b = choose|b: int| 0 <= b < cm@.len() && ck[b] == w && !sk.contains(w);
                assert(ck.contains(w));
            }
            if d.contains(w) {
                assert(ck.contains(w));
                let b = choose|b: int| 0 <= b < ck.len() && ck[b] == w;
            }
        }
        crate::order::lemma_enumerate_keys(q, d);
    }
    out
}

proof fn lemma_event_shape(s: State, i: int)
    requires
        0 <= i < collision_events(s).len(),
    ensures
        collision_events(s)[i].0.len() == 2,
{
    lemma_upto_shape(s, texted(s), texted(s).len() as int);
}

proof fn lemma_upto_shape(s: State, ts: Seq<usize>, l: int)
    ensures
        forall|i: int| 0 <= i < collisions_upto(s, ts, l).len() ==> (#[trigger] collisions_upto(s, ts, l)[i]).0.len() == 2,
    decreases l,
{
    if l > 0 {
        lemma_upto_shape(s, ts, l - 1);
        lemma_after_shape(s, ts, l - 1, ts.len() as int);
        let a = collisions_upto(s, ts, l - 1);
        let b = collisions_after(s, ts, l - 1, ts.len() as int);
        assert forall|i: int| 0 <= i < (a + b).len() implies (#[trigger] (a + b)[i]).0.len() == 2 by {
            if i < a.len() {
                assert((a + b)[i] == a[i]);
            } else {
                assert((a + b)[i] == b[i - a.len()]);
            }
        }
    }
}

proof fn lemma_after_shape(s: State, ts: Seq<usize>, l: int, r: int)
    ensures
        forall|i: int| 0 <= i < collisions_after(s, ts, l, r).len() ==> (#[trigger] collisions_after(s, ts, l, r)[i]).0.len()
            == 2,
    decreases r - l,
{
    if r > l + 1 {
        lemma_after_shape(s, ts, l, r - 1);
        let a = collisions_after(s, ts, l, r - 1);
        let all = collisions_after(s, ts, l, r);
        assert forall|i: int| 0 <= i < all.len() implies (#[trigger] all[i]).0.len() == 2 by {
            if i < a.len() {
                assert(all[i] == a[i]);
            }
        }
    }
}


/// What two elements must share to be taken for one at first sight: their
/// kind and their text, ignoring ASCII case.
pub open spec fn signature(n: NodeEvidence) -> Seq<char> {
    kind_of(n) + seq![':'] + ascii_lower(text_of(n))
}

/// The node at position `p`.
pub open spec fn node_at(s: State, p: usize) -> NodeEvidence {
    s.nodes@[p as int].1
}

/// For each candidate element, a string it is matched on.
pub open spec fn candidate_signatures(c: State) -> Seq<Seq<char>> {
    semantic_positions(c).map_values(|p: usize| signature(node_at(c, p)))
}

pub open spec fn candidate_texts(c: State) -> Seq<Seq<char>> {
    semantic_positions(c).map_values(|p: usize| ascii_lower(text_of(node_at(c, p))))
}

pub open spec fn candidate_kinds(c: State) -> Seq<Seq<char>> {
    semantic_positions(c).map_values(|p: usize| kind_of(node_at(c, p)))
}

/// The first candidate in `order` that is still free, carries `want`, and,
/// when `flags` are given, is flagged.
pub open spec fn first_free(
    matched: Seq<bool>,
    order: Seq<usize>,
    keys: Seq<Seq<char>>,
    want: Seq<char>,
    flags: Option<Seq<bool>>,
) -> Option<usize>
    decreases order.len(),
{
    if order.len() == 0 {
        None
    } else {
        let e = order[0];
        if e < matched.len() && e < keys.len() && !matched[e as int] && keys[e as int] == want && match flags {
            Some(f) => e < f.len() && f[e as int],
            None => true,
        } {
            Some(e)
        } else {
            first_free(matched, order.drop_first(), keys, want, flags)
        }
    }
}

/// The candidate a source element is paired with: the nearest free one of
/// the same signature, else the nearest free one with the same text, else
/// the nearest free one of the same kind that is near enough and reads
/// alike.
pub open spec fn choice(c: State, src: NodeEvidence, matched: Seq<bool>, order: Seq<usize>, near: Seq<bool>) -> Option<usize> {
    let exact = first_free(matched, order, candidate_signatures(c), signature(src), None);
    if exact is Some {
        exact
    } else {
        let texted = if text_of(src).len() > 0 {
            first_free(matched, order, candidate_texts(c), ascii_lower(text_of(src)), None)
        } else {
            None
        };
        if texted is Some {
            texted
        } else {
            first_free(matched, order, candidate_kinds(c), kind_of(src), Some(near))
        }
    }
}

/// The state of pairing: which candidates are taken, the pairs whose
/// arrangement is compared, and the findings so far.
pub struct Pairing {
    pub matched: Seq<bool>,
    pub pairs: Seq<LayoutPairView>,
    pub findings: Seq<FindingView>,
}

/// Pairing after the first `k` source elements.
pub open spec fn paired(s: State, c: State, order: Seq<Seq<usize>>, near: Seq<Seq<bool>>, k: int) -> Pairing
    decreases k,
{
    if k <= 0 {
        Pairing {
            matched: Seq::new(semantic_positions(c).len(), |i: int| false),
            pairs: seq![],
            findings: seq![],
        }
    } else {
        let prev = paired(s, c, order, near, k - 1);
        let p = semantic_positions(s)[k - 1];
        let src = node_at(s, p);
        let target = target_of(s, s.nodes@[p as int].0@, src);
        match choice(c, src, prev.matched, order[k - 1], near[k - 1]) {
            Some(e) => {
                let actual = node_at(c, semantic_positions(c)[e as int]);
                Pairing {
                    matched: prev.matched.update(e as int, true),
                    pairs: prev.pairs.push(
                        LayoutPairView {
                            source: box_of(src),
                            candidate: box_of(actual),
                            region: region_of(s, src),
                            kind: kind_of(src),
                        },
                    ),
                    findings: prev.findings + matched_findings(s, target, src, actual),
                }
            },
            None => Pairing {
                matched: prev.matched,
                pairs: prev.pairs,
                findings: prev.findings.push(
                    finding_value(scope_of(s), target, "content"@, "present"@, "missing"@, None),
                ),
            },
        }
    }
}

/// The candidate elements left unpaired among the first `n`, each reported
/// as unexpected.
pub open spec fn unpaired(s: State, c: State, matched: Seq<bool>, n: int) -> Seq<FindingView>
    decreases n,
{
    if n <= 0 {
        seq![]
    } else {
        let p = semantic_positions(c)[n - 1];
        unpaired(s, c, matched, n - 1) + if !matched[n - 1] {
            seq![
                finding_value(
                    scope_of(s),
                    target_of(c, c.nodes@[p as int].0@, node_at(c, p)),
                    "content"@,
                    "missing"@,
                    "present"@,
                    None,
                ),
            ]
        } else {
            seq![]
        }
    }
}

/// The region and kind a layout finding's target names.
pub open spec fn layout_scope(t: Seq<char>) -> Option<(Seq<char>, Seq<char>)> {
    let suffix = " layout"@;
    if t.len() >= suffix.len() && t.skip(t.len() - suffix.len()) == suffix {
        let u = t.take(t.len() - suffix.len());
        if exists|i: int| 0 <= i < u.len() && u[i] == ' ' {
            let i = choose|i: int| 0 <= i < u.len() && u[i] == ' ' && forall|j: int| i < j < u.len() ==> u[j] != ' ';
            Some((u.take(i), u.skip(i + 1)))
        } else {
            None
        }
    } else {
        None
    }
}

/// A position or size finding that a layout finding already explains: on
/// the region itself, or on an element of that kind inside it.
pub open spec fn explained_by(f: FindingView, layout: FindingView) -> bool {
    match layout_scope(layout.target) {
        Some((region, kind)) => geometric(f.property) && (f.target == region || is_prefix(
            region + " / "@ + kind + seq![' '],
            f.target,
        )),
        None => false,
    }
}

/// The findings that no layout finding explains.
pub open spec fn unexplained(fs: Seq<FindingView>, layout: Seq<FindingView>) -> Seq<FindingView>
    decreases fs.len(),
{
    if fs.len() == 0 {
        seq![]
    } else {
        unexplained(fs.drop_last(), layout) + if exists|i: int| 0 <= i < layout.len() && explained_by(fs.last(), #[trigger] layout[i]) {
            seq![]
        } else {
            seq![fs.last()]
        }
    }
}

/// Everything that differs between two recorded states compared by meaning.
pub open spec fn semantic_findings(s: State, c: State, order: Seq<Seq<usize>>, near: Seq<Seq<bool>>) -> Seq<FindingView> {
    let walked = paired(s, c, order, near, semantic_positions(s).len() as int);
    let first = walked.findings + unpaired(s, c, walked.matched, semantic_positions(c).len() as int)
        + pending_findings(s, c);
    let layout = topology_findings(s, walked.pairs);
    let all = unexplained(first, layout) + layout + new_collisions(s, c) + stylesheet_findings(s, c);
    let compact = compacted(s, all);
    if compact.len() == 0 && s.screenshot_sha256@.len() > 0 && s.screenshot_sha256@ != c.screenshot_sha256@ {
        compact + raster_findings(s, c, false)
    } else {
        compact
    }
}


pub open spec fn flags_view(flags: Option<&Vec<bool>>) -> Option<Seq<bool>> {
    match flags {
        Some(f) => Some(f@),
        None => None,
    }
}

/// The first candidate in `order` that is free, carries `want` and, when
/// flags are given, is flagged.
fn first_free_in(
    matched: &Vec<bool>,
    order: &Vec<usize>,
    keys: &Vec<String>,
    want: &str,
    flags: Option<&Vec<bool>>,
) -> (r: Option<usize>)
    ensures
        r == first_free(matched@, order@, views(keys@), want@, flags_view(flags)),
{
    let ghost ks = views(keys@);
    let mut i: usize = 0;
    assert(order@.skip(0) =~= order@);
    while i < order.len()
        invariant
            i <= order@.len(),
            ks == views(keys@),
            first_free(matched@, order@, ks, want@, flags_view(flags)) == first_free(
                matched@,
                order@.skip(i as int),
                ks,
                want@,
                flags_view(flags),
            ),
        decreases order@.len() - i,
    {
        let e = order[i];
        let ok = e < matched.len() && e < keys.len() && !matched[e] && str_eq(keys[e].as_str(), want) && match flags {
            Some(f) => e < f.len() && f[e],
            None => true,
        };
        proof {
            let rest = order@.skip(i as int);
            assert(rest[0] == e);
            if e < keys@.len() {
                assert(ks[e as int] == keys@[e as int]@);
            }
            assert(rest.drop_first() =~= order@.skip(i + 1));
        }
        if ok {
            return Some(e);
        }
        i += 1;
    }
    None
}

/// A candidate's signature.
fn signature_of(n: &NodeEvidence) -> (r: String)
    ensures
        r@ == signature(*n),
{
    let mut r = semantic_kind(n);
    crate::text::push_char(&mut r, ':');
    let t = semantic_text(n);
    push_str(&mut r, to_ascii_lower(t.as_str()).as_str());
    assert(r@ =~= signature(*n));
    r
}

/// What every candidate element is matched on: its signature, its text
/// ignoring case, and its kind.
fn candidate_keys(c: &State, cp: &Vec<usize>) -> (r: (Vec<String>, Vec<String>, Vec<String>))
    requires
        cp@ == semantic_positions(*c),
        forall|k: int| 0 <= k < cp@.len() ==> (#[trigger] cp@[k]) < c.nodes@.len(),
    ensures
        views(r.0@) == candidate_signatures(*c),
        views(r.1@) == candidate_texts(*c),
        views(r.2@) == candidate_kinds(*c),
{
    let mut sigs: Vec<String> = Vec::new();
    let mut texts: Vec<String> = Vec::new();
    let mut kinds: Vec<String> = Vec::new();
    let mut i: usize = 0;
    while i < cp.len()
        invariant
            i <= cp@.len(),
            cp@ == semantic_positions(*c),
            forall|k: int| 0 <= k < cp@.len() ==> (#[trigger] cp@[k]) < c.nodes@.len(),
            views(sigs@) == candidate_signatures(*c).take(i as int),
            views(texts@) == candidate_texts(*c).take(i as int),
            views(kinds@) == candidate_kinds(*c).take(i as int),
        decreases cp@.len() - i,
    {
        let n = &c.nodes[cp[i]].1;
        let a = signature_of(n);
        let b = to_ascii_lower(semantic_text(n).as_str());
        let k = semantic_kind(n);
        let ghost (s0, t0, k0) = (views(sigs@), views(texts@), views(kinds@));
        sigs.push(a);
        texts.push(b);
        kinds.push(k);
        proof {
            assert(views(sigs@) =~= s0.push(a@));
            assert(views(texts@) =~= t0.push(b@));
            assert(views(kinds@) =~= k0.push(k@));
            assert(candidate_signatures(*c).take(i + 1) =~= candidate_signatures(*c).take(i as int).push(a@));
            assert(candidate_texts(*c).take(i + 1) =~= candidate_texts(*c).take(i as int).push(b@));
            assert(candidate_kinds(*c).take(i + 1) =~= candidate_kinds(*c).take(i as int).push(k@));
        }
        i += 1;
    }
    assert(candidate_signatures(*c).take(cp@.len() as int) =~= candidate_signatures(*c));
    assert(candidate_texts(*c).take(cp@.len() as int) =~= candidate_texts(*c));
    assert(candidate_kinds(*c).take(cp@.len() as int) =~= candidate_kinds(*c));
    (sigs, texts, kinds)
}

/// The candidate a source element is paired with, if any.
fn choose_candidate(
    keys: &(Vec<String>, Vec<String>, Vec<String>),
    src: &NodeEvidence,
    matched: &Vec<bool>,
    order: &Vec<usize>,
    near: &Vec<bool>,
    Ghost(c): Ghost<State>,
) -> (r: Option<usize>)
    requires
        views(keys.0@) == candidate_signatures(c),
        views(keys.1@) == candidate_texts(c),
        views(keys.2@) == candidate_kinds(c),
    ensures
        r == choice(c, *src, matched@, order@, near@),
{
    let sig = signature_of(src);
    let exact = first_free_in(matched, order, &keys.0, sig.as_str(), None);
    if exact.is_some() {
        return exact;
    }
    let text = semantic_text(src);
    if text.as_str().unicode_len() > 0 {
        let lower = to_ascii_lower(text.as_str());
        let texted = first_free_in(matched, order, &keys.1, lower.as_str(), None);
        if texted.is_some() {
            return texted;
        }
    }
    let kind = semantic_kind(src);
    first_free_in(matched, order, &keys.2, kind.as_str(), Some(near))
}


/// The region and kind a layout finding's target names.
fn layout_scope_of(t: &str) -> (r: Option<(String, String)>)
    ensures
        match r {
            Some((a, b)) => layout_scope(t@) == Some((a@, b@)),
            None => layout_scope(t@) is None,
        },
{
    proof {
        reveal_strlit(" layout");
    }
    let cs = crate::text::chars_of(t);
    let n = cs.len();
    if n < 7 || cs[n - 7] != ' ' || cs[n - 6] != 'l' || cs[n - 5] != 'a' || cs[n - 4] != 'y' || cs[n - 3] != 'o'
        || cs[n - 2] != 'u' || cs[n - 1] != 't' {
        proof {
            if n >= 7 {
                let tail = t@.skip(n - 7);
                if tail == " layout"@ {
                    assert(tail[0] == cs@[n - 7]);
                    assert(tail[1] == cs@[n - 6]);
                    assert(tail[2] == cs@[n - 5]);
                    assert(tail[3] == cs@[n - 4]);
                    assert(tail[4] == cs@[n - 3]);
                    assert(tail[5] == cs@[n - 2]);
                    assert(tail[6] == cs@[n - 1]);
                }
            }
        }
        return None;
    }
    assert(t@.skip(n - 7) =~= " layout"@);
    let m = n - 7;
    let ghost u = t@.take(m as int);
    let mut i: usize = m;
    while i > 0 && cs[i - 1] != ' '
        invariant
            i <= m,
            m + 7 == cs@.len(),
            cs@ == t@,
            u == t@.take(m as int),
            forall|j: int| i <= j < m ==> u[j] != ' ',
        decreases i,
    {
        assert(u[i - 1] == cs@[i - 1]);
        i -= 1;
    }
    if i == 0 {
        assert forall|j: int| 0 <= j < u.len() implies !(u[j] == ' ') by {}
        return None;
    }
    let sp = i - 1;
    assert(u[sp as int] == ' ');
    proof {
        let q = choose|q: int| 0 <= q < u.len() && u[q] == ' ' && forall|j: int| q < j < u.len() ==> u[j] != ' ';
        if q < sp {
            assert(u[sp as int] != ' ');
        }
        if q > sp {
            assert(u[q] != ' ');
        }
    }
    let mut a: Vec<char> = Vec::new();
    let mut k: usize = 0;
    while k < sp
        invariant
            k <= sp < m,
            m + 7 == cs@.len(),
            a@ == cs@.take(k as int),
        decreases sp - k,
    {
        a.push(cs[k]);
        k += 1;
        assert(a@ =~= cs@.take(k as int));
    }
    let mut b: Vec<char> = Vec::new();
    let mut k: usize = sp + 1;
    while k < m
        invariant
            sp + 1 <= k <= m,
            m + 7 == cs@.len(),
            b@ == cs@.subrange(sp + 1, k as int),
        decreases m - k,
    {
        b.push(cs[k]);
        k += 1;
        assert(b@ =~= cs@.subrange(sp + 1, k as int));
    }
    assert(a@ =~= u.take(sp as int));
    assert(b@ =~= u.skip(sp + 1));
    Some((crate::text::string_of(&a), crate::text::string_of(&b)))
}

/// Whether a position or size property.
fn is_geometric(p: &str) -> (r: bool)
    ensures
        r == geometric(p@),
{
    str_eq(p, "x") || str_eq(p, "y") || str_eq(p, "width") || str_eq(p, "height")
}

/// Whether a layout finding explains a finding.
fn explained(f: &Finding, layout: &Finding) -> (r: bool)
    ensures
        r == explained_by(f@, layout@),
{
    match layout_scope_of(layout.target.as_str()) {
        None => false,
        Some((region, kind)) => {
            if !is_geometric(f.property.as_str()) {
                return false;
            }
            if str_eq(f.target.as_str(), region.as_str()) {
                return true;
            }
            let mut prefix = String::new();
            push_str(&mut prefix, region.as_str());
            push_str(&mut prefix, " / ");
            push_str(&mut prefix, kind.as_str());
            crate::text::push_char(&mut prefix, ' ');
            assert(prefix@ =~= region@ + " / "@ + kind@ + seq![' ']);
            crate::text::starts_with(f.target.as_str(), prefix.as_str())
        },
    }
}

/// The findings that no layout finding explains.
fn drop_explained(fs: Vec<Finding>, layout: &Vec<Finding>) -> (r: Vec<Finding>)
    ensures
        finding_views(r@) == unexplained(finding_views(fs@), finding_views(layout@)),
{
    let ghost fv = finding_views(fs@);
    let ghost lv = finding_views(layout@);
    let mut out: Vec<Finding> = Vec::new();
    let mut i: usize = 0;
    assert(fv.take(0) =~= Seq::<FindingView>::empty());
    while i < fs.len()
        invariant
            i <= fs@.len(),
            fv == finding_views(fs@),
            lv == finding_views(layout@),
            finding_views(out@) == unexplained(fv.take(i as int), lv),
        decreases fs@.len() - i,
    {
        let mut hit = false;
        let mut j: usize = 0;
        while j < layout.len()
            invariant
                j <= layout@.len(),
                lv == finding_views(layout@),
                i < fs@.len(),
                hit == exists|q: int| 0 <= q < j && explained_by(fs@[i as int]@, #[trigger] lv[q]),
            decreases layout@.len() - j,
        {
            if explained(&fs[i], &layout[j]) {
                assert(explained_by(fs@[i as int]@, lv[j as int]));
                hit = true;
            }
            j += 1;
        }
        proof {
            assert(fv.take(i + 1).drop_last() =~= fv.take(i as int));
            assert(fv.take(i + 1).last() == fs@[i as int]@);
        }
        if !hit {
            let f = fs[i].duplicate();
            let ghost before = finding_views(out@);
            out.push(f);
            assert(finding_views(out@) =~= before.push(f@));
        } else {
            assert(finding_views(out@) =~= unexplained(fv.take(i as int), lv) + Seq::<FindingView>::empty());
        }
        i += 1;
    }
    assert(fv.take(fs@.len() as int) =~= fv);
    out
}


proof fn lemma_first_free_bounds(
    matched: Seq<bool>,
    order: Seq<usize>,
    keys: Seq<Seq<char>>,
    want: Seq<char>,
    flags: Option<Seq<bool>>,
)
    ensures
        match first_free(matched, order, keys, want, flags) {
            Some(e) => e < matched.len() && e < keys.len() && !matched[e as int],
            None => true,
        },
    decreases order.len(),
{
    if order.len() > 0 {
        lemma_first_free_bounds(matched, order.drop_first(), keys, want, flags);
    }
}

pub open spec fn nested(v: Seq<Vec<usize>>) -> Seq<Seq<usize>> {
    v.map_values(|x: Vec<usize>| x@)
}

pub open spec fn nested_flags(v: Seq<Vec<bool>>) -> Seq<Seq<bool>> {
    v.map_values(|x: Vec<bool>| x@)
}

/// Pairs the `k`-th listed source element and compares the pair.
#[verifier::spinoff_prover]
fn pair_one(
    source: &State,
    candidate: &State,
    sp: &Vec<usize>,
    cp: &Vec<usize>,
    keys: &(Vec<String>, Vec<String>, Vec<String>),
    order: &Vec<Vec<usize>>,
    near: &Vec<Vec<bool>>,
    k: usize,
    matched: &mut Vec<bool>,
    pairs: &mut Vec<LayoutPair>,
    findings: &mut Vec<Finding>,
)
    requires
        k < sp@.len(),
        source.wf(),
        candidate.wf(),
        boxes_bounded(*source),
        boxes_bounded(*candidate),
        sp@ == semantic_positions(*source),
        cp@ == semantic_positions(*candidate),
        forall|q: int| 0 <= q < sp@.len() ==> (#[trigger] sp@[q]) < source.nodes@.len(),
        forall|q: int| 0 <= q < cp@.len() ==> (#[trigger] cp@[q]) < candidate.nodes@.len(),
        order@.len() == sp@.len(),
        near@.len() == sp@.len(),
        views(keys.0@) == candidate_signatures(*candidate),
        views(keys.1@) == candidate_texts(*candidate),
        views(keys.2@) == candidate_kinds(*candidate),
        old(matched)@ == paired(*source, *candidate, nested(order@), nested_flags(near@), k as int).matched,
        old(matched)@.len() == cp@.len(),
        pair_views(old(pairs)@) == paired(*source, *candidate, nested(order@), nested_flags(near@), k as int).pairs,
        pairs_bounded(pair_views(old(pairs)@)),
        old(pairs)@.len() <= k,
        finding_views(old(findings)@) == paired(*source, *candidate, nested(order@), nested_flags(near@), k as int).findings,
    ensures
        final(matched)@ == paired(*source, *candidate, nested(order@), nested_flags(near@), k + 1).matched,
        final(matched)@.len() == cp@.len(),
        pair_views(final(pairs)@) == paired(*source, *candidate, nested(order@), nested_flags(near@), k + 1).pairs,
        pairs_bounded(pair_views(final(pairs)@)),
        final(pairs)@.len() <= k + 1,
        finding_views(final(findings)@) == paired(*source, *candidate, nested(order@), nested_flags(near@), k + 1).findings,
{
    let ghost ov = nested(order@);
    let ghost nv = nested_flags(near@);
    let scope = state_scope(source);
        let p = sp[k];
        let src = &source.nodes[p].1;
        let key = &source.nodes[p].0;
        let target = semantic_target(source, key.as_str(), src);
        assert(order@[k as int]@ == ov[k as int]);
        assert(near@[k as int]@ == nv[k as int]);
        let picked = choose_candidate(keys, src, &matched, &order[k], &near[k], Ghost(*candidate));
        proof {
            lemma_first_free_bounds(matched@, ov[k as int], candidate_signatures(*candidate), signature(*src), None);
            lemma_first_free_bounds(
                matched@,
                ov[k as int],
                candidate_texts(*candidate),
                ascii_lower(text_of(*src)),
                None,
            );
            lemma_first_free_bounds(matched@, ov[k as int], candidate_kinds(*candidate), kind_of(*src), Some(nv[k as int]));
            assert(bounded(box_of(source.nodes@[p as int].1)));
        }
        match picked {
            Some(e) => {
                let actual = &candidate.nodes[cp[e]].1;
                proof {
                    assert(bounded(box_of(candidate.nodes@[cp@[e as int] as int].1)));
                    assert(crate::backtest::motion::motions_wf(source.nodes@[p as int].1.motions@));
                    assert(crate::backtest::motion::motions_wf(candidate.nodes@[cp@[e as int] as int].1.motions@));
                }
                matched.set(e, true);
                let pair = LayoutPair {
                    source: box_exec(src),
                    candidate: box_exec(actual),
                    region: semantic_region(source, src),
                    kind: semantic_kind(src),
                };
                let ghost before_pairs = pair_views(pairs@);
                pairs.push(pair);
                let mut part = crate::backtest::matched::compare_semantic_node(source, target.as_str(), src, actual);
                let ghost before = finding_views(findings@);
                let ghost pv = finding_views(part@);
                findings.append(&mut part);
                proof {
                    assert(finding_views(findings@) =~= before + pv);
                    assert(pair_views(pairs@) =~= before_pairs.push(pair@));
                    assert forall|q: int| 0 <= q < pair_views(pairs@).len() implies bounded((#[trigger] pair_views(pairs@)[q]).source)
                        && bounded(pair_views(pairs@)[q].candidate) by {
                        if q < before_pairs.len() {
                            assert(pair_views(pairs@)[q] == before_pairs[q]);
                        }
                    }
                }
            },
            None => {
                let f = finding(&scope, target.as_str(), "content", "present", "missing", None);
                let ghost before = finding_views(findings@);
                findings.push(f);
                assert(finding_views(findings@) =~= before.push(f@));
            },
        }
}

/// Pairs every listed source element, in order, and compares each pair.
#[verifier::spinoff_prover]
fn walk_pairs(
    source: &State,
    candidate: &State,
    sp: &Vec<usize>,
    cp: &Vec<usize>,
    keys: &(Vec<String>, Vec<String>, Vec<String>),
    order: &Vec<Vec<usize>>,
    near: &Vec<Vec<bool>>,
) -> (r: (Vec<bool>, Vec<LayoutPair>, Vec<Finding>))
    requires
        source.wf(),
        candidate.wf(),
        boxes_bounded(*source),
        boxes_bounded(*candidate),
        sp@ == semantic_positions(*source),
        cp@ == semantic_positions(*candidate),
        forall|q: int| 0 <= q < sp@.len() ==> (#[trigger] sp@[q]) < source.nodes@.len(),
        forall|q: int| 0 <= q < cp@.len() ==> (#[trigger] cp@[q]) < candidate.nodes@.len(),
        order@.len() == sp@.len(),
        near@.len() == sp@.len(),
        views(keys.0@) == candidate_signatures(*candidate),
        views(keys.1@) == candidate_texts(*candidate),
        views(keys.2@) == candidate_kinds(*candidate),
    ensures
        r.0@ == paired(*source, *candidate, nested(order@), nested_flags(near@), sp@.len() as int).matched,
        r.0@.len() == cp@.len(),
        pair_views(r.1@) == paired(*source, *candidate, nested(order@), nested_flags(near@), sp@.len() as int).pairs,
        pairs_bounded(pair_views(r.1@)),
        r.1@.len() <= sp@.len(),
        finding_views(r.2@) == paired(*source, *candidate, nested(order@), nested_flags(near@), sp@.len() as int).findings,
{
    let ghost ov = nested(order@);
    let ghost nv = nested_flags(near@);
    let scope = state_scope(source);
    let mut matched: Vec<bool> = Vec::new();
    let mut e: usize = 0;
    while e < cp.len()
        invariant
            e <= cp@.len(),
            matched@ == Seq::new(e as nat, |i: int| false),
        decreases cp@.len() - e,
    {
        matched.push(false);
        e += 1;
        assert(matched@ =~= Seq::new(e as nat, |i: int| false));
    }
    let mut pairs: Vec<LayoutPair> = Vec::new();
    let mut findings: Vec<Finding> = Vec::new();
    let mut k: usize = 0;
    while k < sp.len()
        invariant
            k <= sp@.len(),
            sp@ == semantic_positions(*source),
            cp@ == semantic_positions(*candidate),
            forall|q: int| 0 <= q < sp@.len() ==> (#[trigger] sp@[q]) < source.nodes@.len(),
            forall|q: int| 0 <= q < cp@.len() ==> (#[trigger] cp@[q]) < candidate.nodes@.len(),
            source.wf(),
            candidate.wf(),
            boxes_bounded(*source),
            boxes_bounded(*candidate),
            order@.len() == sp@.len(),
            near@.len() == sp@.len(),
            ov == nested(order@),
            nv == nested_flags(near@),
            views(keys.0@) == candidate_signatures(*candidate),
            views(keys.1@) == candidate_texts(*candidate),
            views(keys.2@) == candidate_kinds(*candidate),
            scope == scope_of(*source),
            matched@ == paired(*source, *candidate, ov, nv, k as int).matched,
            matched@.len() == cp@.len(),
            pair_views(pairs@) == paired(*source, *candidate, ov, nv, k as int).pairs,
            pairs_bounded(pair_views(pairs@)),
            pairs@.len() <= k,
            finding_views(findings@) == paired(*source, *candidate, ov, nv, k as int).findings,
        decreases sp@.len() - k,
    {
        pair_one(source, candidate, sp, cp, keys, order, near, k, &mut matched, &mut pairs, &mut findings);
        k += 1;
    }
    (matched, pairs, findings)
}

/// Reports every candidate element left unpaired.
fn report_unpaired(
    source: &State,
    candidate: &State,
    cp: &Vec<usize>,
    matched: &Vec<bool>,
    findings: &mut Vec<Finding>,
)
    requires
        candidate.wf(),
        cp@ == semantic_positions(*candidate),
        forall|q: int| 0 <= q < cp@.len() ==> (#[trigger] cp@[q]) < candidate.nodes@.len(),
        matched@.len() == cp@.len(),
    ensures
        finding_views(final(findings)@) == finding_views(old(findings)@) + unpaired(
            *source,
            *candidate,
            matched@,
            cp@.len() as int,
        ),
{
    let scope = state_scope(source);
    let ghost base = finding_views(findings@);
    let mut e: usize = 0;
    while e < cp.len()
        invariant
            e <= cp@.len(),
            cp@ == semantic_positions(*candidate),
            forall|q: int| 0 <= q < cp@.len() ==> (#[trigger] cp@[q]) < candidate.nodes@.len(),
            candidate.wf(),
            scope == scope_of(*source),
            matched@.len() == cp@.len(),
            finding_views(findings@) == base + unpaired(*source, *candidate, matched@, e as int),
        decreases cp@.len() - e,
    {
        let ghost before = finding_views(findings@);
        if !matched[e] {
            let p = cp[e];
            let t = semantic_target(candidate, candidate.nodes[p].0.as_str(), &candidate.nodes[p].1);
            let f = finding(&scope, t.as_str(), "content", "missing", "present", None);
            findings.push(f);
            assert(finding_views(findings@) =~= before.push(f@));
        }
        assert(finding_views(findings@) =~= base + unpaired(*source, *candidate, matched@, e + 1));
        e += 1;
    }
}

/// Compares two recorded states by meaning. For the `k`-th element that
/// `semantic_nodes` lists on the source, `order[k]` holds the recreation's
/// listed elements nearest first, and `near[k][e]` says whether element `e`
/// is near enough and reads alike enough to be the same element. Each
/// source element is paired with the nearest free element of its signature,
/// else of its text, else of its kind when near; pairs are compared, lone
/// elements reported, and the findings grouped.
pub fn compare_semantic_state(source: &State, candidate: &State, order: &Vec<Vec<usize>>, near: &Vec<Vec<bool>>) -> (r:
    Vec<Finding>)
    requires
        source.wf(),
        candidate.wf(),
        boxes_bounded(*source),
        boxes_bounded(*candidate),
        source.nodes@.len() < 0x1_0000_0000,
        order@.len() == semantic_positions(*source).len(),
        near@.len() == semantic_positions(*source).len(),
    ensures
        finding_views(r@) == semantic_findings(*source, *candidate, nested(order@), nested_flags(near@)),
{
    let sp = semantic_nodes(source);
    let cp = semantic_nodes(candidate);
    let keys = candidate_keys(candidate, &cp);
    let (matched, pairs, mut findings) = walk_pairs(source, candidate, &sp, &cp, &keys, order, near);
    proof {
        lemma_listed_len(*source, source.nodes@.len() as int);
    }
    report_unpaired(source, candidate, &cp, &matched, &mut findings);
    compare_pending_work(source, candidate, &mut findings);
    let mut layout = crate::backtest::topology::compare_layout_topology(source, &pairs);
    let mut all = drop_explained(findings, &layout);
    let ghost kept = finding_views(all@);
    let ghost lv = finding_views(layout@);
    all.append(&mut layout);
    let mut collided = compare_text_collisions(source, candidate);
    let ghost cv = finding_views(collided@);
    all.append(&mut collided);
    let mut sheets = crate::backtest::authored::compare_stylesheet(source, candidate);
    let ghost sv = finding_views(sheets@);
    all.append(&mut sheets);
    assert(finding_views(all@) =~= kept + lv + cv + sv);
    let mut compact = crate::backtest::compact::compact_semantic_findings(source, all);
    if compact.len() == 0 && source.screenshot_sha256.as_str().unicode_len() > 0 && !str_eq(
        source.screenshot_sha256.as_str(),
        candidate.screenshot_sha256.as_str(),
    ) {
        let mut tiles = crate::backtest::authored::compare_raster_tiles(source, candidate, false);
        let ghost c0 = finding_views(compact@);
        let ghost tv = finding_views(tiles@);
        compact.append(&mut tiles);
        assert(finding_views(compact@) =~= c0 + tv);
    }
    compact
}

proof fn lemma_listed_len(s: State, k: int)
    requires
        0 <= k,
    ensures
        listed_below(s, k).len() <= k,
    decreases k,
{
    if k > 0 {
        lemma_listed_len(s, k - 1);
    }
}


proof fn lemma_checkpoints_same(scope: Scope, label: Seq<char>, cps: Seq<MotionCheckpoint>, k: int)
    ensures
        checkpoints_from(scope, label, cps, cps, k) is None,
    decreases cps.len() - k,
{
    if 0 <= k < cps.len() {
        let cp = cps[k];
        let f = value_difference(scope, label, cp, cp);
        assert forall|p: Seq<char>| #[trigger] f(p) is None by {}
        assert(checkpoint_difference(scope, label, cp, cp) is None);
        lemma_checkpoints_same(scope, label, cps, k + 1);
    }
}

/// Motions compared with themselves differ in nothing.
proof fn lemma_motions_same(scope: Scope, target: Seq<char>, ms: Seq<MotionEvidence>)
    ensures
        motion_difference(scope, target, ms, ms) is None,
{
    let f = identity_difference(scope, target, ms, ms);
    assert forall|id: Seq<char>| #[trigger] f(id) is None by {
        match last_with(ms, id) {
            Some(a) => {
                lemma_checkpoints_same(scope, motion_label(target, a), a.checkpoints@, 0);
                assert(motion_pair(scope, motion_label(target, a), a, a) is None);
            },
            None => {},
        }
    }
}

/// An element compared with itself differs in nothing.
proof fn lemma_matched_same(s: State, target: Seq<char>, n: NodeEvidence)
    ensures
        matched_findings(s, target, n, n) =~= Seq::<FindingView>::empty(),
{
    lemma_motions_same(scope_of(s), target, n.motions@);
}

/// Pairing a state with itself, each element nearest to itself, pairs each
/// element with itself and finds nothing.
proof fn lemma_paired_same(s: State, order: Seq<Seq<usize>>, near: Seq<Seq<bool>>, k: int)
    requires
        0 <= k <= semantic_positions(s).len(),
        order.len() == semantic_positions(s).len(),
        forall|q: int| 0 <= q < order.len() ==> (#[trigger] order[q]).len() > 0 && order[q][0] == q,
    ensures
        paired(s, s, order, near, k).matched =~= Seq::new(semantic_positions(s).len(), |i: int| i < k),
        paired(s, s, order, near, k).findings =~= Seq::<FindingView>::empty(),
        paired(s, s, order, near, k).pairs.len() == k,
        forall|i: int| 0 <= i < k ==> (#[trigger] paired(s, s, order, near, k).pairs[i]).source == paired(
            s,
            s,
            order,
            near,
            k,
        ).pairs[i].candidate,
    decreases k,
{
    if k > 0 {
        lemma_paired_same(s, order, near, k - 1);
        let prev = paired(s, s, order, near, k - 1);
        let sp = semantic_positions(s);
        let src = node_at(s, sp[k - 1]);
        let o = order[k - 1];
        assert(o[0] == k - 1);
        assert(candidate_signatures(s)[k - 1] == signature(node_at(s, sp[k - 1])));
        assert(first_free(prev.matched, o, candidate_signatures(s), signature(src), None) == Some((k - 1) as usize));
        assert(choice(s, src, prev.matched, o, near[k - 1]) == Some((k - 1) as usize));
        let target = target_of(s, s.nodes@[sp[k - 1] as int].0@, src);
        lemma_matched_same(s, target, src);
        let now = paired(s, s, order, near, k);
        assert forall|i: int| 0 <= i < k implies (#[trigger] now.pairs[i]).source == now.pairs[i].candidate by {
            if i < k - 1 {
                assert(now.pairs[i] == prev.pairs[i]);
            }
        }
    }
}

proof fn lemma_unpaired_none(s: State, c: State, matched: Seq<bool>, n: int)
    requires
        forall|i: int| 0 <= i < n ==> #[trigger] matched[i],
    ensures
        unpaired(s, c, matched, n) =~= Seq::<FindingView>::empty(),
    decreases n,
{
    if n > 0 {
        lemma_unpaired_none(s, c, matched, n - 1);
    }
}

/// A cohort whose pairs are each one box twice has the same layout on both
/// sides and differs in nothing.
proof fn lemma_topology_same(s: State, ps: Seq<LayoutPairView>, rks: Seq<Seq<Seq<char>>>)
    requires
        forall|i: int| 0 <= i < ps.len() ==> (#[trigger] ps[i]).source == ps[i].candidate,
    ensures
        changes_in(s, ps, rks) =~= Seq::<FindingView>::empty(),
    decreases rks.len(),
{
    if rks.len() > 0 {
        lemma_topology_same(s, ps, rks.drop_last());
        let rk = rks.last();
        match dominant(ps, rk) {
            Some(wh) => {
                let members = cohort_members(ps, (rk, wh.0, wh.1), ps.len() as int);
                lemma_members_in_range(ps, (rk, wh.0, wh.1), ps.len() as int);
                assert forall|k: int| 0 <= k < members.len() implies ps[(#[trigger] members[k]) as int].source
                    == ps[members[k] as int].candidate by {
                    assert(members[k] < ps.len());
                }
                assert(side_nodes(ps, members, false) =~= side_nodes(ps, members, true));
            },
            None => {},
        }
    }
}

proof fn lemma_members_in_range(ps: Seq<LayoutPairView>, c: (Seq<Seq<char>>, int, int), n: int)
    ensures
        forall|k: int| 0 <= k < cohort_members(ps, c, n).len() ==> (#[trigger] cohort_members(ps, c, n)[k]) < n,
    decreases n,
{
    if n > 0 {
        lemma_members_in_range(ps, c, n - 1);
        let m = cohort_members(ps, c, n);
        let m0 = cohort_members(ps, c, n - 1);
        assert forall|k: int| 0 <= k < m.len() implies (#[trigger] m[k]) < n by {
            if k < m0.len() {
                assert(m[k] == m0[k]);
            } else {
                let v = (n - 1) as usize;
                assert(m[k] == v);
                assert(v <= usize::MAX);
            }
        }
    }
}

proof fn lemma_invented_self(bands: Seq<String>, n: int)
    requires
        0 <= n <= bands.len(),
    ensures
        invented(bands, bands.take(n)) =~= Seq::<Seq<char>>::empty(),
    decreases n,
{
    if n > 0 {
        let t = bands.take(n);
        assert(t.drop_last() =~= bands.take(n - 1));
        lemma_invented_self(bands, n - 1);
        assert(t.last() == bands[n - 1]);
        assert(canonical(bands[n - 1]@) == canonical(t.last()@));
    }
}

/// Comparing a recorded state with itself, where every element is nearest
/// to itself, finds no difference: a page is never reported against itself.
pub proof fn a_state_compared_with_itself_differs_in_nothing(s: State, order: Seq<Seq<usize>>, near: Seq<Seq<bool>>)
    requires
        order.len() == semantic_positions(s).len(),
        forall|k: int| 0 <= k < order.len() ==> (#[trigger] order[k]).len() > 0 && order[k][0] == k,
    ensures
        semantic_findings(s, s, order, near) =~= Seq::<FindingView>::empty(),
{
    let n = semantic_positions(s).len() as int;
    lemma_paired_same(s, order, near, n);
    let walked = paired(s, s, order, near, n);
    lemma_unpaired_none(s, s, walked.matched, n);
    assert(pending_findings(s, s) =~= Seq::<FindingView>::empty());
    let first = walked.findings + unpaired(s, s, walked.matched, n) + pending_findings(s, s);
    assert(first =~= Seq::<FindingView>::empty());
    lemma_topology_same(s, walked.pairs, enumerate_keys(region_kinds(walked.pairs)));
    let layout = topology_findings(s, walked.pairs);
    assert(unexplained(first, layout) =~= Seq::<FindingView>::empty());
    let none = Set::<Seq<Seq<char>>>::empty();
    assert(collision_keys(s).difference(collision_keys(s)) =~= none);
    crate::order::lemma_enumerate_keys(Seq::empty(), none);
    assert(new_collisions(s, s) =~= Seq::<FindingView>::empty());
    let bands = s.stylesheet.viewport_bands@;
    lemma_invented_self(bands, bands.len() as int);
    assert(bands.take(bands.len() as int) =~= bands);
    assert(stylesheet_findings(s, s) =~= Seq::<FindingView>::empty());
    let all = unexplained(first, layout) + layout + new_collisions(s, s) + stylesheet_findings(s, s);
    assert(all =~= Seq::<FindingView>::empty());
    assert forall|c: nat| #[trigger] family_report(s, c, all) =~= Seq::<FindingView>::empty() by {
        assert(family_keys(all, c) =~= Set::<Seq<Seq<char>>>::empty());
        crate::order::lemma_enumerate_keys(Seq::empty(), Set::<Seq<Seq<char>>>::empty());
    }
    assert(ungrouped(all) =~= Seq::<FindingView>::empty());
    assert(compacted(s, all) =~= Seq::<FindingView>::empty()) by {
        assert(family_report(s, 0, all) =~= Seq::<FindingView>::empty());
        assert(family_report(s, 1, all) =~= Seq::<FindingView>::empty());
        assert(family_report(s, 2, all) =~= Seq::<FindingView>::empty());
    }
}

/// Whether every element's box fits the bounds the semantic comparison
/// computes with.
pub fn boxes_fit(s: &State) -> (r: bool)
    ensures
        r == boxes_bounded(*s),
{
    let limit: i64 = 0x1_0000_0000;
    let mut i: usize = 0;
    while i < s.nodes.len()
        invariant
            i <= s.nodes@.len(),
            limit == 0x1_0000_0000,
            forall|j: int| 0 <= j < i ==> bounded(box_of(#[trigger] s.nodes@[j].1)),
        decreases s.nodes@.len() - i,
    {
        let n = &s.nodes[i].1;
        if !(-limit < n.x && n.x < limit && -limit < n.y && n.y < limit && -limit < n.width && n.width < limit
            && -limit < n.height && n.height < limit) {
            assert(!bounded(box_of(s.nodes@[i as int].1)));
            return false;
        }
        i += 1;
    }
    true
}

/// The recreation's state a source state is compared with: the last one
/// recorded at the same width in the same scenario.
pub open spec fn counterpart(states: Seq<State>, s: State, n: int) -> Option<int>
    decreases n,
{
    if n <= 0 {
        None
    } else if states[n - 1].viewport.width == s.viewport.width && states[n - 1].scenario@ == s.scenario@ {
        Some(n - 1)
    } else {
        counterpart(states, s, n - 1)
    }
}

/// Whether a source state is compared by meaning with the state at `c`:
/// both well formed and within bounds, and the proximity given for it
/// covers every semantic node of the source state.
pub open spec fn comparable(s: State, c: State, order: Seq<Vec<usize>>, near: Seq<Vec<bool>>) -> bool {
    &&& s.wf()
    &&& c.wf()
    &&& boxes_bounded(s)
    &&& boxes_bounded(c)
    &&& s.nodes@.len() < 0x1_0000_0000
    &&& order.len() == semantic_positions(s).len()
    &&& near.len() == semantic_positions(s).len()
}

/// The semantic findings of each source state against its counterpart,
/// given for each source state the proximity order and nearness of its
/// semantic nodes; a state without a counterpart, or one the comparison
/// cannot take, has none.
pub fn semantic_per_state(
    source: &Vec<State>,
    candidate: &Vec<State>,
    proximity: &Vec<(Vec<Vec<usize>>, Vec<Vec<bool>>)>,
) -> (r: Vec<Vec<Finding>>)
    requires
        proximity@.len() == source@.len(),
    ensures
        r@.len() == source@.len(),
        forall|i: int|
            0 <= i < source@.len() ==> finding_views(#[trigger] r@[i]@) == match counterpart(
                candidate@,
                source@[i],
                candidate@.len() as int,
            ) {
                Some(j) => if comparable(source@[i], candidate@[j], proximity@[i].0@, proximity@[i].1@) {
                    semantic_findings(source@[i], candidate@[j], nested(proximity@[i].0@), nested_flags(proximity@[i].1@))
                } else {
                    Seq::empty()
                },
                None => Seq::empty(),
            },
{
    let mut r: Vec<Vec<Finding>> = Vec::new();
    let mut i: usize = 0;
    while i < source.len()
        invariant
            i <= source@.len(),
            proximity@.len() == source@.len(),
            r@.len() == i,
            forall|k: int|
                0 <= k < i ==> finding_views(#[trigger] r@[k]@) == match counterpart(
                    candidate@,
                    source@[k],
                    candidate@.len() as int,
                ) {
                    Some(j) => if comparable(source@[k], candidate@[j], proximity@[k].0@, proximity@[k].1@) {
                        semantic_findings(source@[k], candidate@[j], nested(proximity@[k].0@), nested_flags(proximity@[k].1@))
                    } else {
                        Seq::empty()
                    },
                    None => Seq::empty(),
                },
        decreases source@.len() - i,
    {
        let s = &source[i];
        let mut j: usize = candidate.len();
        let mut found: Option<usize> = None;
        while j > 0 && found.is_none()
            invariant
                j <= candidate@.len(),
                found is None ==> counterpart(candidate@, *s, candidate@.len() as int) == counterpart(candidate@, *s, j as int),
                found matches Some(c) ==> c < candidate@.len() && counterpart(candidate@, *s, candidate@.len() as int) == Some(c as int),
            decreases j,
        {
            if candidate[j - 1].viewport.width == s.viewport.width && str_eq(
                candidate[j - 1].scenario.as_str(),
                s.scenario.as_str(),
            ) {
                found = Some(j - 1);
            }
            j -= 1;
        }
        let ghost before = r@;
        let findings = match found {
            Some(c) => {
                let cs = &candidate[c];
                let (order, near) = (&proximity[i].0, &proximity[i].1);
                if s.is_wf() && cs.is_wf() && boxes_fit(s) && boxes_fit(cs) && (s.nodes.len() as u64)
                    < 0x1_0000_0000 {
                    let positions = semantic_nodes(s);
                    if order.len() == positions.len() && near.len() == positions.len() {
                        compare_semantic_state(s, cs, order, near)
                    } else {
                        Vec::new()
                    }
                } else {
                    Vec::new()
                }
            },
            None => Vec::new(),
        };
        r.push(findings);
        proof {
            assert(r@[i as int] == findings);
            assert forall|k: int| 0 <= k < i implies r@[k] == before[k] by {}
        }
        i += 1;
    }
    r
}

} // verus!
