//! Width-interval evidence.
//!
//! A constraint on a responsive page holds over a range of widths, not at
//! one width. This module samples geometry across the width axis and turns
//! the samples into inclusive width intervals. Every rule here is a function
//! of recorded evidence alone, so a report's intervals can be recomputed.
use crate::backtest::model::{probes_wf, SweepNode, SweepNodeView, SweepProbe};
use crate::keyed::{entries, get, has_key, lookup};
use crate::order::{ascending_strings, insert_string, views};
use crate::text::{digits_value, is_digit};
use vstd::prelude::*;

verus! {

/// The node a probe recorded for a target, if any.
pub open spec fn node_at(p: SweepProbe, target: Seq<char>) -> Option<SweepNodeView> {
    lookup(entries(p.nodes@), target)
}

/// The first of the first `n` probes taken at exactly `w`.
pub open spec fn first_at(s: Seq<SweepProbe>, w: u32, n: int) -> Option<int>
    decreases n,
{
    if n <= 0 {
        None
    } else {
        match first_at(s, w, n - 1) {
            Some(i) => Some(i),
            None => if s[n - 1].width == w {
                Some(n - 1)
            } else {
                None
            },
        }
    }
}

/// The last of the first `n` probes taken below `w`.
pub open spec fn last_below(s: Seq<SweepProbe>, w: u32, n: int) -> Option<int>
    decreases n,
{
    if n <= 0 {
        None
    } else if s[n - 1].width < w {
        Some(n - 1)
    } else {
        last_below(s, w, n - 1)
    }
}

/// The first of the first `n` probes taken above `w`.
pub open spec fn first_above(s: Seq<SweepProbe>, w: u32, n: int) -> Option<int>
    decreases n,
{
    if n <= 0 {
        None
    } else {
        match first_above(s, w, n - 1) {
            Some(i) => Some(i),
            None => if s[n - 1].width > w {
                Some(n - 1)
            } else {
                None
            },
        }
    }
}

/// The source's value for a node at a width: the probe taken there if there
/// is one; otherwise the value shared by the nearest probes on either side
/// in probe order, and nothing when they disagree or one side is missing.
pub open spec fn source_value(s: Seq<SweepProbe>, w: u32, target: Seq<char>) -> Option<
    Option<SweepNodeView>,
> {
    match first_at(s, w, s.len() as int) {
        Some(i) => Some(node_at(s[i], target)),
        None => match (last_below(s, w, s.len() as int), first_above(s, w, s.len() as int)) {
            (Some(b), Some(a)) => if node_at(s[b], target) == node_at(s[a], target) {
                Some(node_at(s[b], target))
            } else {
                None
            },
            _ => None,
        },
    }
}

/// Whether a candidate probe departs from the source for one node, when the
/// source says anything at that width.
pub open spec fn differs_value(s: Seq<SweepProbe>, c: SweepProbe, target: Seq<char>) -> Option<
    bool,
> {
    match source_value(s, c.width, target) {
        Some(expected) => Some(expected != node_at(c, target)),
        None => None,
    }
}

proof fn lemma_first_at_bounds(s: Seq<SweepProbe>, w: u32, n: int)
    requires
        0 <= n <= s.len(),
    ensures
        match first_at(s, w, n) {
            Some(i) => 0 <= i < n && s[i].width == w,
            None => forall|j: int| 0 <= j < n ==> s[j].width != w,
        },
    decreases n,
{
    if n > 0 {
        lemma_first_at_bounds(s, w, n - 1);
    }
}

proof fn lemma_last_below_bounds(s: Seq<SweepProbe>, w: u32, n: int)
    requires
        0 <= n <= s.len(),
    ensures
        match last_below(s, w, n) {
            Some(i) => 0 <= i < n && s[i].width < w,
            None => true,
        },
    decreases n,
{
    if n > 0 {
        lemma_last_below_bounds(s, w, n - 1);
    }
}

proof fn lemma_first_above_bounds(s: Seq<SweepProbe>, w: u32, n: int)
    requires
        0 <= n <= s.len(),
    ensures
        match first_above(s, w, n) {
            Some(i) => 0 <= i < n && s[i].width > w,
            None => true,
        },
    decreases n,
{
    if n > 0 {
        lemma_first_above_bounds(s, w, n - 1);
    }
}

/// Looks up a target in one probe.
fn node_of<'a>(p: &'a SweepProbe, target: &String) -> (r: Option<&'a SweepNode>)
    requires
        p.wf(),
    ensures
        match r {
            Some(n) => node_at(*p, target@) == Some(n@),
            None => node_at(*p, target@) is None,
        },
{
    get(&p.nodes, target)
}

/// Whether two optional nodes are the same.
fn same_option(a: Option<&SweepNode>, b: Option<&SweepNode>) -> (r: bool)
    ensures
        r == (match (a, b) {
            (Some(x), Some(y)) => x@ == y@,
            (None, None) => true,
            _ => false,
        }),
{
    match (a, b) {
        (Some(x), Some(y)) => x.same(y),
        (None, None) => true,
        _ => false,
    }
}

/// An optional position as an integer.
pub open spec fn index_of(o: Option<usize>) -> Option<int> {
    match o {
        Some(k) => Some(k as int),
        None => None,
    }
}

/// The abstract value of an optional node reference.
pub open spec fn opt_view(a: Option<&SweepNode>) -> Option<SweepNodeView> {
    match a {
        Some(x) => Some(x@),
        None => None,
    }
}

/// The source's value for a node at a width it may never have been sampled
/// at.
///
/// Where the source is identical at the two sampled widths that enclose the
/// width, the constraint is treated as constant across that interval; where
/// the source itself changes, nothing is claimed.
pub fn source_at<'a>(probes: &'a Vec<SweepProbe>, width: u32, target: &String) -> (r: Option<
    Option<&'a SweepNode>,
>)
    requires
        probes_wf(probes@),
    ensures
        match r {
            Some(v) => source_value(probes@, width, target@) == Some(opt_view(v)),
            None => source_value(probes@, width, target@) is None,
        },
{
    let ghost s = probes@;
    let n = probes.len();
    let mut at: Option<usize> = None;
    let mut below: Option<usize> = None;
    let mut above: Option<usize> = None;
    let mut i: usize = 0;
    while i < n
        invariant
            n == s.len(),
            s == probes@,
            i <= n,
            index_of(at) == first_at(s, width, i as int),
            index_of(below) == last_below(s, width, i as int),
            index_of(above) == first_above(s, width, i as int),
        decreases n - i,
    {
        let w = probes[i].width;
        if at.is_none() && w == width {
            at = Some(i);
        }
        if w < width {
            below = Some(i);
        }
        if above.is_none() && w > width {
            above = Some(i);
        }
        i += 1;
    }
    proof {
        lemma_first_at_bounds(s, width, n as int);
        lemma_last_below_bounds(s, width, n as int);
        lemma_first_above_bounds(s, width, n as int);
    }
    match at {
        Some(k) => {
            assert(probes@[k as int].wf());
            return Some(node_of(&probes[k], target));
        },
        None => {},
    }
    match (below, above) {
        (Some(b), Some(a)) => {
            assert(probes@[b as int].wf());
            assert(probes@[a as int].wf());
            let left = node_of(&probes[b], target);
            let right = node_of(&probes[a], target);
            if same_option(left, right) {
                Some(left)
            } else {
                None
            }
        },
        _ => None,
    }
}

/// Whether the candidate departs from the source at one width, for one node.
fn differs(source: &Vec<SweepProbe>, candidate: &SweepProbe, target: &String) -> (r: Option<bool>)
    requires
        probes_wf(source@),
        candidate.wf(),
    ensures
        r == differs_value(source@, *candidate, target@),
{
    match source_at(source, candidate.width, target) {
        Some(expected) => Some(!same_option(expected, node_of(candidate, target))),
        None => None,
    }
}


/// Some probe of the sweep recorded the target.
pub open spec fn recorded(s: Seq<SweepProbe>, k: Seq<char>) -> bool {
    exists|i: int| 0 <= i < s.len() && has_key(entries(#[trigger] s[i].nodes@), k)
}

/// Some candidate probe departs from the source for the target.
pub open spec fn diverges(source: Seq<SweepProbe>, candidate: Seq<SweepProbe>, k: Seq<char>) -> bool {
    exists|i: int| 0 <= i < candidate.len() && #[trigger] differs_value(source, candidate[i], k) == Some(true)
}

/// A target worth locating an interval for: recorded on either side, and
/// departing from the source at some candidate width.
pub open spec fn diverging(source: Seq<SweepProbe>, candidate: Seq<SweepProbe>, k: Seq<char>) -> bool {
    (recorded(candidate, k) || recorded(source, k)) && diverges(source, candidate, k)
}

/// Adds every target of a sweep to an ascending key list.
fn collect_targets(probes: &Vec<SweepProbe>, given: Vec<String>) -> (keys: Vec<String>)
    requires
        ascending_strings(views(given@)),
    ensures
        ascending_strings(views(keys@)),
        forall|k: Seq<char>| #![trigger views(keys@).contains(k)]
            views(keys@).contains(k) <==> (views(given@).contains(k) || recorded(probes@, k)),
{
    let mut keys = given;
    let ghost start = views(keys@);
    let mut i: usize = 0;
    while i < probes.len()
        invariant
            i <= probes.len(),
            ascending_strings(views(keys@)),
            forall|k: Seq<char>| #![trigger views(keys@).contains(k)]
                views(keys@).contains(k) <==> (start.contains(k) || recorded(probes@.take(i as int), k)),
        decreases probes.len() - i,
    {
        let nodes = &probes[i].nodes;
        let mut j: usize = 0;
        proof {
            assert forall|k: Seq<char>| #![trigger views(keys@).contains(k)]
                views(keys@).contains(k) <==> (start.contains(k) || recorded(probes@.take(i as int), k)
                    || has_key(entries(nodes@.take(0)), k)) by {
                assert(entries(nodes@.take(0)).len() == 0);
            }
        }
        while j < nodes.len()
            invariant
                j <= nodes.len(),
                i < probes.len(),
                nodes == probes@[i as int].nodes,
                ascending_strings(views(keys@)),
                forall|k: Seq<char>| #![trigger views(keys@).contains(k)]
                    views(keys@).contains(k) <==> (start.contains(k) || recorded(
                        probes@.take(i as int),
                        k,
                    ) || has_key(entries(nodes@.take(j as int)), k)),
            decreases nodes.len() - j,
        {
            let ghost old_keys = views(keys@);
            insert_string(&mut keys, &nodes[j].0);
            proof {
                assert forall|k: Seq<char>| #![trigger has_key(entries(nodes@.take(j + 1)), k)] has_key(entries(nodes@.take(j + 1)), k) <==> (has_key(
                    entries(nodes@.take(j as int)),
                    k,
                ) || k == nodes@[j as int].0@) by {
                    let e1 = entries(nodes@.take(j + 1));
                    let e0 = entries(nodes@.take(j as int));
                    if has_key(e1, k) {
                        let m = choose|m: int| 0 <= m < e1.len() && #[trigger] e1[m].0 == k;
                        if m < j {
                            assert(e0[m].0 == k);
                        }
                    }
                    if has_key(e0, k) {
                        let m = choose|m: int| 0 <= m < e0.len() && #[trigger] e0[m].0 == k;
                        assert(e1[m].0 == k);
                    }
                    if k == nodes@[j as int].0@ {
                        assert(e1[j as int].0 == k);
                    }
                }
                assert forall|k: Seq<char>| #![trigger views(keys@).contains(k)]
                    views(keys@).contains(k) <==> (start.contains(k) || recorded(probes@.take(i as int), k)
                        || has_key(entries(nodes@.take(j + 1)), k)) by {
                    assert(old_keys.contains(k) <==> (start.contains(k) || recorded(probes@.take(i as int), k)
                        || has_key(entries(nodes@.take(j as int)), k)));
                    assert(has_key(entries(nodes@.take(j + 1)), k) <==> (has_key(entries(nodes@.take(j as int)), k)
                        || k == nodes@[j as int].0@));
                }
            }
            j += 1;
        }
        proof {
            assert(nodes@.take(nodes@.len() as int) =~= nodes@);
            assert forall|k: Seq<char>| #![trigger recorded(probes@.take(i + 1), k)] recorded(probes@.take(i + 1), k) <==> (recorded(
                probes@.take(i as int),
                k,
            ) || has_key(entries(nodes@), k)) by {
                let t1 = probes@.take(i + 1);
                let t0 = probes@.take(i as int);
                if recorded(t1, k) {
                    let m = choose|m: int| 0 <= m < t1.len() && has_key(entries(#[trigger] t1[m].nodes@), k);
                    if m < i {
                        assert(t0[m] == t1[m]);
                    }
                }
                if recorded(t0, k) {
                    let m = choose|m: int| 0 <= m < t0.len() && has_key(entries(#[trigger] t0[m].nodes@), k);
                    assert(t1[m] == t0[m]);
                }
                if has_key(entries(nodes@), k) {
                    assert(t1[i as int] == probes@[i as int]);
                }
            }
            assert forall|k: Seq<char>| #![trigger views(keys@).contains(k)]
                views(keys@).contains(k) <==> (start.contains(k) || recorded(probes@.take(i + 1), k)) by {
                assert(views(keys@).contains(k) <==> (start.contains(k) || recorded(probes@.take(i as int), k)
                    || has_key(entries(nodes@.take(nodes@.len() as int)), k)));
                assert(recorded(probes@.take(i + 1), k) <==> (recorded(probes@.take(i as int), k)
                    || has_key(entries(nodes@), k)));
            }
        }
        i += 1;
    }
    assert(probes@.take(probes.len() as int) =~= probes@);
    assert forall|k: Seq<char>| #![trigger views(keys@).contains(k)]
        views(keys@).contains(k) <==> (views(given@).contains(k) || recorded(probes@, k)) by {
        assert(views(keys@).contains(k) <==> (start.contains(k) || recorded(probes@.take(probes.len() as int), k)));
    }
    keys
}

/// Whether some candidate probe departs from the source for a target.
fn any_difference(source: &Vec<SweepProbe>, candidate: &Vec<SweepProbe>, target: &String) -> (r: bool)
    requires
        probes_wf(source@),
        probes_wf(candidate@),
    ensures
        r == diverges(source@, candidate@, target@),
{
    let mut i: usize = 0;
    while i < candidate.len()
        invariant
            i <= candidate.len(),
            probes_wf(source@),
            probes_wf(candidate@),
            forall|j: int| 0 <= j < i ==> differs_value(source@, #[trigger] candidate@[j], target@) != Some(true),
        decreases candidate.len() - i,
    {
        assert(candidate@[i as int].wf());
        if differs(source, &candidate[i], target) == Some(true) {
            return true;
        }
        i += 1;
    }
    false
}

/// The nodes worth locating an interval for, in ascending order.
pub fn diverging_targets(source: &Vec<SweepProbe>, candidate: &Vec<SweepProbe>) -> (r: Vec<String>)
    requires
        probes_wf(source@),
        probes_wf(candidate@),
    ensures
        ascending_strings(views(r@)),
        forall|k: Seq<char>| views(r@).contains(k) <==> diverging(source@, candidate@, k),
{
    let mut keys: Vec<String> = Vec::new();
    assert(views(keys@) =~= Seq::<Seq<char>>::empty());
    let keys0 = collect_targets(candidate, keys);
    let keys = collect_targets(source, keys0);
    proof {
        assert forall|k: Seq<char>| #![trigger views(keys@).contains(k)]
            views(keys@).contains(k) <==> (recorded(candidate@, k) || recorded(source@, k)) by {
            assert(views(keys@).contains(k) <==> (views(keys0@).contains(k) || recorded(source@, k)));
            assert(views(keys0@).contains(k) <==> (Seq::<Seq<char>>::empty().contains(k) || recorded(candidate@, k)));
        }
    }
    let mut kept: Vec<String> = Vec::new();
    let mut i: usize = 0;
    while i < keys.len()
        invariant
            i <= keys.len(),
            probes_wf(source@),
            probes_wf(candidate@),
            ascending_strings(views(keys@)),
            ascending_strings(views(kept@)),
            forall|m: int| 0 <= m < kept@.len() ==> views(keys@.take(i as int)).contains(#[trigger] views(kept@)[m]),
            forall|k: Seq<char>| #![trigger views(kept@).contains(k)]
                views(kept@).contains(k) <==> (views(keys@.take(i as int)).contains(k) && diverges(
                    source@,
                    candidate@,
                    k,
                )),
        decreases keys.len() - i,
    {
        let ghost before = views(kept@);
        let ghost prefix = views(keys@.take(i as int));
        let ghost next = views(keys@.take(i + 1));
        proof {
            assert(next =~= prefix.push(keys@[i as int]@));
            assert forall|k: Seq<char>| #![trigger before.contains(k)]
                before.contains(k) <==> (prefix.contains(k) && diverges(source@, candidate@, k)) by {
                assert(views(kept@).contains(k) <==> (views(keys@.take(i as int)).contains(k) && diverges(
                    source@, candidate@, k)));
            }
        }
        let hit = any_difference(source, candidate, &keys[i]);
        if hit {
            kept.push(keys[i].clone());
            proof {
                let after = views(kept@);
                assert(after =~= before.push(keys@[i as int]@));
                assert forall|a: int, b: int| 0 <= a < b < after.len() implies crate::order::lex_lt(
                    #[trigger] after[a],
                    #[trigger] after[b],
                ) by {
                    if b == after.len() - 1 {
                        assert(prefix.contains(before[a]));
                        let m = choose|m: int| 0 <= m < prefix.len() && prefix[m] == before[a];
                        assert(views(keys@)[m] == prefix[m]);
                        assert(views(keys@)[i as int] == keys@[i as int]@);
                    }
                }
            }
        }
        proof {
            let after = views(kept@);
            if hit {
                assert(after =~= before.push(keys@[i as int]@));
            } else {
                assert(after =~= before);
            }
            assert forall|m: int| 0 <= m < after.len() implies next.contains(#[trigger] after[m]) by {
                if m < before.len() {
                    assert(prefix.contains(before[m]));
                    let q = choose|q: int| 0 <= q < prefix.len() && prefix[q] == before[m];
                    assert(next[q] == prefix[q]);
                } else {
                    assert(next[i as int] == keys@[i as int]@);
                }
            }
            let x = keys@[i as int]@;
            assert(hit == diverges(source@, candidate@, x));
            assert(next[i as int] == x);
            assert forall|k: Seq<char>| #![trigger views(kept@).contains(k)] views(kept@).contains(k) <==> (next.contains(k) && diverges(source@, candidate@, k)) by {
                assert(before.contains(k) <==> (prefix.contains(k) && diverges(source@, candidate@, k)));
                if next.contains(k) && !prefix.contains(k) {
                    let q = choose|q: int| 0 <= q < next.len() && next[q] == k;
                    if q < i {
                        assert(prefix[q] == k);
                    }
                    assert(k == x);
                }
                if prefix.contains(k) {
                    let q = choose|q: int| 0 <= q < prefix.len() && prefix[q] == k;
                    assert(next[q] == k);
                }
                if hit {
                    if after.contains(k) && !before.contains(k) {
                        let q = choose|q: int| 0 <= q < after.len() && after[q] == k;
                        if q < before.len() {
                            assert(before[q] == k);
                        }
                        assert(k == x);
                    }
                    if before.contains(k) {
                        let q = choose|q: int| 0 <= q < before.len() && before[q] == k;
                        assert(after[q] == k);
                    }
                    if k == x {
                        assert(after[before.len() as int] == k);
                    }
                }
            }
        }
        i += 1;
    }
    assert(keys@.take(keys.len() as int) =~= keys@);
    assert forall|k: Seq<char>| #![trigger views(kept@).contains(k)]
        views(kept@).contains(k) <==> diverging(source@, candidate@, k) by {
        assert(views(kept@).contains(k) <==> (views(keys@.take(keys.len() as int)).contains(k) && diverges(source@, candidate@, k)));
        assert(views(keys@).contains(k) <==> (recorded(candidate@, k) || recorded(source@, k)));
    }
    kept
}


/// The samples a candidate sweep gives for a target: each of the first `n`
/// candidate probes at which the source says anything, with whether the
/// candidate departs from it there.
pub open spec fn samples(s: Seq<SweepProbe>, c: Seq<SweepProbe>, t: Seq<char>, n: int) -> Seq<
    (u32, bool),
>
    decreases n,
{
    if n <= 0 {
        seq![]
    } else {
        match differs_value(s, c[n - 1], t) {
            Some(b) => samples(s, c, t, n - 1).push((c[n - 1].width, b)),
            None => samples(s, c, t, n - 1),
        }
    }
}

/// The first of the first `n` samples that differs.
pub open spec fn first_true(x: Seq<(u32, bool)>, n: int) -> Option<int>
    decreases n,
{
    if n <= 0 {
        None
    } else {
        match first_true(x, n - 1) {
            Some(i) => Some(i),
            None => if x[n - 1].1 {
                Some(n - 1)
            } else {
                None
            },
        }
    }
}

/// The lowest sample of the differing run that reaches sample `i`.
pub open spec fn run_lo(x: Seq<(u32, bool)>, i: int) -> int
    decreases i,
{
    if i > 0 && i - 1 < x.len() && x[i - 1].1 {
        run_lo(x, i - 1)
    } else {
        i
    }
}

/// The highest sample of the differing run that reaches sample `i`.
pub open spec fn run_hi(x: Seq<(u32, bool)>, i: int) -> int
    decreases x.len() - i,
{
    if 0 <= i && i + 1 < x.len() && x[i + 1].1 {
        run_hi(x, i + 1)
    } else {
        i
    }
}

/// The inclusive width interval a target differs over: the contiguous run
/// of differing samples that contains the lowest differing sample.
pub open spec fn interval_value(s: Seq<SweepProbe>, c: Seq<SweepProbe>, t: Seq<char>) -> Option<
    (u32, u32),
> {
    let x = samples(s, c, t, c.len() as int);
    match first_true(x, x.len() as int) {
        None => None,
        Some(seed) => Some((x[run_lo(x, seed)].0, x[run_hi(x, seed)].0)),
    }
}

proof fn lemma_first_true_bounds(x: Seq<(u32, bool)>, n: int)
    requires
        0 <= n <= x.len(),
    ensures
        match first_true(x, n) {
            Some(i) => 0 <= i < n && x[i].1 && forall|j: int| 0 <= j < i ==> !(#[trigger] x[j]).1,
            None => forall|j: int| 0 <= j < n ==> !(#[trigger] x[j]).1,
        },
    decreases n,
{
    if n > 0 {
        lemma_first_true_bounds(x, n - 1);
    }
}

proof fn lemma_run_lo(x: Seq<(u32, bool)>, i: int)
    requires
        0 <= i < x.len(),
    ensures
        0 <= run_lo(x, i) <= i,
        forall|k: int| run_lo(x, i) <= k < i ==> (#[trigger] x[k]).1,
        run_lo(x, i) == 0 || !x[run_lo(x, i) - 1].1,
    decreases i,
{
    if i > 0 && x[i - 1].1 {
        lemma_run_lo(x, i - 1);
    }
}

proof fn lemma_run_hi(x: Seq<(u32, bool)>, i: int)
    requires
        0 <= i < x.len(),
    ensures
        i <= run_hi(x, i) < x.len(),
        forall|k: int| i < k <= run_hi(x, i) ==> (#[trigger] x[k]).1,
        run_hi(x, i) == x.len() - 1 || !x[run_hi(x, i) + 1].1,
    decreases x.len() - i,
{
    if i + 1 < x.len() && x[i + 1].1 {
        lemma_run_hi(x, i + 1);
    }
}

/// The inclusive width interval a node differs over.
///
/// The interval is the contiguous run of differing widths containing the
/// lowest differing width, taken over every width actually probed.
pub fn interval(source: &Vec<SweepProbe>, candidate: &Vec<SweepProbe>, target: &String) -> (r: Option<
    (u32, u32),
>)
    requires
        probes_wf(source@),
        probes_wf(candidate@),
    ensures
        r == interval_value(source@, candidate@, target@),
{
    let mut x: Vec<(u32, bool)> = Vec::new();
    let mut i: usize = 0;
    while i < candidate.len()
        invariant
            i <= candidate.len(),
            probes_wf(source@),
            probes_wf(candidate@),
            x@ == samples(source@, candidate@, target@, i as int),
        decreases candidate.len() - i,
    {
        assert(candidate@[i as int].wf());
        match differs(source, &candidate[i], target) {
            Some(b) => x.push((candidate[i].width, b)),
            None => {},
        }
        i += 1;
    }
    let ghost xs = x@;
    let mut seed: usize = 0;
    while seed < x.len() && !x[seed].1
        invariant
            seed <= x.len(),
            x@ == xs,
            forall|j: int| 0 <= j < seed ==> !(#[trigger] xs[j]).1,
        decreases x.len() - seed,
    {
        seed += 1;
    }
    proof {
        lemma_first_true_bounds(xs, xs.len() as int);
    }
    if seed == x.len() {
        return None;
    }
    proof {
        if first_true(xs, xs.len() as int) != Some(seed as int) {
            let f = first_true(xs, xs.len() as int)->0;
            assert(f < seed || f > seed);
        }
    }
    let mut lo = seed;
    while lo > 0 && x[lo - 1].1
        invariant
            lo <= seed < x.len(),
            x@ == xs,
            run_lo(xs, lo as int) == run_lo(xs, seed as int),
        decreases lo,
    {
        lo -= 1;
    }
    let mut hi = seed;
    while hi + 1 < x.len() && x[hi + 1].1
        invariant
            seed <= hi < x.len(),
            x@ == xs,
            run_hi(xs, hi as int) == run_hi(xs, seed as int),
        decreases x.len() - hi,
    {
        hi += 1;
    }
    Some((x[lo].0, x[hi].0))
}

/// An interval is a whole run of differing samples: every sample between its
/// endpoints differs, the samples just outside it match, and no sample
/// before it differs.
pub proof fn interval_is_a_maximal_run(s: Seq<SweepProbe>, c: Seq<SweepProbe>, t: Seq<char>)
    requires
        interval_value(s, c, t) is Some,
    ensures
        ({
            let x = samples(s, c, t, c.len() as int);
            let seed = first_true(x, x.len() as int)->0;
            let lo = run_lo(x, seed);
            let hi = run_hi(x, seed);
            &&& 0 <= lo <= hi < x.len()
            &&& interval_value(s, c, t) == Some((x[lo].0, x[hi].0))
            &&& forall|k: int| lo <= k <= hi ==> (#[trigger] x[k]).1
            &&& forall|k: int| 0 <= k < lo ==> !(#[trigger] x[k]).1
            &&& hi + 1 == x.len() || !x[hi + 1].1
        }),
{
    let x = samples(s, c, t, c.len() as int);
    lemma_first_true_bounds(x, x.len() as int);
    let seed = first_true(x, x.len() as int)->0;
    lemma_run_lo(x, seed);
    lemma_run_hi(x, seed);
}


/// Refinement never takes more extra candidate probes than this.
pub const MAXIMUM_REFINEMENTS: usize = 8;

/// Whether the source is constant across a gap, which is the precondition
/// for bisecting the candidate axis against it.
pub open spec fn refinable_value(s: Seq<SweepProbe>, low: u32, high: u32, t: Seq<char>) -> bool {
    match (source_value(s, low, t), source_value(s, high, t)) {
        (Some(left), Some(right)) => left == right,
        _ => false,
    }
}

/// Whether the source is constant across a gap.
pub fn refinable(source: &Vec<SweepProbe>, low: u32, high: u32, target: &String) -> (r: bool)
    requires
        probes_wf(source@),
    ensures
        r == refinable_value(source@, low, high, target@),
{
    match (source_at(source, low, target), source_at(source, high, target)) {
        (Some(left), Some(right)) => same_option(left, right),
        _ => false,
    }
}

/// One interval endpoint being pinned: the width known to match, the width
/// known to differ, and which side the matching width is on.
pub struct Edge {
    target: String,
    outside: u32,
    inside: u32,
    below: bool,
}

/// The abstract value of an edge.
pub struct EdgeView {
    pub target: Seq<char>,
    pub outside: u32,
    pub inside: u32,
    pub below: bool,
}

impl View for Edge {
    type V = EdgeView;

    closed spec fn view(&self) -> EdgeView {
        EdgeView { target: self.target@, outside: self.outside, inside: self.inside, below: self.below }
    }
}

/// The matching width lies on the side the edge names.
pub open spec fn edge_wf(e: EdgeView) -> bool {
    if e.below {
        e.outside < e.inside
    } else {
        e.inside < e.outside
    }
}

/// The lower and upper width of an edge's gap.
pub open spec fn edge_low(e: EdgeView) -> u32 {
    if e.below { e.outside } else { e.inside }
}

pub open spec fn edge_high(e: EdgeView) -> u32 {
    if e.below { e.inside } else { e.outside }
}

/// The width that halves an edge's gap, while a width lies strictly inside it.
pub open spec fn edge_next(e: EdgeView) -> Option<u32> {
    if edge_high(e) - edge_low(e) > 1 {
        Some((edge_low(e) + (edge_high(e) - edge_low(e)) / 2) as u32)
    } else {
        None
    }
}

/// The edge after a probe at `width`: the verdict moves whichever end it
/// matches.
pub open spec fn edge_accept(e: EdgeView, width: u32, differs: bool) -> EdgeView {
    if differs {
        EdgeView { inside: width, ..e }
    } else {
        EdgeView { outside: width, ..e }
    }
}

impl Edge {
    fn next(&self) -> (r: Option<u32>)
        requires
            edge_wf(self@),
        ensures
            r == edge_next(self@),
    {
        let (low, high) = if self.below {
            (self.outside, self.inside)
        } else {
            (self.inside, self.outside)
        };
        if high - low > 1 {
            Some(low + (high - low) / 2)
        } else {
            None
        }
    }
}

/// The edges planned for one target: below its interval and above it, each
/// only where a gap wider than a pixel separates the interval from the
/// nearest probed width and the source is constant across that gap.
pub open spec fn edges_for(s: Seq<SweepProbe>, c: Seq<SweepProbe>, t: Seq<char>) -> Seq<EdgeView> {
    match interval_value(s, c, t) {
        None => seq![],
        Some((lo, hi)) => {
            let below = match last_below(c, lo, c.len() as int) {
                Some(b) if lo - c[b].width > 1 && refinable_value(s, c[b].width, lo, t) => seq![
                    EdgeView { target: t, outside: c[b].width, inside: lo, below: true },
                ],
                _ => seq![],
            };
            let above = match first_above(c, hi, c.len() as int) {
                Some(a) if c[a].width - hi > 1 && refinable_value(s, hi, c[a].width, t) => seq![
                    EdgeView { target: t, outside: c[a].width, inside: hi, below: false },
                ],
                _ => seq![],
            };
            below + above
        },
    }
}

/// The edges planned for a list of targets, in that order.
pub open spec fn plan_edges(s: Seq<SweepProbe>, c: Seq<SweepProbe>, ts: Seq<Seq<char>>) -> Seq<
    EdgeView,
>
    decreases ts.len(),
{
    if ts.len() == 0 {
        seq![]
    } else {
        plan_edges(s, c, ts.drop_last()) + edges_for(s, c, ts.last())
    }
}

/// Drives the extra candidate probes that pin an interval endpoint to the
/// exact pixel.
///
/// Each edge is searched only inside the gap between an observed differing
/// width and its nearest observed matching neighbour, where "differs" is
/// monotone and the answer is unique.
pub struct Refiner {
    edges: Vec<Edge>,
    budget: usize,
}

impl Refiner {
    /// The planned edges, in order.
    pub closed spec fn edges(&self) -> Seq<EdgeView> {
        self.edges@.map_values(|e: Edge| e@)
    }

    /// Probes still allowed.
    pub closed spec fn budget(&self) -> nat {
        self.budget as nat
    }

    /// Every edge's matching width lies on its named side.
    pub open spec fn wf(&self) -> bool {
        forall|i: int| 0 <= i < self.edges().len() ==> edge_wf(#[trigger] self.edges()[i])
    }

    /// Plans refinement from the probes already taken. Plans nothing when the
    /// candidate matches the source everywhere, so a passing comparison pays
    /// for no refinement.
    pub fn plan(source: &Vec<SweepProbe>, candidate: &Vec<SweepProbe>) -> (r: Refiner)
        requires
            probes_wf(source@),
            probes_wf(candidate@),
        ensures
            r.wf(),
            r.budget() == MAXIMUM_REFINEMENTS,
            exists|ts: Seq<Seq<char>>|
                {
                    &&& ascending_strings(ts)
                    &&& forall|k: Seq<char>| #[trigger] ts.contains(k) <==> diverging(source@, candidate@, k)
                    &&& r.edges() == plan_edges(source@, candidate@, ts)
                },
    {
        let targets = diverging_targets(source, candidate);
        let ghost ts = views(targets@);
        let mut edges: Vec<Edge> = Vec::new();
        let mut i: usize = 0;
        while i < targets.len()
            invariant
                i <= targets.len(),
                ts == views(targets@),
                probes_wf(source@),
                probes_wf(candidate@),
                edges@.map_values(|e: Edge| e@) == plan_edges(source@, candidate@, ts.take(i as int)),
                forall|k: int| 0 <= k < edges@.len() ==> edge_wf(#[trigger] edges@[k]@),
            decreases targets.len() - i,
        {
            let target = &targets[i];
            let ghost before = edges@.map_values(|e: Edge| e@);
            proof {
                assert(ts.take(i + 1).drop_last() =~= ts.take(i as int));
                assert(ts.take(i + 1).last() == target@);
            }
            match interval(source, candidate, target) {
                None => {
                    assert(edges_for(source@, candidate@, target@) =~= seq![]);
                },
                Some((lo, hi)) => {
                    let n = candidate.len();
                    let mut below: Option<usize> = None;
                    let mut above: Option<usize> = None;
                    let mut j: usize = 0;
                    while j < n
                        invariant
                            n == candidate@.len(),
                            j <= n,
                            index_of(below) == last_below(candidate@, lo, j as int),
                            index_of(above) == first_above(candidate@, hi, j as int),
                        decreases n - j,
                    {
                        let w = candidate[j].width;
                        if w < lo {
                            below = Some(j);
                        }
                        if above.is_none() && w > hi {
                            above = Some(j);
                        }
                        j += 1;
                    }
                    proof {
                        lemma_last_below_bounds(candidate@, lo, n as int);
                        lemma_first_above_bounds(candidate@, hi, n as int);
                    }
                    let mut added = 0usize;
                    match below {
                        Some(b) => {
                            let outside = candidate[b].width;
                            if lo - outside > 1 && refinable(source, outside, lo, target) {
                                edges.push(Edge { target: target.clone(), outside, inside: lo, below: true });
                            }
                        },
                        None => {},
                    }
                    let ghost mid = edges@.map_values(|e: Edge| e@);
                    match above {
                        Some(a) => {
                            let outside = candidate[a].width;
                            if outside - hi > 1 && refinable(source, hi, outside, target) {
                                edges.push(Edge { target: target.clone(), outside, inside: hi, below: false });
                            }
                        },
                        None => {},
                    }
                    proof {
                        let e = edges_for(source@, candidate@, target@);
                        assert(edges@.map_values(|e: Edge| e@) =~= before + e);
                    }
                },
            }
            i += 1;
        }
        assert(ts.take(targets.len() as int) =~= ts);
        let r = Refiner { edges, budget: MAXIMUM_REFINEMENTS };
        assert(r.edges() == plan_edges(source@, candidate@, ts));
        r
    }

    /// The next width to probe on the candidate: the halving width of the
    /// first edge whose gap still holds one, or nothing when every edge is
    /// pinned or the budget is spent.
    pub fn next_width(&self) -> (r: Option<u32>)
        requires
            self.wf(),
        ensures
            r == (if self.budget() == 0 {
                None
            } else {
                first_next(self.edges(), self.edges().len() as int)
            }),
            r matches Some(w) ==> exists|i: int|
                0 <= i < self.edges().len() && edge_low(#[trigger] self.edges()[i]) < w < edge_high(
                    self.edges()[i],
                ),
    {
        if self.budget == 0 {
            return None;
        }
        let mut i: usize = 0;
        assert(self.edges().len() == self.edges@.len());
        while i < self.edges.len()
            invariant
                i <= self.edges@.len(),
                self.edges().len() == self.edges@.len(),
                self.wf(),
                self.budget != 0,
                first_next(self.edges(), i as int) is None,
            decreases self.edges@.len() - i,
        {
            assert(self.edges()[i as int] == self.edges@[i as int]@);
            match self.edges[i].next() {
                Some(w) => {
                    proof {
                        lemma_first_next(self.edges(), self.edges().len() as int, i as int);
                        assert(edge_wf(self.edges()[i as int]));
                        assert(edge_low(self.edges()[i as int]) < w < edge_high(self.edges()[i as int]));
                    }
                    return Some(w);
                },
                None => {},
            }
            i += 1;
        }
        None
    }

    /// Records a probe the driver took. One probe carries every node, so each
    /// edge takes its verdict from its own node, and only an edge whose
    /// halving width is this probe's width moves.
    pub fn accept(&mut self, source: &Vec<SweepProbe>, probe: &SweepProbe)
        requires
            old(self).wf(),
            probes_wf(source@),
            probe.wf(),
        ensures
            final(self).wf(),
            final(self).budget() == if old(self).budget() == 0 { 0 } else { (old(self).budget() - 1) as nat },
            final(self).edges().len() == old(self).edges().len(),
            forall|i: int| 0 <= i < old(self).edges().len() ==> #[trigger] final(self).edges()[i] == edge_step(
                old(self).edges()[i],
                source@,
                *probe,
            ),
            forall|i: int| 0 <= i < old(self).edges().len() ==>
                edge_high(#[trigger] final(self).edges()[i]) - edge_low(final(self).edges()[i])
                    <= edge_high(old(self).edges()[i]) - edge_low(old(self).edges()[i]),
    {
        self.budget = if self.budget == 0 { 0 } else { self.budget - 1 };
        let mut i: usize = 0;
        let ghost start = self.edges();
        let ghost spent = self.budget;
        while i < self.edges.len()
            invariant
                self.budget == spent,
                i <= self.edges@.len(),
                self.edges@.len() == start.len(),
                probes_wf(source@),
                probe.wf(),
                forall|k: int| 0 <= k < start.len() ==> edge_wf(#[trigger] start[k]),
                forall|k: int| 0 <= k < i ==> #[trigger] self.edges()[k] == edge_step(start[k], source@, *probe),
                forall|k: int| i <= k < start.len() ==> #[trigger] self.edges()[k] == start[k],
            decreases self.edges@.len() - i,
        {
            assert(self.edges()[i as int] == start[i as int]);
            assert(self.edges@[i as int]@ == start[i as int]);
            let ghost before = self.edges();
            let verdict = differs(source, probe, &self.edges[i].target);
            match verdict {
                Some(d) => {
                    if self.edges[i].next() == Some(probe.width) {
                        let e = &self.edges[i];
                        let updated = Edge {
                            target: e.target.clone(),
                            outside: if d { e.outside } else { probe.width },
                            inside: if d { probe.width } else { e.inside },
                            below: e.below,
                        };
                        self.edges.set(i, updated);
                    }
                },
                None => {},
            }
            proof {
                assert(self.edges()[i as int] == self.edges@[i as int]@);
                assert forall|k: int| 0 <= k < start.len() && k != i implies #[trigger] self.edges()[k] == before[k] by {
                    assert(self.edges()[k] == self.edges@[k]@);
                }
                assert forall|k: int| 0 <= k < i + 1 implies #[trigger] self.edges()[k] == edge_step(start[k], source@, *probe) by {
                    if k < i {
                        assert(before[k] == edge_step(start[k], source@, *probe));
                    }
                }
                assert forall|k: int| i + 1 <= k < start.len() implies #[trigger] self.edges()[k] == start[k] by {
                    assert(before[k] == start[k]);
                }
            }
            i += 1;
        }
        proof {
            assert forall|k: int| 0 <= k < start.len() implies edge_wf(#[trigger] self.edges()[k]) by {
                lemma_edge_step(start[k], source@, *probe);
            }
            assert forall|k: int| 0 <= k < start.len() implies
                edge_high(#[trigger] self.edges()[k]) - edge_low(self.edges()[k])
                    <= edge_high(start[k]) - edge_low(start[k]) by {
                lemma_edge_step(start[k], source@, *probe);
            }
        }
    }
}

/// The first halving width among the first `n` edges.
pub open spec fn first_next(e: Seq<EdgeView>, n: int) -> Option<u32>
    decreases n,
{
    if n <= 0 {
        None
    } else {
        match first_next(e, n - 1) {
            Some(w) => Some(w),
            None => edge_next(e[n - 1]),
        }
    }
}

proof fn lemma_first_next(e: Seq<EdgeView>, n: int, i: int)
    requires
        0 <= i < n <= e.len(),
        first_next(e, i) is None,
        edge_next(e[i]) is Some,
    ensures
        first_next(e, n) == edge_next(e[i]),
    decreases n,
{
    if n > i + 1 {
        lemma_first_next(e, n - 1, i);
    }
}

/// An edge after a probe: it moves only when the probe was its own halving
/// width and the source says anything there for its node.
pub open spec fn edge_step(e: EdgeView, s: Seq<SweepProbe>, p: SweepProbe) -> EdgeView {
    match differs_value(s, p, e.target) {
        Some(d) => if edge_next(e) == Some(p.width) {
            edge_accept(e, p.width, d)
        } else {
            e
        },
        None => e,
    }
}

/// A probe taken anywhere but an edge's halving width leaves that edge as
/// it was.
pub proof fn a_probe_off_the_edge_keeps_the_edge(e: EdgeView, s: Seq<SweepProbe>, p: SweepProbe)
    requires
        edge_next(e) != Some(p.width),
    ensures
        edge_step(e, s, p) == e,
{
}

/// Refinement planned on sides that diverge nowhere probes nothing: a
/// plan over the diverging targets, when there are none, has no edge.
pub proof fn a_plan_on_matching_sides_proposes_nothing(
    source: Seq<SweepProbe>,
    candidate: Seq<SweepProbe>,
    ts: Seq<Seq<char>>,
)
    requires
        forall|k: Seq<char>| #[trigger] ts.contains(k) <==> diverging(source, candidate, k),
        forall|k: Seq<char>| !diverging(source, candidate, k),
    ensures
        plan_edges(source, candidate, ts).len() == 0,
{
    if ts.len() > 0 {
        assert(ts.contains(ts[0]));
    }
}

/// A step keeps an edge well formed and never widens its gap; a step at the
/// edge's own halving width strictly narrows it.
pub proof fn lemma_edge_step(e: EdgeView, s: Seq<SweepProbe>, p: SweepProbe)
    requires
        edge_wf(e),
    ensures
        edge_wf(edge_step(e, s, p)),
        edge_high(edge_step(e, s, p)) - edge_low(edge_step(e, s, p)) <= edge_high(e) - edge_low(e),
        differs_value(s, p, e.target) is Some && edge_next(e) == Some(p.width) ==> edge_high(
            edge_step(e, s, p),
        ) - edge_low(edge_step(e, s, p)) < edge_high(e) - edge_low(e),
{
}


/// Narrower than this no longer describes a page anyone renders, and wider
/// than this is a desktop that no media query in practice distinguishes.
pub const MINIMUM_WIDTH: u32 = 320;

pub const MAXIMUM_WIDTH: u32 = 1920;

/// A page with many breakpoints must still cost a bounded number of reflows.
pub const MAXIMUM_PROBES: usize = 32;

/// `band[start..end]` is a whole run of digits, followed by `px`.
pub open spec fn px_run(band: Seq<char>, start: int, end: int) -> bool {
    &&& 0 <= start < end
    &&& end + 2 <= band.len()
    &&& forall|k: int| start <= k < end ==> is_digit(#[trigger] band[k])
    &&& start == 0 || !is_digit(band[start - 1])
    &&& !is_digit(band[end])
    &&& band[end] == 'p'
    &&& band[end + 1] == 'x'
}

/// A band declares a pixel width when a whole run of digits followed by `px`
/// spells it, ending at or before `n`. A length in any other unit depends on
/// something a probe cannot set, so it declares nothing.
pub open spec fn declares_before(band: Seq<char>, v: u32, n: int) -> bool {
    exists|start: int, end: int| #[trigger] px_run(band, start, end) && end <= n && digits_value(
        band.subrange(start, end),
    ) == v as nat
}

pub open spec fn declares(band: Seq<char>, v: u32) -> bool {
    declares_before(band, v, band.len() as int)
}

/// Some band declares the width.
pub open spec fn declared(bands: Seq<String>, v: u32) -> bool {
    exists|i: int| 0 <= i < bands.len() && declares(#[trigger] bands[i]@, v)
}

/// Adds the pixel widths one band declares to an ascending list.
fn band_boundaries(band: &String, given: Vec<u32>) -> (found: Vec<u32>)
    requires
        crate::order::ascending_u32(given@),
    ensures
        crate::order::ascending_u32(found@),
        forall|v: u32| #![trigger found@.contains(v)] found@.contains(v) <==> (given@.contains(v) || declares(band@, v)),
{
    let mut found = given;
    let b = crate::text::chars_of(band.as_str());
    let ghost bs = b@;
    let n = b.len();
    let mut index: usize = 0;
    while index < n
        invariant
            b@ == bs,
            bs == band@,
            n == bs.len(),
            index <= n,
            crate::order::ascending_u32(found@),
            index < n && is_digit(bs[index as int]) ==> (index == 0 || !is_digit(bs[index - 1])),
            forall|v: u32| #![trigger found@.contains(v)] found@.contains(v) <==> (given@.contains(v)
                || declares_before(bs, v, index as int)),
        decreases n - index,
    {
        if !('0' <= b[index] && b[index] <= '9') {
            proof {
                assert forall|v: u32| declares_before(bs, v, index + 1) implies declares_before(bs, v, index as int) by {
                    let (st, en) = choose|st: int, en: int| #[trigger] px_run(bs, st, en) && en <= index + 1
                        && digits_value(bs.subrange(st, en)) == v as nat;
                    if en == index + 1 {
                        assert(is_digit(bs[en - 1]));
                    }
                }
            }
            index += 1;
            continue;
        }
        let start = index;
        let mut value: u64 = 0;
        while index < n && '0' <= b[index] && b[index] <= '9'
            invariant
                b@ == bs,
                n == bs.len(),
                start <= index <= n,
                forall|k: int| start <= k < index ==> is_digit(#[trigger] bs[k]),
                value <= 42949672959,
                digits_value(bs.subrange(start as int, index as int)) <= u32::MAX ==> value == digits_value(
                    bs.subrange(start as int, index as int),
                ),
                digits_value(bs.subrange(start as int, index as int)) > u32::MAX ==> value > u32::MAX,
            decreases n - index,
        {
            proof {
                assert(bs.subrange(start as int, index + 1) =~= bs.subrange(start as int, index as int).push(bs[index as int]));
                crate::text::lemma_digits_push(bs.subrange(start as int, index as int), bs[index as int]);
            }
            let c = b[index];
            let cu: u32 = c as u32;
            assert(cu >= 48 && cu <= 57 && cu as int == c as int);
            let d: u64 = (cu - 48) as u64;
            if value <= 4294967295 {
                value = value * 10 + d;
            }
            index += 1;
        }
        let px = n - index >= 2 && b[index] == 'p' && b[index + 1] == 'x';
        let ghost before = found@;
        if px && value <= 4294967295 {
            crate::order::insert_u32(&mut found, value as u32);
        }
        proof {
            assert forall|v: u32| declares_before(bs, v, index as int) <==> (declares_before(bs, v, start as int)
                || (px_run(bs, start as int, index as int) && digits_value(bs.subrange(start as int, index as int)) == v as nat)) by {
                if declares_before(bs, v, index as int) {
                    let (st, en) = choose|st: int, en: int| #[trigger] px_run(bs, st, en) && en <= index
                        && digits_value(bs.subrange(st, en)) == v as nat;
                    if en > start {
                        if st < start {
                            assert(is_digit(bs[start - 1]));
                        }
                        if st > start {
                            assert(is_digit(bs[st - 1]));
                        }
                        if en < index {
                            assert(is_digit(bs[en]));
                        }
                        assert(st == start && en == index);
                    }
                }
                if declares_before(bs, v, start as int) {
                    let (st, en) = choose|st: int, en: int| #[trigger] px_run(bs, st, en) && en <= start
                        && digits_value(bs.subrange(st, en)) == v as nat;
                    assert(px_run(bs, st, en) && en <= index);
                }
                if px_run(bs, start as int, index as int) && digits_value(bs.subrange(start as int, index as int)) == v as nat {
                    assert(px_run(bs, start as int, index as int) && index <= index);
                }
            }
            assert(px == (index + 2 <= n && bs[index as int] == 'p' && bs[index + 1] == 'x'));
            if index < n {
                assert(!is_digit(bs[index as int]));
            }
            assert(px ==> px_run(bs, start as int, index as int));
            assert(px_run(bs, start as int, index as int) ==> px);
            assert forall|v: u32| #![trigger found@.contains(v)] found@.contains(v) <==> (given@.contains(v)
                || declares_before(bs, v, index as int)) by {
                assert(before.contains(v) <==> (given@.contains(v) || declares_before(bs, v, start as int)));
            }
        }
    }
    found
}

/// The pixel integers the bands' own width conditions declare, ascending.
///
/// A device-name list would encode guesses instead of the page's own
/// breakpoints, and would miss every breakpoint the page actually has.
pub fn boundaries(bands: &Vec<String>) -> (r: Vec<u32>)
    ensures
        crate::order::ascending_u32(r@),
        forall|v: u32| #![trigger r@.contains(v)] r@.contains(v) <==> declared(bands@, v),
{
    let mut found: Vec<u32> = Vec::new();
    let mut i: usize = 0;
    while i < bands.len()
        invariant
            i <= bands.len(),
            crate::order::ascending_u32(found@),
            forall|v: u32| #![trigger found@.contains(v)] found@.contains(v) <==> declared(bands@.take(i as int), v),
        decreases bands.len() - i,
    {
        let ghost before = found@;
        found = band_boundaries(&bands[i], found);
        proof {
            assert forall|v: u32| #![trigger found@.contains(v)] found@.contains(v) <==> declared(bands@.take(i + 1), v) by {
                assert(before.contains(v) <==> declared(bands@.take(i as int), v));
                let t1 = bands@.take(i + 1);
                let t0 = bands@.take(i as int);
                if declared(t1, v) {
                    let m = choose|m: int| 0 <= m < t1.len() && declares(#[trigger] t1[m]@, v);
                    if m < i {
                        assert(t0[m] == t1[m]);
                    }
                }
                if declared(t0, v) {
                    let m = choose|m: int| 0 <= m < t0.len() && declares(#[trigger] t0[m]@, v);
                    assert(t1[m] == t0[m]);
                }
                if declares(bands@[i as int]@, v) {
                    assert(t1[i as int] == bands@[i as int]);
                }
            }
        }
        i += 1;
    }
    assert(bands@.take(bands.len() as int) =~= bands@);
    found
}


/// A width held inside the renderable range.
pub open spec fn clamp_value(v: int) -> u32 {
    if v < MINIMUM_WIDTH {
        MINIMUM_WIDTH
    } else if v > MAXIMUM_WIDTH {
        MAXIMUM_WIDTH
    } else {
        v as u32
    }
}

fn clamp(value: i64) -> (r: u32)
    ensures
        r == clamp_value(value as int),
{
    if value < MINIMUM_WIDTH as i64 {
        MINIMUM_WIDTH
    } else if value > MAXIMUM_WIDTH as i64 {
        MAXIMUM_WIDTH
    } else {
        value as u32
    }
}

/// A width worth sampling, given the ascending boundaries: one pixel below,
/// at, and above each boundary, the midpoint of each consecutive pair, and
/// the session width, each held inside the renderable range.
pub open spec fn sampled(bs: Seq<u32>, session: u32, w: u32) -> bool {
    ||| exists|i: int|
        0 <= i < bs.len() && (w == clamp_value(#[trigger] bs[i] - 1) || w == clamp_value(bs[i] as int)
            || w == clamp_value(bs[i] + 1))
    ||| exists|i: int|
        0 <= i < bs.len() - 1 && w == clamp_value(#[trigger] bs[i] + (bs[i + 1] - bs[i]) / 2)
    ||| w == clamp_value(session as int)
}

/// The step between kept samples when there are too many.
pub open spec fn stride_of(len: nat) -> nat {
    let c = (len + 31) / 32;
    if c < 2 {
        2
    } else {
        c
    }
}

/// Every `stride`-th element, starting with the first.
pub open spec fn stepped(o: Seq<u32>, stride: nat) -> Seq<u32> {
    Seq::new(((o.len() + stride - 1) / stride as int) as nat, |k: int| o[k * stride])
}

/// The samples kept: all of them when they fit the cap; otherwise every
/// stride-th one together with the session width, less the widest (or, when
/// the widest is the session width, the narrowest) while over the cap.
pub open spec fn thinned(o: Seq<u32>, session: u32, r: Seq<u32>) -> bool {
    if o.len() <= MAXIMUM_PROBES {
        r == o
    } else {
        let st = stepped(o, stride_of(o.len()));
        exists|kept: Seq<u32>|
            {
                &&& crate::order::ascending_u32(kept)
                &&& forall|x: u32| #[trigger] kept.contains(x) <==> (st.contains(x) || x == session)
                &&& r == if kept.len() > MAXIMUM_PROBES {
                    if kept.last() == session {
                        kept.drop_first()
                    } else {
                        kept.drop_last()
                    }
                } else {
                    kept
                }
            }
    }
}

proof fn lemma_step_count(len: nat, stride: nat, m: nat)
    requires
        stride >= 2,
        stride >= (len + 31) / 32,
        m * stride >= len,
        m == 0 || (m - 1) * stride < len,
    ensures
        m == (len + stride - 1) / stride as int,
        m <= 32,
{
    assert(m == (len + stride - 1) / stride as int) by (nonlinear_arith)
        requires
            stride >= 2,
            m * stride >= len,
            m == 0 || (m - 1) * stride < len,
    ;
    assert(m <= 32) by (nonlinear_arith)
        requires
            stride >= 2,
            stride >= (len + 31) / 32,
            m == 0 || (m - 1) * stride < len,
    ;
}

/// Keeps the sample count bounded without ever dropping the session width,
/// and without depending on iteration order, so the same bands always yield
/// the same list.
fn thin(ordered: Vec<u32>, session_width: u32) -> (r: Vec<u32>)
    requires
        crate::order::ascending_u32(ordered@),
        ordered@.contains(session_width),
    ensures
        thinned(ordered@, session_width, r@),
        crate::order::ascending_u32(r@),
        r@.len() <= MAXIMUM_PROBES,
        r@.contains(session_width),
        forall|x: u32| #[trigger] r@.contains(x) ==> ordered@.contains(x),
{
    let n = ordered.len();
    if n <= MAXIMUM_PROBES {
        return ordered;
    }
    let c = n / 32 + if n % 32 == 0 { 0 } else { 1 };
    assert(c == (n + 31) / 32);
    let stride = if c < 2 { 2 } else { c };
    let ghost st = stepped(ordered@, stride as nat);
    let mut kept: Vec<u32> = Vec::new();
    let mut k: usize = 0;
    let mut m: usize = 0;
    while k < n
        invariant
            n == ordered@.len(),
            n > MAXIMUM_PROBES,
            stride >= 2,
            k <= n,
            m <= k,
            k < n ==> k == m * stride,
            k == n ==> m * stride >= n,
            m == 0 || (m - 1) * stride < n,
            kept@.len() == m,
            forall|j: int| 0 <= j < m ==> #[trigger] kept@[j] == ordered@[j * stride],
        decreases n - k,
    {
        kept.push(ordered[k]);
        proof {
            assert((m + 1) * stride == m * stride + stride) by (nonlinear_arith);
            assert(m < k + 1) by (nonlinear_arith)
                requires
                    k == m * stride,
                    stride >= 2,
            ;
        }
        m += 1;
        if stride < n - k {
            k += stride;
        } else {
            k = n;
        }
    }
    proof {
        lemma_step_count(n as nat, stride as nat, m as nat);
        assert(kept@ =~= st);
        lemma_stepped(ordered@, stride as nat);
    }
    crate::order::insert_u32(&mut kept, session_width);
    let ghost widened = kept@;
    if kept.len() > MAXIMUM_PROBES {
        let last = kept[kept.len() - 1];
        if last == session_width {
            kept.remove(0);
            assert(kept@ =~= widened.drop_first());
        } else {
            kept.pop();
            assert(kept@ =~= widened.drop_last());
        }
    }
    proof {
        lemma_thin_result(ordered@, session_width, st, widened, kept@);
    }
    kept
}

proof fn lemma_stepped(o: Seq<u32>, stride: nat)
    requires
        crate::order::ascending_u32(o),
        stride >= 2,
        o.len() > MAXIMUM_PROBES,
        stride >= (o.len() + 31) / 32,
    ensures
        crate::order::ascending_u32(stepped(o, stride)),
        stepped(o, stride).len() <= 32,
        forall|x: u32| #[trigger] stepped(o, stride).contains(x) ==> o.contains(x),
{
    let st = stepped(o, stride);
    let m = st.len();
    assert(m * stride >= o.len() && (m == 0 || (m - 1) * stride < o.len())) by (nonlinear_arith)
        requires
            m == (o.len() + stride - 1) / stride as int,
            stride >= 2,
    ;
    lemma_step_count(o.len(), stride, m);
    assert forall|j: int| 0 <= j < m implies 0 <= #[trigger] (j * stride) < o.len() by {
        assert(0 <= j * stride < o.len()) by (nonlinear_arith)
            requires
                0 <= j < m,
                m == 0 || (m - 1) * stride < o.len(),
                stride >= 2,
        ;
    }
    assert forall|a: int, b: int| 0 <= a < b < m implies #[trigger] st[a] < #[trigger] st[b] by {
        assert(a * stride < b * stride) by (nonlinear_arith)
            requires
                0 <= a < b,
                stride >= 2,
        ;
        assert(0 <= a * stride < o.len());
        assert(0 <= b * stride < o.len());
    }
    assert forall|x: u32| #[trigger] st.contains(x) implies o.contains(x) by {
        let j = choose|j: int| 0 <= j < st.len() && st[j] == x;
        assert(0 <= j * stride < o.len());
    }
}

proof fn lemma_thin_result(o: Seq<u32>, session: u32, st: Seq<u32>, widened: Seq<u32>, r: Seq<u32>)
    requires
        o.len() > MAXIMUM_PROBES,
        st == stepped(o, stride_of(o.len())),
        crate::order::ascending_u32(st),
        st.len() <= 32,
        forall|x: u32| #[trigger] st.contains(x) ==> o.contains(x),
        o.contains(session),
        crate::order::ascending_u32(widened),
        forall|x: u32| widened.contains(x) <==> (st.contains(x) || x == session),
        widened.len() == st.len() + (if st.contains(session) { 0int } else { 1int }),
        r == if widened.len() > MAXIMUM_PROBES {
            if widened.last() == session {
                widened.drop_first()
            } else {
                widened.drop_last()
            }
        } else {
            widened
        },
    ensures
        thinned(o, session, r),
        crate::order::ascending_u32(r),
        r.len() <= MAXIMUM_PROBES,
        r.contains(session),
        forall|x: u32| #[trigger] r.contains(x) ==> o.contains(x),
{
    assert forall|x: u32| #[trigger] widened.contains(x) <==> (st.contains(x) || x == session) by {}
    assert(widened.contains(session));
    let q = choose|q: int| 0 <= q < widened.len() && widened[q] == session;
    if widened.len() > MAXIMUM_PROBES {
        if widened.last() == session {
            assert(r[r.len() - 1] == session);
        } else {
            assert(q != widened.len() - 1);
            assert(r[q] == session);
        }
    } else {
        assert(r[q] == session);
    }
    assert forall|x: u32| #[trigger] r.contains(x) implies o.contains(x) by {
        let k = choose|k: int| 0 <= k < r.len() && r[k] == x;
        if widened.len() > MAXIMUM_PROBES && widened.last() == session {
            assert(widened[k + 1] == x);
        } else {
            assert(widened[k] == x);
        }
        assert(widened.contains(x));
    }
}


/// A width sampled around one of the first `n` boundaries.
pub open spec fn around_before(bs: Seq<u32>, w: u32, n: int) -> bool {
    exists|i: int|
        0 <= i < n && (w == clamp_value(#[trigger] bs[i] - 1) || w == clamp_value(bs[i] as int) || w
            == clamp_value(bs[i] + 1))
}

/// A width sampled between one of the first `n` consecutive pairs.
pub open spec fn between_before(bs: Seq<u32>, w: u32, n: int) -> bool {
    exists|i: int| 0 <= i < n && w == clamp_value(#[trigger] bs[i] + (bs[i + 1] - bs[i]) / 2)
}

/// Every width the source is sampled at.
///
/// Each boundary is probed one pixel below, at, and one pixel above, so a
/// defect seated on a breakpoint cannot hide between samples; the midpoint
/// of each consecutive pair is probed so a defect in the middle of a band
/// cannot either; and the session width is always included so the swept
/// evidence and the recorded state describe the same page.
pub fn probe_widths(bands: &Vec<String>, session_width: u32) -> (r: Vec<u32>)
    ensures
        exists|bs: Seq<u32>|
            {
                &&& crate::order::ascending_u32(bs)
                &&& forall|v: u32| #[trigger] bs.contains(v) <==> declared(bands@, v)
                &&& bs.len() == 0 ==> r@.len() == 0
                &&& bs.len() > 0 ==> exists|o: Seq<u32>|
                    {
                        &&& crate::order::ascending_u32(o)
                        &&& forall|w: u32| #[trigger] o.contains(w) <==> sampled(bs, session_width, w)
                        &&& thinned(o, clamp_value(session_width as int), r@)
                    }
            },
        crate::order::ascending_u32(r@),
        r@.len() <= MAXIMUM_PROBES,
        forall|w: u32| #[trigger] r@.contains(w) ==> MINIMUM_WIDTH <= w <= MAXIMUM_WIDTH,
        r@.len() == 0 <==> forall|v: u32| !declared(bands@, v),
        r@.len() > 0 ==> r@.contains(clamp_value(session_width as int)),
{
    let bs = boundaries(bands);
    if bs.len() == 0 {
        assert forall|v: u32| !declared(bands@, v) by {
            assert(!bs@.contains(v));
        }
        return Vec::new();
    }
    let n = bs.len();
    let mut widths: Vec<u32> = Vec::new();
    let mut i: usize = 0;
    while i < n
        invariant
            n == bs@.len(),
            i <= n,
            crate::order::ascending_u32(widths@),
            forall|w: u32| #![trigger widths@.contains(w)] widths@.contains(w) <==> around_before(bs@, w, i as int),
        decreases n - i,
    {
        let b = bs[i] as i64;
        let ghost w0 = widths@;
        crate::order::insert_u32(&mut widths, clamp(b - 1));
        crate::order::insert_u32(&mut widths, clamp(b));
        crate::order::insert_u32(&mut widths, clamp(b + 1));
        proof {
            assert forall|w: u32| #![trigger widths@.contains(w)] widths@.contains(w) <==> around_before(bs@, w, i + 1) by {
                assert(w0.contains(w) <==> around_before(bs@, w, i as int));
                if around_before(bs@, w, i + 1) && !around_before(bs@, w, i as int) {
                    let q = choose|q: int| 0 <= q < i + 1 && (w == clamp_value(#[trigger] bs@[q] - 1) || w == clamp_value(bs@[q] as int) || w
                        == clamp_value(bs@[q] + 1));
                    assert(q == i);
                }
                if around_before(bs@, w, i as int) {
                    let q = choose|q: int| 0 <= q < i && (w == clamp_value(#[trigger] bs@[q] - 1) || w == clamp_value(bs@[q] as int) || w
                        == clamp_value(bs@[q] + 1));
                    assert(0 <= q < i + 1);
                }
                if w == clamp_value(bs@[i as int] - 1) || w == clamp_value(bs@[i as int] as int) || w == clamp_value(bs@[i as int] + 1) {
                    assert(0 <= i < i + 1);
                }
            }
        }
        i += 1;
    }
    let ghost after_around = widths@;
    let mut j: usize = 0;
    while j + 1 < n
        invariant
            n == bs@.len(),
            n > 0,
            j < n,
            crate::order::ascending_u32(bs@),
            crate::order::ascending_u32(widths@),
            forall|w: u32| #![trigger widths@.contains(w)] widths@.contains(w) <==> (around_before(bs@, w, n as int)
                || between_before(bs@, w, j as int)),
        decreases n - j,
    {
        let lo = bs[j] as i64;
        let hi = bs[j + 1] as i64;
        assert(bs@[j as int] < bs@[j + 1]);
        let ghost w0 = widths@;
        crate::order::insert_u32(&mut widths, clamp(lo + (hi - lo) / 2));
        proof {
            assert forall|w: u32| #![trigger widths@.contains(w)] widths@.contains(w) <==> (around_before(bs@, w, n as int)
                || between_before(bs@, w, j + 1)) by {
                assert(w0.contains(w) <==> (around_before(bs@, w, n as int) || between_before(bs@, w, j as int)));
                if between_before(bs@, w, j + 1) && !between_before(bs@, w, j as int) {
                    let q = choose|q: int| 0 <= q < j + 1 && w == clamp_value(#[trigger] bs@[q] + (bs@[q + 1] - bs@[q]) / 2);
                    assert(q == j);
                }
                if between_before(bs@, w, j as int) {
                    let q = choose|q: int| 0 <= q < j && w == clamp_value(#[trigger] bs@[q] + (bs@[q + 1] - bs@[q]) / 2);
                    assert(0 <= q < j + 1);
                }
                if w == clamp_value(bs@[j as int] + (bs@[j + 1] - bs@[j as int]) / 2) {
                    assert(0 <= j < j + 1);
                }
            }
        }
        j += 1;
    }
    let session = clamp(session_width as i64);
    crate::order::insert_u32(&mut widths, session);
    let ghost o = widths@;
    proof {
        assert forall|w: u32| #[trigger] o.contains(w) <==> sampled(bs@, session_width, w) by {
            assert(o.contains(w) <==> (around_before(bs@, w, n as int) || between_before(bs@, w, n - 1) || w == session));
        }
        assert forall|w: u32| #[trigger] o.contains(w) implies MINIMUM_WIDTH <= w <= MAXIMUM_WIDTH by {
            assert(sampled(bs@, session_width, w));
        }
    }
    let r = thin(widths, session);
    proof {
        assert(forall|w: u32| #[trigger] r@.contains(w) ==> o.contains(w));
        assert forall|w: u32| #[trigger] r@.contains(w) implies MINIMUM_WIDTH <= w <= MAXIMUM_WIDTH by {
            assert(o.contains(w));
        }
        assert(r@.len() > 0);
        assert(exists|v: u32| declared(bands@, v)) by {
            assert(bs@.contains(bs@[0]));
        }
    }
    r
}

} // verus!
