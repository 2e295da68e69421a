//! The verdict on a whole comparison: which pages cannot be compared at
//! all, and for those that can, every finding once, in reading order.
use crate::backtest::authored::{authored, authored_findings, compare_authored_state, has_authored_targets, scope_of, state_scope};
use crate::backtest::compare::{finding, finding_value, scenario_order, scenario_rank};
use crate::backtest::model::{
    Artifact, ArtifactError, Finding, FindingView, Report, SCHEMA_VERSION, State, Status, artifact_fault, finding_views,
    probes_wf,
};
use crate::backtest::runtime::{compare_runtime, last_state_index, runtime_findings, state_at};
use crate::backtest::swept::{compare_sweep, sweep_comparison};
use crate::order::{ascending_strings, insert_string, lemma_lex_irreflexive, lemma_lex_total, lemma_lex_transitive, lex_less, lex_lt, views};
use crate::backtest::model::artifact_message;
use crate::text::{decimal, push_decimal, push_str, str_eq};
use vstd::prelude::*;

verus! {

broadcast use vstd::string::group_string_axioms;

/// A report that compared nothing, because the evidence could not be
/// compared to the end.
pub open spec fn inconclusive_report(r: Report, source_digest: Seq<char>, elapsed_ms: u128, diagnostic: Seq<char>) -> bool {
    &&& r.schema_version == SCHEMA_VERSION
    &&& r.status == Status::Inconclusive
    &&& r.findings@.len() == 0
    &&& r.suppressed_duplicates == 0
    &&& r.elapsed_ms == elapsed_ms
    &&& r.source_digest@ == source_digest
    &&& r.candidate_digest@.len() == 0
    &&& r.diagnostic matches Some(d) && d@ == diagnostic
    &&& r.scope is None
    &&& r.allowed@.len() == 0
    &&& r.unused_allowances@.len() == 0
}

pub fn inconclusive(source_digest: String, elapsed_ms: u128, diagnostic: String) -> (r: Report)
    ensures
        inconclusive_report(r, source_digest@, elapsed_ms, diagnostic@),
{
    Report {
        schema_version: SCHEMA_VERSION,
        status: Status::Inconclusive,
        findings: Vec::new(),
        suppressed_duplicates: 0,
        elapsed_ms,
        source_digest,
        candidate_digest: String::new(),
        diagnostic: Some(diagnostic),
        scope: None,
        allowed: Vec::new(),
        unused_allowances: Vec::new(),
    }
}

/// A report that compared nothing, because a page must be prepared first.
pub open spec fn preparation_report(
    r: Report,
    source_digest: Seq<char>,
    candidate_digest: Seq<char>,
    elapsed_ms: u128,
    diagnostic: Seq<char>,
) -> bool {
    &&& r.schema_version == SCHEMA_VERSION
    &&& r.status == Status::PreparationRequired
    &&& r.findings@.len() == 0
    &&& r.suppressed_duplicates == 0
    &&& r.elapsed_ms == elapsed_ms
    &&& r.source_digest@ == source_digest
    &&& r.candidate_digest@ == candidate_digest
    &&& r.diagnostic matches Some(d) && d@ == diagnostic
    &&& r.scope is None
    &&& r.allowed@.len() == 0
    &&& r.unused_allowances@.len() == 0
}

pub fn preparation_required(source: &Artifact, candidate: &Artifact, elapsed_ms: u128, diagnostic: String) -> (r:
    Report)
    ensures
        preparation_report(r, source.digest@, candidate.digest@, elapsed_ms, diagnostic@),
{
    Report {
        schema_version: SCHEMA_VERSION,
        status: Status::PreparationRequired,
        findings: Vec::new(),
        suppressed_duplicates: 0,
        elapsed_ms,
        source_digest: source.digest.clone(),
        candidate_digest: candidate.digest.clone(),
        diagnostic: Some(diagnostic),
        scope: None,
        allowed: Vec::new(),
        unused_allowances: Vec::new(),
    }
}

pub fn preparation_required_session(source_digest: String, elapsed_ms: u128, diagnostic: String) -> (r: Report)
    ensures
        preparation_report(r, source_digest@, seq![], elapsed_ms, diagnostic@),
{
    Report {
        schema_version: SCHEMA_VERSION,
        status: Status::PreparationRequired,
        findings: Vec::new(),
        suppressed_duplicates: 0,
        elapsed_ms,
        source_digest,
        candidate_digest: String::new(),
        diagnostic: Some(diagnostic),
        scope: None,
        allowed: Vec::new(),
        unused_allowances: Vec::new(),
    }
}

/// A page that never rendered its application: fewer than two dozen
/// elements against at least four times as many on the other side.
pub open spec fn shell(small: int, large: int) -> bool {
    small < 24 && large >= small * 4
}

/// Which side, if either, never rendered its page.
pub open spec fn unrendered_side(s: State, c: State) -> Option<Seq<char>> {
    let sn = s.nodes@.len() as int;
    let cn = c.nodes@.len() as int;
    if shell(sn, cn) {
        Some("source"@)
    } else if shell(cn, sn) {
        Some("recreation"@)
    } else {
        None
    }
}

/// Why a comparison of a page that never rendered is refused.
pub open spec fn unrendered_message(side: Seq<char>, sn: nat, cn: nat) -> Seq<char> {
    "the "@ + side + " never rendered its page: "@ + decimal(sn) + " elements on the source against "@ + decimal(cn)
        + " on the recreation, which is a sign-in wall, an error page, or a certificate warning rather than the application; open the "@
        + side + " and get it to the state you want to compare, then run this command again"@
}

pub open spec fn unrendered_reason(s: State, c: State) -> Option<Seq<char>> {
    match unrendered_side(s, c) {
        Some(side) => Some(unrendered_message(side, s.nodes@.len(), c.nodes@.len())),
        None => None,
    }
}

pub fn unrendered_page(source: &State, candidate: &State) -> (r: Option<String>)
    ensures
        match r {
            Some(m) => unrendered_reason(*source, *candidate) == Some(m@),
            None => unrendered_reason(*source, *candidate) is None,
        },
{
    let sn = source.nodes.len();
    let cn = candidate.nodes.len();
    let side = if sn < 24 && cn as u128 >= sn as u128 * 4 {
        "source"
    } else if cn < 24 && sn as u128 >= cn as u128 * 4 {
        "recreation"
    } else {
        return None;
    };
    let mut m = String::new();
    push_str(&mut m, "the ");
    push_str(&mut m, side);
    push_str(&mut m, " never rendered its page: ");
    push_decimal(&mut m, sn as u128);
    push_str(&mut m, " elements on the source against ");
    push_decimal(&mut m, cn as u128);
    push_str(
        &mut m,
        " on the recreation, which is a sign-in wall, an error page, or a certificate warning rather than the application; open the ",
    );
    push_str(&mut m, side);
    push_str(&mut m, " and get it to the state you want to compare, then run this command again");
    Some(m)
}

/// An element that shows on screen: visible, not clipped away, with area.
pub open spec fn shows(n: crate::backtest::model::NodeEvidence) -> bool {
    n.visible && !n.clipped && n.width > 0 && n.height > 0
}

/// How many of the first `k` elements of a state show on screen.
pub open spec fn shown_count(nodes: Seq<(String, crate::backtest::model::NodeEvidence)>, k: int) -> nat
    decreases k,
{
    if k <= 0 {
        0
    } else {
        shown_count(nodes, k - 1) + if shows(nodes[k - 1].1) { 1nat } else { 0nat }
    }
}

/// A page of two dozen elements or more of which fewer than one in twenty
/// shows: it paints nothing, though its elements exist.
pub open spec fn blank(total: int, shown: int) -> bool {
    total >= 24 && shown * 20 < total
}

/// Which side, if either, painted nothing, the recreation checked first,
/// with its element count and how many show.
pub open spec fn blank_side(s: State, c: State) -> Option<(Seq<char>, nat, nat)> {
    let st = s.nodes@.len();
    let ct = c.nodes@.len();
    let ss = shown_count(s.nodes@, st as int);
    let cs = shown_count(c.nodes@, ct as int);
    if blank(ct as int, cs as int) {
        Some(("recreation"@, ct, cs))
    } else if blank(st as int, ss as int) {
        Some(("source"@, st, ss))
    } else {
        None
    }
}

pub open spec fn blank_reason(s: State, c: State) -> Option<Seq<char>> {
    match blank_side(s, c) {
        Some((side, total, shown)) => Some(
            "the "@ + side + " painted nothing: "@ + decimal(shown) + " of its "@ + decimal(total)
                + " elements survive their clipping ancestors, so the page is blank on screen even though its elements exist and report normal positions; an ancestor is collapsed to zero width or height with a hidden overflow, and every other difference this run would report is noise until that is fixed"@,
        ),
        None => None,
    }
}

fn surviving(state: &State) -> (r: usize)
    ensures
        r == shown_count(state.nodes@, state.nodes@.len() as int),
{
    let mut count: usize = 0;
    let mut i: usize = 0;
    while i < state.nodes.len()
        invariant
            i <= state.nodes@.len(),
            count == shown_count(state.nodes@, i as int),
            count <= i,
        decreases state.nodes@.len() - i,
    {
        let n = &state.nodes[i].1;
        if n.visible && !n.clipped && n.width > 0 && n.height > 0 {
            count += 1;
        }
        i += 1;
    }
    count
}

pub fn painted_nothing(source: &State, candidate: &State) -> (r: Option<String>)
    ensures
        match r {
            Some(m) => blank_reason(*source, *candidate) == Some(m@),
            None => blank_reason(*source, *candidate) is None,
        },
{
    let st = source.nodes.len();
    let ct = candidate.nodes.len();
    let ss = surviving(source);
    let cs = surviving(candidate);
    let (side, total, shown) = if ct >= 24 && (cs as u128) * 20 < ct as u128 {
        ("recreation", ct, cs)
    } else if st >= 24 && (ss as u128) * 20 < st as u128 {
        ("source", st, ss)
    } else {
        return None;
    };
    let mut m = String::new();
    push_str(&mut m, "the ");
    push_str(&mut m, side);
    push_str(&mut m, " painted nothing: ");
    push_decimal(&mut m, shown as u128);
    push_str(&mut m, " of its ");
    push_decimal(&mut m, total as u128);
    push_str(
        &mut m,
        " elements survive their clipping ancestors, so the page is blank on screen even though its elements exist and report normal positions; an ancestor is collapsed to zero width or height with a hidden overflow, and every other difference this run would report is noise until that is fixed",
    );
    Some(m)
}


/// Whether one finding reads before another: by viewport, then by
/// scenario in report order, then by target.
pub open spec fn reads_before(a: FindingView, b: FindingView) -> bool {
    ||| a.viewport < b.viewport
    ||| a.viewport == b.viewport && scenario_order(a.scenario) < scenario_order(b.scenario)
    ||| a.viewport == b.viewport && scenario_order(a.scenario) == scenario_order(b.scenario) && lex_lt(a.target, b.target)
}

/// A finding placed after every finding of a list that it does not read
/// before.
pub open spec fn insert_sorted(s: Seq<FindingView>, x: FindingView) -> Seq<FindingView>
    decreases s.len(),
{
    if s.len() == 0 {
        seq![x]
    } else if reads_before(x, s.last()) {
        insert_sorted(s.drop_last(), x).push(s.last())
    } else {
        s.push(x)
    }
}

/// Findings in reading order; findings that read alike keep their order.
pub open spec fn sort_findings(s: Seq<FindingView>) -> Seq<FindingView>
    decreases s.len(),
{
    if s.len() == 0 {
        seq![]
    } else {
        insert_sorted(sort_findings(s.drop_last()), s.last())
    }
}

/// The state of a comparison walk: findings kept, keys already reported,
/// repeats suppressed, and why the walk stopped, if it did.
pub struct Walk {
    pub findings: Seq<FindingView>,
    pub seen: Set<Seq<char>>,
    pub suppressed: nat,
    pub stop: Option<Seq<char>>,
}

/// A count raised by `n`, held at the largest count a report can hold.
pub open spec fn capped(count: nat, n: nat) -> nat {
    if count + n > usize::MAX {
        usize::MAX as nat
    } else {
        count + n
    }
}

/// Findings added to a walk, each key reported once; a repeat is counted
/// as suppressed.
pub open spec fn add_unique(w: Walk, fs: Seq<FindingView>) -> Walk
    decreases fs.len(),
{
    if fs.len() == 0 {
        w
    } else {
        let v = add_unique(w, fs.drop_last());
        let f = fs.last();
        if v.seen.contains(f.key) {
            Walk { suppressed: capped(v.suppressed, 1), ..v }
        } else {
            Walk { findings: v.findings.push(f), seen: v.seen.insert(f.key), ..v }
        }
    }
}

/// The findings of one pair of states: the authored comparison where
/// either page carries authored targets, else the semantic findings given
/// for it.
pub open spec fn state_findings(e: State, a: State, semantic: Seq<FindingView>) -> Seq<FindingView> {
    if authored(e) || authored(a) {
        authored_findings(e, a)
    } else {
        semantic
    }
}

/// The walk over the first `n` source states: a state the recreation lacks
/// is reported as missing; incomplete evidence or a page that never
/// rendered or painted stops the walk; load states are compared later.
pub open spec fn state_walk(ss: Seq<State>, cs: Seq<State>, semantic: Seq<Seq<FindingView>>, n: int) -> Walk
    decreases n,
{
    if n <= 0 {
        Walk { findings: seq![], seen: Set::empty(), suppressed: 0, stop: None }
    } else {
        let w = state_walk(ss, cs, semantic, n - 1);
        if w.stop is Some {
            w
        } else {
            walk_step(w, ss[n - 1], cs, semantic[n - 1])
        }
    }
}

/// One source state's step of the walk.
pub open spec fn walk_step(w: Walk, e: State, cs: Seq<State>, semantic: Seq<FindingView>) -> Walk {
    match state_at(cs, e.viewport.width, e.scenario@) {
        None => Walk {
            findings: w.findings.push(finding_value(scope_of(e), "state"@, "scenario"@, "present"@, "missing"@, None)),
            ..w
        },
        Some(a) => if !e.capture_complete || !a.capture_complete {
            Walk { stop: Some("incomplete state evidence"@), ..w }
        } else if unrendered_reason(e, a) is Some {
            Walk { stop: unrendered_reason(e, a), ..w }
        } else if blank_reason(e, a) is Some {
            Walk { stop: blank_reason(e, a), ..w }
        } else if e.scenario@ == "load"@ {
            w
        } else {
            add_unique(w, state_findings(e, a, semantic))
        },
    }
}

/// The findings that are not about raw pixels, in order.
pub open spec fn without_pixels(s: Seq<FindingView>) -> Seq<FindingView>
    decreases s.len(),
{
    if s.len() == 0 {
        seq![]
    } else if s.last().property != "pixels"@ {
        without_pixels(s.drop_last()).push(s.last())
    } else {
        without_pixels(s.drop_last())
    }
}

proof fn lemma_without_pixels_len(s: Seq<FindingView>)
    ensures
        without_pixels(s).len() <= s.len(),
    decreases s.len(),
{
    if s.len() > 0 {
        lemma_without_pixels_len(s.drop_last());
    }
}

/// The findings and suppressed count a complete walk ends with: the run-time
/// and sweep findings added, pixels dropped when anything else differs, in
/// reading order.
pub open spec fn final_walk(source: Artifact, candidate: Artifact, semantic: Seq<Seq<FindingView>>) -> Walk {
    let w = state_walk(source.states@, candidate.states@, semantic, source.states@.len() as int);
    let w2 = add_unique(w, runtime_findings(source.states@, candidate.states@));
    let w3 = add_unique(
        w2,
        sweep_comparison(source.sweep@, candidate.sweep@, source.uncovered@, candidate.uncovered@),
    );
    let kept = if exists|i: int| 0 <= i < w3.findings.len() && (#[trigger] w3.findings[i]).property != "pixels"@ {
        without_pixels(w3.findings)
    } else {
        w3.findings
    };
    Walk {
        findings: sort_findings(kept),
        suppressed: capped(w3.suppressed, (w3.findings.len() - kept.len()) as nat),
        ..w3
    }
}

/// The report a comparison of two artifacts gives. `source_unsigned` and
/// `candidate_unsigned` are each artifact's serialized form with an empty
/// digest; `semantic` holds, for each source state, its semantic findings.
pub open spec fn artifacts_report(
    r: Report,
    source: Artifact,
    candidate: Artifact,
    elapsed_ms: u128,
    source_unsigned: Seq<u8>,
    candidate_unsigned: Seq<u8>,
    semantic: Seq<Seq<FindingView>>,
) -> bool {
    match artifact_fault(source, source_unsigned) {
        Some(e) => preparation_report(r, source.digest@, candidate.digest@, elapsed_ms, artifact_message(e)),
        None => match artifact_fault(candidate, candidate_unsigned) {
            Some(e) => preparation_report(r, source.digest@, candidate.digest@, elapsed_ms, artifact_message(e)),
            None => {
                let w = state_walk(source.states@, candidate.states@, semantic, source.states@.len() as int);
                match w.stop {
                    Some(reason) => inconclusive_report(r, source.digest@, elapsed_ms, reason),
                    None => {
                        let f = final_walk(source, candidate, semantic);
                        &&& r.schema_version == SCHEMA_VERSION
                        &&& r.status == (if f.findings.len() == 0 { Status::Pass } else { Status::Fail })
                        &&& finding_views(r.findings@) == f.findings
                        &&& r.suppressed_duplicates == f.suppressed
                        &&& r.elapsed_ms == elapsed_ms
                        &&& r.source_digest@ == source.digest@
                        &&& r.candidate_digest@ == candidate.digest@
                        &&& r.diagnostic is None
                        &&& r.scope is None
                        &&& r.allowed@.len() == 0
                        &&& r.unused_allowances@.len() == 0
                    },
                }
            },
        },
    }
}

fn reads_before_exec(a: &Finding, b: &Finding) -> (r: bool)
    ensures
        r == reads_before(a@, b@),
{
    if a.viewport != b.viewport {
        return a.viewport < b.viewport;
    }
    let ra = scenario_rank(a.scenario.as_str());
    let rb = scenario_rank(b.scenario.as_str());
    if ra != rb {
        return ra < rb;
    }
    lex_less(&crate::text::chars_of(a.target.as_str()), &crate::text::chars_of(b.target.as_str()))
}

/// Inserting at the position found from the end is `insert_sorted`.
proof fn lemma_insert_at(s: Seq<FindingView>, x: FindingView, p: int)
    requires
        0 <= p <= s.len(),
        forall|j: int| p <= j < s.len() ==> reads_before(x, #[trigger] s[j]),
        p == 0 || !reads_before(x, s[p - 1]),
    ensures
        insert_sorted(s, x) == s.take(p).push(x) + s.skip(p),
    decreases s.len(),
{
    if s.len() == p {
        if p == 0 {
            assert(s.take(p).push(x) + s.skip(p) =~= seq![x]);
        } else {
            assert(s.take(p) =~= s);
            assert(s.skip(p) =~= Seq::<FindingView>::empty());
            assert(s.take(p).push(x) + s.skip(p) =~= s.push(x));
        }
    } else {
        assert(reads_before(x, s.last()));
        let t = s.drop_last();
        assert forall|j: int| p <= j < t.len() implies reads_before(x, #[trigger] t[j]) by {
            assert(t[j] == s[j]);
        }
        if p > 0 {
            assert(t[p - 1] == s[p - 1]);
        }
        lemma_insert_at(t, x, p);
        assert(insert_sorted(s, x) == insert_sorted(t, x).push(s.last()));
        assert(t.take(p) =~= s.take(p));
        assert(t.skip(p).push(s.last()) =~= s.skip(p));
        assert(t.take(p).push(x) + t.skip(p).push(s.last()) =~= s.take(p).push(x) + s.skip(p));
    }
}

/// Sorts findings into reading order, keeping the order of findings that
/// read alike.
pub fn sort_into_reading_order(findings: Vec<Finding>) -> (r: Vec<Finding>)
    ensures
        finding_views(r@) == sort_findings(finding_views(findings@)),
{
    let ghost all = finding_views(findings@);
    let mut out: Vec<Finding> = Vec::new();
    let mut rest = findings;
    let mut taken: Vec<Finding> = Vec::new();
    let mut i: usize = 0;
    let n = rest.len();
    while i < n
        invariant
            n == all.len(),
            i <= n,
            all == finding_views(findings@),
            rest@ == findings@,
            finding_views(out@) == sort_findings(all.take(i as int)),
        decreases n - i,
    {
        let x = rest[i].duplicate();
        let mut p: usize = out.len();
        while p > 0 && reads_before_exec(&x, &out[p - 1])
            invariant
                p <= out@.len(),
                forall|j: int| p <= j < out@.len() ==> reads_before(x@, #[trigger] finding_views(out@)[j]),
            decreases p,
        {
            p -= 1;
        }
        proof {
            let s0 = finding_views(out@);
            if p > 0 {
                assert(s0[p - 1] == out@[p - 1]@);
            }
            lemma_insert_at(s0, x@, p as int);
            let t = all.take(i + 1 as int);
            assert(t.drop_last() =~= all.take(i as int));
            assert(t.last() == x@);
        }
        let ghost before = finding_views(out@);
        out.insert(p, x);
        proof {
            assert(finding_views(out@) =~= before.take(p as int).push(x@) + before.skip(p as int));
        }
        i += 1;
    }
    assert(all.take(n as int) =~= all);
    out
}


fn known(seen: &Vec<String>, k: &String) -> (r: bool)
    ensures
        r == views(seen@).contains(k@),
{
    let mut i: usize = 0;
    while i < seen.len()
        invariant
            i <= seen@.len(),
            forall|j: int| 0 <= j < i ==> seen@[j]@ != k@,
        decreases seen@.len() - i,
    {
        if str_eq(seen[i].as_str(), k.as_str()) {
            assert(views(seen@)[i as int] == k@);
            return true;
        }
        i += 1;
    }
    assert(!views(seen@).contains(k@)) by {
        if views(seen@).contains(k@) {
            let j = choose|j: int| 0 <= j < views(seen@).len() && views(seen@)[j] == k@;
            assert(seen@[j]@ == k@);
        }
    }
    false
}

/// Adds findings to a walk, each key once.
fn add_findings(
    kept: &mut Vec<Finding>,
    seen: &mut Vec<String>,
    suppressed: &mut usize,
    fs: Vec<Finding>,
    Ghost(w): Ghost<Walk>,
) -> (r: Ghost<Walk>)
    requires
        finding_views(old(kept)@) == w.findings,
        forall|k: Seq<char>| #[trigger] views(old(seen)@).contains(k) <==> w.seen.contains(k),
        *old(suppressed) == w.suppressed,
    ensures
        r@ == add_unique(w, finding_views(fs@)),
        finding_views(final(kept)@) == r@.findings,
        forall|k: Seq<char>| #[trigger] views(final(seen)@).contains(k) <==> r@.seen.contains(k),
        *final(suppressed) == r@.suppressed,
        r@.stop == w.stop,
{
    let ghost all = finding_views(fs@);
    let mut i: usize = 0;
    while i < fs.len()
        invariant
            i <= fs@.len(),
            all == finding_views(fs@),
            finding_views(kept@) == add_unique(w, all.take(i as int)).findings,
            forall|k: Seq<char>| #[trigger] views(seen@).contains(k) <==> add_unique(w, all.take(i as int)).seen.contains(k),
            *suppressed == add_unique(w, all.take(i as int)).suppressed,
            add_unique(w, all.take(i as int)).stop == w.stop,
        decreases fs@.len() - i,
    {
        let f = &fs[i];
        proof {
            let t = all.take(i + 1 as int);
            assert(t.drop_last() =~= all.take(i as int));
            assert(t.last() == f@);
        }
        if known(seen, &f.key) {
            if *suppressed < usize::MAX {
                *suppressed = *suppressed + 1;
            }
        } else {
            let ghost before_kept = finding_views(kept@);
            let ghost before_seen = views(seen@);
            kept.push(f.duplicate());
            seen.push(f.key.clone());
            proof {
                assert(finding_views(kept@) =~= before_kept.push(f@));
                assert(views(seen@) =~= before_seen.push(f@.key));
                let v = add_unique(w, all.take(i as int));
                assert forall|k: Seq<char>| #[trigger] views(seen@).contains(k) <==> v.seen.insert(f@.key).contains(k) by {
                    if views(seen@).contains(k) && k != f@.key {
                        let j = choose|j: int| 0 <= j < views(seen@).len() && views(seen@)[j] == k;
                        assert(before_seen[j] == k);
                    }
                    if before_seen.contains(k) {
                        let j = choose|j: int| 0 <= j < before_seen.len() && before_seen[j] == k;
                        assert(views(seen@)[j] == k);
                    }
                    if k == f@.key {
                        assert(views(seen@)[before_seen.len() as int] == k);
                    }
                }
            }
        }
        i += 1;
    }
    assert(all.take(fs@.len() as int) =~= all);
    Ghost(add_unique(w, all))
}


/// The abstract values of per-state finding lists.
pub open spec fn semantic_views(s: Seq<Vec<Finding>>) -> Seq<Seq<FindingView>> {
    s.map_values(|v: Vec<Finding>| finding_views(v@))
}

fn copy_findings(v: &Vec<Finding>) -> (r: Vec<Finding>)
    ensures
        finding_views(r@) == finding_views(v@),
{
    let mut r: Vec<Finding> = Vec::new();
    let mut i: usize = 0;
    while i < v.len()
        invariant
            i <= v@.len(),
            finding_views(r@) == finding_views(v@).take(i as int),
        decreases v@.len() - i,
    {
        let f = v[i].duplicate();
        let ghost before = finding_views(r@);
        r.push(f);
        assert(finding_views(r@) =~= before.push(f@));
        assert(finding_views(v@).take(i + 1 as int) =~= finding_views(v@).take(i as int).push(v@[i as int]@));
        i += 1;
    }
    assert(finding_views(v@).take(v@.len() as int) =~= finding_views(v@));
    r
}

/// One step of the walk: `Err` with the reason when the walk stops here.
fn walk_one(
    expected: &State,
    candidates: &Vec<State>,
    semantic: &Vec<Finding>,
    kept: &mut Vec<Finding>,
    seen: &mut Vec<String>,
    suppressed: &mut usize,
    Ghost(w): Ghost<Walk>,
) -> (r: Result<Ghost<Walk>, String>)
    requires
        expected.wf(),
        forall|i: int| 0 <= i < candidates@.len() ==> (#[trigger] candidates@[i]).wf(),
        w.stop is None,
        finding_views(old(kept)@) == w.findings,
        forall|k: Seq<char>| #[trigger] views(old(seen)@).contains(k) <==> w.seen.contains(k),
        *old(suppressed) == w.suppressed,
    ensures
        match r {
            Ok(g) => {
                &&& g@ == walk_step(w, *expected, candidates@, finding_views(semantic@))
                &&& g@.stop is None
                &&& finding_views(final(kept)@) == g@.findings
                &&& forall|k: Seq<char>| #[trigger] views(final(seen)@).contains(k) <==> g@.seen.contains(k)
                &&& *final(suppressed) == g@.suppressed
            },
            Err(reason) => walk_step(w, *expected, candidates@, finding_views(semantic@)).stop == Some(reason@),
        },
{
    match last_state_index(candidates, expected.viewport.width, expected.scenario.as_str()) {
        None => {
            let scope = state_scope(expected);
            let f = finding(&scope, "state", "scenario", "present", "missing", None);
            let ghost before = finding_views(kept@);
            kept.push(f);
            assert(finding_views(kept@) =~= before.push(f@));
            Ok(Ghost(Walk { findings: w.findings.push(f@), ..w }))
        },
        Some(k) => {
            let actual = &candidates[k];
            assert(actual.wf());
            if !expected.capture_complete || !actual.capture_complete {
                proof {
                    reveal_strlit("incomplete state evidence");
                }
                return Err(String::from_str("incomplete state evidence"));
            }
            match unrendered_page(expected, actual) {
                Some(reason) => return Err(reason),
                None => {},
            }
            match painted_nothing(expected, actual) {
                Some(reason) => return Err(reason),
                None => {},
            }
            if str_eq(expected.scenario.as_str(), "load") {
                return Ok(Ghost(w));
            }
            let found = if has_authored_targets(expected) || has_authored_targets(actual) {
                compare_authored_state(expected, actual)
            } else {
                copy_findings(semantic)
            };
            let g = add_findings(kept, seen, suppressed, found, Ghost(w));
            Ok(g)
        },
    }
}

/// Compares two recorded artifacts.
///
/// `source_unsigned` and `candidate_unsigned` are each artifact's
/// serialized form with an empty digest, against which its digest is
/// checked. `semantic` holds, for each source state in order, the findings
/// of its semantic comparison, used where neither page of the pair carries
/// authored targets.
pub fn artifacts(
    source: &Artifact,
    candidate: &Artifact,
    elapsed_ms: u128,
    source_unsigned: &[u8],
    candidate_unsigned: &[u8],
    semantic: &Vec<Vec<Finding>>,
) -> (r: Report)
    requires
        source.wf(),
        candidate.wf(),
        semantic@.len() == source.states@.len(),
    ensures
        artifacts_report(
            r,
            *source,
            *candidate,
            elapsed_ms,
            source_unsigned@,
            candidate_unsigned@,
            semantic_views(semantic@),
        ),
{
    match source.verify(source_unsigned) {
        Err(e) => return preparation_required(source, candidate, elapsed_ms, String::from_str(e.message())),
        Ok(()) => {},
    }
    match candidate.verify(candidate_unsigned) {
        Err(e) => return preparation_required(source, candidate, elapsed_ms, String::from_str(e.message())),
        Ok(()) => {},
    }
    let ghost sem = semantic_views(semantic@);
    let ghost ss = source.states@;
    let ghost cs = candidate.states@;
    let mut kept: Vec<Finding> = Vec::new();
    let mut seen: Vec<String> = Vec::new();
    let mut suppressed: usize = 0;
    let ghost mut w = Walk { findings: seq![], seen: Set::empty(), suppressed: 0, stop: None };
    let mut i: usize = 0;
    while i < source.states.len()
        invariant
            i <= ss.len(),
            ss == source.states@,
            cs == candidate.states@,
            sem == semantic_views(semantic@),
            semantic@.len() == ss.len(),
            source.wf(),
            candidate.wf(),
            w == state_walk(ss, cs, sem, i as int),
            w.stop is None,
            artifact_fault(*source, source_unsigned@) is None,
            artifact_fault(*candidate, candidate_unsigned@) is None,
            finding_views(kept@) == w.findings,
            forall|k: Seq<char>| #[trigger] views(seen@).contains(k) <==> w.seen.contains(k),
            suppressed == w.suppressed,
        decreases ss.len() - i,
    {
        let expected = &source.states[i];
        assert(expected.wf());
        assert(sem[i as int] == finding_views(semantic@[i as int]@));
        let step = walk_one(expected, &candidate.states, &semantic[i], &mut kept, &mut seen, &mut suppressed, Ghost(w));
        match step {
            Err(reason) => {
                proof {
                    assert(state_walk(ss, cs, sem, i + 1) == walk_step(w, ss[i as int], cs, sem[i as int]));
                    lemma_stop_stays(ss, cs, sem, i + 1, ss.len() as int);
                }
                return inconclusive(source.digest.clone(), elapsed_ms, reason);
            },
            Ok(g) => {
                proof {
                    assert(state_walk(ss, cs, sem, i + 1) == walk_step(w, ss[i as int], cs, sem[i as int]));
                    w = g@;
                }
            },
        }
        i += 1;
    }
    let runtime = compare_runtime(&source.states, &candidate.states);
    let g = add_findings(&mut kept, &mut seen, &mut suppressed, runtime, Ghost(w));
    let sweep = compare_sweep(source, candidate);
    let g3 = add_findings(&mut kept, &mut seen, &mut suppressed, sweep, g);
    let ghost all = finding_views(kept@);
    let mut any_other = false;
    let mut j: usize = 0;
    while j < kept.len()
        invariant
            j <= kept@.len(),
            all == finding_views(kept@),
            any_other == exists|q: int| 0 <= q < j && (#[trigger] all[q]).property != "pixels"@,
        decreases kept@.len() - j,
    {
        assert(all[j as int] == kept@[j as int]@);
        let other = !str_eq(kept[j].property.as_str(), "pixels");
        proof {
            if !other && !any_other {
                assert forall|q: int| 0 <= q < j + 1 implies !((#[trigger] all[q]).property != "pixels"@) by {
                    if q < j {
                        assert(!(all[q].property != "pixels"@));
                    }
                }
            }
        }
        if other {
            any_other = true;
        }
        j += 1;
    }
    let mut chosen: Vec<Finding> = Vec::new();
    let mut removed: usize = 0;
    if any_other {
        let mut q: usize = 0;
        while q < kept.len()
            invariant
                q <= kept@.len(),
                all == finding_views(kept@),
                finding_views(chosen@) == without_pixels(all.take(q as int)),
                removed == q - without_pixels(all.take(q as int)).len(),
                without_pixels(all.take(q as int)).len() <= q,
            decreases kept@.len() - q,
        {
            proof {
                let t = all.take(q + 1 as int);
                assert(t.drop_last() =~= all.take(q as int));
                assert(t.last() == kept@[q as int]@);

            }
            if !str_eq(kept[q].property.as_str(), "pixels") {
                let f = kept[q].duplicate();
                let ghost before = finding_views(chosen@);
                chosen.push(f);
                assert(finding_views(chosen@) =~= before.push(f@));
            } else {
                removed = removed + 1;
            }
            q += 1;
        }
        assert(all.take(kept@.len() as int) =~= all);
    } else {
        chosen = kept;
        proof {
            lemma_without_pixels_len(all);
        }
    }
    let total = if suppressed as u128 + removed as u128 > usize::MAX as u128 {
        usize::MAX
    } else {
        suppressed + removed
    };
    let findings = sort_into_reading_order(chosen);
    let status = if findings.len() == 0 { Status::Pass } else { Status::Fail };
    Report {
        schema_version: SCHEMA_VERSION,
        status,
        findings,
        suppressed_duplicates: total,
        elapsed_ms,
        source_digest: source.digest.clone(),
        candidate_digest: candidate.digest.clone(),
        diagnostic: None,
        scope: None,
        allowed: Vec::new(),
        unused_allowances: Vec::new(),
    }
}

/// Once a walk stops, it stays stopped for the same reason.
proof fn lemma_stop_stays(ss: Seq<State>, cs: Seq<State>, sem: Seq<Seq<FindingView>>, m: int, n: int)
    requires
        0 <= m <= n,
        state_walk(ss, cs, sem, m).stop is Some,
    ensures
        state_walk(ss, cs, sem, n).stop == state_walk(ss, cs, sem, m).stop,
    decreases n - m,
{
    if n > m {
        lemma_stop_stays(ss, cs, sem, m, n - 1);
    }
}

/// Findings in reading order: none reads before one listed earlier.
pub open spec fn in_reading_order(s: Seq<FindingView>) -> bool {
    forall|i: int, j: int| 0 <= i < j < s.len() ==> !reads_before(#[trigger] s[j], #[trigger] s[i])
}

proof fn lemma_reads_before_asymmetric(a: FindingView, b: FindingView)
    ensures
        reads_before(a, b) ==> !reads_before(b, a),
{
    if reads_before(a, b) && reads_before(b, a) {
        if a.viewport == b.viewport && scenario_order(a.scenario) == scenario_order(b.scenario) {
            lemma_lex_transitive(a.target, b.target, a.target);
            lemma_lex_irreflexive(a.target);
        }
    }
}

proof fn lemma_not_before_transitive(a: FindingView, b: FindingView, c: FindingView)
    requires
        !reads_before(a, b),
        !reads_before(b, c),
    ensures
        !reads_before(a, c),
{
    if reads_before(a, c) {
        if a.viewport == b.viewport && b.viewport == c.viewport && scenario_order(a.scenario) == scenario_order(b.scenario)
            && scenario_order(b.scenario) == scenario_order(c.scenario) {
            assert(lex_lt(a.target, c.target));
            if a.target != b.target {
                lemma_lex_total(a.target, b.target);
            }
            if b.target != c.target {
                lemma_lex_total(b.target, c.target);
            }
            if a.target == b.target {
                assert(lex_lt(b.target, c.target));
            } else if b.target == c.target {
                assert(lex_lt(a.target, b.target));
            } else {
                lemma_lex_transitive(b.target, a.target, c.target);
                lemma_lex_transitive(c.target, b.target, a.target);
                lemma_lex_transitive(a.target, c.target, b.target);
            }
        }
    }
}

proof fn lemma_insert_sorted(s: Seq<FindingView>, x: FindingView)
    requires
        in_reading_order(s),
    ensures
        in_reading_order(insert_sorted(s, x)),
        insert_sorted(s, x).len() == s.len() + 1,
        forall|e: FindingView| #[trigger] insert_sorted(s, x).contains(e) ==> e == x || s.contains(e),
    decreases s.len(),
{
    let r = insert_sorted(s, x);
    if s.len() == 0 {
        assert(r =~= seq![x]);
    } else if reads_before(x, s.last()) {
        let t = s.drop_last();
        let last = s.last();
        assert(in_reading_order(t)) by {
            assert forall|i: int, j: int| 0 <= i < j < t.len() implies !reads_before(#[trigger] t[j], #[trigger] t[i]) by {
                assert(t[i] == s[i] && t[j] == s[j]);
            }
        }
        lemma_insert_sorted(t, x);
        let u = insert_sorted(t, x);
        assert(r == u.push(last));
        assert forall|i: int, j: int| 0 <= i < j < r.len() implies !reads_before(#[trigger] r[j], #[trigger] r[i]) by {
            if j == r.len() - 1 {
                assert(r[j] == last);
                assert(r[i] == u[i]);
                assert(u.contains(u[i]));
                if u[i] == x {
                    lemma_reads_before_asymmetric(x, last);
                } else {
                    let k = choose|k: int| 0 <= k < t.len() && t[k] == u[i];
                    assert(s[k] == t[k]);
                    assert(!reads_before(s[s.len() - 1], s[k]));
                }
            } else {
                assert(r[i] == u[i] && r[j] == u[j]);
            }
        }
        assert forall|e: FindingView| #[trigger] r.contains(e) implies e == x || s.contains(e) by {
            let k = choose|k: int| 0 <= k < r.len() && r[k] == e;
            if k == r.len() - 1 {
                assert(s[s.len() - 1] == e);
            } else {
                assert(u[k] == e);
                assert(u.contains(e));
                if e != x {
                    let m = choose|m: int| 0 <= m < t.len() && t[m] == e;
                    assert(s[m] == e);
                }
            }
        }
    } else {
        assert(r == s.push(x));
        assert forall|i: int, j: int| 0 <= i < j < r.len() implies !reads_before(#[trigger] r[j], #[trigger] r[i]) by {
            if j == r.len() - 1 {
                if i < s.len() - 1 {
                    assert(!reads_before(s[s.len() - 1], s[i]));
                    lemma_not_before_transitive(x, s[s.len() - 1], s[i]);
                }
            }
        }
        assert forall|e: FindingView| #[trigger] r.contains(e) implies e == x || s.contains(e) by {
            let k = choose|k: int| 0 <= k < r.len() && r[k] == e;
            if k < s.len() {
                assert(s[k] == e);
            }
        }
    }
}

proof fn lemma_sorted_members(s: Seq<FindingView>)
    ensures
        forall|e: FindingView| #[trigger] sort_findings(s).contains(e) ==> s.contains(e),
    decreases s.len(),
{
    if s.len() > 0 {
        let t = s.drop_last();
        lemma_sorted_members(t);
        sorted_findings_are_in_reading_order(t);
        lemma_insert_sorted(sort_findings(t), s.last());
        assert forall|e: FindingView| #[trigger] sort_findings(s).contains(e) implies s.contains(e) by {
            if e == s.last() {
                assert(s[s.len() - 1] == e);
            } else {
                assert(sort_findings(t).contains(e));
                let k = choose|k: int| 0 <= k < t.len() && t[k] == e;
                assert(s[k] == e);
            }
        }
    }
}

proof fn lemma_without_pixels_members(s: Seq<FindingView>)
    ensures
        forall|e: FindingView| #[trigger] without_pixels(s).contains(e) ==> e.property != "pixels"@,
    decreases s.len(),
{
    if s.len() > 0 {
        lemma_without_pixels_members(s.drop_last());
        assert forall|e: FindingView| #[trigger] without_pixels(s).contains(e) implies e.property != "pixels"@ by {
            let w = without_pixels(s);
            let k = choose|k: int| 0 <= k < w.len() && w[k] == e;
            let u = without_pixels(s.drop_last());
            if k < u.len() {
                assert(u[k] == e);
                assert(u.contains(e));
            }
        }
    }
}

/// Sorting puts findings in reading order and keeps their number.
pub proof fn sorted_findings_are_in_reading_order(s: Seq<FindingView>)
    ensures
        in_reading_order(sort_findings(s)),
        sort_findings(s).len() == s.len(),
    decreases s.len(),
{
    if s.len() > 0 {
        sorted_findings_are_in_reading_order(s.drop_last());
        lemma_insert_sorted(sort_findings(s.drop_last()), s.last());
    }
}

/// No two findings share a key.
pub open spec fn distinct_keys(s: Seq<FindingView>) -> bool {
    forall|i: int, j: int| 0 <= i < j < s.len() ==> (#[trigger] s[i]).key != (#[trigger] s[j]).key
}

/// Whether a source state has no counterpart of its width and scenario.
pub open spec fn unpaired(cs: Seq<State>, e: State) -> bool {
    state_at(cs, e.viewport.width, e.scenario@) is None
}

/// The key under which a source state without a counterpart is reported.
pub open spec fn missing_key(e: State) -> Seq<char> {
    finding_value(scope_of(e), "state"@, "scenario"@, "present"@, "missing"@, None).key
}

/// Whether a key is that of a source state without a counterpart.
pub open spec fn is_missing_key(ss: Seq<State>, cs: Seq<State>, k: Seq<char>) -> bool {
    exists|i: int| 0 <= i < ss.len() && unpaired(cs, ss[i]) && #[trigger] missing_key(ss[i]) == k
}

/// No finding in `fs` carries the key of a source state without a
/// counterpart.
pub open spec fn clear_of_missing(ss: Seq<State>, cs: Seq<State>, fs: Seq<FindingView>) -> bool {
    forall|f: FindingView| #[trigger] fs.contains(f) ==> !is_missing_key(ss, cs, f.key)
}

/// The states without a counterpart are reported under keys of their own:
/// no two of them share one, and no other finding carries one.
pub open spec fn missing_apart(
    ss: Seq<State>,
    cs: Seq<State>,
    semantic: Seq<Seq<FindingView>>,
    runtime: Seq<FindingView>,
    sweep: Seq<FindingView>,
) -> bool {
    &&& forall|i: int, j: int|
        0 <= i < j < ss.len() && unpaired(cs, ss[i]) && unpaired(cs, ss[j]) ==> #[trigger] missing_key(ss[i])
            != #[trigger] missing_key(ss[j])
    &&& forall|i: int|
        0 <= i < ss.len() && !unpaired(cs, ss[i]) ==> clear_of_missing(
            ss,
            cs,
            #[trigger] state_findings(ss[i], state_at(cs, ss[i].viewport.width, ss[i].scenario@)->0, semantic[i]),
        )
    &&& clear_of_missing(ss, cs, runtime)
    &&& clear_of_missing(ss, cs, sweep)
}

/// A walk whose findings have distinct keys, each either marked seen or the
/// key of a source state without a counterpart among the first `n`, with
/// no such key marked seen.
pub open spec fn walk_apart(w: Walk, ss: Seq<State>, cs: Seq<State>, n: int) -> bool {
    &&& distinct_keys(w.findings)
    &&& forall|i: int| 0 <= i < w.findings.len() ==> w.seen.contains(#[trigger] w.findings[i].key) || is_missing_key(ss, cs, w.findings[i].key)
    &&& forall|k: Seq<char>| #[trigger] w.seen.contains(k) ==> !is_missing_key(ss, cs, k)
    &&& forall|i: int| 0 <= i < w.findings.len() && is_missing_key(ss, cs, #[trigger] w.findings[i].key) ==> exists|j: int|
        0 <= j < n && unpaired(cs, ss[j]) && #[trigger] missing_key(ss[j]) == w.findings[i].key
}

proof fn lemma_add_unique_apart(w: Walk, fs: Seq<FindingView>, ss: Seq<State>, cs: Seq<State>, n: int)
    requires
        walk_apart(w, ss, cs, n),
        clear_of_missing(ss, cs, fs),
    ensures
        walk_apart(add_unique(w, fs), ss, cs, n),
        add_unique(w, fs).stop == w.stop,
        add_unique(w, fs).findings.len() >= w.findings.len(),
        forall|i: int| 0 <= i < w.findings.len() ==> add_unique(w, fs).findings[i] == #[trigger] w.findings[i],
        forall|i: int| w.findings.len() <= i < add_unique(w, fs).findings.len() ==> !is_missing_key(ss, cs, #[trigger] add_unique(w, fs).findings[i].key),
    decreases fs.len(),
{
    if fs.len() > 0 {
        let t = fs.drop_last();
        assert(clear_of_missing(ss, cs, t)) by {
            assert forall|f: FindingView| #[trigger] t.contains(f) implies !is_missing_key(ss, cs, f.key) by {
                let k = choose|k: int| 0 <= k < t.len() && t[k] == f;
                assert(fs[k] == f);
                assert(fs.contains(f));
            }
        }
        lemma_add_unique_apart(w, t, ss, cs, n);
        let v = add_unique(w, t);
        let f = fs.last();
        assert(fs.contains(f)) by {
            assert(fs[fs.len() - 1] == f);
        }
        if !v.seen.contains(f.key) {
            let nf = v.findings.push(f);
            let nw = add_unique(w, fs);
            assert(nw.findings == nf);
            assert forall|i: int, j: int| 0 <= i < j < nf.len() implies (#[trigger] nf[i]).key != (#[trigger] nf[j]).key by {
                if j == nf.len() - 1 {
                    assert(nf[i] == v.findings[i]);
                    if v.seen.contains(v.findings[i].key) {
                    } else {
                        assert(is_missing_key(ss, cs, v.findings[i].key));
                    }
                } else {
                    assert(nf[i] == v.findings[i] && nf[j] == v.findings[j]);
                }
            }
            assert forall|i: int| 0 <= i < nf.len() implies v.seen.insert(f.key).contains(#[trigger] nf[i].key) || is_missing_key(ss, cs, nf[i].key) by {
                if i < v.findings.len() {
                    assert(nf[i] == v.findings[i]);
                }
            }
            assert forall|i: int| 0 <= i < nf.len() && is_missing_key(ss, cs, #[trigger] nf[i].key) implies exists|j: int|
                0 <= j < n && unpaired(cs, ss[j]) && #[trigger] missing_key(ss[j]) == nf[i].key by {
                if i < v.findings.len() {
                    assert(nf[i] == v.findings[i]);
                }
            }
        }
    }
}

proof fn lemma_state_walk_apart(ss: Seq<State>, cs: Seq<State>, semantic: Seq<Seq<FindingView>>, runtime: Seq<FindingView>, sweep: Seq<FindingView>, n: int)
    requires
        missing_apart(ss, cs, semantic, runtime, sweep),
        n <= ss.len(),
    ensures
        walk_apart(state_walk(ss, cs, semantic, n), ss, cs, if n < 0 { 0 } else { n }),
    decreases n,
{
    if n > 0 {
        lemma_state_walk_apart(ss, cs, semantic, runtime, sweep, n - 1);
        let w = state_walk(ss, cs, semantic, n - 1);
        let m = if n - 1 < 0 { 0 } else { n - 1 };
        assert(m == n - 1);
        assert(walk_apart(w, ss, cs, n - 1));
        let e = ss[n - 1];
        assert forall|i: int| 0 <= i < w.findings.len() && is_missing_key(ss, cs, #[trigger] w.findings[i].key) implies exists|j: int|
            0 <= j < n && unpaired(cs, ss[j]) && #[trigger] missing_key(ss[j]) == w.findings[i].key by {
            let j = choose|j: int| 0 <= j < n - 1 && unpaired(cs, ss[j]) && #[trigger] missing_key(ss[j]) == w.findings[i].key;
        }
        assert(walk_apart(w, ss, cs, n));
        if w.stop is None {
            match state_at(cs, e.viewport.width, e.scenario@) {
                None => {
                    let mk = missing_key(e);
                    assert(unpaired(cs, ss[n - 1]));
                    assert(is_missing_key(ss, cs, mk));
                    let nf = w.findings.push(finding_value(scope_of(e), "state"@, "scenario"@, "present"@, "missing"@, None));
                    assert(nf[nf.len() - 1].key == mk);
                    assert forall|i: int, j: int| 0 <= i < j < nf.len() implies (#[trigger] nf[i]).key != (#[trigger] nf[j]).key by {
                        if j == nf.len() - 1 {
                            assert(nf[i] == w.findings[i]);
                            if w.seen.contains(w.findings[i].key) {
                            } else {
                                assert(is_missing_key(ss, cs, w.findings[i].key));
                                let q = choose|q: int| 0 <= q < n && unpaired(cs, ss[q]) && #[trigger] missing_key(ss[q]) == w.findings[i].key;
                                if q == n - 1 {
                                    let z = choose|z: int| 0 <= z < n - 1 && unpaired(cs, ss[z]) && #[trigger] missing_key(ss[z]) == w.findings[i].key;
                                    assert(missing_key(ss[z]) != missing_key(ss[n - 1]));
                                } else {
                                    assert(missing_key(ss[q]) != missing_key(ss[n - 1]));
                                }
                            }
                        } else {
                            assert(nf[i] == w.findings[i] && nf[j] == w.findings[j]);
                        }
                    }
                    assert forall|i: int| 0 <= i < nf.len() && is_missing_key(ss, cs, #[trigger] nf[i].key) implies exists|j: int|
                        0 <= j < n && unpaired(cs, ss[j]) && #[trigger] missing_key(ss[j]) == nf[i].key by {
                        if i < w.findings.len() {
                            assert(nf[i] == w.findings[i]);
                        } else {
                            assert(missing_key(ss[n - 1]) == nf[i].key);
                        }
                    }
                    assert forall|i: int| 0 <= i < nf.len() implies w.seen.contains(#[trigger] nf[i].key) || is_missing_key(ss, cs, nf[i].key) by {
                        if i < w.findings.len() {
                            assert(nf[i] == w.findings[i]);
                        }
                    }
                },
                Some(a) => {
                    if e.capture_complete && a.capture_complete && unrendered_reason(e, a) is None && blank_reason(e, a) is None
                        && e.scenario@ != "load"@ {
                        assert(!unpaired(cs, ss[n - 1]));
                        assert(clear_of_missing(ss, cs, state_findings(ss[n - 1], a, semantic[n - 1])));
                        lemma_add_unique_apart(w, state_findings(e, a, semantic[n - 1]), ss, cs, n);
                    }
                },
            }
        }
    }
}

proof fn lemma_without_pixels_distinct(s: Seq<FindingView>)
    requires
        distinct_keys(s),
    ensures
        distinct_keys(without_pixels(s)),
        forall|e: FindingView| #[trigger] without_pixels(s).contains(e) ==> s.contains(e),
    decreases s.len(),
{
    if s.len() > 0 {
        let t = s.drop_last();
        assert(distinct_keys(t)) by {
            assert forall|i: int, j: int| 0 <= i < j < t.len() implies (#[trigger] t[i]).key != (#[trigger] t[j]).key by {
                assert(t[i] == s[i] && t[j] == s[j]);
            }
        }
        lemma_without_pixels_distinct(t);
        let u = without_pixels(t);
        let r = without_pixels(s);
        assert forall|e: FindingView| #[trigger] r.contains(e) implies s.contains(e) by {
            let k = choose|k: int| 0 <= k < r.len() && r[k] == e;
            if k < u.len() {
                assert(u[k] == e);
                assert(u.contains(e));
                let m = choose|m: int| 0 <= m < t.len() && t[m] == e;
                assert(s[m] == e);
            } else {
                assert(s[s.len() - 1] == e);
            }
        }
        if s.last().property != "pixels"@ {
            assert forall|i: int, j: int| 0 <= i < j < r.len() implies (#[trigger] r[i]).key != (#[trigger] r[j]).key by {
                if j == r.len() - 1 {
                    assert(r[i] == u[i]);
                    assert(u.contains(u[i]));
                    let m = choose|m: int| 0 <= m < t.len() && t[m] == u[i];
                    assert(s[m] == u[i]);
                    assert(s[m].key != s[s.len() - 1].key);
                } else {
                    assert(r[i] == u[i] && r[j] == u[j]);
                }
            }
        }
    }
}

proof fn lemma_insert_sorted_at(s: Seq<FindingView>, x: FindingView) -> (p: int)
    ensures
        0 <= p <= s.len(),
        insert_sorted(s, x) == s.take(p).push(x) + s.skip(p),
    decreases s.len(),
{
    if s.len() == 0 {
        assert(insert_sorted(s, x) =~= s.take(0).push(x) + s.skip(0));
        0
    } else if reads_before(x, s.last()) {
        let t = s.drop_last();
        let p = lemma_insert_sorted_at(t, x);
        assert(insert_sorted(s, x) =~= s.take(p).push(x) + s.skip(p));
        p
    } else {
        assert(insert_sorted(s, x) =~= s.take(s.len() as int).push(x) + s.skip(s.len() as int));
        s.len() as int
    }
}

proof fn lemma_sorted_distinct(s: Seq<FindingView>)
    requires
        distinct_keys(s),
    ensures
        distinct_keys(sort_findings(s)),
    decreases s.len(),
{
    if s.len() > 0 {
        let t = s.drop_last();
        let x = s.last();
        assert(distinct_keys(t)) by {
            assert forall|i: int, j: int| 0 <= i < j < t.len() implies (#[trigger] t[i]).key != (#[trigger] t[j]).key by {
                assert(t[i] == s[i] && t[j] == s[j]);
            }
        }
        lemma_sorted_distinct(t);
        lemma_sorted_members(t);
        let q = sort_findings(t);
        let p = lemma_insert_sorted_at(q, x);
        let r = sort_findings(s);
        assert(r == q.take(p).push(x) + q.skip(p));
        assert forall|i: int| 0 <= i < q.len() implies (#[trigger] q[i]).key != x.key by {
            assert(q.contains(q[i]));
            let m = choose|m: int| 0 <= m < t.len() && t[m] == q[i];
            assert(s[m] == q[i]);
        }
        assert forall|i: int, j: int| 0 <= i < j < r.len() implies (#[trigger] r[i]).key != (#[trigger] r[j]).key by {
            if i < p {
                assert(r[i] == q[i]);
            } else if i > p {
                assert(r[i] == q[i - 1]);
            } else {
                assert(r[i] == x);
            }
            if j < p {
                assert(r[j] == q[j]);
            } else if j > p {
                assert(r[j] == q[j - 1]);
            } else {
                assert(r[j] == x);
            }
        }
    }
}

/// A comparison that reaches a verdict reports no key twice, so long as the
/// source states without a counterpart are reported under keys of their
/// own. (Such a state is reported as missing apart from the check for
/// repeated keys, and its key names only its width: two of them at one
/// width give two findings with one key.)
pub proof fn a_verdict_repeats_no_key(
    r: Report,
    source: Artifact,
    candidate: Artifact,
    elapsed_ms: u128,
    source_unsigned: Seq<u8>,
    candidate_unsigned: Seq<u8>,
    semantic: Seq<Seq<FindingView>>,
)
    requires
        artifacts_report(r, source, candidate, elapsed_ms, source_unsigned, candidate_unsigned, semantic),
        r.status == Status::Pass || r.status == Status::Fail,
        missing_apart(
            source.states@,
            candidate.states@,
            semantic,
            runtime_findings(source.states@, candidate.states@),
            sweep_comparison(source.sweep@, candidate.sweep@, source.uncovered@, candidate.uncovered@),
        ),
    ensures
        distinct_keys(finding_views(r.findings@)),
{
    let ss = source.states@;
    let cs = candidate.states@;
    let rt = runtime_findings(ss, cs);
    let sw = sweep_comparison(source.sweep@, candidate.sweep@, source.uncovered@, candidate.uncovered@);
    let n = ss.len() as int;
    let w = state_walk(ss, cs, semantic, n);
    lemma_state_walk_apart(ss, cs, semantic, rt, sw, n);
    lemma_add_unique_apart(w, rt, ss, cs, n);
    let w2 = add_unique(w, rt);
    lemma_add_unique_apart(w2, sw, ss, cs, n);
    let w3 = add_unique(w2, sw);
    lemma_without_pixels_distinct(w3.findings);
    let kept = if exists|i: int| 0 <= i < w3.findings.len() && (#[trigger] w3.findings[i]).property != "pixels"@ {
        without_pixels(w3.findings)
    } else {
        w3.findings
    };
    lemma_sorted_distinct(kept);
}

/// A comparison that reaches a verdict lists its findings in reading order,
/// passes exactly when it lists none, lists raw pixel differences only when
/// nothing else differs, and reports no diagnostic.
pub proof fn a_verdict_lists_its_findings_in_reading_order(
    r: Report,
    source: Artifact,
    candidate: Artifact,
    elapsed_ms: u128,
    source_unsigned: Seq<u8>,
    candidate_unsigned: Seq<u8>,
    semantic: Seq<Seq<FindingView>>,
)
    requires
        artifacts_report(r, source, candidate, elapsed_ms, source_unsigned, candidate_unsigned, semantic),
        r.status == Status::Pass || r.status == Status::Fail,
    ensures
        in_reading_order(finding_views(r.findings@)),
        r.status == Status::Pass <==> r.findings@.len() == 0,
        (exists|i: int| 0 <= i < r.findings@.len() && (#[trigger] r.findings@[i])@.property == "pixels"@) ==> forall|j: int|
            0 <= j < r.findings@.len() ==> (#[trigger] r.findings@[j])@.property == "pixels"@,
        r.diagnostic is None,
        r.elapsed_ms == elapsed_ms,
        r.source_digest@ == source.digest@,
        r.candidate_digest@ == candidate.digest@,
{
    let f = final_walk(source, candidate, semantic);
    let w3 = add_unique(
        add_unique(
            state_walk(source.states@, candidate.states@, semantic, source.states@.len() as int),
            runtime_findings(source.states@, candidate.states@),
        ),
        sweep_comparison(source.sweep@, candidate.sweep@, source.uncovered@, candidate.uncovered@),
    );
    let kept = if exists|i: int| 0 <= i < w3.findings.len() && (#[trigger] w3.findings[i]).property != "pixels"@ {
        without_pixels(w3.findings)
    } else {
        w3.findings
    };
    sorted_findings_are_in_reading_order(kept);
    lemma_sorted_members(kept);
    lemma_without_pixels_members(w3.findings);
    assert(finding_views(r.findings@).len() == r.findings@.len());
    assert forall|j: int| 0 <= j < r.findings@.len() implies #[trigger] finding_views(r.findings@)[j] == r.findings@[j]@ by {}
    if exists|i: int| 0 <= i < r.findings@.len() && (#[trigger] r.findings@[i])@.property == "pixels"@ {
        let i = choose|i: int| 0 <= i < r.findings@.len() && (#[trigger] r.findings@[i])@.property == "pixels"@;
        assert(finding_views(r.findings@)[i] == r.findings@[i]@);
        assert(sort_findings(kept).contains(r.findings@[i]@));
        assert(kept.contains(r.findings@[i]@));
        assert forall|j: int| 0 <= j < r.findings@.len() implies (#[trigger] r.findings@[j])@.property == "pixels"@ by {
            assert(finding_views(r.findings@)[j] == r.findings@[j]@);
            assert(sort_findings(kept).contains(r.findings@[j]@));
            assert(kept.contains(r.findings@[j]@));
            if !(exists|m: int| 0 <= m < w3.findings.len() && (#[trigger] w3.findings[m]).property != "pixels"@) {
                let m = choose|m: int| 0 <= m < w3.findings.len() && w3.findings[m] == r.findings@[j]@;
                assert(w3.findings[m].property == "pixels"@);
            }
        }
    }
}

/// A comparison with an artifact that fails its integrity check compares
/// nothing: it asks for the page to be prepared, lists no findings, and
/// names the first failing check, the source's before the candidate's.
pub proof fn a_corrupted_artifact_is_compared_not_at_all(
    r: Report,
    source: Artifact,
    candidate: Artifact,
    elapsed_ms: u128,
    source_unsigned: Seq<u8>,
    candidate_unsigned: Seq<u8>,
    semantic: Seq<Seq<FindingView>>,
)
    requires
        artifacts_report(r, source, candidate, elapsed_ms, source_unsigned, candidate_unsigned, semantic),
        artifact_fault(source, source_unsigned) is Some || artifact_fault(candidate, candidate_unsigned) is Some,
    ensures
        r.status == Status::PreparationRequired,
        r.findings@.len() == 0,
        r.suppressed_duplicates == 0,
        r.elapsed_ms == elapsed_ms,
        r.source_digest@ == source.digest@,
        r.candidate_digest@ == candidate.digest@,
        r.diagnostic matches Some(d) && d@ == artifact_message(
            match artifact_fault(source, source_unsigned) {
                Some(e) => e,
                None => artifact_fault(candidate, candidate_unsigned)->0,
            },
        ),
{
}

} // verus!
