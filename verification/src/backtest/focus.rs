//! A comparison narrowed to what a reader asked about: a visible name or a
//! semantic region, matched without regard to ASCII case.
use crate::backtest::model::{artifact_fault, artifact_message, finding_views, Artifact, Finding, FindingView, Report, SCHEMA_VERSION, State, Status};
use crate::backtest::semantic::{semantic_target, semantic_text, target_of, text_of, trim, trimmed};
use crate::backtest::verdict::{artifacts, artifacts_report, semantic_views};
use crate::text::{ascii_lower, contains_seq, contains_str, decimal, push_decimal, push_str, to_ascii_lower};
use vstd::prelude::*;

verus! {

broadcast use vstd::string::group_string_axioms;

/// How `{:?}` writes a string: quoted, with quotes, backslashes and
/// characters that do not print escaped.
pub uninterp spec fn debug_text(s: Seq<char>) -> Seq<char>;

/// Writes a string with `str`'s `Debug` implementation.
///
/// The result is named `debug_text` of the argument: the same string is
/// always written the same way.
#[verifier::external_body]
fn debug_quoted(s: &str) -> (r: String)
    ensures
        r@ == debug_text(s@),
{
    format!("{s:?}")
}

/// Whether an element matches the focus: by its key, by how it is named, or
/// by its text.
pub open spec fn node_matches(st: State, key: Seq<char>, n: crate::backtest::model::NodeEvidence, needle: Seq<char>) -> bool {
    n.visible && (contains_seq(ascii_lower(key), needle) || contains_seq(ascii_lower(target_of(st, key, n)), needle)
        || contains_seq(ascii_lower(text_of(n)), needle))
}

/// How many of the first `k` nodes of a state match the focus.
pub open spec fn state_matches(st: State, needle: Seq<char>, k: int) -> nat
    decreases k,
{
    if k <= 0 {
        0
    } else {
        state_matches(st, needle, k - 1) + if node_matches(st, st.nodes@[k - 1].0@, st.nodes@[k - 1].1, needle) {
            1nat
        } else {
            0nat
        }
    }
}

/// How many elements of the first `k` states other than the load state
/// match the focus.
pub open spec fn focus_count_upto(states: Seq<State>, needle: Seq<char>, k: int) -> nat
    decreases k,
{
    if k <= 0 {
        0
    } else {
        let st = states[k - 1];
        focus_count_upto(states, needle, k - 1) + if st.scenario@ != "load"@ {
            state_matches(st, needle, st.nodes@.len() as int)
        } else {
            0
        }
    }
}

pub open spec fn focus_count(a: Artifact, needle: Seq<char>) -> nat {
    focus_count_upto(a.states@, needle, a.states@.len() as int)
}

/// The findings that name the focus in their target or their line.
pub open spec fn in_focus(fs: Seq<FindingView>, needle: Seq<char>) -> Seq<FindingView>
    decreases fs.len(),
{
    if fs.len() == 0 {
        seq![]
    } else {
        let f = fs.last();
        in_focus(fs.drop_last(), needle) + if contains_seq(ascii_lower(f.target), needle) || contains_seq(
            ascii_lower(f.line),
            needle,
        ) {
            seq![f]
        } else {
            seq![]
        }
    }
}

/// The status of a focused report: a run the full comparison rejected
/// (inconclusive, or needing preparation) stays rejected, since a rejected
/// run never becomes a verdict; otherwise it passes when no finding names
/// the focus and fails when one does.
pub open spec fn focused_status(full: Status, kept: nat) -> Status {
    if full == Status::Inconclusive || full == Status::PreparationRequired {
        full
    } else if kept == 0 {
        Status::Pass
    } else {
        Status::Fail
    }
}

/// A full report narrowed to the focus: only its findings that name the
/// focus, with the status `focused_status` gives, and scoped to the focus.
pub open spec fn refocused(r: Report, full: Report, focus: Seq<char>, needle: Seq<char>) -> bool {
    let kept = in_focus(finding_views(full.findings@), needle);
    &&& r.schema_version == full.schema_version
    &&& r.status == focused_status(full.status, kept.len())
    &&& finding_views(r.findings@) == kept
    &&& r.suppressed_duplicates == full.suppressed_duplicates
    &&& r.elapsed_ms == full.elapsed_ms
    &&& r.source_digest == full.source_digest
    &&& r.candidate_digest == full.candidate_digest
    &&& r.diagnostic == full.diagnostic
    &&& r.scope matches Some(s) && s@ == focus
    &&& r.allowed@ == full.allowed@
    &&& r.unused_allowances@ == full.unused_allowances@
}

/// The diagnostic when the focus names nothing on one side.
pub open spec fn unmatched_focus(focus: Seq<char>, source_matches: nat, candidate_matches: nat) -> Seq<char> {
    "focus "@ + debug_text(focus) + " matched "@ + decimal(source_matches) + " source and "@ + decimal(candidate_matches)
        + " candidate elements"@
}

/// The report of a comparison narrowed to `focus`. An empty focus narrows
/// nothing. Evidence that fails its integrity check asks for preparation;
/// so does a focus that matches no element on either side, naming how many
/// it matched on each.
pub open spec fn focused_report(
    r: Report,
    source: Artifact,
    candidate: Artifact,
    elapsed_ms: u128,
    focus: Seq<char>,
    source_unsigned: Seq<u8>,
    candidate_unsigned: Seq<u8>,
    semantic: Seq<Seq<FindingView>>,
) -> bool {
    let f = trimmed(focus);
    let needle = ascii_lower(f);
    if f.len() == 0 {
        artifacts_report(r, source, candidate, elapsed_ms, source_unsigned, candidate_unsigned, semantic)
    } else {
        match artifact_fault(source, source_unsigned) {
            Some(e) => crate::backtest::verdict::preparation_report(
                r,
                source.digest@,
                candidate.digest@,
                elapsed_ms,
                artifact_message(e),
            ),
            None => match artifact_fault(candidate, candidate_unsigned) {
                Some(e) => crate::backtest::verdict::preparation_report(
                    r,
                    source.digest@,
                    candidate.digest@,
                    elapsed_ms,
                    artifact_message(e),
                ),
                None => {
                    let sm = focus_count(source, needle);
                    let cm = focus_count(candidate, needle);
                    if sm == 0 || cm == 0 {
                        &&& r.schema_version == SCHEMA_VERSION
                        &&& r.status == Status::PreparationRequired
                        &&& r.findings@.len() == 0
                        &&& r.suppressed_duplicates == 0
                        &&& r.elapsed_ms == elapsed_ms
                        &&& r.source_digest@ == source.digest@
                        &&& r.candidate_digest@ == candidate.digest@
                        &&& r.diagnostic matches Some(d) && d@ == unmatched_focus(f, sm, cm)
                        &&& r.scope matches Some(s) && s@ == f
                        &&& r.allowed@.len() == 0
                        &&& r.unused_allowances@.len() == 0
                    } else {
                        exists|full: Report|
                            artifacts_report(
                                full,
                                source,
                                candidate,
                                elapsed_ms,
                                source_unsigned,
                                candidate_unsigned,
                                semantic,
                            ) && #[trigger] refocused(r, full, f, needle)
                    }
                },
            },
        }
    }
}

/// How many nodes of a state match the focus.
fn state_match_count(st: &State, needle: &str) -> (r: u128)
    requires
        st.wf(),
    ensures
        r as nat == state_matches(*st, needle@, st.nodes@.len() as int),
        r <= st.nodes@.len(),
{
    let mut count: u128 = 0;
    let mut i: usize = 0;
    while i < st.nodes.len()
        invariant
            i <= st.nodes@.len(),
            st.wf(),
            count as nat == state_matches(*st, needle@, i as int),
            count <= i,
        decreases st.nodes@.len() - i,
    {
        let key = &st.nodes[i].0;
        let node = &st.nodes[i].1;
        if node.visible {
            let hit = contains_str(to_ascii_lower(key.as_str()).as_str(), needle) || contains_str(
                to_ascii_lower(semantic_target(st, key.as_str(), node).as_str()).as_str(),
                needle,
            ) || contains_str(to_ascii_lower(semantic_text(node).as_str()).as_str(), needle);
            if hit {
                count = count + 1;
            }
        }
        i += 1;
    }
    count
}

/// How many elements of an artifact's states, other than the load state,
/// match the focus.
fn focus_match_count(a: &Artifact, needle: &str) -> (r: u128)
    requires
        a.wf(),
    ensures
        r as nat == focus_count(*a, needle@),
{
    let mut total: u128 = 0;
    let mut i: usize = 0;
    while i < a.states.len()
        invariant
            i <= a.states@.len(),
            a.wf(),
            total as nat == focus_count_upto(a.states@, needle@, i as int),
            total <= i * 0x1_0000_0000_0000_0000,
        decreases a.states@.len() - i,
    {
        let st = &a.states[i];
        assert(a.states@[i as int].wf());
        if !crate::text::str_eq(st.scenario.as_str(), "load") {
            let c = state_match_count(st, needle);
            let n = st.nodes.len();
            proof {
                assert(c <= n);
                assert(c <= usize::MAX);
                assert((i + 1) * 0x1_0000_0000_0000_0000 == i * 0x1_0000_0000_0000_0000 + 0x1_0000_0000_0000_0000)
                    by (nonlinear_arith);
                assert((i + 1) * 0x1_0000_0000_0000_0000 <= 0x1_0000_0000_0000_0000 * 0x1_0000_0000_0000_0000)
                    by (nonlinear_arith)
                    requires
                        i + 1 <= 0x1_0000_0000_0000_0000,
                ;
            }
            total = total + c;
        } else {
            assert((i + 1) * 0x1_0000_0000_0000_0000 == i * 0x1_0000_0000_0000_0000 + 0x1_0000_0000_0000_0000)
                by (nonlinear_arith);
        }
        i += 1;
    }
    total
}

/// The findings that name the focus.
fn keep_in_focus(fs: &Vec<Finding>, needle: &str) -> (r: Vec<Finding>)
    ensures
        finding_views(r@) == in_focus(finding_views(fs@), needle@),
{
    let ghost fv = finding_views(fs@);
    let mut out: Vec<Finding> = Vec::new();
    let mut i: usize = 0;
    assert(fv.take(0) =~= Seq::<FindingView>::empty());
    while i < fs.len()
        invariant
            i <= fs@.len(),
            fv == finding_views(fs@),
            finding_views(out@) == in_focus(fv.take(i as int), needle@),
        decreases fs@.len() - i,
    {
        let f = &fs[i];
        let hit = contains_str(to_ascii_lower(f.target.as_str()).as_str(), needle) || contains_str(
            to_ascii_lower(f.line.as_str()).as_str(),
            needle,
        );
        proof {
            assert(fv.take(i + 1).drop_last() =~= fv.take(i as int));
            assert(fv.take(i + 1).last() == f@);
        }
        if hit {
            let g = f.duplicate();
            let ghost before = finding_views(out@);
            out.push(g);
            assert(finding_views(out@) =~= before.push(g@));
        } else {
            assert(finding_views(out@) =~= in_focus(fv.take(i as int), needle@) + Seq::<FindingView>::empty());
        }
        i += 1;
    }
    assert(fv.take(fs@.len() as int) =~= fv);
    out
}

/// Compares two artifacts and narrows the report to `focus`: a visible name
/// or semantic region, such as `toolbar` or `App launcher`, matched without
/// regard to ASCII case.
pub fn artifacts_focused(
    source: &Artifact,
    candidate: &Artifact,
    elapsed_ms: u128,
    focus: &str,
    source_unsigned: &[u8],
    candidate_unsigned: &[u8],
    semantic: &Vec<Vec<Finding>>,
) -> (r: Report)
    requires
        source.wf(),
        candidate.wf(),
        semantic@.len() == source.states@.len(),
    ensures
        focused_report(
            r,
            *source,
            *candidate,
            elapsed_ms,
            focus@,
            source_unsigned@,
            candidate_unsigned@,
            semantic_views(semantic@),
        ),
{
    let f = trim(focus);
    if f.as_str().unicode_len() == 0 {
        return artifacts(source, candidate, elapsed_ms, source_unsigned, candidate_unsigned, semantic);
    }
    match source.verify(source_unsigned) {
        Err(e) => {
            return crate::backtest::verdict::preparation_required(
                source,
                candidate,
                elapsed_ms,
                String::from_str(e.message()),
            )
        },
        Ok(()) => {},
    }
    match candidate.verify(candidate_unsigned) {
        Err(e) => {
            return crate::backtest::verdict::preparation_required(
                source,
                candidate,
                elapsed_ms,
                String::from_str(e.message()),
            )
        },
        Ok(()) => {},
    }
    let needle = to_ascii_lower(f.as_str());
    let sm = focus_match_count(source, needle.as_str());
    let cm = focus_match_count(candidate, needle.as_str());
    if sm == 0 || cm == 0 {
        let mut d = String::new();
        push_str(&mut d, "focus ");
        push_str(&mut d, debug_quoted(f.as_str()).as_str());
        push_str(&mut d, " matched ");
        push_decimal(&mut d, sm);
        push_str(&mut d, " source and ");
        push_decimal(&mut d, cm);
        push_str(&mut d, " candidate elements");
        let mut report = crate::backtest::verdict::preparation_required(source, candidate, elapsed_ms, d);
        report.scope = Some(f);
        return report;
    }
    let full = artifacts(source, candidate, elapsed_ms, source_unsigned, candidate_unsigned, semantic);
    let kept = keep_in_focus(&full.findings, needle.as_str());
    let status = if full.status == Status::Inconclusive || full.status == Status::PreparationRequired {
        full.status
    } else if kept.len() == 0 {
        Status::Pass
    } else {
        Status::Fail
    };
    let r = Report {
        schema_version: full.schema_version,
        status,
        findings: kept,
        suppressed_duplicates: full.suppressed_duplicates,
        elapsed_ms: full.elapsed_ms,
        source_digest: full.source_digest.clone(),
        candidate_digest: full.candidate_digest.clone(),
        diagnostic: match &full.diagnostic {
            Some(d) => Some(d.clone()),
            None => None,
        },
        scope: Some(f),
        allowed: Vec::new(),
        unused_allowances: Vec::new(),
    };
    assert(full.allowed@ =~= Seq::<Finding>::empty());
    assert(full.unused_allowances@ =~= Seq::<String>::empty());
    assert(refocused(r, full, trimmed(focus@), ascii_lower(trimmed(focus@))));
    r
}

} // verus!
