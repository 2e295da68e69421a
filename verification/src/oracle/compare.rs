//! Certifying a candidate against a recording: every checkpoint of the
//! recording is looked up in the candidate's, domain by domain, and the
//! report says what matched, where the first differences lie, and what
//! keeps the comparison from certifying.
use vstd::prelude::*;
use crate::digest::{hex_of, sha256};
use crate::json::{between, duplicate, json_eq, lemma_same_reflexive, lemma_same_transitive, same, walk, Json};
use crate::oracle::artifact::{domain_index, domain_names, domains, find_domain, Artifact, Checkpoint, Domain};
use crate::order::views;
use crate::text::decimal;

verus! {

/// Where a candidate departs from the recording.
#[derive(Clone, Debug)]
pub struct Difference {
    pub scenario: String,
    pub step: usize,
    pub viewport_width: u32,
    pub domain: String,
    pub path: String,
    pub expected: Json,
    pub actual: Json,
}

/// The abstract value of a difference. An `expected` of `None` stands for
/// the marker text `present`, which reports a checkpoint or domain the
/// candidate lacks.
pub struct DifferenceView {
    pub scenario: Seq<char>,
    pub step: usize,
    pub viewport_width: u32,
    pub domain: Seq<char>,
    pub path: Seq<char>,
    pub expected: Option<Json>,
    pub actual: Json,
}

/// A difference as the abstract one describes it, its values the same as
/// the described ones.
pub open spec fn describes(d: Difference, v: DifferenceView) -> bool {
    &&& d.scenario@ == v.scenario
    &&& d.step == v.step
    &&& d.viewport_width == v.viewport_width
    &&& d.domain@ == v.domain
    &&& d.path@ == v.path
    &&& match v.expected {
        Some(e) => same(e, d.expected),
        None => d.expected is Text && d.expected->Text_0@ == "present"@,
    }
    &&& same(v.actual, d.actual)
}

/// Each difference as the abstract one at its position describes it.
pub open spec fn all_describe(ds: Seq<Difference>, vs: Seq<DifferenceView>) -> bool {
    ds.len() == vs.len() && forall|i: int| 0 <= i < ds.len() ==> describes(#[trigger] ds[i], vs[i])
}

/// The result of certifying a candidate.
#[derive(Clone, Debug)]
pub struct Report {
    pub status: String,
    pub certified: bool,
    pub accuracy_ppm: u32,
    pub qualified_coverage_ppm: u32,
    pub environment_digest: String,
    pub source_artifact_digest: String,
    pub domain_scores_ppm: Vec<(String, u32)>,
    pub matched_domains: usize,
    pub total_domains: usize,
    pub first_difference: Option<Difference>,
    pub differences: Vec<Difference>,
    pub blockers: Vec<String>,
    pub elapsed_ms: u128,
}

/// A checkpoint, or one of its domains, that the candidate lacks.
pub open spec fn missing_view(c: Checkpoint, domain: Seq<char>) -> DifferenceView {
    DifferenceView {
        scenario: c.scenario@,
        step: c.step,
        viewport_width: c.viewport.width,
        domain,
        path: "$"@,
        expected: None,
        actual: Json::Null,
    }
}

/// The last of the first `n` candidate checkpoints taken at the scenario
/// and step: a later one replaces an earlier one with the same place.
pub open spec fn last_candidate(actual: Seq<Checkpoint>, scenario: Seq<char>, step: usize, n: int) -> Option<int>
    decreases n,
{
    if n <= 0 {
        None
    } else if actual[n - 1].scenario@ == scenario && actual[n - 1].step == step {
        Some(n - 1)
    } else {
        last_candidate(actual, scenario, step, n - 1)
    }
}

/// The candidate checkpoint taken where a recorded one was.
pub open spec fn candidate_of(actual: Seq<Checkpoint>, c: Checkpoint) -> Option<Checkpoint> {
    match last_candidate(actual, c.scenario@, c.step, actual.len() as int) {
        Some(i) => Some(actual[i]),
        None => None,
    }
}

/// Two domains agree: by digest in the fast comparison, by value in the
/// reference one.
pub open spec fn agrees(l: Domain, r: Domain, fast: bool) -> bool {
    if fast {
        l.digest@ == r.digest@
    } else {
        same(l.value, r.value)
    }
}

/// What one named domain of a recorded checkpoint contributes: nothing when
/// the candidate's agrees, a difference at the first place the values part
/// when it does not, a missing domain when either side lacks it.
pub open spec fn domain_outcome(c: Checkpoint, cand: Checkpoint, d: Seq<char>, fast: bool) -> Option<DifferenceView> {
    match (domain_index(c.domains@, d, c.domains@.len() as int), domain_index(cand.domains@, d, cand.domains@.len() as int)) {
        (Some(i), Some(j)) => {
            let l = c.domains@[i].1;
            let r = cand.domains@[j].1;
            if agrees(l, r, fast) {
                None
            } else {
                let w = walk(l.value, r.value, "$"@);
                Some(
                    DifferenceView {
                        scenario: c.scenario@,
                        step: c.step,
                        viewport_width: c.viewport.width,
                        domain: d,
                        path: w.0,
                        expected: Some(w.1),
                        actual: w.2,
                    },
                )
            }
        },
        _ => Some(missing_view(c, d)),
    }
}

/// The differences of the first `k` domains, in the order of the names.
pub open spec fn domain_outcomes(c: Checkpoint, cand: Checkpoint, fast: bool, k: int) -> Seq<DifferenceView>
    decreases k,
{
    if k <= 0 {
        seq![]
    } else {
        domain_outcomes(c, cand, fast, k - 1) + match domain_outcome(c, cand, domain_names()[k - 1], fast) {
            Some(v) => seq![v],
            None => seq![],
        }
    }
}

/// How many of the first `k` domains agree.
pub open spec fn domains_matched(c: Checkpoint, cand: Checkpoint, fast: bool, k: int) -> nat
    decreases k,
{
    if k <= 0 {
        0
    } else {
        domains_matched(c, cand, fast, k - 1) + if domain_outcome(c, cand, domain_names()[k - 1], fast) is None {
            1nat
        } else {
            0nat
        }
    }
}

/// The differences one recorded checkpoint contributes.
pub open spec fn checkpoint_differences(c: Checkpoint, actual: Seq<Checkpoint>, fast: bool) -> Seq<DifferenceView> {
    match candidate_of(actual, c) {
        None => seq![missing_view(c, "checkpoint"@)],
        Some(cand) => domain_outcomes(c, cand, fast, 7),
    }
}

/// How many domains of one recorded checkpoint agree.
pub open spec fn checkpoint_matched(c: Checkpoint, actual: Seq<Checkpoint>, fast: bool) -> nat {
    match candidate_of(actual, c) {
        None => 0,
        Some(cand) => domains_matched(c, cand, fast, 7),
    }
}

/// Whether the named domain of one recorded checkpoint agrees.
pub open spec fn matched_in(c: Checkpoint, actual: Seq<Checkpoint>, fast: bool, d: Seq<char>) -> nat {
    match candidate_of(actual, c) {
        None => 0,
        Some(cand) => if domain_outcome(c, cand, d, fast) is None {
            1
        } else {
            0
        },
    }
}

/// Every difference, checkpoint by checkpoint.
pub open spec fn all_differences(cs: Seq<Checkpoint>, actual: Seq<Checkpoint>, fast: bool) -> Seq<DifferenceView>
    decreases cs.len(),
{
    if cs.len() == 0 {
        seq![]
    } else {
        all_differences(cs.drop_last(), actual, fast) + checkpoint_differences(cs.last(), actual, fast)
    }
}

/// How many domains agree in all.
pub open spec fn all_matched(cs: Seq<Checkpoint>, actual: Seq<Checkpoint>, fast: bool) -> nat
    decreases cs.len(),
{
    if cs.len() == 0 {
        0
    } else {
        all_matched(cs.drop_last(), actual, fast) + checkpoint_matched(cs.last(), actual, fast)
    }
}

/// How many recorded checkpoints agree in the named domain.
pub open spec fn domain_matched(cs: Seq<Checkpoint>, actual: Seq<Checkpoint>, fast: bool, d: Seq<char>) -> nat
    decreases cs.len(),
{
    if cs.len() == 0 {
        0
    } else {
        domain_matched(cs.drop_last(), actual, fast, d) + matched_in(cs.last(), actual, fast, d)
    }
}

/// What keeps a comparison from certifying besides differences: the
/// recording's own incomplete coverage, and a candidate with a different
/// number of checkpoints.
pub open spec fn blockers(expected: Artifact, actual_len: nat) -> Seq<Seq<char>> {
    views(expected.coverage.incomplete@) + if actual_len != expected.checkpoints@.len() {
        seq![
            "checkpoint coverage expected="@ + decimal(expected.checkpoints@.len()) + " actual="@ + decimal(
                actual_len,
            ),
        ]
    } else {
        seq![]
    }
}

/// A share in parts per million, rounded down; nothing of nothing is zero.
pub open spec fn ppm(count: nat, total: nat) -> nat {
    if total == 0 {
        0
    } else {
        count * 1_000_000 / total
    }
}

/// The domain names in ascending order, the order scores are listed in.
pub open spec fn sorted_domain_names() -> Seq<Seq<char>> {
    seq![
        "accessibility"@,
        "async"@,
        "geometry"@,
        "interaction"@,
        "motion"@,
        "structure"@,
        "style"@,
    ]
}

/// A copy of a difference, described by whatever described the original.
fn copy_difference(d: &Difference) -> (r: Difference)
    ensures
        forall|v: DifferenceView| describes(*d, v) ==> describes(r, v),
{
    let r = Difference {
        scenario: d.scenario.clone(),
        step: d.step,
        viewport_width: d.viewport_width,
        domain: d.domain.clone(),
        path: d.path.clone(),
        expected: duplicate(&d.expected),
        actual: duplicate(&d.actual),
    };
    proof {
        assert forall|v: DifferenceView| describes(*d, v) implies describes(r, v) by {
            match v.expected {
                Some(e) => lemma_same_transitive(e, d.expected, r.expected),
                None => {},
            }
            lemma_same_transitive(v.actual, d.actual, r.actual);
        }
    }
    r
}

/// A checkpoint, or one of its domains, that the candidate lacks.
fn missing(c: &Checkpoint, domain: &str) -> (r: Difference)
    ensures
        describes(r, missing_view(*c, domain@)),
{
    Difference {
        scenario: c.scenario.clone(),
        step: c.step,
        viewport_width: c.viewport.width,
        domain: String::from_str(domain),
        path: String::from_str("$"),
        expected: Json::Text(String::from_str("present")),
        actual: Json::Null,
    }
}

/// The candidate checkpoint taken where a recorded one was.
fn candidate_index(actual: &[Checkpoint], c: &Checkpoint) -> (r: Option<usize>)
    ensures
        match r {
            Some(i) => i < actual@.len() && last_candidate(actual@, c.scenario@, c.step, actual@.len() as int) == Some(
                i as int,
            ),
            None => last_candidate(actual@, c.scenario@, c.step, actual@.len() as int) is None,
        },
{
    let mut i: usize = actual.len();
    while i > 0
        invariant
            i <= actual@.len(),
            last_candidate(actual@, c.scenario@, c.step, actual@.len() as int) == last_candidate(
                actual@,
                c.scenario@,
                c.step,
                i as int,
            ),
        decreases i,
    {
        if actual[i - 1].step == c.step && crate::text::str_eq(actual[i - 1].scenario.as_str(), c.scenario.as_str()) {
            return Some(i - 1);
        }
        i -= 1;
    }
    None
}

/// What one named domain of a recorded checkpoint contributes.
fn domain_difference(c: &Checkpoint, cand: &Checkpoint, name: &str, fast: bool) -> (r: Option<Difference>)
    ensures
        match domain_outcome(*c, *cand, name@, fast) {
            Some(v) => r is Some && describes(r->0, v),
            None => r is None,
        },
{
    match (find_domain(&c.domains, name), find_domain(&cand.domains, name)) {
        (Some(i), Some(j)) => {
            let l = &c.domains[i].1;
            let r = &cand.domains[j].1;
            let agree = if fast {
                crate::text::str_eq(l.digest.as_str(), r.digest.as_str())
            } else {
                json_eq(&l.value, &r.value)
            };
            if agree {
                None
            } else {
                let (path, expected, actual) = between(&l.value, &r.value);
                Some(
                    Difference {
                        scenario: c.scenario.clone(),
                        step: c.step,
                        viewport_width: c.viewport.width,
                        domain: String::from_str(name),
                        path,
                        expected,
                        actual,
                    },
                )
            }
        },
        _ => Some(missing(c, name)),
    }
}

/// Appending a described difference keeps every difference described.
proof fn lemma_describe_push(ds: Seq<Difference>, vs: Seq<DifferenceView>, d: Difference, v: DifferenceView)
    requires
        all_describe(ds, vs),
        describes(d, v),
    ensures
        all_describe(ds.push(d), vs + seq![v]),
{
    assert forall|i: int| 0 <= i < ds.len() + 1 implies describes(#[trigger] ds.push(d)[i], (vs + seq![v])[i]) by {
        if i < ds.len() {
            assert(ds.push(d)[i] == ds[i]);
            assert((vs + seq![v])[i] == vs[i]);
        }
    }
}

/// Two described runs of differences, one after the other.
proof fn lemma_describe_concat(
    ds: Seq<Difference>,
    vs: Seq<DifferenceView>,
    es: Seq<Difference>,
    ws: Seq<DifferenceView>,
)
    requires
        all_describe(ds, vs),
        all_describe(es, ws),
    ensures
        all_describe(ds + es, vs + ws),
{
    assert forall|i: int| 0 <= i < ds.len() + es.len() implies describes(#[trigger] (ds + es)[i], (vs + ws)[i]) by {
        if i < ds.len() {
            assert((ds + es)[i] == ds[i]);
            assert((vs + ws)[i] == vs[i]);
        } else {
            assert((ds + es)[i] == es[i - ds.len()]);
            assert((vs + ws)[i] == ws[i - vs.len()]);
        }
    }
}

proof fn lemma_domains_matched_bound(c: Checkpoint, cand: Checkpoint, fast: bool, k: int)
    requires
        0 <= k,
    ensures
        domains_matched(c, cand, fast, k) <= k,
    decreases k,
{
    if k > 0 {
        lemma_domains_matched_bound(c, cand, fast, k - 1);
    }
}

/// What one recorded checkpoint contributes: its differences, which of
/// its domains agree, in the order of the names, and how many do.
fn compare_checkpoint(c: &Checkpoint, actual: &[Checkpoint], fast: bool) -> (r: (Vec<Difference>, Vec<bool>, usize))
    ensures
        all_describe(r.0@, checkpoint_differences(*c, actual@, fast)),
        r.1@.len() == 7,
        forall|k: int| 0 <= k < 7 ==> (#[trigger] r.1@[k] <==> matched_in(*c, actual@, fast, domain_names()[k]) == 1),
        r.2 == checkpoint_matched(*c, actual@, fast),
        r.2 <= 7,
{
    let mut out: Vec<Difference> = Vec::new();
    let mut flags: Vec<bool> = Vec::new();
    let found = candidate_index(actual, c);
    match found {
        None => {
            let d = missing(c, "checkpoint");
            out.push(d);
            proof {
                lemma_describe_push(Seq::empty(), Seq::empty(), d, missing_view(*c, "checkpoint"@));
                assert(seq![d] =~= Seq::<Difference>::empty().push(d));
                assert(seq![missing_view(*c, "checkpoint"@)] =~= Seq::<DifferenceView>::empty() + seq![
                    missing_view(*c, "checkpoint"@),
                ]);
            }
            let mut k: usize = 0;
            while k < 7
                invariant
                    k <= 7,
                    flags@.len() == k,
                    candidate_of(actual@, *c) is None,
                    forall|j: int| 0 <= j < k ==> !(#[trigger] flags@[j]),
                decreases 7 - k,
            {
                flags.push(false);
                k += 1;
            }
            (out, flags, 0)
        },
        Some(ci) => {
            let cand = &actual[ci];
            let names = domains();
            let mut matched: usize = 0;
            let mut k: usize = 0;
            while k < 7
                invariant
                    names@.len() == 7,
                    forall|i: int| 0 <= i < 7 ==> names@[i]@ == #[trigger] domain_names()[i],
                    candidate_of(actual@, *c) == Some(*cand),
                    k <= 7,
                    flags@.len() == k,
                    all_describe(out@, domain_outcomes(*c, *cand, fast, k as int)),
                    matched == domains_matched(*c, *cand, fast, k as int),
                    matched <= k,
                    forall|j: int|
                        0 <= j < k ==> (#[trigger] flags@[j] <==> domain_outcome(
                            *c,
                            *cand,
                            domain_names()[j],
                            fast,
                        ) is None),
                decreases 7 - k,
            {
                let found = domain_difference(c, cand, names[k], fast);
                match found {
                    Some(d) => {
                        proof {
                            let v = domain_outcome(*c, *cand, domain_names()[k as int], fast)->0;
                            lemma_describe_push(out@, domain_outcomes(*c, *cand, fast, k as int), d, v);
                        }
                        out.push(d);
                        flags.push(false);
                    },
                    None => {
                        assert(domain_outcomes(*c, *cand, fast, k + 1) =~= domain_outcomes(*c, *cand, fast, k as int));
                        flags.push(true);
                        matched += 1;
                    },
                }
                k += 1;
            }
            (out, flags, matched)
        },
    }
}

/// What keeps a comparison from certifying besides differences.
fn coverage_blockers(expected: &Artifact, actual_len: usize) -> (r: Vec<String>)
    ensures
        views(r@) == blockers(*expected, actual_len as nat),
{
    let mut r = expected.coverage.incomplete.clone();
    if actual_len != expected.checkpoints.len() {
        let mut line = String::from_str("checkpoint coverage expected=");
        crate::text::push_decimal(&mut line, expected.checkpoints.len() as u128);
        crate::text::push_str(&mut line, " actual=");
        crate::text::push_decimal(&mut line, actual_len as u128);
        r.push(line);
        assert(views(r@) =~= blockers(*expected, actual_len as nat));
    } else {
        assert(views(r@) =~= blockers(*expected, actual_len as nat));
    }
    r
}

/// A share in parts per million, rounded down.
fn ppm_of(count: usize, total: usize) -> (r: u32)
    requires
        count <= total,
    ensures
        r == ppm(count as nat, total as nat),
{
    if total == 0 {
        return 0;
    }
    let scaled: u128 = count as u128 * 1_000_000;
    let q: u128 = scaled / total as u128;
    assert(q <= 1_000_000) by (nonlinear_arith)
        requires
            q == (count * 1_000_000) / (total as int),
            count <= total,
            total > 0,
    {
        assert(count * 1_000_000 <= total * 1_000_000);
        vstd::arithmetic::div_mod::lemma_div_is_ordered(count * 1_000_000, total * 1_000_000, total as int);
        vstd::arithmetic::div_mod::lemma_div_by_multiple(1_000_000, total as int);
    }
    q as u32
}

/// Adds one to each count whose flag is set.
fn add_flags(counts: &mut Vec<usize>, flags: &Vec<bool>)
    requires
        old(counts)@.len() == 7,
        flags@.len() == 7,
        forall|k: int| 0 <= k < 7 ==> #[trigger] old(counts)@[k] < usize::MAX,
    ensures
        final(counts)@.len() == 7,
        forall|k: int|
            0 <= k < 7 ==> #[trigger] final(counts)@[k] == old(counts)@[k] + if flags@[k] {
                1int
            } else {
                0int
            },
{
    let mut k: usize = 0;
    while k < 7
        invariant
            k <= 7,
            counts@.len() == 7,
            flags@.len() == 7,
            forall|j: int| 0 <= j < 7 ==> #[trigger] old(counts)@[j] < usize::MAX,
            forall|j: int|
                0 <= j < k ==> #[trigger] counts@[j] == old(counts)@[j] + if flags@[j] {
                    1int
                } else {
                    0int
                },
            forall|j: int| k <= j < 7 ==> #[trigger] counts@[j] == old(counts)@[j],
        decreases 7 - k,
    {
        if flags[k] {
            let v = counts[k] + 1;
            counts.set(k, v);
        }
        k += 1;
    }
}

proof fn lemma_domain_matched_bound(cs: Seq<Checkpoint>, actual: Seq<Checkpoint>, fast: bool, d: Seq<char>)
    ensures
        domain_matched(cs, actual, fast, d) <= cs.len(),
    decreases cs.len(),
{
    if cs.len() > 0 {
        lemma_domain_matched_bound(cs.drop_last(), actual, fast, d);
    }
}

/// The scores of the domains, in ascending order of name, from the counts
/// of agreeing checkpoints kept in the order of `domain_names`.
fn scores(counts: &Vec<usize>, total: usize) -> (r: Vec<(String, u32)>)
    requires
        counts@.len() == 7,
        forall|k: int| 0 <= k < 7 ==> #[trigger] counts@[k] <= total,
    ensures
        r@.len() == 7,
        forall|i: int|
            0 <= i < 7 ==> (#[trigger] r@[i]).0@ == sorted_domain_names()[i] && exists|k: int|
                0 <= k < 7 && domain_names()[k] == sorted_domain_names()[i] && r@[i].1 == ppm(
                    counts@[k] as nat,
                    total as nat,
                ),
{
    let sorted = vec!["accessibility", "async", "geometry", "interaction", "motion", "structure", "style"];
    let order: Vec<usize> = vec![3, 1, 5, 0, 4, 2, 6];
    proof {
        assert(sorted_domain_names()[0] == domain_names()[3]);
        assert(sorted_domain_names()[1] == domain_names()[1]);
        assert(sorted_domain_names()[2] == domain_names()[5]);
        assert(sorted_domain_names()[3] == domain_names()[0]);
        assert(sorted_domain_names()[4] == domain_names()[4]);
        assert(sorted_domain_names()[5] == domain_names()[2]);
        assert(sorted_domain_names()[6] == domain_names()[6]);
    }
    let mut r: Vec<(String, u32)> = Vec::new();
    let mut i: usize = 0;
    while i < 7
        invariant
            i <= 7,
            sorted@.len() == 7,
            order@.len() == 7,
            counts@.len() == 7,
            forall|k: int| 0 <= k < 7 ==> #[trigger] counts@[k] <= total,
            forall|j: int| 0 <= j < 7 ==> #[trigger] sorted@[j]@ == sorted_domain_names()[j],
            forall|j: int|
                0 <= j < 7 ==> #[trigger] order@[j] < 7 && domain_names()[order@[j] as int] == sorted_domain_names()[j],
            r@.len() == i,
            forall|j: int|
                0 <= j < i ==> (#[trigger] r@[j]).0@ == sorted_domain_names()[j] && exists|k: int|
                    0 <= k < 7 && domain_names()[k] == sorted_domain_names()[j] && r@[j].1 == ppm(
                        counts@[k] as nat,
                        total as nat,
                    ),
        decreases 7 - i,
    {
        let k = order[i];
        let score = ppm_of(counts[k], total);
        r.push((String::from_str(sorted[i]), score));
        proof {
            assert(r@[i as int].1 == ppm(counts@[k as int] as nat, total as nat));
            assert(domain_names()[k as int] == sorted_domain_names()[i as int]);
        }
        i += 1;
    }
    r
}

proof fn lemma_domain_matched_step(cs: Seq<Checkpoint>, actual: Seq<Checkpoint>, fast: bool, d: Seq<char>, i: int)
    requires
        0 <= i < cs.len(),
    ensures
        domain_matched(cs.take(i + 1), actual, fast, d) == domain_matched(cs.take(i), actual, fast, d) + matched_in(
            cs[i],
            actual,
            fast,
            d,
        ),
{
    assert(cs.take(i + 1).drop_last() =~= cs.take(i));
}

/// What a certification reports: every difference, checkpoint by
/// checkpoint and domain by domain; how many domains agree out of seven per
/// recorded checkpoint; the blockers; whether it certifies (no difference,
/// no blocker, every domain agreeing); the shares in parts per million,
/// overall and per domain in ascending order of name; the digests of the
/// environment and of the recording; the first difference; the time taken.
pub open spec fn is_report(
    r: Report,
    expected: Artifact,
    actual: Seq<Checkpoint>,
    environment: Seq<u8>,
    elapsed_ms: u128,
    fast: bool,
) -> bool {
    &&& all_describe(r.differences@, all_differences(expected.checkpoints@, actual, fast))
    &&& r.matched_domains == all_matched(expected.checkpoints@, actual, fast)
    &&& r.total_domains == expected.checkpoints@.len() * 7
    &&& views(r.blockers@) == blockers(expected, actual.len())
    &&& r.certified == (all_differences(expected.checkpoints@, actual, fast).len() == 0 && blockers(
            expected,
            actual.len(),
        ).len() == 0 && r.matched_domains == r.total_domains)
    &&& r.status@ == (if r.certified { "PASS"@ } else { "FAIL"@ })
    &&& r.accuracy_ppm == ppm(r.matched_domains as nat, r.total_domains as nat)
    &&& r.qualified_coverage_ppm == (if r.blockers@.len() == 0 { 1_000_000u32 } else { 0u32 })
    &&& r.environment_digest@ == hex_of(sha256(environment))
    &&& r.source_artifact_digest@ == expected.payload_digest@
    &&& r.domain_scores_ppm@.len() == 7
    &&& forall|i: int|
        0 <= i < 7 ==> (#[trigger] r.domain_scores_ppm@[i]).0@ == sorted_domain_names()[i]
            && r.domain_scores_ppm@[i].1 == ppm(
            domain_matched(expected.checkpoints@, actual, fast, sorted_domain_names()[i]),
            expected.checkpoints@.len(),
        )
    &&& match r.first_difference {
        Some(d) => r.differences@.len() > 0 && describes(d, all_differences(expected.checkpoints@, actual, fast)[0]),
        None => r.differences@.len() == 0,
    }
    &&& r.elapsed_ms == elapsed_ms
}

/// Certifies the candidate's checkpoints against a recording, by digest
/// when `fast`, by value otherwise. `environment` is the serialized form
/// of the recording's environment; `elapsed_ms` is how long collecting
/// the candidate took.
pub fn artifacts_with_mode(
    expected: &Artifact,
    actual: &[Checkpoint],
    environment: &[u8],
    elapsed_ms: u128,
    fast: bool,
) -> (r: Report)
    requires
        expected.checkpoints@.len() * 7 <= usize::MAX,
    ensures
        is_report(r, *expected, actual@, environment@, elapsed_ms, fast),
{
    let cs = &expected.checkpoints;
    let n = cs.len();
    let mut differences: Vec<Difference> = Vec::new();
    let mut matched: usize = 0;
    let mut counts: Vec<usize> = vec![0, 0, 0, 0, 0, 0, 0];
    let mut i: usize = 0;
    while i < n
        invariant
            n == cs@.len(),
            n * 7 <= usize::MAX,
            i <= n,
            counts@.len() == 7,
            all_describe(differences@, all_differences(cs@.take(i as int), actual@, fast)),
            matched == all_matched(cs@.take(i as int), actual@, fast),
            matched <= 7 * i,
            forall|k: int|
                0 <= k < 7 ==> #[trigger] counts@[k] == domain_matched(
                    cs@.take(i as int),
                    actual@,
                    fast,
                    domain_names()[k],
                ),
            forall|k: int| 0 <= k < 7 ==> #[trigger] counts@[k] <= i,
        decreases n - i,
    {
        let (mut found, flags, m) = compare_checkpoint(&cs[i], actual, fast);
        proof {
            assert(cs@.take(i + 1).drop_last() =~= cs@.take(i as int));
            lemma_describe_concat(
                differences@,
                all_differences(cs@.take(i as int), actual@, fast),
                found@,
                checkpoint_differences(cs@[i as int], actual@, fast),
            );
            assert forall|k: int| 0 <= k < 7 implies domain_matched(cs@.take(i + 1), actual@, fast, #[trigger] domain_names()[k])
                == domain_matched(cs@.take(i as int), actual@, fast, domain_names()[k]) + if flags@[k] {
                1int
            } else {
                0int
            } by {
                lemma_domain_matched_step(cs@, actual@, fast, domain_names()[k], i as int);
            }
            assert(i < n);
            assert(matched + m <= 7 * (i + 1));
        }
        differences.append(&mut found);
        matched = matched + m;
        add_flags(&mut counts, &flags);
        i += 1;
    }
    proof {
        assert(cs@.take(n as int) =~= cs@);
    }
    let total = n * 7;
    let blockers_found = coverage_blockers(expected, actual.len());
    let certified = differences.len() == 0 && blockers_found.len() == 0 && matched == total;
    let first_difference = if differences.len() > 0 {
        Some(copy_difference(&differences[0]))
    } else {
        None
    };
    let domain_scores_ppm = scores(&counts, n);
    proof {
        assert forall|i: int| 0 <= i < 7 implies (#[trigger] domain_scores_ppm@[i]).1 == ppm(
            domain_matched(expected.checkpoints@, actual@, fast, sorted_domain_names()[i]),
            expected.checkpoints@.len(),
        ) by {
            let k = choose|k: int|
                0 <= k < 7 && domain_names()[k] == sorted_domain_names()[i] && domain_scores_ppm@[i].1 == ppm(
                    counts@[k] as nat,
                    n as nat,
                );
            assert(counts@[k] == domain_matched(cs@, actual@, fast, domain_names()[k]));
        }
    }
    Report {
        status: if certified { String::from_str("PASS") } else { String::from_str("FAIL") },
        certified,
        accuracy_ppm: ppm_of(matched, total),
        qualified_coverage_ppm: if blockers_found.len() == 0 { 1_000_000 } else { 0 },
        environment_digest: crate::digest::bytes(environment),
        source_artifact_digest: expected.payload_digest.clone(),
        domain_scores_ppm,
        matched_domains: matched,
        total_domains: total,
        first_difference,
        differences,
        blockers: blockers_found,
        elapsed_ms,
    }
}

/// Certifies a candidate by comparing domain digests.
pub fn artifacts(expected: &Artifact, actual: &[Checkpoint], environment: &[u8], elapsed_ms: u128) -> (r: Report)
    requires
        expected.checkpoints@.len() * 7 <= usize::MAX,
    ensures
        is_report(r, *expected, actual@, environment@, elapsed_ms, true),
{
    artifacts_with_mode(expected, actual, environment, elapsed_ms, true)
}

/// Certifies a candidate by comparing domain values, the reference the
/// digest comparison is checked against.
pub fn reference_artifacts(expected: &Artifact, actual: &[Checkpoint], environment: &[u8], elapsed_ms: u128) -> (r:
    Report)
    requires
        expected.checkpoints@.len() * 7 <= usize::MAX,
    ensures
        is_report(r, *expected, actual@, environment@, elapsed_ms, false),
{
    artifacts_with_mode(expected, actual, environment, elapsed_ms, false)
}

/// No two checkpoints were taken at the same place.
pub open spec fn distinct_places(cs: Seq<Checkpoint>) -> bool {
    forall|i: int, j: int|
        0 <= i < j < cs.len() ==> !(cs[i].scenario@ == cs[j].scenario@ && cs[i].step == cs[j].step)
}

/// Every checkpoint records every domain.
pub open spec fn every_domain_recorded(cs: Seq<Checkpoint>) -> bool {
    forall|i: int, k: int|
        0 <= i < cs.len() && 0 <= k < 7 ==> (#[trigger] domain_index(
            cs[i].domains@,
            #[trigger] domain_names()[k],
            cs[i].domains@.len() as int,
        )) is Some
}

proof fn lemma_own_place(cs: Seq<Checkpoint>, i: int, n: int)
    requires
        distinct_places(cs),
        0 <= i < n <= cs.len(),
    ensures
        last_candidate(cs, cs[i].scenario@, cs[i].step, n) == Some(i),
    decreases n,
{
    if n - 1 != i {
        lemma_own_place(cs, i, n - 1);
    }
}

proof fn lemma_agrees_with_itself(c: Checkpoint, fast: bool, k: int)
    requires
        0 <= k <= 7,
        forall|j: int|
            0 <= j < 7 ==> (#[trigger] domain_index(c.domains@, domain_names()[j], c.domains@.len() as int)) is Some,
    ensures
        domain_outcomes(c, c, fast, k) == Seq::<DifferenceView>::empty(),
        domains_matched(c, c, fast, k) == k,
    decreases k,
{
    if k > 0 {
        lemma_agrees_with_itself(c, fast, k - 1);
        let d = domain_names()[k - 1];
        assert(domain_index(c.domains@, d, c.domains@.len() as int) is Some);
        let i = domain_index(c.domains@, d, c.domains@.len() as int)->0;
        lemma_same_reflexive(c.domains@[i].1.value);
        assert(domain_outcome(c, c, d, fast) is None);
        assert(domain_outcomes(c, c, fast, k) =~= domain_outcomes(c, c, fast, k - 1));
    }
}

proof fn lemma_self_prefix(cs: Seq<Checkpoint>, fast: bool, n: int)
    requires
        distinct_places(cs),
        every_domain_recorded(cs),
        0 <= n <= cs.len(),
    ensures
        all_differences(cs.take(n), cs, fast) == Seq::<DifferenceView>::empty(),
        all_matched(cs.take(n), cs, fast) == 7 * n,
    decreases n,
{
    if n > 0 {
        lemma_self_prefix(cs, fast, n - 1);
        assert(cs.take(n).drop_last() =~= cs.take(n - 1));
        let c = cs[n - 1];
        lemma_own_place(cs, n - 1, cs.len() as int);
        assert(candidate_of(cs, c) == Some(c));
        assert forall|j: int| 0 <= j < 7 implies (#[trigger] domain_index(
            c.domains@,
            domain_names()[j],
            c.domains@.len() as int,
        )) is Some by {
            assert(domain_index(cs[n - 1].domains@, domain_names()[j], cs[n - 1].domains@.len() as int) is Some);
        }
        lemma_agrees_with_itself(c, fast, 7);
        assert(all_differences(cs.take(n), cs, fast) =~= all_differences(cs.take(n - 1), cs, fast));
    }
}

/// A recording compared with its own checkpoints is certified, with every
/// domain agreeing, when no two checkpoints share a place, every
/// checkpoint records every domain, and the recording's coverage is
/// complete; by digest and by value alike.
pub proof fn a_recording_compared_with_itself_is_certified(
    expected: Artifact,
    environment: Seq<u8>,
    elapsed_ms: u128,
    fast: bool,
    r: Report,
)
    requires
        distinct_places(expected.checkpoints@),
        every_domain_recorded(expected.checkpoints@),
        expected.coverage.incomplete@.len() == 0,
        is_report(r, expected, expected.checkpoints@, environment, elapsed_ms, fast),
    ensures
        r.certified,
        r.differences@.len() == 0,
        r.blockers@.len() == 0,
        r.matched_domains == r.total_domains,
        r.accuracy_ppm == (if expected.checkpoints@.len() > 0 { 1_000_000u32 } else { 0u32 }),
{
    let cs = expected.checkpoints@;
    lemma_self_prefix(cs, fast, cs.len() as int);
    assert(cs.take(cs.len() as int) =~= cs);
    assert(blockers(expected, cs.len()) =~= Seq::<Seq<char>>::empty());
    if cs.len() > 0 {
        let t = cs.len() * 7;
        assert(t * 1_000_000 / t == 1_000_000) by (nonlinear_arith)
            requires
                t > 0,
        ;
    }
}

} // verus!
