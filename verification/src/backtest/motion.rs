//! How two nodes' animations and transitions are compared.
//!
//! A node's motions are matched by identity, its kind and the properties it
//! animates; when a node lists one identity twice, the later one counts.
//! Identities are visited in ascending order and the first difference is
//! the one reported.
use crate::backtest::compare::{Scope, finding, finding_value};
use crate::backtest::display::{quoted, quoted_value, signed_delta, signed_delta_value, truncate, truncated};
use crate::backtest::model::{Finding, FindingView, MotionCheckpoint, MotionEvidence, finding_opt};
use crate::keyed::{entries, get, has_key, keys_ascending, lookup, union_keys};
use crate::order::{ascending_strings, insert_string, lemma_least_at, lemma_least_none, least_of, views};
use crate::text::{decimal, push_char, push_decimal, push_signed_decimal, push_str, signed_decimal, str_eq};
use vstd::prelude::*;

verus! {

broadcast use vstd::string::group_string_axioms;

/// Strings joined by commas.
pub open spec fn joined(ps: Seq<Seq<char>>) -> Seq<char>
    decreases ps.len(),
{
    if ps.len() == 0 {
        seq![]
    } else if ps.len() == 1 {
        ps[0]
    } else {
        joined(ps.drop_last()) + seq![','] + ps.last()
    }
}

/// What matches a motion on one side with a motion on the other: its kind
/// and the properties it animates, `kind:prop,prop`.
pub open spec fn identity_of(m: MotionEvidence) -> Seq<char> {
    m.kind@ + seq![':'] + joined(views(m.properties@))
}

/// The last motion with an identity.
pub open spec fn last_with(ms: Seq<MotionEvidence>, id: Seq<char>) -> Option<MotionEvidence>
    decreases ms.len(),
{
    if ms.len() == 0 {
        None
    } else if identity_of(ms.last()) == id {
        Some(ms.last())
    } else {
        last_with(ms.drop_last(), id)
    }
}

/// Every identity either side has.
pub open spec fn identities(s: Seq<MotionEvidence>, c: Seq<MotionEvidence>) -> Set<Seq<char>> {
    Set::new(|k: Seq<char>| last_with(s, k) is Some || last_with(c, k) is Some)
}

/// `-` written as a space.
pub open spec fn dashes_as_spaces(v: Seq<char>) -> Seq<char> {
    v.map_values(|c: char| if c == '-' { ' ' } else { c })
}

/// How a motion is named in a finding: `target / kind "name"`.
pub open spec fn motion_label(target: Seq<char>, m: MotionEvidence) -> Seq<char> {
    target + " / "@ + dashes_as_spaces(m.kind@) + seq![' '] + quoted_value(
        if m.name@.len() == 0 {
            "unnamed"@
        } else {
            m.name@
        },
    )
}

/// A value in a checkpoint, or `missing`.
pub open spec fn value_or_missing(cp: MotionCheckpoint, p: Seq<char>) -> Seq<char> {
    match lookup(entries(cp.values@), p) {
        Some(v) => v,
        None => "missing"@,
    }
}

/// The finding for one property of one checkpoint, if its values differ.
pub open spec fn value_difference(
    scope: Scope,
    label: Seq<char>,
    a: MotionCheckpoint,
    b: MotionCheckpoint,
) -> spec_fn(Seq<char>) -> Option<FindingView> {
    |p: Seq<char>|
        if value_or_missing(a, p) != value_or_missing(b, p) {
            Some(
                finding_value(
                    scope,
                    label,
                    "motion-"@ + decimal(a.progress as nat) + "%-"@ + p,
                    truncated(value_or_missing(a, p), 48),
                    truncated(value_or_missing(b, p), 48),
                    None,
                ),
            )
        } else {
            None
        }
}

/// Every property either checkpoint samples.
pub open spec fn sampled(a: MotionCheckpoint, b: MotionCheckpoint) -> Set<Seq<char>> {
    Set::new(|k: Seq<char>| has_key(entries(a.values@), k) || has_key(entries(b.values@), k))
}

/// The first difference between two checkpoints at the same position.
pub open spec fn checkpoint_difference(
    scope: Scope,
    label: Seq<char>,
    a: MotionCheckpoint,
    b: MotionCheckpoint,
) -> Option<FindingView> {
    if a.progress != b.progress {
        Some(
            finding_value(
                scope,
                label,
                "checkpoints"@,
                decimal(a.progress as nat),
                decimal(b.progress as nat),
                None,
            ),
        )
    } else {
        least_of(sampled(a, b), value_difference(scope, label, a, b))
    }
}

/// The first difference among the checkpoints both sides have, from
/// position `k` on.
pub open spec fn checkpoints_from(
    scope: Scope,
    label: Seq<char>,
    s: Seq<MotionCheckpoint>,
    c: Seq<MotionCheckpoint>,
    k: int,
) -> Option<FindingView>
    decreases s.len() - k,
{
    if k < 0 || k >= s.len() || k >= c.len() {
        None
    } else {
        match checkpoint_difference(scope, label, s[k], c[k]) {
            Some(f) => Some(f),
            None => checkpoints_from(scope, label, s, c, k + 1),
        }
    }
}

/// Milliseconds as a finding writes them.
pub open spec fn millis(v: int) -> Seq<char> {
    signed_decimal(v) + "ms"@
}

/// The first difference between two motions with the same identity.
pub open spec fn motion_pair(scope: Scope, label: Seq<char>, s: MotionEvidence, c: MotionEvidence) -> Option<
    FindingView,
> {
    if s.duration_ms != c.duration_ms {
        Some(
            finding_value(
                scope,
                label,
                "duration"@,
                millis(s.duration_ms as int),
                millis(c.duration_ms as int),
                Some(signed_delta_value(c.duration_ms - s.duration_ms) + "ms"@),
            ),
        )
    } else if s.delay_ms != c.delay_ms {
        Some(finding_value(scope, label, "delay"@, millis(s.delay_ms as int), millis(c.delay_ms as int), None))
    } else if s.end_delay_ms != c.end_delay_ms {
        Some(
            finding_value(
                scope,
                label,
                "end-delay"@,
                millis(s.end_delay_ms as int),
                millis(c.end_delay_ms as int),
                None,
            ),
        )
    } else if s.iterations@ != c.iterations@ {
        Some(finding_value(scope, label, "iterations"@, s.iterations@, c.iterations@, None))
    } else if s.direction@ != c.direction@ {
        Some(finding_value(scope, label, "direction"@, s.direction@, c.direction@, None))
    } else if s.fill@ != c.fill@ {
        Some(finding_value(scope, label, "fill"@, s.fill@, c.fill@, None))
    } else if s.easing@ != c.easing@ {
        Some(finding_value(scope, label, "easing"@, s.easing@, c.easing@, None))
    } else if checkpoints_from(scope, label, s.checkpoints@, c.checkpoints@, 0) is Some {
        checkpoints_from(scope, label, s.checkpoints@, c.checkpoints@, 0)
    } else if s.checkpoints@.len() != c.checkpoints@.len() {
        Some(
            finding_value(
                scope,
                label,
                "checkpoints"@,
                decimal(s.checkpoints@.len()),
                decimal(c.checkpoints@.len()),
                Some(signed_delta_value(c.checkpoints@.len() - s.checkpoints@.len())),
            ),
        )
    } else {
        None
    }
}

/// The difference, if any, for one identity.
pub open spec fn identity_difference(
    scope: Scope,
    target: Seq<char>,
    s: Seq<MotionEvidence>,
    c: Seq<MotionEvidence>,
) -> spec_fn(Seq<char>) -> Option<FindingView> {
    |id: Seq<char>|
        match (last_with(s, id), last_with(c, id)) {
            (Some(a), Some(b)) => motion_pair(scope, motion_label(target, a), a, b),
            (Some(a), None) => Some(
                finding_value(scope, motion_label(target, a), "motion"@, "present"@, "missing"@, None),
            ),
            (None, Some(b)) => Some(
                finding_value(scope, motion_label(target, b), "motion"@, "missing"@, "present"@, None),
            ),
            (None, None) => None,
        }
}

/// The first motion difference between two nodes, by ascending identity.
pub open spec fn motion_difference(
    scope: Scope,
    target: Seq<char>,
    s: Seq<MotionEvidence>,
    c: Seq<MotionEvidence>,
) -> Option<FindingView> {
    least_of(identities(s, c), identity_difference(scope, target, s, c))
}

/// Every checkpoint's values are keyed in ascending order.
pub open spec fn motion_wf(m: MotionEvidence) -> bool {
    forall|i: int| 0 <= i < m.checkpoints@.len() ==> keys_ascending(entries(#[trigger] m.checkpoints@[i].values@))
}

/// Every motion of a list is well formed.
pub open spec fn motions_wf(ms: Seq<MotionEvidence>) -> bool {
    forall|i: int| 0 <= i < ms.len() ==> motion_wf(#[trigger] ms[i])
}


/// The identity of a motion.
fn identity(m: &MotionEvidence) -> (r: String)
    ensures
        r@ == identity_of(*m),
{
    let mut r = m.kind.clone();
    push_char(&mut r, ':');
    let ghost ps = views(m.properties@);
    let mut i: usize = 0;
    while i < m.properties.len()
        invariant
            i <= m.properties@.len(),
            ps == views(m.properties@),
            r@ == m.kind@ + seq![':'] + joined(ps.take(i as int)),
        decreases m.properties@.len() - i,
    {
        proof {
            let t = ps.take(i + 1 as int);
            assert(t.drop_last() =~= ps.take(i as int));
            assert(t.last() == m.properties@[i as int]@);
        }
        if i > 0 {
            push_char(&mut r, ',');
        }
        push_str(&mut r, m.properties[i].as_str());
        i += 1;
        proof {
            let t = ps.take(i as int);
            if i == 1 {
                assert(t.len() == 1);
            }
            assert(r@ =~= m.kind@ + seq![':'] + joined(t));
        }
    }
    assert(ps.take(m.properties@.len() as int) =~= ps);
    r
}

/// A motion is found under an identity exactly when some motion has it.
proof fn lemma_last_with(ms: Seq<MotionEvidence>, id: Seq<char>)
    ensures
        last_with(ms, id) is Some <==> exists|i: int| 0 <= i < ms.len() && identity_of(#[trigger] ms[i]) == id,
    decreases ms.len(),
{
    if ms.len() > 0 {
        lemma_last_with(ms.drop_last(), id);
        if exists|i: int| 0 <= i < ms.len() && identity_of(#[trigger] ms[i]) == id {
            let i = choose|i: int| 0 <= i < ms.len() && identity_of(#[trigger] ms[i]) == id;
            if i < ms.len() - 1 {
                assert(ms.drop_last()[i] == ms[i]);
            }
        }
        if exists|i: int| 0 <= i < ms.len() - 1 && identity_of(#[trigger] ms.drop_last()[i]) == id {
            let i = choose|i: int| 0 <= i < ms.len() - 1 && identity_of(#[trigger] ms.drop_last()[i]) == id;
            assert(ms[i] == ms.drop_last()[i]);
        }
    }
}

/// The position of the last motion with an identity.
fn last_index(ms: &Vec<MotionEvidence>, ids: &Vec<String>, id: &String) -> (r: Option<usize>)
    requires
        ids@.len() == ms@.len(),
        forall|i: int| 0 <= i < ms@.len() ==> (#[trigger] ids@[i])@ == identity_of(ms@[i]),
    ensures
        match r {
            Some(j) => j < ms@.len() && last_with(ms@, id@) == Some(ms@[j as int]),
            None => last_with(ms@, id@) is None,
        },
{
    let mut j: usize = ms.len();
    assert(ms@.take(j as int) =~= ms@);
    while j > 0
        invariant
            j <= ms@.len(),
            ids@.len() == ms@.len(),
            forall|i: int| 0 <= i < ms@.len() ==> (#[trigger] ids@[i])@ == identity_of(ms@[i]),
            last_with(ms@, id@) == last_with(ms@.take(j as int), id@),
        decreases j,
    {
        let ghost t = ms@.take(j as int);
        assert(t.drop_last() =~= ms@.take(j - 1));
        assert(t.last() == ms@[j - 1]);
        assert(ids@[j - 1]@ == identity_of(ms@[j - 1]));
        if str_eq(ids[j - 1].as_str(), id.as_str()) {
            return Some(j - 1);
        }
        j -= 1;
    }
    None
}

/// How a motion is named in a finding.
fn label_of(target: &str, m: &MotionEvidence) -> (r: String)
    ensures
        r@ == motion_label(target@, *m),
{
    let mut r = String::new();
    push_str(&mut r, target);
    push_str(&mut r, " / ");
    let kind = crate::text::chars_of(m.kind.as_str());
    let mut i: usize = 0;
    let ghost start = r@;
    while i < kind.len()
        invariant
            i <= kind@.len(),
            kind@ == m.kind@,
            r@ == start + dashes_as_spaces(kind@.take(i as int)),
        decreases kind@.len() - i,
    {
        let c = kind[i];
        push_char(&mut r, if c == '-' { ' ' } else { c });
        i += 1;
        assert(dashes_as_spaces(kind@.take(i as int)) =~= dashes_as_spaces(kind@.take(i - 1)).push(
            if c == '-' { ' ' } else { c },
        ));
    }
    assert(kind@.take(kind@.len() as int) =~= kind@);
    push_char(&mut r, ' ');
    let name = if m.name.as_str().unicode_len() == 0 { quoted("unnamed") } else { quoted(m.name.as_str()) };
    push_str(&mut r, name.as_str());
    proof {
        reveal_strlit(" / ");
        reveal_strlit("unnamed");
    }
    assert(r@ =~= motion_label(target@, *m));
    r
}


/// The value of a checkpoint property, or `missing`.
fn value_of(cp: &MotionCheckpoint, p: &String) -> (r: String)
    requires
        keys_ascending(entries(cp.values@)),
    ensures
        r@ == value_or_missing(*cp, p@),
{
    match get(&cp.values, p) {
        Some(v) => v.clone(),
        None => {
            proof {
                reveal_strlit("missing");
            }
            String::from_str("missing")
        },
    }
}

/// The first difference between two checkpoints at the same position.
fn checkpoint_diff(scope: &Scope, label: &str, a: &MotionCheckpoint, b: &MotionCheckpoint) -> (r:
    Option<Finding>)
    requires
        keys_ascending(entries(a.values@)),
        keys_ascending(entries(b.values@)),
    ensures
        finding_opt(r) == checkpoint_difference(*scope, label@, *a, *b),
{
    if a.progress != b.progress {
        let sp = crate::text::decimal_string(a.progress as u128);
        let cp = crate::text::decimal_string(b.progress as u128);
        proof {
            reveal_strlit("checkpoints");
        }
        return Some(finding(scope, label, "checkpoints", sp.as_str(), cp.as_str(), None));
    }
    let keys = union_keys(&a.values, &b.values);
    let ghost diff = value_difference(*scope, label@, *a, *b);
    let ghost ks = sampled(*a, *b);
    assert forall|y: Seq<char>| #[trigger] ks.contains(y) <==> views(keys@).contains(y) by {}
    let mut i: usize = 0;
    while i < keys.len()
        invariant
            i <= keys@.len(),
            diff == value_difference(*scope, label@, *a, *b),
            ks == sampled(*a, *b),
            a.progress == b.progress,
            ascending_strings(views(keys@)),
            forall|y: Seq<char>| #[trigger] ks.contains(y) <==> views(keys@).contains(y),
            forall|j: int| 0 <= j < i ==> (#[trigger] diff(views(keys@)[j])) is None,
            keys_ascending(entries(a.values@)),
            keys_ascending(entries(b.values@)),
        decreases keys@.len() - i,
    {
        let sv = value_of(a, &keys[i]);
        let cv = value_of(b, &keys[i]);
        assert(views(keys@)[i as int] == keys@[i as int]@);
        if !str_eq(sv.as_str(), cv.as_str()) {
            let mut property = String::new();
            push_str(&mut property, "motion-");
            push_decimal(&mut property, a.progress as u128);
            push_str(&mut property, "%-");
            push_str(&mut property, keys[i].as_str());
            let st = truncate(sv.as_str(), 48);
            let ct = truncate(cv.as_str(), 48);
            let f = finding(scope, label, property.as_str(), st.as_str(), ct.as_str(), None);
            proof {
                reveal_strlit("motion-");
                reveal_strlit("%-");
                assert(property@ =~= "motion-"@ + decimal(a.progress as nat) + "%-"@ + keys@[i as int]@);
                assert(diff(views(keys@)[i as int]) == Some(f@));
                lemma_least_at(views(keys@), ks, diff, i as int);
            }
            return Some(f);
        }
        i += 1;
    }
    proof {
        lemma_least_none(views(keys@), ks, diff);
    }
    None
}

/// The first difference among the checkpoints both motions have.
fn checkpoints_diff(scope: &Scope, label: &str, s: &Vec<MotionCheckpoint>, c: &Vec<MotionCheckpoint>) -> (r:
    Option<Finding>)
    requires
        forall|i: int| 0 <= i < s@.len() ==> keys_ascending(entries(#[trigger] s@[i].values@)),
        forall|i: int| 0 <= i < c@.len() ==> keys_ascending(entries(#[trigger] c@[i].values@)),
    ensures
        finding_opt(r) == checkpoints_from(*scope, label@, s@, c@, 0),
{
    let mut k: usize = 0;
    while k < s.len() && k < c.len()
        invariant
            checkpoints_from(*scope, label@, s@, c@, 0) == checkpoints_from(*scope, label@, s@, c@, k as int),
            forall|i: int| 0 <= i < s@.len() ==> keys_ascending(entries(#[trigger] s@[i].values@)),
            forall|i: int| 0 <= i < c@.len() ==> keys_ascending(entries(#[trigger] c@[i].values@)),
        decreases s@.len() - k,
    {
        let r = checkpoint_diff(scope, label, &s[k], &c[k]);
        if r.is_some() {
            return r;
        }
        k += 1;
    }
    None
}


/// Milliseconds as a finding writes them.
fn millis_of(v: i128) -> (r: String)
    requires
        v > i128::MIN,
    ensures
        r@ == millis(v as int),
{
    let mut r = String::new();
    push_signed_decimal(&mut r, v);
    push_str(&mut r, "ms");
    proof {
        reveal_strlit("ms");
    }
    r
}

/// The first difference between two motions with the same identity.
fn pair_diff(scope: &Scope, label: &str, s: &MotionEvidence, c: &MotionEvidence) -> (r: Option<Finding>)
    requires
        motion_wf(*s),
        motion_wf(*c),
    ensures
        finding_opt(r) == motion_pair(*scope, label@, *s, *c),
{
    proof {
        reveal_strlit("duration");
        reveal_strlit("delay");
        reveal_strlit("end-delay");
        reveal_strlit("iterations");
        reveal_strlit("direction");
        reveal_strlit("fill");
        reveal_strlit("easing");
        reveal_strlit("checkpoints");
        reveal_strlit("ms");
    }
    if s.duration_ms != c.duration_ms {
        let mut delta = signed_delta(c.duration_ms as i128 - s.duration_ms as i128);
        push_str(&mut delta, "ms");
        return Some(
            finding(
                scope,
                label,
                "duration",
                millis_of(s.duration_ms as i128).as_str(),
                millis_of(c.duration_ms as i128).as_str(),
                Some(delta),
            ),
        );
    }
    if s.delay_ms != c.delay_ms {
        return Some(
            finding(
                scope,
                label,
                "delay",
                millis_of(s.delay_ms as i128).as_str(),
                millis_of(c.delay_ms as i128).as_str(),
                None,
            ),
        );
    }
    if s.end_delay_ms != c.end_delay_ms {
        return Some(
            finding(
                scope,
                label,
                "end-delay",
                millis_of(s.end_delay_ms as i128).as_str(),
                millis_of(c.end_delay_ms as i128).as_str(),
                None,
            ),
        );
    }
    if !str_eq(s.iterations.as_str(), c.iterations.as_str()) {
        return Some(finding(scope, label, "iterations", s.iterations.as_str(), c.iterations.as_str(), None));
    }
    if !str_eq(s.direction.as_str(), c.direction.as_str()) {
        return Some(finding(scope, label, "direction", s.direction.as_str(), c.direction.as_str(), None));
    }
    if !str_eq(s.fill.as_str(), c.fill.as_str()) {
        return Some(finding(scope, label, "fill", s.fill.as_str(), c.fill.as_str(), None));
    }
    if !str_eq(s.easing.as_str(), c.easing.as_str()) {
        return Some(finding(scope, label, "easing", s.easing.as_str(), c.easing.as_str(), None));
    }
    let checked = checkpoints_diff(scope, label, &s.checkpoints, &c.checkpoints);
    if checked.is_some() {
        return checked;
    }
    if s.checkpoints.len() != c.checkpoints.len() {
        let sl = crate::text::decimal_string(s.checkpoints.len() as u128);
        let cl = crate::text::decimal_string(c.checkpoints.len() as u128);
        let delta = signed_delta(c.checkpoints.len() as i128 - s.checkpoints.len() as i128);
        return Some(finding(scope, label, "checkpoints", sl.as_str(), cl.as_str(), Some(delta)));
    }
    None
}

/// The first motion difference between two nodes, by ascending identity.
pub fn compare_motion(
    scope: &Scope,
    target: &str,
    source: &crate::backtest::model::NodeEvidence,
    candidate: &crate::backtest::model::NodeEvidence,
) -> (r: Option<Finding>)
    requires
        motions_wf(source.motions@),
        motions_wf(candidate.motions@),
    ensures
        finding_opt(r) == motion_difference(*scope, target@, source.motions@, candidate.motions@),
{
    let s = &source.motions;
    let c = &candidate.motions;
    let mut sids: Vec<String> = Vec::new();
    let mut ids: Vec<String> = Vec::new();
    let mut i: usize = 0;
    while i < s.len()
        invariant
            i <= s@.len(),
            sids@.len() == i,
            forall|j: int| 0 <= j < i ==> (#[trigger] sids@[j])@ == identity_of(s@[j]),
            ascending_strings(views(ids@)),
            forall|k: Seq<char>|
                #[trigger] views(ids@).contains(k) <==> exists|j: int| 0 <= j < i && identity_of(#[trigger] s@[j]) == k,
        decreases s@.len() - i,
    {
        let id = identity(&s[i]);
        insert_string(&mut ids, &id);
        sids.push(id);
        i += 1;
    }
    let mut cids: Vec<String> = Vec::new();
    let mut i: usize = 0;
    while i < c.len()
        invariant
            i <= c@.len(),
            cids@.len() == i,
            forall|j: int| 0 <= j < i ==> (#[trigger] cids@[j])@ == identity_of(c@[j]),
            ascending_strings(views(ids@)),
            forall|k: Seq<char>|
                #[trigger] views(ids@).contains(k) <==> ((exists|j: int| 0 <= j < s@.len() && identity_of(#[trigger] s@[j]) == k)
                    || exists|j: int| 0 <= j < i && identity_of(#[trigger] c@[j]) == k),
        decreases c@.len() - i,
    {
        let id = identity(&c[i]);
        insert_string(&mut ids, &id);
        cids.push(id);
        i += 1;
    }
    let ghost keys = identities(s@, c@);
    let ghost diff = identity_difference(*scope, target@, s@, c@);
    proof {
        assert forall|y: Seq<char>| #[trigger] keys.contains(y) <==> views(ids@).contains(y) by {
            lemma_last_with(s@, y);
            lemma_last_with(c@, y);
        }
    }
    let mut k: usize = 0;
    while k < ids.len()
        invariant
            k <= ids@.len(),
            sids@.len() == s@.len(),
            cids@.len() == c@.len(),
            forall|j: int| 0 <= j < s@.len() ==> (#[trigger] sids@[j])@ == identity_of(s@[j]),
            forall|j: int| 0 <= j < c@.len() ==> (#[trigger] cids@[j])@ == identity_of(c@[j]),
            motions_wf(s@),
            motions_wf(c@),
            keys == identities(s@, c@),
            diff == identity_difference(*scope, target@, s@, c@),
            s@ == source.motions@,
            c@ == candidate.motions@,
            ascending_strings(views(ids@)),
            forall|y: Seq<char>| #[trigger] keys.contains(y) <==> views(ids@).contains(y),
            forall|j: int| 0 <= j < k ==> (#[trigger] diff(views(ids@)[j])) is None,
        decreases ids@.len() - k,
    {
        let id = &ids[k];
        assert(views(ids@)[k as int] == id@);
        let so = last_index(s, &sids, id);
        let co = last_index(c, &cids, id);
        let d = match (so, co) {
            (Some(a), Some(b)) => {
                let label = label_of(target, &s[a]);
                pair_diff(scope, label.as_str(), &s[a], &c[b])
            },
            (Some(a), None) => {
                let label = label_of(target, &s[a]);
                proof {
                    reveal_strlit("motion");
                    reveal_strlit("present");
                    reveal_strlit("missing");
                }
                Some(finding(scope, label.as_str(), "motion", "present", "missing", None))
            },
            (None, Some(b)) => {
                let label = label_of(target, &c[b]);
                proof {
                    reveal_strlit("motion");
                    reveal_strlit("present");
                    reveal_strlit("missing");
                }
                Some(finding(scope, label.as_str(), "motion", "missing", "present", None))
            },
            (None, None) => None,
        };
        assert(finding_opt(d) == diff(views(ids@)[k as int]));
        if d.is_some() {
            proof {
                lemma_least_at(views(ids@), keys, diff, k as int);
            }
            return d;
        }
        k += 1;
    }
    proof {
        lemma_least_none(views(ids@), keys, diff);
    }
    None
}

proof fn lemma_checkpoints_same(scope: Scope, label: Seq<char>, s: Seq<MotionCheckpoint>, k: int)
    ensures
        checkpoints_from(scope, label, s, s, k) is None,
    decreases s.len() - k,
{
    if 0 <= k < s.len() {
        let cp = s[k];
        assert forall|p: Seq<char>| #[trigger] sampled(cp, cp).contains(p) implies value_difference(scope, label, cp, cp)(p) is None by {}
        assert(least_of(sampled(cp, cp), value_difference(scope, label, cp, cp)) is None);
        lemma_checkpoints_same(scope, label, s, k + 1);
    }
}

/// Motions compared with themselves differ in nothing.
pub proof fn a_motion_list_compared_with_itself_differs_in_nothing(scope: Scope, target: Seq<char>, ms: Seq<MotionEvidence>)
    ensures
        motion_difference(scope, target, ms, ms) is None,
{
    let diff = identity_difference(scope, target, ms, ms);
    assert forall|id: Seq<char>| #[trigger] identities(ms, ms).contains(id) implies diff(id) is None by {
        match last_with(ms, id) {
            Some(a) => {
                lemma_checkpoints_same(scope, motion_label(target, a), a.checkpoints@, 0);
            },
            None => {},
        }
    }
}

/// A property that is neither a position nor a transform.
pub open spec fn not_moved(p: Seq<char>) -> bool {
    p != "x"@ && p != "y"@ && p != "transform"@
}

proof fn lemma_motion_literals()
    ensures
        not_moved("duration"@),
        not_moved("delay"@),
        not_moved("end-delay"@),
        not_moved("iterations"@),
        not_moved("direction"@),
        not_moved("fill"@),
        not_moved("easing"@),
        not_moved("checkpoints"@),
        not_moved("motion"@),
        "x"@.len() == 1,
        "y"@.len() == 1,
        "transform"@.len() == 9,
        "motion-"@.len() == 7,
        "%-"@.len() == 2,
{
    reveal_strlit("x");
    reveal_strlit("y");
    reveal_strlit("transform");
    reveal_strlit("duration");
    reveal_strlit("delay");
    reveal_strlit("end-delay");
    reveal_strlit("iterations");
    reveal_strlit("direction");
    reveal_strlit("fill");
    reveal_strlit("easing");
    reveal_strlit("checkpoints");
    reveal_strlit("motion");
    reveal_strlit("motion-");
    reveal_strlit("%-");
    assert("end-delay"@[0] != "transform"@[0]);
    assert("direction"@[0] != "transform"@[0]);
    assert("duration"@.len() == 8);
    assert("delay"@.len() == 5);
    assert("iterations"@.len() == 10);
    assert("fill"@.len() == 4);
    assert("easing"@.len() == 6);
    assert("checkpoints"@.len() == 11);
    assert("motion"@.len() == 6);
}

proof fn lemma_checkpoint_not_moved(scope: Scope, label: Seq<char>, a: MotionCheckpoint, b: MotionCheckpoint)
    ensures
        checkpoint_difference(scope, label, a, b) matches Some(f) ==> not_moved(f.property),
{
    lemma_motion_literals();
    if a.progress == b.progress {
        let diff = value_difference(scope, label, a, b);
        let r = least_of(sampled(a, b), diff);
        if r is Some {
            let k = choose|k: Seq<char>| #[trigger] sampled(a, b).contains(k) && diff(k) is Some && (forall|o: Seq<char>|
                #[trigger] sampled(a, b).contains(o) && diff(o) is Some ==> o == k || crate::order::lex_lt(k, o));
            assert(r == diff(k));
            let prop = "motion-"@ + decimal(a.progress as nat) + "%-"@ + k;
            assert(decimal(a.progress as nat).len() > 0);
            assert(prop.len() >= 10);
        }
    }
}

proof fn lemma_checkpoints_not_moved(scope: Scope, label: Seq<char>, s: Seq<MotionCheckpoint>, c: Seq<MotionCheckpoint>, k: int)
    ensures
        checkpoints_from(scope, label, s, c, k) matches Some(f) ==> not_moved(f.property),
    decreases s.len() - k,
{
    if 0 <= k < s.len() && k < c.len() {
        lemma_checkpoint_not_moved(scope, label, s[k], c[k]);
        lemma_checkpoints_not_moved(scope, label, s, c, k + 1);
    }
}

/// A motion finding is never about a position or a transform.
pub proof fn a_motion_finding_is_never_a_position_or_transform(
    scope: Scope,
    target: Seq<char>,
    s: Seq<MotionEvidence>,
    c: Seq<MotionEvidence>,
)
    ensures
        motion_difference(scope, target, s, c) matches Some(f) ==> not_moved(f.property),
{
    lemma_motion_literals();
    let diff = identity_difference(scope, target, s, c);
    let r = least_of(identities(s, c), diff);
    if r is Some {
        let k = choose|k: Seq<char>| #[trigger] identities(s, c).contains(k) && diff(k) is Some && (forall|o: Seq<char>|
            #[trigger] identities(s, c).contains(o) && diff(o) is Some ==> o == k || crate::order::lex_lt(k, o));
        assert(r == diff(k));
        match (last_with(s, k), last_with(c, k)) {
            (Some(a), Some(b)) => {
                lemma_checkpoints_not_moved(scope, motion_label(target, a), a.checkpoints@, b.checkpoints@, 0);
            },
            _ => {},
        }
    }
}

/// Two single motions of one identity are compared with each other.
proof fn lemma_single_motions(scope: Scope, target: Seq<char>, a: MotionEvidence, b: MotionEvidence)
    requires
        identity_of(a) == identity_of(b),
    ensures
        motion_difference(scope, target, seq![a], seq![b]) == motion_pair(scope, motion_label(target, a), a, b),
{
    let s = seq![a];
    let c = seq![b];
    let id = identity_of(a);
    assert(s.last() == a && c.last() == b);
    assert(s.drop_last() =~= Seq::<MotionEvidence>::empty());
    assert(c.drop_last() =~= Seq::<MotionEvidence>::empty());
    assert(last_with(s, id) == Some(a));
    assert(last_with(c, id) == Some(b));
    let keys = identities(s, c);
    let diff = identity_difference(scope, target, s, c);
    assert(keys.contains(id));
    assert(diff(id) == motion_pair(scope, motion_label(target, a), a, b));
    assert forall|o: Seq<char>| #[trigger] keys.contains(o) implies o == id by {
        if o != id {
            assert(last_with(s.drop_last(), o) is None);
            assert(last_with(c.drop_last(), o) is None);
            assert(last_with(s, o) is None);
            assert(last_with(c, o) is None);
        }
    }
    if diff(id) is Some {
        let k = choose|k: Seq<char>| #[trigger] keys.contains(k) && diff(k) is Some && (forall|o: Seq<char>|
            #[trigger] keys.contains(o) && diff(o) is Some ==> o == k || crate::order::lex_lt(k, o));
        assert(keys.contains(id) && diff(id) is Some && (forall|o: Seq<char>|
            #[trigger] keys.contains(o) && diff(o) is Some ==> o == id || crate::order::lex_lt(id, o)));
        assert(k == id);
    } else {
        assert(!exists|k: Seq<char>| #[trigger] keys.contains(k) && diff(k) is Some);
    }
}

/// Two motions of one identity that differ only in how they fill are
/// reported by it: the difference names `fill` and carries both fills.
pub proof fn a_fill_that_alone_differs_is_reported(
    scope: Scope,
    target: Seq<char>,
    a: MotionEvidence,
    b: MotionEvidence,
)
    requires
        b == (MotionEvidence { fill: b.fill, ..a }),
        a.fill@ != b.fill@,
    ensures
        motion_difference(scope, target, seq![a], seq![b]) matches Some(f) && f.property == "fill"@
            && f.source == a.fill@ && f.candidate == b.fill@ && f.target == motion_label(target, a),
{
    lemma_single_motions(scope, target, a, b);
}

/// Two motions of one identity that differ in one timing value alone are
/// reported by it, with both values: duration, delay, end delay,
/// iterations, direction or easing.
pub proof fn a_timing_that_alone_differs_is_reported(
    scope: Scope,
    target: Seq<char>,
    a: MotionEvidence,
    b: MotionEvidence,
)
    ensures
        b == (MotionEvidence { duration_ms: b.duration_ms, ..a }) && a.duration_ms != b.duration_ms ==> (motion_difference(scope, target, seq![a], seq![b]) matches Some(f)
            && f.property == "duration"@ && f.source == millis(a.duration_ms as int) && f.candidate == millis(b.duration_ms as int)),
        b == (MotionEvidence { delay_ms: b.delay_ms, ..a }) && a.delay_ms != b.delay_ms ==> (motion_difference(scope, target, seq![a], seq![b]) matches Some(f)
            && f.property == "delay"@ && f.source == millis(a.delay_ms as int) && f.candidate == millis(b.delay_ms as int)),
        b == (MotionEvidence { end_delay_ms: b.end_delay_ms, ..a }) && a.end_delay_ms != b.end_delay_ms ==> (motion_difference(scope, target, seq![a], seq![b]) matches Some(f)
            && f.property == "end-delay"@ && f.source == millis(a.end_delay_ms as int) && f.candidate == millis(b.end_delay_ms as int)),
        b == (MotionEvidence { iterations: b.iterations, ..a }) && a.iterations@ != b.iterations@ ==> (motion_difference(scope, target, seq![a], seq![b]) matches Some(f)
            && f.property == "iterations"@ && f.source == a.iterations@ && f.candidate == b.iterations@),
        b == (MotionEvidence { direction: b.direction, ..a }) && a.direction@ != b.direction@ ==> (motion_difference(scope, target, seq![a], seq![b]) matches Some(f)
            && f.property == "direction"@ && f.source == a.direction@ && f.candidate == b.direction@),
        b == (MotionEvidence { easing: b.easing, ..a }) && a.easing@ != b.easing@ ==> (motion_difference(scope, target, seq![a], seq![b]) matches Some(f)
            && f.property == "easing"@ && f.source == a.easing@ && f.candidate == b.easing@),
{
    if identity_of(a) == identity_of(b) {
        lemma_single_motions(scope, target, a, b);
    }
}

} // verus!
