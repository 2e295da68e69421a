//! Findings that share one root cause are reported once: a region whose
//! elements all moved by the same amount, or all changed the same style, or
//! all went missing, is one finding that names every element.
use crate::backtest::grouping::{grouped, grouped_labels, label_in, label_line, label_list, label_of, summary_finding, summary_value};
use crate::backtest::model::{finding_views, Finding, FindingView, State};
use crate::backtest::semantic::{trim_end, trim_start};
use crate::order::{ascending_keys, enumerate_keys, key_equal, key_less, key_lt, lemma_enumerate_keys, lemma_key_total, lemma_key_transitive, views};
use crate::text::{decimal, is_white, occurs_at, push_char, push_decimal, push_str, str_eq, string_of, white};
use vstd::prelude::*;

verus! {

broadcast use vstd::string::group_string_axioms;

/// The part of a target before its first ` / `: the region it names.
pub open spec fn region_part(t: Seq<char>) -> Seq<char>
    decreases t.len(),
{
    if t.len() == 0 || occurs_at(t, " / "@, 0) {
        seq![]
    } else {
        seq![t[0]] + region_part(t.drop_first())
    }
}

/// How many characters a word runs from the start of `t`.
pub open spec fn word_run(t: Seq<char>) -> nat
    decreases t.len(),
{
    if t.len() == 0 || white(t[0]) {
        0
    } else {
        1 + word_run(t.drop_first())
    }
}

/// How many characters a word runs back from the end of `t`.
pub open spec fn tail_run(t: Seq<char>) -> nat
    decreases t.len(),
{
    if t.len() == 0 || white(t.last()) {
        0
    } else {
        1 + tail_run(t.drop_last())
    }
}

/// The first whitespace-separated word, if there is one.
pub open spec fn first_word(s: Seq<char>) -> Option<Seq<char>> {
    let t = trim_start(s);
    if t.len() == 0 {
        None
    } else {
        Some(t.take(word_run(t) as int))
    }
}

/// The last whitespace-separated word, if there is one.
pub open spec fn last_word(s: Seq<char>) -> Option<Seq<char>> {
    let t = trim_end(s);
    if t.len() == 0 {
        None
    } else {
        Some(t.skip(t.len() - tail_run(t)))
    }
}

/// A property under which a change of position or size is reported.
pub open spec fn geometric(p: Seq<char>) -> bool {
    p == "x"@ || p == "y"@ || p == "width"@ || p == "height"@
}

/// A property under which a change of type or colour is reported.
pub open spec fn typographic(p: Seq<char>) -> bool {
    ||| p == "font-size"@
    ||| p == "font-family"@
    ||| p == "font-weight"@
    ||| p == "line-height"@
    ||| p == "color"@
    ||| p == "background"@
}

/// The family a finding is grouped in: presence (0), geometry (1), style
/// (2), or none (3).
pub open spec fn family(f: FindingView) -> nat {
    if f.property == "content"@ {
        0
    } else if geometric(f.property) {
        1
    } else if typographic(f.property) {
        2
    } else {
        3
    }
}

/// The kind of element a presence finding names: the first word after its
/// region, `element` when there is none.
pub open spec fn element_kind(f: FindingView) -> Seq<char> {
    match first_word(label_in(region_part(f.target), f.target)) {
        Some(w) => w,
        None => "element"@,
    }
}

/// Whether the recreation lacks the element or has one too many.
pub open spec fn direction(f: FindingView) -> Seq<char> {
    if f.source == "present"@ {
        "missing"@
    } else {
        "unexpected"@
    }
}

/// The last word of a finding's line: its delta.
pub open spec fn line_delta(f: FindingView) -> Seq<char> {
    match last_word(f.line) {
        Some(w) => w,
        None => seq![],
    }
}

/// The last word of a finding's line when it is a signed delta.
pub open spec fn signed_line_delta(f: FindingView) -> Seq<char> {
    match last_word(f.line) {
        Some(w) => if w[0] == '+' || w[0] == '-' {
            w
        } else {
            seq![]
        },
        None => seq![],
    }
}

/// What findings of one family must share to be grouped together.
pub open spec fn group_key(f: FindingView) -> Seq<Seq<char>> {
    let region = region_part(f.target);
    if family(f) == 0 {
        seq![region, element_kind(f), direction(f)]
    } else if family(f) == 1 {
        seq![region, f.property, line_delta(f)]
    } else if family(f) == 2 {
        seq![region, f.property, f.source, f.candidate, signed_line_delta(f)]
    } else {
        seq![]
    }
}

/// The findings of family `c` grouped under key `k`, in order.
pub open spec fn members(fs: Seq<FindingView>, c: nat, k: Seq<Seq<char>>) -> Seq<FindingView>
    decreases fs.len(),
{
    if fs.len() == 0 {
        seq![]
    } else {
        let rest = members(fs.drop_last(), c, k);
        if family(fs.last()) == c && group_key(fs.last()) == k {
            rest.push(fs.last())
        } else {
            rest
        }
    }
}

/// The findings that belong to no family, in order.
pub open spec fn ungrouped(fs: Seq<FindingView>) -> Seq<FindingView>
    decreases fs.len(),
{
    if fs.len() == 0 {
        seq![]
    } else if family(fs.last()) == 3 {
        ungrouped(fs.drop_last()).push(fs.last())
    } else {
        ungrouped(fs.drop_last())
    }
}

/// The keys that the findings of family `c` fall under.
pub open spec fn family_keys(fs: Seq<FindingView>, c: nat) -> Set<Seq<Seq<char>>> {
    Set::new(|k: Seq<Seq<char>>| exists|i: int| 0 <= i < fs.len() && family(#[trigger] fs[i]) == c && group_key(fs[i]) == k)
}

/// How many findings it takes to report a group as one.
pub open spec fn threshold(c: nat) -> nat {
    if c == 0 {
        2
    } else {
        3
    }
}

/// `V<width> <scenario> <region>`: how every group line opens.
pub open spec fn group_opening(s: State, region: Seq<char>) -> Seq<char> {
    seq!['V'] + decimal(s.viewport.width as nat) + seq![' '] + s.scenario@ + seq![' '] + region
}

/// The one finding a group is reported as.
pub open spec fn summary_of(s: State, c: nat, k: Seq<Seq<char>>, vs: Seq<FindingView>) -> FindingView {
    let region = k[0];
    let n = decimal(vs.len());
    if c == 0 {
        let labels = vs.map_values(|f: FindingView| label_in(region, f.target));
        summary_value(
            s,
            region + seq![' '] + k[1],
            "content"@,
            group_opening(s, region) + seq![' '] + k[1] + seq![' '] + k[2] + seq![' '] + n + ": "@
                + label_line(labels),
            labels,
        )
    } else if c == 1 {
        let labels = grouped(region, vs);
        summary_value(
            s,
            region + " layout"@,
            k[1],
            group_opening(s, region) + " layout "@ + k[1] + " shifted "@ + k[2] + " ("@ + n + " elements: "@
                + label_line(labels) + seq![')'],
            labels,
        )
    } else {
        let labels = grouped(region, vs);
        let suffix = if k[4].len() == 0 {
            seq![]
        } else {
            seq![' '] + k[4]
        };
        summary_value(
            s,
            region + seq![' '] + k[1],
            k[1],
            group_opening(s, region) + seq![' '] + k[1] + seq![' '] + k[2] + "->"@ + k[3] + suffix + " ("@ + n
                + " elements: "@ + label_line(labels) + seq![')'],
            labels,
        )
    }
}

/// A group as reported: one finding when it is large enough, otherwise its
/// findings as they were.
pub open spec fn emitted(s: State, c: nat, k: Seq<Seq<char>>, vs: Seq<FindingView>) -> Seq<FindingView> {
    if vs.len() >= threshold(c) {
        seq![summary_of(s, c, k, vs)]
    } else {
        vs
    }
}

/// The groups of family `c` under `keys`, reported in the order of `keys`.
pub open spec fn emit_all(s: State, c: nat, keys: Seq<Seq<Seq<char>>>, fs: Seq<FindingView>) -> Seq<FindingView>
    decreases keys.len(),
{
    if keys.len() == 0 {
        seq![]
    } else {
        emit_all(s, c, keys.drop_last(), fs) + emitted(s, c, keys.last(), members(fs, c, keys.last()))
    }
}

/// The groups of family `c`, in ascending order of their keys.
pub open spec fn family_report(s: State, c: nat, fs: Seq<FindingView>) -> Seq<FindingView> {
    emit_all(s, c, enumerate_keys(family_keys(fs, c)), fs)
}

/// The findings that fall in no family, as they were, then the presence
/// groups, then the geometry groups, then the style groups.
pub open spec fn compacted(s: State, fs: Seq<FindingView>) -> Seq<FindingView> {
    ungrouped(fs) + family_report(s, 0, fs) + family_report(s, 1, fs) + family_report(s, 2, fs)
}


/// Whether ` / ` starts at `i`.
fn separator_at(cs: &Vec<char>, i: usize) -> (r: bool)
    requires
        i <= cs@.len(),
    ensures
        r == occurs_at(cs@.skip(i as int), " / "@, 0),
{
    proof {
        reveal_strlit(" / ");
    }
    let r = 3 <= cs.len() - i && cs[i] == ' ' && cs[i + 1] == '/' && cs[i + 2] == ' ';
    proof {
        let t = cs@.skip(i as int);
        if i + 3 <= cs@.len() {
            if r {
                assert(t.subrange(0, 3) =~= " / "@);
            } else {
                assert(t.subrange(0, 3)[0] == cs@[i as int]);
                assert(t.subrange(0, 3)[1] == cs@[i + 1]);
                assert(t.subrange(0, 3)[2] == cs@[i + 2]);
            }
        }
    }
    r
}

/// The region a target names: its text before the first ` / `.
pub fn region_of_target(t: &str) -> (r: String)
    ensures
        r@ == region_part(t@),
{
    let cs = crate::text::chars_of(t);
    let mut out: Vec<char> = Vec::new();
    let mut i: usize = 0;
    assert(cs@.skip(0) =~= cs@);
    while i < cs.len() && !separator_at(&cs, i)
        invariant
            i <= cs@.len(),
            cs@ == t@,
            out@ == cs@.take(i as int),
            region_part(t@) == out@ + region_part(cs@.skip(i as int)),
        decreases cs@.len() - i,
    {
        proof {
            let rest = cs@.skip(i as int);
            assert(rest.drop_first() =~= cs@.skip(i + 1));
            assert(rest[0] == cs@[i as int]);
            assert(region_part(rest) == seq![rest[0]] + region_part(rest.drop_first()));
            assert(out@.push(cs@[i as int]) =~= cs@.take(i + 1));
            assert(out@ + region_part(rest) =~= out@.push(cs@[i as int]) + region_part(cs@.skip(i + 1)));
        }
        out.push(cs[i]);
        i += 1;
    }
    assert(region_part(cs@.skip(i as int)) == Seq::<char>::empty());
    assert(out@ + Seq::<char>::empty() =~= out@);
    string_of(&out)
}

proof fn lemma_word_run_bound(t: Seq<char>)
    ensures
        word_run(t) <= t.len(),
        forall|q: int| 0 <= q < word_run(t) ==> !white(#[trigger] t[q]),
        word_run(t) < t.len() ==> white(t[word_run(t) as int]),
    decreases t.len(),
{
    if t.len() > 0 && !white(t[0]) {
        lemma_word_run_bound(t.drop_first());
        assert forall|q: int| 0 <= q < word_run(t) implies !white(#[trigger] t[q]) by {
            if q > 0 {
                assert(t[q] == t.drop_first()[q - 1]);
            }
        }
    }
}

proof fn lemma_word_run_of(t: Seq<char>, n: int)
    requires
        0 <= n <= t.len(),
        forall|q: int| 0 <= q < n ==> !white(#[trigger] t[q]),
        n < t.len() ==> white(t[n]),
    ensures
        word_run(t) == n,
    decreases t.len(),
{
    if n > 0 {
        assert forall|q: int| 0 <= q < n - 1 implies !white(#[trigger] t.drop_first()[q]) by {
            assert(t.drop_first()[q] == t[q + 1]);
        }
        if n < t.len() {
            assert(t.drop_first()[n - 1] == t[n]);
        }
        lemma_word_run_of(t.drop_first(), n - 1);
    }
}

proof fn lemma_tail_run_of(t: Seq<char>, n: int)
    requires
        0 <= n <= t.len(),
        forall|q: int| t.len() - n <= q < t.len() ==> !white(#[trigger] t[q]),
        n < t.len() ==> white(t[t.len() - n - 1]),
    ensures
        tail_run(t) == n,
    decreases t.len(),
{
    if n > 0 {
        let d = t.drop_last();
        assert forall|q: int| d.len() - (n - 1) <= q < d.len() implies !white(#[trigger] d[q]) by {
            assert(d[q] == t[q]);
        }
        if n < t.len() {
            assert(d[d.len() - (n - 1) - 1] == t[t.len() - n - 1]);
        }
        lemma_tail_run_of(d, n - 1);
    }
}

/// The first whitespace-separated word of `s`, if there is one.
pub fn first_word_of(s: &str) -> (r: Option<String>)
    ensures
        match r {
            Some(w) => first_word(s@) == Some(w@),
            None => first_word(s@) is None,
        },
{
    let cs = crate::text::chars_of(s);
    let mut lo: usize = 0;
    assert(cs@.skip(0) =~= cs@);
    while lo < cs.len() && is_white(cs[lo])
        invariant
            lo <= cs@.len(),
            cs@ == s@,
            trim_start(s@) == trim_start(cs@.skip(lo as int)),
        decreases cs@.len() - lo,
    {
        assert(cs@.skip(lo as int).drop_first() =~= cs@.skip(lo + 1));
        lo += 1;
    }
    let ghost t = cs@.skip(lo as int);
    assert(trim_start(s@) == t);
    if lo == cs.len() {
        return None;
    }
    let mut hi: usize = lo;
    let mut out: Vec<char> = Vec::new();
    while hi < cs.len() && !is_white(cs[hi])
        invariant
            lo <= hi <= cs@.len(),
            cs@ == s@,
            t == cs@.skip(lo as int),
            out@ == cs@.subrange(lo as int, hi as int),
            forall|q: int| lo <= q < hi ==> !white(#[trigger] cs@[q]),
        decreases cs@.len() - hi,
    {
        out.push(cs[hi]);
        hi += 1;
        assert(out@ =~= cs@.subrange(lo as int, hi as int));
    }
    proof {
        assert forall|q: int| 0 <= q < hi - lo implies !white(#[trigger] t[q]) by {
            assert(t[q] == cs@[lo + q]);
        }
        if hi < cs@.len() {
            assert(t[hi - lo] == cs@[hi as int]);
        }
        lemma_word_run_of(t, hi - lo);
        assert(t.take(hi - lo) =~= out@);
    }
    Some(string_of(&out))
}

/// The last whitespace-separated word of `s`, if there is one.
pub fn last_word_of(s: &str) -> (r: Option<String>)
    ensures
        match r {
            Some(w) => last_word(s@) == Some(w@) && w@.len() > 0,
            None => last_word(s@) is None,
        },
{
    let cs = crate::text::chars_of(s);
    let mut hi: usize = cs.len();
    assert(cs@.take(cs@.len() as int) =~= cs@);
    while hi > 0 && is_white(cs[hi - 1])
        invariant
            hi <= cs@.len(),
            cs@ == s@,
            trim_end(s@) == trim_end(cs@.take(hi as int)),
        decreases hi,
    {
        assert(cs@.take(hi as int).drop_last() =~= cs@.take(hi - 1));
        hi -= 1;
    }
    let ghost t = cs@.take(hi as int);
    assert(trim_end(s@) == t);
    if hi == 0 {
        return None;
    }
    let mut lo: usize = hi;
    while lo > 0 && !is_white(cs[lo - 1])
        invariant
            lo <= hi <= cs@.len(),
            cs@ == s@,
            t == cs@.take(hi as int),
            forall|q: int| lo <= q < hi ==> !white(#[trigger] cs@[q]),
        decreases lo,
    {
        lo -= 1;
    }
    let mut out: Vec<char> = Vec::new();
    let mut k: usize = lo;
    while k < hi
        invariant
            lo <= k <= hi,
            hi <= cs@.len(),
            out@ == cs@.subrange(lo as int, k as int),
        decreases hi - k,
    {
        out.push(cs[k]);
        k += 1;
        assert(out@ =~= cs@.subrange(lo as int, k as int));
    }
    proof {
        let n = hi - lo;
        assert forall|q: int| t.len() - n <= q < t.len() implies !white(#[trigger] t[q]) by {
            assert(t[q] == cs@[q]);
        }
        if lo > 0 {
            assert(t[t.len() - n - 1] == cs@[lo - 1]);
        }
        lemma_tail_run_of(t, n);
        assert(t.skip(t.len() - n) =~= out@);
    }
    Some(string_of(&out))
}


/// The family a finding is grouped in.
fn family_of(f: &Finding) -> (r: u8)
    ensures
        r as nat == family(f@),
{
    let p = f.property.as_str();
    if str_eq(p, "content") {
        0
    } else if str_eq(p, "x") || str_eq(p, "y") || str_eq(p, "width") || str_eq(p, "height") {
        1
    } else if str_eq(p, "font-size") || str_eq(p, "font-family") || str_eq(p, "font-weight") || str_eq(
        p,
        "line-height",
    ) || str_eq(p, "color") || str_eq(p, "background") {
        2
    } else {
        3
    }
}

/// The key a finding of a family is grouped under.
fn key_for(f: &Finding, family: u8) -> (r: Vec<String>)
    requires
        family as nat == crate::backtest::compact::family(f@),
        family < 3,
    ensures
        views(r@) == group_key(f@),
{
    let region = region_of_target(f.target.as_str());
    let mut r: Vec<String> = Vec::new();
    if family == 0 {
        let label = label_of(region.as_str(), f.target.as_str());
        let kind = match first_word_of(label.as_str()) {
            Some(w) => w,
            None => String::from_str("element"),
        };
        let way = if str_eq(f.source.as_str(), "present") {
            String::from_str("missing")
        } else {
            String::from_str("unexpected")
        };
        r.push(region);
        r.push(kind);
        r.push(way);
    } else if family == 1 {
        let delta = match last_word_of(f.line.as_str()) {
            Some(w) => w,
            None => String::new(),
        };
        r.push(region);
        r.push(f.property.clone());
        r.push(delta);
    } else {
        let delta = match last_word_of(f.line.as_str()) {
            Some(w) => {
                if crate::text::starts_with(w.as_str(), "+") || crate::text::starts_with(w.as_str(), "-") {
                    proof {
                        reveal_strlit("+");
                        reveal_strlit("-");
                        assert(w@[0] == w@.take(1)[0]);
                        assert(w@[0] == '+' || w@[0] == '-');
                    }
                    w
                } else {
                    proof {
                        reveal_strlit("+");
                        reveal_strlit("-");
                        assert(!crate::text::is_prefix("+"@, w@));
                        assert(!crate::text::is_prefix("-"@, w@));
                        if w@[0] == '+' {
                            assert(w@.subrange(0, 1) =~= "+"@);
                        }
                        if w@[0] == '-' {
                            assert(w@.subrange(0, 1) =~= "-"@);
                        }
                    }
                    String::new()
                }
            },
            None => String::new(),
        };
        r.push(region);
        r.push(f.property.clone());
        r.push(f.source.clone());
        r.push(f.candidate.clone());
        r.push(delta);
    }
    assert(views(r@) =~= group_key(f@));
    r
}


/// Findings gathered under one key.
struct Group {
    key: Vec<String>,
    members: Vec<Finding>,
}

spec fn group_keys(gs: Seq<Group>) -> Seq<Seq<Seq<char>>> {
    gs.map_values(|g: Group| views(g.key@))
}

/// The groups hold exactly the findings of family `c` in `p`, one group per
/// key, in ascending order of key.
spec fn tracks(gs: Seq<Group>, p: Seq<FindingView>, c: nat) -> bool {
    &&& ascending_keys(group_keys(gs))
    &&& forall|k: Seq<Seq<char>>| #[trigger] group_keys(gs).contains(k) <==> family_keys(p, c).contains(k)
    &&& forall|j: int| 0 <= j < gs.len() ==> finding_views((#[trigger] gs[j]).members@) == members(p, c, views(gs[j].key@))
}

proof fn lemma_members_len(fs: Seq<FindingView>, c: nat, k: Seq<Seq<char>>)
    ensures
        members(fs, c, k).len() <= fs.len(),
    decreases fs.len(),
{
    if fs.len() > 0 {
        lemma_members_len(fs.drop_last(), c, k);
    }
}

proof fn lemma_family_keys_push(p: Seq<FindingView>, f: FindingView, c: nat)
    ensures
        forall|k: Seq<Seq<char>>| #[trigger] family_keys(p.push(f), c).contains(k) <==> (family_keys(p, c).contains(k) || (
        family(f) == c && group_key(f) == k)),
{
    let q = p.push(f);
    assert forall|k: Seq<Seq<char>>| #[trigger] family_keys(q, c).contains(k) <==> (family_keys(p, c).contains(k) || (
    family(f) == c && group_key(f) == k)) by {
        if family_keys(q, c).contains(k) {
            let i = choose|i: int| 0 <= i < q.len() && family(#[trigger] q[i]) == c && group_key(q[i]) == k;
            if i < p.len() {
                assert(q[i] == p[i]);
            }
        }
        if family_keys(p, c).contains(k) {
            let i = choose|i: int| 0 <= i < p.len() && family(#[trigger] p[i]) == c && group_key(p[i]) == k;
            assert(q[i] == p[i]);
        }
        if family(f) == c && group_key(f) == k {
            assert(q[p.len() as int] == f);
        }
    }
}

proof fn lemma_members_push(p: Seq<FindingView>, f: FindingView, c: nat, k: Seq<Seq<char>>)
    ensures
        members(p.push(f), c, k) == if family(f) == c && group_key(f) == k {
            members(p, c, k).push(f)
        } else {
            members(p, c, k)
        },
{
    assert(p.push(f).drop_last() =~= p);
}

/// A finding of another family leaves the groups of family `c` as they are.
proof fn lemma_tracks_other(gs: Seq<Group>, p: Seq<FindingView>, f: FindingView, c: nat)
    requires
        tracks(gs, p, c),
        family(f) != c,
    ensures
        tracks(gs, p.push(f), c),
{
    lemma_family_keys_push(p, f, c);
    assert forall|j: int| 0 <= j < gs.len() implies finding_views((#[trigger] gs[j]).members@) == members(
        p.push(f),
        c,
        views(gs[j].key@),
    ) by {
        lemma_members_push(p, f, c, views(gs[j].key@));
    }
}

/// Adds a finding to the group of its key, opening the group in its place
/// in key order when there is none yet.
fn add_to(gs: &mut Vec<Group>, key: Vec<String>, f: Finding, Ghost(p): Ghost<Seq<FindingView>>, Ghost(c): Ghost<nat>)
    requires
        tracks(old(gs)@, p, c),
        family(f@) == c,
        group_key(f@) == views(key@),
    ensures
        tracks(final(gs)@, p.push(f@), c),
{
    let ghost fv = f@;
    let ghost q = p.push(fv);
    let ghost k = views(key@);
    proof {
        lemma_family_keys_push(p, fv, c);
    }
    let mut i: usize = 0;
    while i < gs.len() && key_less(&gs[i].key, &key)
        invariant
            i <= gs@.len(),
            k == views(key@),
            forall|j: int| 0 <= j < i ==> key_lt(#[trigger] group_keys(gs@)[j], k),
        decreases gs@.len() - i,
    {
        assert(group_keys(gs@)[i as int] == views(gs@[i as int].key@));
        i += 1;
    }
    let ghost before = gs@;
    let ghost bk = group_keys(before);
    if i < gs.len() && key_equal(&gs[i].key, &key) {
        let mut g = gs.remove(i);
        let ghost old_members = finding_views(g.members@);
        g.members.push(f);
        proof {
            assert(finding_views(g.members@) =~= old_members.push(fv));
            lemma_members_push(p, fv, c, k);
        }
        gs.insert(i, g);
        proof {
            assert(gs@ =~= before.update(i as int, g));
            assert(group_keys(gs@) =~= bk);
            assert forall|j: int| 0 <= j < gs@.len() implies finding_views((#[trigger] gs@[j]).members@) == members(
                q,
                c,
                views(gs@[j].key@),
            ) by {
                lemma_members_push(p, fv, c, views(gs@[j].key@));
                if j != i {
                    assert(gs@[j] == before[j]);
                    assert(bk[j] != k) by {
                        if j < i {
                            crate::order::lemma_key_irreflexive(k);
                        } else {
                            assert(key_lt(bk[i as int], bk[j]));
                            crate::order::lemma_key_irreflexive(k);
                        }
                    }
                }
            }
            assert forall|w: Seq<Seq<char>>| #[trigger] group_keys(gs@).contains(w) <==> family_keys(q, c).contains(w) by {
                if w == k {
                    assert(bk[i as int] == k);
                    assert(group_keys(gs@).contains(w));
                }
            }
        }
    } else {
        proof {
            if i < before.len() {
                lemma_key_total(bk[i as int], k);
                assert(key_lt(k, bk[i as int]));
            }
        }
        let mut ms: Vec<Finding> = Vec::new();
        ms.push(f);
        let g = Group { key, members: ms };
        gs.insert(i, g);
        proof {
            let after = group_keys(gs@);
            assert(after =~= bk.take(i as int).push(k) + bk.skip(i as int));
            assert forall|a: int, b: int| 0 <= a < b < after.len() implies key_lt(#[trigger] after[a], #[trigger] after[b]) by {
                if a < i && b > i {
                    assert(after[b] == bk[b - 1]);
                    assert(after[a] == bk[a]);
                    if b - 1 > i {
                        lemma_key_transitive(k, bk[i as int], bk[b - 1]);
                    }
                    lemma_key_transitive(after[a], k, after[b]);
                } else if a == i && b > i {
                    assert(after[b] == bk[b - 1]);
                    if b - 1 > i {
                        lemma_key_transitive(k, bk[i as int], bk[b - 1]);
                    }
                } else if a < i && b < i {
                    assert(after[a] == bk[a]);
                    assert(after[b] == bk[b]);
                } else if a > i {
                    assert(after[a] == bk[a - 1]);
                    assert(after[b] == bk[b - 1]);
                } else {
                    assert(after[a] == bk[a]);
                }
            }
            assert(!bk.contains(k)) by {
                if bk.contains(k) {
                    let j = choose|j: int| 0 <= j < bk.len() && bk[j] == k;
                    if j < i {
                        crate::order::lemma_key_irreflexive(k);
                    } else if j == i {
                        crate::order::lemma_key_irreflexive(k);
                    } else {
                        lemma_key_transitive(k, bk[i as int], bk[j]);
                        crate::order::lemma_key_irreflexive(k);
                    }
                }
            }
            assert(!family_keys(p, c).contains(k));
            assert forall|w: Seq<Seq<char>>| #[trigger] after.contains(w) <==> family_keys(q, c).contains(w) by {
                if after.contains(w) && w != k {
                    let j = choose|j: int| 0 <= j < after.len() && after[j] == w;
                    if j < i {
                        assert(bk[j] == w);
                    } else {
                        assert(bk[j - 1] == w);
                    }
                    assert(bk.contains(w));
                }
                if bk.contains(w) {
                    let j = choose|j: int| 0 <= j < bk.len() && bk[j] == w;
                    if j < i {
                        assert(after[j] == w);
                    } else {
                        assert(after[j + 1] == w);
                    }
                }
                if w == k {
                    assert(after[i as int] == w);
                }
            }
            assert forall|j: int| 0 <= j < gs@.len() implies finding_views((#[trigger] gs@[j]).members@) == members(
                q,
                c,
                views(gs@[j].key@),
            ) by {
                lemma_members_push(p, fv, c, views(gs@[j].key@));
                if j == i {
                    assert(members(p, c, k).len() == 0) by {
                        lemma_members_empty(p, c, k);
                    }
                    assert(finding_views(gs@[j].members@) =~= seq![fv]);
                    assert(members(p, c, k).push(fv) =~= seq![fv]);
                } else {
                    let o = if j < i { j } else { j - 1 };
                    assert(gs@[j] == before[o]);
                    assert(bk[o] != k);
                }
            }
        }
    }
}

/// A key no finding of the family falls under has no members.
proof fn lemma_members_empty(p: Seq<FindingView>, c: nat, k: Seq<Seq<char>>)
    requires
        !family_keys(p, c).contains(k),
    ensures
        members(p, c, k).len() == 0,
    decreases p.len(),
{
    if p.len() > 0 {
        let d = p.drop_last();
        assert(!family_keys(d, c).contains(k)) by {
            if family_keys(d, c).contains(k) {
                let i = choose|i: int| 0 <= i < d.len() && family(#[trigger] d[i]) == c && group_key(d[i]) == k;
                assert(p[i] == d[i]);
            }
        }
        if family(p.last()) == c && group_key(p.last()) == k {
            assert(p[p.len() - 1] == p.last());
        }
        lemma_members_empty(d, c, k);
    }
}


/// A key a finding of family `c` falls under has that family's shape.
proof fn lemma_key_shape(fs: Seq<FindingView>, c: nat, k: Seq<Seq<char>>)
    requires
        family_keys(fs, c).contains(k),
        c < 3,
    ensures
        k.len() == if c == 2 {
            5nat
        } else {
            3nat
        },
{
    let i = choose|i: int| 0 <= i < fs.len() && family(#[trigger] fs[i]) == c && group_key(fs[i]) == k;
}

/// `V<width> <scenario> <region>`.
fn opening(state: &State, region: &str) -> (r: String)
    ensures
        r@ == group_opening(*state, region@),
{
    let mut line = String::new();
    push_char(&mut line, 'V');
    push_decimal(&mut line, state.viewport.width as u128);
    push_char(&mut line, ' ');
    push_str(&mut line, state.scenario.as_str());
    push_char(&mut line, ' ');
    push_str(&mut line, region);
    assert(line@ =~= group_opening(*state, region@));
    line
}

/// The labels of a presence group: each element's target within its region.
fn plain_labels(region: &str, ms: &Vec<Finding>) -> (r: Vec<String>)
    ensures
        views(r@) == finding_views(ms@).map_values(|f: FindingView| label_in(region@, f.target)),
{
    let mut labels: Vec<String> = Vec::new();
    let mut i: usize = 0;
    while i < ms.len()
        invariant
            i <= ms@.len(),
            views(labels@) == finding_views(ms@).take(i as int).map_values(|f: FindingView| label_in(region@, f.target)),
        decreases ms@.len() - i,
    {
        let l = label_of(region, ms[i].target.as_str());
        let ghost before = views(labels@);
        labels.push(l);
        proof {
            assert(views(labels@) =~= before.push(l@));
            assert(finding_views(ms@).take(i + 1 as int).map_values(|f: FindingView| label_in(region@, f.target))
                =~= finding_views(ms@).take(i as int).map_values(|f: FindingView| label_in(region@, f.target)).push(
                label_in(region@, ms@[i as int]@.target),
            ));
        }
        i += 1;
    }
    assert(finding_views(ms@).take(ms@.len() as int) =~= finding_views(ms@));
    labels
}

/// Copies of the findings of a group too small to report as one.
fn copies(ms: &Vec<Finding>) -> (r: Vec<Finding>)
    ensures
        finding_views(r@) == finding_views(ms@),
{
    let mut out: Vec<Finding> = Vec::new();
    let mut i: usize = 0;
    while i < ms.len()
        invariant
            i <= ms@.len(),
            finding_views(out@) == finding_views(ms@).take(i as int),
        decreases ms@.len() - i,
    {
        let f = ms[i].duplicate();
        let ghost before = finding_views(out@);
        out.push(f);
        proof {
            assert(finding_views(out@) =~= before.push(f@));
            assert(finding_views(ms@).take(i + 1 as int) =~= finding_views(ms@).take(i as int).push(ms@[i as int]@));
        }
        i += 1;
    }
    assert(finding_views(ms@).take(ms@.len() as int) =~= finding_views(ms@));
    out
}

/// One group as reported.
fn emit(state: &State, c: u8, key: &Vec<String>, ms: &Vec<Finding>) -> (r: Vec<Finding>)
    requires
        c < 3,
        views(key@).len() == if c == 2 {
            5nat
        } else {
            3nat
        },
    ensures
        finding_views(r@) == emitted(*state, c as nat, views(key@), finding_views(ms@)),
{
    let ghost k = views(key@);
    let ghost vs = finding_views(ms@);
    let need: usize = if c == 0 {
        2
    } else {
        3
    };
    if ms.len() < need {
        return copies(ms);
    }
    let region = key[0].as_str();
    assert(region@ == k[0]);
    let mut line = opening(state, region);
    let mut target = String::new();
    push_str(&mut target, region);
    let mut out: Vec<Finding> = Vec::new();
    if c == 0 {
        let labels = plain_labels(region, ms);
        push_char(&mut line, ' ');
        push_str(&mut line, key[1].as_str());
        push_char(&mut line, ' ');
        push_str(&mut line, key[2].as_str());
        push_char(&mut line, ' ');
        push_decimal(&mut line, ms.len() as u128);
        push_str(&mut line, ": ");
        let listed = label_list(&labels);
        push_str(&mut line, listed.as_str());
        push_char(&mut target, ' ');
        push_str(&mut target, key[1].as_str());
        let ghost lv = views(labels@);
        let ghost expected = summary_of(*state, 0, k, vs);
        assert(line@ =~= expected.line);
        assert(target@ =~= expected.target);
        let f = summary_finding(state, target.as_str(), "content", line.as_str(), labels);
        assert(f@ == expected);
        out.push(f);
    } else if c == 1 {
        let labels = grouped_labels(region, ms);
        push_str(&mut line, " layout ");
        push_str(&mut line, key[1].as_str());
        push_str(&mut line, " shifted ");
        push_str(&mut line, key[2].as_str());
        push_str(&mut line, " (");
        push_decimal(&mut line, ms.len() as u128);
        push_str(&mut line, " elements: ");
        let listed = label_list(&labels);
        push_str(&mut line, listed.as_str());
        push_char(&mut line, ')');
        push_str(&mut target, " layout");
        let ghost expected = summary_of(*state, 1, k, vs);
        assert(line@ =~= expected.line);
        assert(target@ =~= expected.target);
        let f = summary_finding(state, target.as_str(), key[1].as_str(), line.as_str(), labels);
        assert(f@ == expected);
        out.push(f);
    } else {
        let labels = grouped_labels(region, ms);
        push_char(&mut line, ' ');
        push_str(&mut line, key[1].as_str());
        push_char(&mut line, ' ');
        push_str(&mut line, key[2].as_str());
        push_str(&mut line, "->");
        push_str(&mut line, key[3].as_str());
        let no_delta = key[4].as_str().unicode_len() == 0;
        let ghost head = line@;
        let ghost suffix = if k[4].len() == 0 {
            Seq::<char>::empty()
        } else {
            seq![' '] + k[4]
        };
        if !no_delta {
            push_char(&mut line, ' ');
            push_str(&mut line, key[4].as_str());
            assert(line@ =~= head + suffix);
        } else {
            assert(k[4] =~= Seq::<char>::empty());
            assert(line@ =~= head + suffix);
        }
        push_str(&mut line, " (");
        push_decimal(&mut line, ms.len() as u128);
        push_str(&mut line, " elements: ");
        let listed = label_list(&labels);
        push_str(&mut line, listed.as_str());
        push_char(&mut line, ')');
        push_char(&mut target, ' ');
        push_str(&mut target, key[1].as_str());
        let ghost expected = summary_of(*state, 2, k, vs);
        assert(line@ =~= expected.line);
        assert(target@ =~= expected.target);
        let f = summary_finding(state, target.as_str(), key[1].as_str(), line.as_str(), labels);
        assert(f@ == expected);
        out.push(f);
    }
    assert(finding_views(out@) =~= emitted(*state, c as nat, k, vs));
    out
}

/// Reports every group of family `c`, in key order, after what `out`
/// already holds.
fn emit_family(state: &State, c: u8, gs: &Vec<Group>, out: &mut Vec<Finding>, Ghost(fs): Ghost<Seq<FindingView>>)
    requires
        c < 3,
        tracks(gs@, fs, c as nat),
    ensures
        finding_views(final(out)@) == finding_views(old(out)@) + family_report(*state, c as nat, fs),
{
    let ghost keys = group_keys(gs@);
    let ghost shape: nat = if c == 2 {
        5
    } else {
        3
    };
    proof {
        lemma_enumerate_keys(keys, family_keys(fs, c as nat));
        assert forall|j: int| 0 <= j < gs@.len() implies views((#[trigger] gs@[j]).key@).len() == shape
            && finding_views(gs@[j].members@) == members(fs, c as nat, keys[j]) by {
            assert(keys[j] == views(gs@[j].key@));
            assert(keys.contains(keys[j]));
            lemma_key_shape(fs, c as nat, keys[j]);
            lemma_members_len(fs, c as nat, keys[j]);
        }
    }
    let ghost start = finding_views(out@);
    let mut j: usize = 0;
    while j < gs.len()
        invariant
            j <= gs@.len(),
            c < 3,
            keys == group_keys(gs@),
            shape == if c == 2 {
                5nat
            } else {
                3nat
            },
            forall|j: int| 0 <= j < gs@.len() ==> views((#[trigger] gs@[j]).key@).len() == shape
                && finding_views(gs@[j].members@) == members(fs, c as nat, keys[j]),
            finding_views(out@) == start + emit_all(*state, c as nat, keys.take(j as int), fs),
        decreases gs@.len() - j,
    {
        let ghost k = keys[j as int];
        proof {
            assert(k == views(gs@[j as int].key@));
            assert(keys.take(j + 1 as int).drop_last() =~= keys.take(j as int));
            assert(keys.take(j + 1 as int).last() == k);
        }
        let part = emit(state, c, &gs[j].key, &gs[j].members);
        let ghost before = finding_views(out@);
        let mut part = part;
        let ghost pv = finding_views(part@);
        out.append(&mut part);
        proof {
            assert(finding_views(out@) =~= before + pv);
        }
        j += 1;
    }
    assert(keys.take(gs@.len() as int) =~= keys);
}

proof fn lemma_ungrouped_push(p: Seq<FindingView>, f: FindingView)
    ensures
        ungrouped(p.push(f)) == if family(f) == 3 {
            ungrouped(p).push(f)
        } else {
            ungrouped(p)
        },
{
    assert(p.push(f).drop_last() =~= p);
}

/// Groups findings that share a root cause. A region's elements that went
/// missing, or appeared, together are one finding once there are two; a
/// shift by the same amount, or the same change of one style, is one finding
/// once there are three. Every grouped element is named in the finding that
/// replaces them. What groups with nothing keeps its place at the front.
pub fn compact_semantic_findings(state: &State, findings: Vec<Finding>) -> (r: Vec<Finding>)
    ensures
        finding_views(r@) == compacted(*state, finding_views(findings@)),
{
    let ghost fs = finding_views(findings@);
    let mut others: Vec<Finding> = Vec::new();
    let mut presence: Vec<Group> = Vec::new();
    let mut geometry: Vec<Group> = Vec::new();
    let mut style: Vec<Group> = Vec::new();
    proof {
        assert(fs.take(0) =~= Seq::<FindingView>::empty());
        assert forall|c: nat, k: Seq<Seq<char>>| !#[trigger] family_keys(fs.take(0), c).contains(k) by {}
    }
    let mut i: usize = 0;
    while i < findings.len()
        invariant
            i <= findings@.len(),
            fs == finding_views(findings@),
            finding_views(others@) == ungrouped(fs.take(i as int)),
            tracks(presence@, fs.take(i as int), 0),
            tracks(geometry@, fs.take(i as int), 1),
            tracks(style@, fs.take(i as int), 2),
        decreases findings@.len() - i,
    {
        let f = findings[i].duplicate();
        let ghost p = fs.take(i as int);
        let ghost fv = f@;
        proof {
            assert(fs.take(i + 1 as int) =~= p.push(fv));
            lemma_ungrouped_push(p, fv);
        }
        let fam = family_of(&f);
        if fam == 3 {
            let ghost before = finding_views(others@);
            others.push(f);
            proof {
                assert(finding_views(others@) =~= before.push(fv));
                lemma_tracks_other(presence@, p, fv, 0);
                lemma_tracks_other(geometry@, p, fv, 1);
                lemma_tracks_other(style@, p, fv, 2);
            }
        } else {
            let key = key_for(&f, fam);
            if fam == 0 {
                add_to(&mut presence, key, f, Ghost(p), Ghost(0));
                proof {
                    lemma_tracks_other(geometry@, p, fv, 1);
                    lemma_tracks_other(style@, p, fv, 2);
                }
            } else if fam == 1 {
                add_to(&mut geometry, key, f, Ghost(p), Ghost(1));
                proof {
                    lemma_tracks_other(presence@, p, fv, 0);
                    lemma_tracks_other(style@, p, fv, 2);
                }
            } else {
                add_to(&mut style, key, f, Ghost(p), Ghost(2));
                proof {
                    lemma_tracks_other(presence@, p, fv, 0);
                    lemma_tracks_other(geometry@, p, fv, 1);
                }
            }
        }
        i += 1;
    }
    assert(fs.take(findings@.len() as int) =~= fs);
    let mut out = others;
    emit_family(state, 0, &presence, &mut out, Ghost(fs));
    emit_family(state, 1, &geometry, &mut out, Ghost(fs));
    emit_family(state, 2, &style, &mut out, Ghost(fs));
    assert(finding_views(out@) =~= compacted(*state, fs));
    out
}


/// The keys of a family can always be listed in ascending order.
proof fn lemma_family_enumerable(fs: Seq<FindingView>, c: nat) -> (q: Seq<Seq<Seq<char>>>)
    ensures
        ascending_keys(q),
        forall|w: Seq<Seq<char>>| #[trigger] q.contains(w) <==> family_keys(fs, c).contains(w),
    decreases fs.len(),
{
    if fs.len() == 0 {
        let q = Seq::<Seq<Seq<char>>>::empty();
        assert forall|w: Seq<Seq<char>>| #[trigger] q.contains(w) <==> family_keys(fs, c).contains(w) by {}
        q
    } else {
        let p = fs.drop_last();
        let f = fs.last();
        assert(p.push(f) =~= fs);
        let q0 = lemma_family_enumerable(p, c);
        lemma_family_keys_push(p, f, c);
        if family(f) == c {
            crate::order::lemma_insert_key(q0, group_key(f));
            crate::order::insert_key(q0, group_key(f))
        } else {
            q0
        }
    }
}

proof fn lemma_member_in(fs: Seq<FindingView>, i: int)
    requires
        0 <= i < fs.len(),
    ensures
        members(fs, family(fs[i]), group_key(fs[i])).contains(fs[i]),
    decreases fs.len(),
{
    let c = family(fs[i]);
    let k = group_key(fs[i]);
    if i == fs.len() - 1 {
        assert(members(fs, c, k).last() == fs[i]);
    } else {
        let d = fs.drop_last();
        assert(d[i] == fs[i]);
        lemma_member_in(d, i);
        let m = members(d, c, k);
        let j = choose|j: int| 0 <= j < m.len() && m[j] == fs[i];
        if family(fs.last()) == c && group_key(fs.last()) == k {
            assert(members(fs, c, k)[j] == fs[i]);
        }
    }
}

proof fn lemma_ungrouped_in(fs: Seq<FindingView>, i: int)
    requires
        0 <= i < fs.len(),
        family(fs[i]) == 3,
    ensures
        ungrouped(fs).contains(fs[i]),
    decreases fs.len(),
{
    if i == fs.len() - 1 {
        assert(ungrouped(fs).last() == fs[i]);
    } else {
        let d = fs.drop_last();
        assert(d[i] == fs[i]);
        lemma_ungrouped_in(d, i);
        let m = ungrouped(d);
        let j = choose|j: int| 0 <= j < m.len() && m[j] == fs[i];
        if family(fs.last()) == 3 {
            assert(ungrouped(fs)[j] == fs[i]);
        }
    }
}

proof fn lemma_emit_all_in(s: State, c: nat, keys: Seq<Seq<Seq<char>>>, fs: Seq<FindingView>, k: Seq<Seq<char>>, x: FindingView)
    requires
        keys.contains(k),
        emitted(s, c, k, members(fs, c, k)).contains(x),
    ensures
        emit_all(s, c, keys, fs).contains(x),
    decreases keys.len(),
{
    let e = emitted(s, c, k, members(fs, c, k));
    let j = choose|j: int| 0 <= j < e.len() && e[j] == x;
    let all = emit_all(s, c, keys, fs);
    if keys.last() == k {
        let front = emit_all(s, c, keys.drop_last(), fs);
        assert(all[front.len() + j] == x);
    } else {
        let m = choose|m: int| 0 <= m < keys.len() && keys[m] == k;
        assert(keys.drop_last()[m] == k);
        lemma_emit_all_in(s, c, keys.drop_last(), fs, k, x);
        let front = emit_all(s, c, keys.drop_last(), fs);
        let n = choose|n: int| 0 <= n < front.len() && front[n] == x;
        assert(all[n] == x);
    }
}

proof fn lemma_label_counted(labels: Seq<Seq<char>>, m: int)
    requires
        0 <= m < labels.len(),
    ensures
        exists|i: int| 0 <= i < crate::backtest::grouping::label_counts(labels).len() && (#[trigger] crate::backtest::grouping::label_counts(labels)[i]).0 == labels[m],
    decreases labels.len(),
{
    let counts = crate::backtest::grouping::label_counts(labels);
    let before = crate::backtest::grouping::label_counts(labels.drop_last());
    let l = labels.last();
    if m < labels.len() - 1 {
        assert(labels.drop_last()[m] == labels[m]);
        lemma_label_counted(labels.drop_last(), m);
        let i = choose|i: int| 0 <= i < before.len() && (#[trigger] before[i]).0 == labels[m];
        assert(counts[i].0 == labels[m]);
    } else {
        if exists|i: int| 0 <= i < before.len() && #[trigger] before[i].0 == l {
            let i = choose|i: int| 0 <= i < before.len() && #[trigger] before[i].0 == l;
            assert(counts[i].0 == l);
        } else {
            assert(counts[before.len() as int].0 == l);
        }
    }
}

/// Grouping never drops an element: every finding either stands in the
/// compacted findings as it was, or one of them names its element, by its
/// target within its region, at the start of one of its items.
pub proof fn grouping_names_every_element(s: State, fs: Seq<FindingView>, i: int)
    requires
        0 <= i < fs.len(),
    ensures
        compacted(s, fs).contains(fs[i]) || exists|g: FindingView|
            #[trigger] compacted(s, fs).contains(g) && exists|j: int|
                0 <= j < g.items.len() && crate::text::is_prefix(
                    label_in(region_part(fs[i].target), fs[i].target),
                    #[trigger] g.items[j],
                ),
{
    let f = fs[i];
    let c = family(f);
    let all = compacted(s, fs);
    let u = ungrouped(fs);
    let r0 = family_report(s, 0, fs);
    let r1 = family_report(s, 1, fs);
    let r2 = family_report(s, 2, fs);
    assert(all == u + r0 + r1 + r2);
    if c == 3 {
        lemma_ungrouped_in(fs, i);
        let j = choose|j: int| 0 <= j < u.len() && u[j] == f;
        assert(all[j] == f);
    } else {
        let k = group_key(f);
        let ms = members(fs, c, k);
        lemma_member_in(fs, i);
        let q = lemma_family_enumerable(fs, c);
        lemma_enumerate_keys(q, family_keys(fs, c));
        assert(family_keys(fs, c).contains(k));
        assert(q.contains(k));
        let e = emitted(s, c, k, ms);
        let g = if ms.len() >= threshold(c) {
            summary_of(s, c, k, ms)
        } else {
            f
        };
        assert(e.contains(g)) by {
            if ms.len() >= threshold(c) {
                assert(e[0] == g);
            }
        }
        lemma_emit_all_in(s, c, q, fs, k, g);
        let rc = family_report(s, c, fs);
        assert(rc.contains(g));
        let n = choose|n: int| 0 <= n < rc.len() && rc[n] == g;
        if c == 0 {
            assert(all[u.len() + n] == g);
        } else if c == 1 {
            assert(all[u.len() + r0.len() + n] == g);
        } else {
            assert(all[u.len() + r0.len() + r1.len() + n] == g);
        }
        assert(all.contains(g));
        if ms.len() >= threshold(c) {
            let region = region_part(f.target);
            let label = label_in(region, f.target);
            let mi = choose|mi: int| 0 <= mi < ms.len() && ms[mi] == f;
            assert(k[0] == region);
            if c == 0 {
                let labels = ms.map_values(|v: FindingView| label_in(region, v.target));
                assert(g.items == labels);
                assert(labels[mi] == label);
                assert(labels[mi].take(label.len() as int) =~= label);
                assert(crate::text::is_prefix(label, g.items[mi]));
            } else {
                let labels = ms.map_values(|v: FindingView| label_in(region, v.target));
                assert(labels[mi] == label);
                lemma_label_counted(labels, mi);
                let counts = crate::backtest::grouping::label_counts(labels);
                let ci = choose|ci: int| 0 <= ci < counts.len() && (#[trigger] counts[ci]).0 == labels[mi];
                assert(g.items == grouped(region, ms));
                assert(g.items[ci] == crate::backtest::grouping::counted(counts[ci]));
                assert(g.items[ci].take(label.len() as int) =~= label);
                assert(crate::text::is_prefix(label, g.items[ci]));
            }
        }
    }
}

} // verus!
