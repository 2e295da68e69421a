//! Findings grouped under one root cause: every affected element is named,
//! and elements that share a label are counted rather than repeated.
use crate::backtest::authored::joined_by;
use crate::backtest::model::{Finding, FindingView, State};
use crate::backtest::report::join_with;
use crate::backtest::semantic::{trimmed, trim};
use crate::order::views;
use crate::text::{decimal, is_prefix, push_decimal, push_str, starts_with, str_eq};
use vstd::prelude::*;

verus! {

broadcast use vstd::string::group_string_axioms;

/// Every label, joined by commas; grouping never drops one.
pub open spec fn label_line(labels: Seq<Seq<char>>) -> Seq<char> {
    joined_by(labels, ", "@)
}

pub fn label_list(labels: &Vec<String>) -> (r: String)
    ensures
        r@ == label_line(views(labels@)),
{
    join_with(labels, ", ")
}

/// A finding's target without its region prefix.
pub open spec fn label_in(region: Seq<char>, target: Seq<char>) -> Seq<char> {
    let prefix = region + " / "@;
    if is_prefix(prefix, target) {
        target.skip(prefix.len() as int)
    } else {
        target
    }
}

pub fn label_of(region: &str, target: &str) -> (r: String)
    ensures
        r@ == label_in(region@, target@),
{
    let mut prefix = String::new();
    push_str(&mut prefix, region);
    push_str(&mut prefix, " / ");
    if starts_with(target, prefix.as_str()) {
        let cs = crate::text::chars_of(target);
        let start = prefix.as_str().unicode_len();
        let mut rest: Vec<char> = Vec::new();
        let mut i: usize = start;
        while i < cs.len()
            invariant
                start <= i <= cs@.len(),
                rest@ == cs@.subrange(start as int, i as int),
            decreases cs@.len() - i,
        {
            rest.push(cs[i]);
            i += 1;
            assert(rest@ =~= cs@.subrange(start as int, i as int));
        }
        assert(cs@.subrange(start as int, cs@.len() as int) =~= cs@.skip(start as int));
        crate::text::string_of(&rest)
    } else {
        String::from_str(target)
    }
}

/// Distinct labels in first-seen order, with how often each occurs.
pub open spec fn label_counts(labels: Seq<Seq<char>>) -> Seq<(Seq<char>, nat)>
    decreases labels.len(),
{
    if labels.len() == 0 {
        seq![]
    } else {
        let counts = label_counts(labels.drop_last());
        let l = labels.last();
        if exists|i: int| 0 <= i < counts.len() && #[trigger] counts[i].0 == l {
            let i = choose|i: int| 0 <= i < counts.len() && #[trigger] counts[i].0 == l;
            counts.update(i, (l, counts[i].1 + 1))
        } else {
            counts.push((l, 1))
        }
    }
}

/// A counted label: `label xN` when it occurs more than once.
pub open spec fn counted(entry: (Seq<char>, nat)) -> Seq<char> {
    if entry.1 > 1 {
        entry.0 + " x"@ + decimal(entry.1)
    } else {
        entry.0
    }
}

/// The labels of a group of findings in a region, counted.
pub open spec fn grouped(region: Seq<char>, values: Seq<FindingView>) -> Seq<Seq<char>> {
    label_counts(values.map_values(|f: FindingView| label_in(region, f.target))).map_values(
        |e: (Seq<char>, nat)| counted(e),
    )
}

proof fn lemma_counts_distinct(labels: Seq<Seq<char>>)
    ensures
        forall|i: int, j: int|
            0 <= i < j < label_counts(labels).len() ==> #[trigger] label_counts(labels)[i].0 != #[trigger] label_counts(
                labels,
            )[j].0,
        forall|i: int| 0 <= i < label_counts(labels).len() ==> (#[trigger] label_counts(labels)[i]).1 <= labels.len(),
        label_counts(labels).len() <= labels.len(),
    decreases labels.len(),
{
    if labels.len() > 0 {
        lemma_counts_distinct(labels.drop_last());
    }
}

pub fn grouped_labels(region: &str, values: &Vec<Finding>) -> (r: Vec<String>)
    ensures
        views(r@) == grouped(region@, crate::backtest::model::finding_views(values@)),
{
    let ghost labels = crate::backtest::model::finding_views(values@).map_values(
        |f: FindingView| label_in(region@, f.target),
    );
    let mut names: Vec<String> = Vec::new();
    let mut counts: Vec<usize> = Vec::new();
    let mut i: usize = 0;
    while i < values.len()
        invariant
            i <= values@.len(),
            labels == crate::backtest::model::finding_views(values@).map_values(
                |f: FindingView| label_in(region@, f.target),
            ),
            names@.len() == counts@.len(),
            label_counts(labels.take(i as int)).len() == names@.len(),
            forall|k: int| 0 <= k < names@.len() ==> (#[trigger] names@[k])@ == label_counts(labels.take(i as int))[k].0
                && counts@[k] == label_counts(labels.take(i as int))[k].1,
        decreases values@.len() - i,
    {
        let label = label_of(region, values[i].target.as_str());
        proof {
            let t = labels.take(i + 1 as int);
            assert(t.drop_last() =~= labels.take(i as int));
            assert(t.last() == label@);
            lemma_counts_distinct(labels.take(i as int));
        }
        let mut k: usize = 0;
        let mut at: Option<usize> = None;
        while k < names.len()
            invariant
                k <= names@.len(),
                names@.len() == counts@.len(),
                match at {
                    Some(p) => p < names@.len() && names@[p as int]@ == label@,
                    None => forall|q: int| 0 <= q < k ==> names@[q]@ != label@,
                },
            decreases names@.len() - k,
        {
            if at.is_none() && str_eq(names[k].as_str(), label.as_str()) {
                at = Some(k);
            }
            k += 1;
        }
        let ghost c0 = label_counts(labels.take(i as int));
        match at {
            Some(p) => {
                proof {
                    assert(c0[p as int].0 == label@);
                    let j = choose|j: int| 0 <= j < c0.len() && #[trigger] c0[j].0 == label@;
                    if j != p {
                        if j < p {
                            assert(c0[j].0 != c0[p as int].0);
                        } else {
                            assert(c0[p as int].0 != c0[j].0);
                        }
                    }
                    assert(c0[p as int].1 <= labels.take(i as int).len());
                }
                assert(names@[p as int]@ == c0[p as int].0 && counts@[p as int] == c0[p as int].1);
                let ghost old_counts = counts@;
                assert forall|q: int| 0 <= q < names@.len() implies names@[q]@ == c0[q].0 && old_counts[q]
                    == c0[q].1 by {
                    assert(names@[q]@ == c0[q].0);
                }
                let c = counts[p] + 1;
                counts.set(p, c);
                proof {
                    let c1 = label_counts(labels.take(i + 1 as int));
                    assert(c1 == c0.update(p as int, (label@, c0[p as int].1 + 1)));
                    assert forall|q: int| 0 <= q < names@.len() implies (#[trigger] names@[q])@ == c1[q].0 && counts@[q]
                        == c1[q].1 by {
                        if q != p {
                            assert(c1[q] == c0[q]);
                            assert(names@[q]@ == c0[q].0 && old_counts[q] == c0[q].1);
                        }
                    }
                }
            },
            None => {
                proof {
                    assert forall|j: int| 0 <= j < c0.len() implies #[trigger] c0[j].0 != label@ by {
                        assert(names@[j]@ == c0[j].0);
                    }
                }
                let ghost l = label@;
                let ghost old_names = names@;
                let ghost old_counts = counts@;
                assert forall|q: int| 0 <= q < old_names.len() implies old_names[q]@ == c0[q].0 && old_counts[q]
                    == c0[q].1 by {
                    assert(names@[q]@ == c0[q].0);
                }
                names.push(label);
                counts.push(1);
                proof {
                    let c1 = label_counts(labels.take(i + 1 as int));
                    assert(c1 == c0.push((l, 1nat)));
                    assert forall|q: int| 0 <= q < names@.len() implies (#[trigger] names@[q])@ == c1[q].0 && counts@[q]
                        == c1[q].1 by {
                        if q < c0.len() {
                            assert(c1[q] == c0[q]);
                            assert(old_names[q]@ == c0[q].0 && old_counts[q] == c0[q].1);
                            assert(names@[q] == old_names[q]);
                            assert(counts@[q] == old_counts[q]);
                        } else {
                            assert(q == c0.len());
                            assert(names@[q]@ == l);
                        }
                    }
                }
            },
        }
        i += 1;
    }
    assert(labels.take(values@.len() as int) =~= labels);
    let ghost c = label_counts(labels);
    let mut r: Vec<String> = Vec::new();
    let mut k: usize = 0;
    while k < names.len()
        invariant
            k <= names@.len(),
            names@.len() == counts@.len(),
            c.len() == names@.len(),
            forall|q: int| 0 <= q < names@.len() ==> (#[trigger] names@[q])@ == c[q].0 && counts@[q] == c[q].1,
            views(r@) == c.take(k as int).map_values(|e: (Seq<char>, nat)| counted(e)),
        decreases names@.len() - k,
    {
        let mut s = names[k].clone();
        if counts[k] > 1 {
            push_str(&mut s, " x");
            push_decimal(&mut s, counts[k] as u128);
        }
        let ghost before = views(r@);
        r.push(s);
        proof {
            reveal_strlit(" x");
            assert(views(r@) =~= before.push(counted(c[k as int])));
            assert(c.take(k + 1 as int).map_values(|e: (Seq<char>, nat)| counted(e)) =~= c.take(k as int).map_values(
                |e: (Seq<char>, nat)| counted(e),
            ).push(counted(c[k as int])));
        }
        k += 1;
    }
    assert(c.take(names@.len() as int) =~= c);
    r
}

/// The finding a group of findings is summed up as: keyed by width,
/// target and property, with every grouped element as an item.
pub open spec fn summary_value(s: State, target: Seq<char>, property: Seq<char>, line: Seq<char>, items: Seq<Seq<char>>) -> FindingView {
    FindingView {
        key: decimal(s.viewport.width as nat) + seq![':'] + target + seq![':'] + property,
        line,
        viewport: s.viewport.width,
        scenario: s.scenario@,
        target,
        property,
        source: seq![],
        candidate: seq![],
        severity: "error"@,
        confidence: "exact"@,
        items,
    }
}

pub fn summary_finding(state: &State, target: &str, property: &str, line: &str, items: Vec<String>) -> (r: Finding)
    ensures
        r@ == summary_value(*state, target@, property@, line@, views(items@)),
{
    let mut key = String::new();
    push_decimal(&mut key, state.viewport.width as u128);
    push_str(&mut key, ":");
    push_str(&mut key, target);
    push_str(&mut key, ":");
    push_str(&mut key, property);
    proof {
        reveal_strlit(":");
    }
    let r = Finding {
        key,
        line: String::from_str(line),
        viewport: state.viewport.width,
        scenario: state.scenario.clone(),
        target: String::from_str(target),
        property: String::from_str(property),
        source: String::new(),
        candidate: String::new(),
        severity: String::from_str("error"),
        confidence: String::from_str("exact"),
        items,
    };
    assert(r@.key =~= summary_value(*state, target@, property@, line@, views(r.items@)).key);
    r
}

/// The first family of a font stack, unquoted.
pub open spec fn first_family(value: Seq<char>) -> Seq<char> {
    let head = match first_comma(value) {
        Some(i) => value.take(i),
        None => value,
    };
    strip_quotes(trimmed(head))
}

/// The position of the first comma.
pub open spec fn first_comma(v: Seq<char>) -> Option<int> {
    if exists|i: int| 0 <= i < v.len() && v[i] == ',' {
        Some(choose|i: int| 0 <= i < v.len() && v[i] == ',' && forall|j: int| 0 <= j < i ==> v[j] != ',')
    } else {
        None
    }
}

/// Double quotes removed from both ends, as many as there are.
pub open spec fn strip_quotes(v: Seq<char>) -> Seq<char>
    decreases v.len(),
{
    if v.len() > 0 && v[0] == '"' {
        strip_quotes(v.drop_first())
    } else if v.len() > 0 && v.last() == '"' {
        strip_quotes(v.drop_last())
    } else {
        v
    }
}


/// The family a font stack is drawn in: its first entry, trimmed and
/// unquoted.
pub fn normalized_font_family(value: &str) -> (r: String)
    ensures
        r@ == first_family(value@),
{
    let cs = crate::text::chars_of(value);
    let mut i: usize = 0;
    while i < cs.len() && cs[i] != ','
        invariant
            i <= cs@.len(),
            forall|j: int| 0 <= j < i ==> cs@[j] != ',',
        decreases cs@.len() - i,
    {
        i += 1;
    }
    proof {
        if i < cs@.len() {
            assert(cs@[i as int] == ',');
            let q = choose|q: int| 0 <= q < value@.len() && value@[q] == ',' && forall|j: int| 0 <= j < q ==> value@[j] != ',';
            if q < i {
                assert(cs@[q] != ',');
            }
            if q > i {
                assert(value@[i as int] != ',');
            }
            assert(first_comma(value@) == Some(i as int));
        } else {
            assert(first_comma(value@) is None);
        }
    }
    let mut head: Vec<char> = Vec::new();
    let mut k: usize = 0;
    while k < i
        invariant
            k <= i <= cs@.len(),
            head@ == cs@.take(k as int),
        decreases i - k,
    {
        head.push(cs[k]);
        k += 1;
        assert(head@ =~= cs@.take(k as int));
    }
    assert(cs@.take(cs@.len() as int) =~= cs@);
    let head_text = crate::text::string_of(&head);
    let t = trim(head_text.as_str());
    let tc = crate::text::chars_of(t.as_str());
    let mut lo: usize = 0;
    assert(tc@.subrange(0, tc@.len() as int) =~= tc@);
    while lo < tc.len() && tc[lo] == '"'
        invariant
            lo <= tc@.len(),
            strip_quotes(tc@) == strip_quotes(tc@.subrange(lo as int, tc@.len() as int)),
        decreases tc@.len() - lo,
    {
        assert(tc@.subrange(lo as int, tc@.len() as int).drop_first() =~= tc@.subrange(lo + 1, tc@.len() as int));
        lo += 1;
    }
    let mut hi: usize = tc.len();
    while hi > lo && tc[hi - 1] == '"'
        invariant
            lo <= hi <= tc@.len(),
            lo < tc@.len() ==> tc@[lo as int] != '"',
            strip_quotes(tc@) == strip_quotes(tc@.subrange(lo as int, hi as int)),
        decreases hi,
    {
        proof {
            let v = tc@.subrange(lo as int, hi as int);
            assert(v[0] == tc@[lo as int]);
            if hi - 1 == lo {
                assert(v[0] == '"');
            }
            assert(v.drop_last() =~= tc@.subrange(lo as int, hi - 1));
        }
        hi -= 1;
    }
    let mut out: Vec<char> = Vec::new();
    let mut m: usize = lo;
    while m < hi
        invariant
            lo <= m <= hi <= tc@.len(),
            out@ == tc@.subrange(lo as int, m as int),
        decreases hi - m,
    {
        out.push(tc[m]);
        m += 1;
        assert(out@ =~= tc@.subrange(lo as int, m as int));
    }
    proof {
        let v = tc@.subrange(lo as int, hi as int);
        if v.len() > 0 {
            assert(v[0] == tc@[lo as int]);
            assert(v.last() == tc@[hi - 1]);
        }
    }
    crate::text::string_of(&out)
}

} // verus!
