//! What a reader gets: findings withheld by declared allowances, and the
//! plain-text report.
use crate::backtest::authored::joined_by;
use crate::backtest::model::{Finding, FindingView, Report, Status, finding_views};
use crate::backtest::semantic::trim_end;
use crate::order::views;
use crate::text::{contains_seq, contains_str, decimal, is_prefix, push_char, push_decimal, push_str, replace_all, replaced, str_eq};
use vstd::prelude::*;

verus! {

broadcast use vstd::string::group_string_axioms;

/// The lowercase form of a string as `str::to_lowercase` gives it, by the
/// Unicode case mapping.
pub uninterp spec fn lowercase(s: Seq<char>) -> Seq<char>;

/// `str::to_lowercase`: the contract names the result `lowercase` of the
/// input; the Unicode case mapping itself is not restated.
#[verifier::external_body]
fn to_lower(s: &str) -> (r: String)
    ensures
        r@ == lowercase(s@),
{
    s.to_lowercase()
}

/// Whether an allowance covers a finding line: the allowance occurs in the
/// line, case aside.
pub open spec fn allows(line: Seq<char>, allowance: Seq<char>) -> bool {
    contains_seq(lowercase(line), lowercase(allowance))
}

/// Whether any allowance covers a line.
pub open spec fn any_allows(line: Seq<char>, allowances: Seq<Seq<char>>) -> bool {
    exists|i: int| 0 <= i < allowances.len() && allows(line, #[trigger] allowances[i])
}

/// Whether an allowance covers any finding.
pub open spec fn used(allowance: Seq<char>, findings: Seq<FindingView>) -> bool {
    exists|i: int| 0 <= i < findings.len() && allows((#[trigger] findings[i]).line, allowance)
}

/// The allowances that cover no finding, in order.
pub open spec fn unused(allowances: Seq<Seq<char>>, findings: Seq<FindingView>) -> Seq<Seq<char>>
    decreases allowances.len(),
{
    if allowances.len() == 0 {
        seq![]
    } else if used(allowances.last(), findings) {
        unused(allowances.drop_last(), findings)
    } else {
        unused(allowances.drop_last(), findings).push(allowances.last())
    }
}

/// The findings some allowance covers (`keep` false) or that none does
/// (`keep` true), in order.
pub open spec fn partitioned(findings: Seq<FindingView>, allowances: Seq<Seq<char>>, keep: bool) -> Seq<FindingView>
    decreases findings.len(),
{
    if findings.len() == 0 {
        seq![]
    } else if any_allows(findings.last().line, allowances) != keep {
        partitioned(findings.drop_last(), allowances, keep).push(findings.last())
    } else {
        partitioned(findings.drop_last(), allowances, keep)
    }
}

/// Allowances split the findings in two, each finding on exactly one side:
/// the kept ones are those no allowance matches, the withheld ones those
/// some allowance matches, and together they number all the findings.
pub proof fn allowances_partition_the_findings(findings: Seq<FindingView>, allowances: Seq<Seq<char>>)
    ensures
        partitioned(findings, allowances, true).len() + partitioned(findings, allowances, false).len()
            == findings.len(),
        forall|f: FindingView| #[trigger] partitioned(findings, allowances, true).contains(f) ==> findings.contains(f)
            && !any_allows(f.line, allowances),
        forall|f: FindingView| #[trigger] partitioned(findings, allowances, false).contains(f) ==> findings.contains(f)
            && any_allows(f.line, allowances),
    decreases findings.len(),
{
    if findings.len() > 0 {
        let t = findings.drop_last();
        allowances_partition_the_findings(t, allowances);
        assert forall|f: FindingView| #[trigger] partitioned(findings, allowances, true).contains(f) implies findings.contains(f)
            && !any_allows(f.line, allowances) by {
            let p = partitioned(findings, allowances, true);
            let k = choose|k: int| 0 <= k < p.len() && p[k] == f;
            if f != findings.last() || !p.contains(f) {
                let q = partitioned(t, allowances, true);
                if k < q.len() {
                    assert(q[k] == f);
                    assert(q.contains(f));
                    let m = choose|m: int| 0 <= m < t.len() && t[m] == f;
                    assert(findings[m] == f);
                }
            }
            if f == findings.last() {
                assert(findings[findings.len() - 1] == f);
            }
        }
        assert forall|f: FindingView| #[trigger] partitioned(findings, allowances, false).contains(f) implies findings.contains(f)
            && any_allows(f.line, allowances) by {
            let p = partitioned(findings, allowances, false);
            let k = choose|k: int| 0 <= k < p.len() && p[k] == f;
            let q = partitioned(t, allowances, false);
            if k < q.len() {
                assert(q[k] == f);
                assert(q.contains(f));
                let m = choose|m: int| 0 <= m < t.len() && t[m] == f;
                assert(findings[m] == f);
            } else {
                assert(findings[findings.len() - 1] == f);
            }
        }
    }
}

fn lowered(values: &Vec<String>) -> (r: Vec<String>)
    ensures
        r@.len() == values@.len(),
        forall|i: int| 0 <= i < values@.len() ==> (#[trigger] r@[i])@ == lowercase(values@[i]@),
{
    let mut r: Vec<String> = Vec::new();
    let mut i: usize = 0;
    while i < values.len()
        invariant
            i <= values@.len(),
            r@.len() == i,
            forall|j: int| 0 <= j < i ==> (#[trigger] r@[j])@ == lowercase(values@[j]@),
        decreases values@.len() - i,
    {
        r.push(to_lower(values[i].as_str()));
        i += 1;
    }
    r
}

fn any_allowance(line_lower: &String, allowances_lower: &Vec<String>, Ghost(line): Ghost<Seq<char>>, Ghost(all): Ghost<Seq<Seq<char>>>) -> (r: bool)
    requires
        line_lower@ == lowercase(line),
        allowances_lower@.len() == all.len(),
        forall|i: int| 0 <= i < all.len() ==> (#[trigger] allowances_lower@[i])@ == lowercase(all[i]),
    ensures
        r == any_allows(line, all),
{
    let mut i: usize = 0;
    while i < allowances_lower.len()
        invariant
            i <= all.len(),
            allowances_lower@.len() == all.len(),
            forall|j: int| 0 <= j < all.len() ==> (#[trigger] allowances_lower@[j])@ == lowercase(all[j]),
            line_lower@ == lowercase(line),
            forall|j: int| 0 <= j < i ==> !allows(line, #[trigger] all[j]),
        decreases all.len() - i,
    {
        if contains_str(line_lower.as_str(), allowances_lower[i].as_str()) {
            assert(allows(line, all[i as int]));
            return true;
        }
        i += 1;
    }
    false
}

/// Withholds the findings the caller declared expected, so a comparison
/// whose only remaining differences are known can still pass; an allowance
/// that matches nothing is reported instead of ignored. Nothing changes
/// without allowances, or for a comparison that reached no verdict.
pub fn apply_allowances(report: &mut Report, allowances: &Vec<String>)
    ensures
        allowances@.len() == 0 || !(old(report).status == Status::Pass || old(report).status == Status::Fail)
            ==> *final(report) == *old(report),
        allowances@.len() > 0 && (old(report).status == Status::Pass || old(report).status == Status::Fail) ==> {
            let fs = finding_views(old(report).findings@);
            let al = views(allowances@);
            &&& views(final(report).unused_allowances@) == unused(al, fs)
            &&& finding_views(final(report).allowed@) == partitioned(fs, al, false)
            &&& finding_views(final(report).findings@) == partitioned(fs, al, true)
            &&& final(report).status == (if old(report).status == Status::Fail && partitioned(fs, al, true).len()
                == 0 {
                Status::Pass
            } else {
                old(report).status
            })
            &&& final(report).schema_version == old(report).schema_version
            &&& final(report).suppressed_duplicates == old(report).suppressed_duplicates
            &&& final(report).elapsed_ms == old(report).elapsed_ms
            &&& final(report).source_digest == old(report).source_digest
            &&& final(report).candidate_digest == old(report).candidate_digest
            &&& final(report).diagnostic == old(report).diagnostic
            &&& final(report).scope == old(report).scope
        },
{
    if allowances.len() == 0 || !(report.status == Status::Pass || report.status == Status::Fail) {
        return;
    }
    let ghost fs = finding_views(report.findings@);
    let ghost al = views(allowances@);
    let lower_allowances = lowered(allowances);
    let mut lines: Vec<String> = Vec::new();
    let mut i: usize = 0;
    while i < report.findings.len()
        invariant
            i <= report.findings@.len(),
            fs == finding_views(report.findings@),
            lines@.len() == i,
            forall|j: int| 0 <= j < i ==> (#[trigger] lines@[j])@ == lowercase(fs[j].line),
        decreases report.findings@.len() - i,
    {
        assert(fs[i as int] == report.findings@[i as int]@);
        lines.push(to_lower(report.findings[i].line.as_str()));
        i += 1;
    }
    let mut stale: Vec<String> = Vec::new();
    let mut a: usize = 0;
    while a < allowances.len()
        invariant
            a <= allowances@.len(),
            al == views(allowances@),
            lower_allowances@.len() == allowances@.len(),
            forall|j: int| 0 <= j < allowances@.len() ==> (#[trigger] lower_allowances@[j])@ == lowercase(allowances@[j]@),
            lines@.len() == fs.len(),
            forall|j: int| 0 <= j < fs.len() ==> (#[trigger] lines@[j])@ == lowercase(fs[j].line),
            views(stale@) == unused(al.take(a as int), fs),
        decreases allowances@.len() - a,
    {
        let mut hit = false;
        let mut k: usize = 0;
        while k < lines.len()
            invariant
                k <= lines@.len(),
                lines@.len() == fs.len(),
                forall|j: int| 0 <= j < fs.len() ==> (#[trigger] lines@[j])@ == lowercase(fs[j].line),
                lower_allowances@.len() == allowances@.len(),
                a < allowances@.len(),
                lower_allowances@[a as int]@ == lowercase(allowances@[a as int]@),
                hit == exists|j: int| 0 <= j < k && allows((#[trigger] fs[j]).line, allowances@[a as int]@),
            decreases lines@.len() - k,
        {
            let m = contains_str(lines[k].as_str(), lower_allowances[a].as_str());
            proof {
                if !m && !hit {
                    assert forall|j: int| 0 <= j < k + 1 implies !allows((#[trigger] fs[j]).line, allowances@[a as int]@) by {
                        if j < k {
                            assert(!allows(fs[j].line, allowances@[a as int]@));
                        }
                    }
                }
                if m {
                    assert(allows(fs[k as int].line, allowances@[a as int]@));
                }
            }
            if m {
                hit = true;
            }
            k += 1;
        }
        proof {
            let t = al.take(a + 1 as int);
            assert(t.drop_last() =~= al.take(a as int));
            assert(t.last() == allowances@[a as int]@);
        }
        if !hit {
            let ghost before = views(stale@);
            stale.push(allowances[a].clone());
            assert(views(stale@) =~= before.push(allowances@[a as int]@));
        }
        a += 1;
    }
    assert(al.take(allowances@.len() as int) =~= al);
    let mut allowed: Vec<Finding> = Vec::new();
    let mut remaining: Vec<Finding> = Vec::new();
    let mut q: usize = 0;
    while q < report.findings.len()
        invariant
            q <= report.findings@.len(),
            fs == finding_views(report.findings@),
            al == views(allowances@),
            lower_allowances@.len() == allowances@.len(),
            forall|j: int| 0 <= j < allowances@.len() ==> (#[trigger] lower_allowances@[j])@ == lowercase(al[j]),
            lines@.len() == fs.len(),
            forall|j: int| 0 <= j < fs.len() ==> (#[trigger] lines@[j])@ == lowercase(fs[j].line),
            finding_views(allowed@) == partitioned(fs.take(q as int), al, false),
            finding_views(remaining@) == partitioned(fs.take(q as int), al, true),
        decreases report.findings@.len() - q,
    {
        proof {
            let t = fs.take(q + 1 as int);
            assert(t.drop_last() =~= fs.take(q as int));
            assert(t.last() == report.findings@[q as int]@);
            assert forall|j: int| 0 <= j < al.len() implies (#[trigger] lower_allowances@[j])@ == lowercase(al[j]) by {
                assert(al[j] == allowances@[j]@);
            }
        }
        let f = report.findings[q].duplicate();
        let covered = any_allowance(&lines[q], &lower_allowances, Ghost(fs[q as int].line), Ghost(al));
        if covered {
            let ghost before = finding_views(allowed@);
            allowed.push(f);
            assert(finding_views(allowed@) =~= before.push(fs[q as int]));
        } else {
            let ghost before = finding_views(remaining@);
            remaining.push(f);
            assert(finding_views(remaining@) =~= before.push(fs[q as int]));
        }
        q += 1;
    }
    assert(fs.take(report.findings@.len() as int) =~= fs);
    let emptied = remaining.len() == 0;
    report.unused_allowances = stale;
    report.findings = remaining;
    report.allowed = allowed;
    if report.status == Status::Fail && emptied {
        report.status = Status::Pass;
    }
}


/// Strings joined by a separator.
pub fn join_with(parts: &Vec<String>, sep: &str) -> (r: String)
    ensures
        r@ == joined_by(views(parts@), sep@),
{
    let mut r = String::new();
    let mut i: usize = 0;
    while i < parts.len()
        invariant
            i <= parts@.len(),
            r@ == joined_by(views(parts@).take(i as int), sep@),
        decreases parts@.len() - i,
    {
        proof {
            let t = views(parts@).take(i + 1 as int);
            assert(t.drop_last() =~= views(parts@).take(i as int));
            assert(t.last() == parts@[i as int]@);
        }
        if i > 0 {
            push_str(&mut r, sep);
        }
        push_str(&mut r, parts[i].as_str());
        i += 1;
        proof {
            if i == 1 {
                assert(views(parts@).take(1).len() == 1);
            }
        }
        assert(r@ =~= joined_by(views(parts@).take(i as int), sep@));
    }
    assert(views(parts@).take(parts@.len() as int) =~= views(parts@));
    r
}

/// Line breaks written as spaces.
pub open spec fn one_line(s: Seq<char>) -> Seq<char> {
    s.map_values(|c: char| if c == '\n' { ' ' } else { c })
}

fn one_line_of(value: &str) -> (r: String)
    ensures
        r@ == one_line(value@),
{
    let cs = crate::text::chars_of(value);
    let mut r = String::new();
    let mut i: usize = 0;
    while i < cs.len()
        invariant
            i <= cs@.len(),
            cs@ == value@,
            r@ == one_line(cs@.take(i as int)),
        decreases cs@.len() - i,
    {
        let c = cs[i];
        push_char(&mut r, if c == '\n' { ' ' } else { c });
        i += 1;
        assert(r@ =~= one_line(cs@.take(i as int)));
    }
    assert(cs@.take(cs@.len() as int) =~= cs@);
    r
}

/// The word a report opens with.
pub open spec fn status_word(s: Status) -> Seq<char> {
    match s {
        Status::Pass => "PASS"@,
        Status::Fail => "FAIL"@,
        Status::Inconclusive => "INCONCLUSIVE"@,
        Status::PreparationRequired => "PREPARATION_REQUIRED"@,
    }
}

/// The first line: the verdict, the number of findings, the number
/// withheld by allowances, and the focus.
pub open spec fn header(r: Report) -> Seq<char> {
    status_word(r.status) + seq![' '] + decimal(r.findings@.len()) + (if r.allowed@.len() == 0 {
        seq![]
    } else {
        " ALLOWED "@ + decimal(r.allowed@.len())
    }) + match r.scope {
        Some(s) => " FOCUS "@ + one_line(s@),
        None => seq![],
    }
}

/// Whether `x` ends `s`.
pub open spec fn is_suffix(x: Seq<char>, s: Seq<char>) -> bool {
    x.len() <= s.len() && s.skip(s.len() - x.len()) == x
}

/// A finding's line without the viewport and scenario its section heading
/// already states; for a grouped finding, without the list of elements
/// printed one per line below it.
pub open spec fn body_of(f: FindingView) -> Seq<char> {
    let prefix = seq!['V'] + decimal(f.viewport as nat) + seq![' '] + f.scenario + seq![' '];
    let line = if is_prefix(prefix, f.line) { f.line.skip(prefix.len() as int) } else { f.line };
    if f.items.len() == 0 {
        line
    } else {
        let joined = joined_by(f.items, ", "@);
        trim_end(
            if is_suffix(joined + seq![')'], line) {
                line.take(line.len() - joined.len() - 1) + seq![')']
            } else if is_suffix(joined, line) {
                line.take(line.len() - joined.len())
            } else {
                line
            },
        )
    }
}

fn ends_with(s: &Vec<char>, x: &Vec<char>) -> (r: bool)
    ensures
        r == is_suffix(x@, s@),
{
    if x.len() > s.len() {
        return false;
    }
    let slen = s.len();
    let off = slen - x.len();
    let mut i: usize = 0;
    while i < x.len()
        invariant
            slen == s@.len(),
            off + x@.len() == s@.len(),
            i <= x@.len(),
            forall|j: int| 0 <= j < i ==> s@[off + j] == x@[j],
        decreases x@.len() - i,
    {
        assert(off + i < s@.len());
        if s[off + i] != x[i] {
            assert(s@.skip(off as int)[i as int] != x@[i as int]);
            return false;
        }
        i += 1;
    }
    assert(s@.skip(off as int) =~= x@);
    true
}

fn prefix_of(s: &Vec<char>, n: usize) -> (r: Vec<char>)
    requires
        n <= s@.len(),
    ensures
        r@ == s@.take(n as int),
{
    let mut r: Vec<char> = Vec::new();
    let mut i: usize = 0;
    while i < n
        invariant
            i <= n <= s@.len(),
            r@ == s@.take(i as int),
        decreases n - i,
    {
        r.push(s[i]);
        i += 1;
        assert(r@ =~= s@.take(i as int));
    }
    r
}

fn trim_end_chars(s: &Vec<char>) -> (r: Vec<char>)
    ensures
        r@ == trim_end(s@),
{
    let mut n: usize = s.len();
    assert(s@.take(n as int) =~= s@);
    while n > 0 && crate::text::is_white(s[n - 1])
        invariant
            n <= s@.len(),
            trim_end(s@) == trim_end(s@.take(n as int)),
        decreases n,
    {
        assert(s@.take(n as int).drop_last() =~= s@.take(n - 1));
        n -= 1;
    }
    prefix_of(s, n)
}

pub fn body(finding: &Finding) -> (r: String)
    ensures
        r@ == body_of(finding@),
{
    let mut prefix = String::new();
    push_char(&mut prefix, 'V');
    push_decimal(&mut prefix, finding.viewport as u128);
    push_char(&mut prefix, ' ');
    push_str(&mut prefix, finding.scenario.as_str());
    push_char(&mut prefix, ' ');
    let ghost spec_prefix = seq!['V'] + decimal(finding.viewport as nat) + seq![' '] + finding.scenario@ + seq![' '];
    assert(prefix@ =~= spec_prefix);
    let full = crate::text::chars_of(finding.line.as_str());
    let pc = crate::text::chars_of(prefix.as_str());
    let line: Vec<char> = if crate::text::starts_with(finding.line.as_str(), prefix.as_str()) {
        let mut rest: Vec<char> = Vec::new();
        let mut i: usize = pc.len();
        while i < full.len()
            invariant
                pc@.len() <= i <= full@.len(),
                rest@ == full@.subrange(pc@.len() as int, i as int),
            decreases full@.len() - i,
        {
            rest.push(full[i]);
            i += 1;
            assert(rest@ =~= full@.subrange(pc@.len() as int, i as int));
        }
        assert(full@.subrange(pc@.len() as int, full@.len() as int) =~= full@.skip(pc@.len() as int));
        rest
    } else {
        full
    };
    let ghost spec_line = if is_prefix(spec_prefix, finding.line@) {
        finding.line@.skip(spec_prefix.len() as int)
    } else {
        finding.line@
    };
    assert(line@ == spec_line);
    if finding.items.len() == 0 {
        assert(finding@.items.len() == 0);
        return crate::text::string_of(&line);
    }
    let joined = join_with(&finding.items, ", ");
    let jc = crate::text::chars_of(joined.as_str());
    let mut closed = jc.clone();
    closed.push(')');
    assert(closed@ =~= jc@ + seq![')']);
    let stripped: Vec<char> = if ends_with(&line, &closed) {
        let mut head = prefix_of(&line, line.len() - jc.len() - 1);
        head.push(')');
        head
    } else if ends_with(&line, &jc) {
        prefix_of(&line, line.len() - jc.len())
    } else {
        line
    };
    crate::text::string_of(&trim_end_chars(&stripped))
}

/// Every line a report prints for its findings, with the section heading
/// stated whenever the viewport or scenario changes.
pub open spec fn heading_of(f: FindingView) -> Seq<char> {
    "viewport "@ + decimal(f.viewport as nat) + " / "@ + f.scenario
}

pub open spec fn item_lines(items: Seq<Seq<char>>) -> Seq<Seq<char>> {
    items.map_values(|i: Seq<char>| "    "@ + i)
}

pub open spec fn finding_lines(fs: Seq<FindingView>) -> (Seq<Seq<char>>, Seq<char>)
    decreases fs.len(),
{
    if fs.len() == 0 {
        (seq![], seq![])
    } else {
        let (lines, section) = finding_lines(fs.drop_last());
        let f = fs.last();
        let h = heading_of(f);
        let opened = if h != section { lines + seq![seq![], h] } else { lines };
        (opened.push(body_of(f)) + item_lines(f.items), h)
    }
}

/// The plain-text report: the header, the findings by section, every
/// allowance that matched nothing, and the diagnostic, one per line.
pub open spec fn text_of(r: Report) -> Seq<char> {
    let lines = seq![header(r)] + finding_lines(finding_views(r.findings@)).0 + views(r.unused_allowances@).map_values(
        |a: Seq<char>| "STALE ALLOWANCE "@ + one_line(a) + " matched nothing"@,
    ) + match r.diagnostic {
        Some(d) => seq!["DIAG "@ + one_line(d@)],
        None => seq![],
    };
    joined_by(lines, seq!['\n']) + seq!['\n']
}


fn header_of(report: &Report) -> (r: String)
    ensures
        r@ == header(*report),
{
    let mut r = String::new();
    match report.status {
        Status::Pass => push_str(&mut r, "PASS"),
        Status::Fail => push_str(&mut r, "FAIL"),
        Status::Inconclusive => push_str(&mut r, "INCONCLUSIVE"),
        Status::PreparationRequired => push_str(&mut r, "PREPARATION_REQUIRED"),
    }
    push_char(&mut r, ' ');
    push_decimal(&mut r, report.findings.len() as u128);
    if report.allowed.len() > 0 {
        push_str(&mut r, " ALLOWED ");
        push_decimal(&mut r, report.allowed.len() as u128);
    }
    match &report.scope {
        Some(scope) => {
            push_str(&mut r, " FOCUS ");
            push_str(&mut r, one_line_of(scope.as_str()).as_str());
        },
        None => {},
    }
    assert(r@ =~= header(*report));
    r
}

pub fn text(report: &Report) -> (r: String)
    ensures
        r@ == text_of(*report),
{
    let mut lines: Vec<String> = Vec::new();
    lines.push(header_of(report));
    let ghost fs = finding_views(report.findings@);
    let mut section = String::new();
    let mut i: usize = 0;
    while i < report.findings.len()
        invariant
            i <= report.findings@.len(),
            fs == finding_views(report.findings@),
            views(lines@) == seq![header(*report)] + finding_lines(fs.take(i as int)).0,
            section@ == finding_lines(fs.take(i as int)).1,
        decreases report.findings@.len() - i,
    {
        let f = &report.findings[i];
        proof {
            let t = fs.take(i + 1 as int);
            assert(t.drop_last() =~= fs.take(i as int));
            assert(t.last() == f@);
        }
        let mut heading = String::new();
        push_str(&mut heading, "viewport ");
        push_decimal(&mut heading, f.viewport as u128);
        push_str(&mut heading, " / ");
        push_str(&mut heading, f.scenario.as_str());
        assert(heading@ =~= heading_of(f@));
        let ghost before = views(lines@);
        if !str_eq(heading.as_str(), section.as_str()) {
            lines.push(String::new());
            lines.push(heading.clone());
            section = heading;
        }
        let ghost opened = views(lines@);
        assert(opened =~= if heading_of(f@) != finding_lines(fs.take(i as int)).1 {
            before + seq![seq![], heading_of(f@)]
        } else {
            before
        });
        lines.push(body(f));
        let mut k: usize = 0;
        while k < f.items.len()
            invariant
                k <= f.items@.len(),
                views(lines@) == opened.push(body_of(f@)) + item_lines(views(f.items@).take(k as int)),
            decreases f.items@.len() - k,
        {
            let mut item = String::new();
            push_str(&mut item, "    ");
            push_str(&mut item, f.items[k].as_str());
            let ghost prev = views(lines@);
            lines.push(item);
            proof {
                assert(views(lines@) =~= prev.push(item@));
                assert(item_lines(views(f.items@).take(k + 1 as int)) =~= item_lines(views(f.items@).take(k as int)).push(
                    "    "@ + f.items@[k as int]@,
                ));
            }
            k += 1;
            assert(views(lines@) =~= opened.push(body_of(f@)) + item_lines(views(f.items@).take(k as int)));
        }
        assert(views(f.items@).take(f.items@.len() as int) =~= views(f.items@));
        i += 1;
        proof {
            assert(views(lines@) =~= seq![header(*report)] + finding_lines(fs.take(i as int)).0);
        }
    }
    assert(fs.take(report.findings@.len() as int) =~= fs);
    let ghost mid = views(lines@);
    let mut a: usize = 0;
    while a < report.unused_allowances.len()
        invariant
            a <= report.unused_allowances@.len(),
            views(lines@) == mid + views(report.unused_allowances@).take(a as int).map_values(
                |x: Seq<char>| "STALE ALLOWANCE "@ + one_line(x) + " matched nothing"@,
            ),
        decreases report.unused_allowances@.len() - a,
    {
        let mut line = String::new();
        push_str(&mut line, "STALE ALLOWANCE ");
        push_str(&mut line, one_line_of(report.unused_allowances[a].as_str()).as_str());
        push_str(&mut line, " matched nothing");
        let ghost prev = views(lines@);
        lines.push(line);
        proof {
            assert(views(lines@) =~= prev.push(line@));
            assert(views(report.unused_allowances@).take(a + 1 as int) =~= views(report.unused_allowances@).take(a as int).push(
                report.unused_allowances@[a as int]@,
            ));
        }
        a += 1;
        assert(views(lines@) =~= mid + views(report.unused_allowances@).take(a as int).map_values(
            |x: Seq<char>| "STALE ALLOWANCE "@ + one_line(x) + " matched nothing"@,
        ));
    }
    assert(views(report.unused_allowances@).take(report.unused_allowances@.len() as int) =~= views(report.unused_allowances@));
    let ghost tail = views(lines@);
    match &report.diagnostic {
        Some(d) => {
            let mut line = String::new();
            push_str(&mut line, "DIAG ");
            push_str(&mut line, one_line_of(d.as_str()).as_str());
            lines.push(line);
            assert(views(lines@) =~= tail.push(line@));
        },
        None => {},
    }
    let mut out = join_with(&lines, "\n");
    push_char(&mut out, '\n');
    proof {
        reveal_strlit("\n");
        assert("\n"@ =~= seq!['\n']);
        assert(views(lines@) =~= seq![header(*report)] + finding_lines(fs).0 + views(report.unused_allowances@).map_values(
            |x: Seq<char>| "STALE ALLOWANCE "@ + one_line(x) + " matched nothing"@,
        ) + match report.diagnostic {
            Some(d) => seq!["DIAG "@ + one_line(d@)],
            None => seq![],
        });
    }
    out
}

} // verus!
