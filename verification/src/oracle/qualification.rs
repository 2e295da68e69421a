//! Qualifying the oracle: it must accept the source against itself and an
//! equivalent rewrite, and reject every mutant, attributing each to the
//! domain the mutant was built to disturb.
//!
//! Driving the browser is the caller's; how outcomes are counted and what
//! a qualified oracle must show are here.
use vstd::prelude::*;
use crate::order::{ascending_strings, insert_string, views};

verus! {

/// What one comparison of a mutant showed.
#[derive(Clone, Debug)]
pub enum MutantOutcome {
    /// The page could not even be recorded: the mutant is caught.
    Unrecordable,
    /// The comparison certified the mutant as equivalent: it survived.
    Certified,
    /// The comparison rejected it, first differing in the named domain.
    Rejected { first_domain: Option<String> },
}

/// The running counts of a qualification.
#[derive(Clone, Debug)]
pub struct Counts {
    pub killed: usize,
    pub localized: usize,
    pub hidden_killed: usize,
    pub seen: usize,
    /// How many of the mutants seen were hidden ones.
    pub hidden_total: usize,
    /// The domain each rejected mutant was built to disturb, one entry per
    /// rejection, in the order they were seen.
    pub rejected_domains: Vec<String>,
}

impl Counts {
    pub open spec fn wf(&self) -> bool {
        &&& self.killed <= self.seen
        &&& self.localized <= self.killed
        &&& self.hidden_killed <= self.killed
        &&& self.hidden_total <= self.seen
        &&& self.rejected_domains@.len() <= self.killed
    }

    pub fn new() -> (r: Counts)
        ensures
            r.wf(),
            r.killed == 0 && r.localized == 0 && r.hidden_killed == 0 && r.seen == 0,
            r.hidden_total == 0 && r.rejected_domains@.len() == 0,
    {
        Counts { killed: 0, localized: 0, hidden_killed: 0, seen: 0, hidden_total: 0, rejected_domains: Vec::new() }
    }

    /// Counts one mutant: caught when unrecordable or rejected, and
    /// localized when rejected first in the domain it was built to disturb.
    pub fn record(&mut self, outcome: &MutantOutcome, expected_domain: &str, hidden: bool)
        requires
            old(self).wf(),
            old(self).seen < usize::MAX,
        ensures
            final(self).wf(),
            final(self).seen == old(self).seen + 1,
            final(self).killed == old(self).killed + (if outcome is Certified { 0int } else { 1int }),
            final(self).hidden_killed == old(self).hidden_killed + (if !(outcome is Certified) && hidden { 1int } else { 0int }),
            final(self).localized == old(self).localized + (if outcome matches MutantOutcome::Rejected { first_domain: Some(d) } && d@ == expected_domain@ { 1int } else { 0int }),
            final(self).hidden_total == old(self).hidden_total + (if hidden { 1int } else { 0int }),
            views(final(self).rejected_domains@) == views(old(self).rejected_domains@) + (if outcome is Rejected {
                seq![expected_domain@]
            } else {
                Seq::<Seq<char>>::empty()
            }),
    {
        self.seen = self.seen + 1;
        if hidden {
            self.hidden_total = self.hidden_total + 1;
        }
        let ghost before = views(self.rejected_domains@);
        match outcome {
            MutantOutcome::Certified => {
                assert(views(self.rejected_domains@) =~= before + Seq::<Seq<char>>::empty());
            },
            MutantOutcome::Unrecordable => {
                assert(views(self.rejected_domains@) =~= before + Seq::<Seq<char>>::empty());
                self.killed = self.killed + 1;
                if hidden {
                    self.hidden_killed = self.hidden_killed + 1;
                }
            },
            MutantOutcome::Rejected { first_domain } => {
                self.killed = self.killed + 1;
                self.rejected_domains.push(String::from_str(expected_domain));
                assert(views(self.rejected_domains@) =~= before + seq![expected_domain@]);
                if hidden {
                    self.hidden_killed = self.hidden_killed + 1;
                }
                match first_domain {
                    Some(d) => {
                        if crate::text::str_eq(d.as_str(), expected_domain) {
                            self.localized = self.localized + 1;
                        }
                    },
                    None => {},
                }
            },
        }
    }
}

/// How often a name occurs in a list.
pub open spec fn occurrences(names: Seq<Seq<char>>, name: Seq<char>) -> nat
    decreases names.len(),
{
    if names.len() == 0 {
        0
    } else {
        occurrences(names.drop_last(), name) + if names.last() == name { 1nat } else { 0nat }
    }
}

proof fn lemma_occurrences_bound(names: Seq<Seq<char>>, name: Seq<char>)
    ensures
        occurrences(names, name) <= names.len(),
    decreases names.len(),
{
    if names.len() > 0 {
        lemma_occurrences_bound(names.drop_last(), name);
    }
}

/// The names of a list of tallies.
pub open spec fn tally_names(r: Seq<(String, usize)>) -> Seq<Seq<char>> {
    r.map_values(|e: (String, usize)| e.0@)
}

impl Counts {
    /// The mutants rejected per domain they were built to disturb: each such
    /// domain once, in ascending order, with how many were rejected.
    pub fn kills_by_domain(&self) -> (r: Vec<(String, usize)>)
        ensures
            ascending_strings(tally_names(r@)),
            forall|k: Seq<char>| #[trigger] tally_names(r@).contains(k) <==> views(
                self.rejected_domains@,
            ).contains(k),
            forall|i: int| 0 <= i < r@.len() ==> (#[trigger] r@[i]).1 == occurrences(views(self.rejected_domains@), r@[i].0@),
    {
        let all = &self.rejected_domains;
        let mut names: Vec<String> = Vec::new();
        let mut i: usize = 0;
        while i < all.len()
            invariant
                i <= all@.len(),
                ascending_strings(views(names@)),
                forall|k: Seq<char>| #[trigger] views(names@).contains(k) <==> views(all@).take(i as int).contains(k),
            decreases all@.len() - i,
        {
            insert_string(&mut names, &all[i]);
            proof {
                let t = views(all@).take(i + 1);
                assert(t =~= views(all@).take(i as int).push(all@[i as int]@));
                assert forall|k: Seq<char>| #[trigger] views(names@).contains(k) <==> t.contains(k) by {
                    if t.contains(k) {
                        let j = choose|j: int| 0 <= j < t.len() && t[j] == k;
                        if j < i {
                            assert(views(all@).take(i as int)[j] == k);
                        }
                    }
                    if views(all@).take(i as int).contains(k) {
                        let j = choose|j: int| 0 <= j < i && views(all@).take(i as int)[j] == k;
                        assert(t[j] == k);
                    }
                    if k == all@[i as int]@ {
                        assert(t[i as int] == k);
                    }
                }
            }
            i += 1;
        }
        assert(views(all@).take(i as int) =~= views(all@));
        let mut r: Vec<(String, usize)> = Vec::new();
        let mut n: usize = 0;
        while n < names.len()
            invariant
                n <= names@.len(),
                r@.len() == n,
                forall|j: int| 0 <= j < n ==> (#[trigger] r@[j]).0@ == names@[j]@,
                forall|j: int| 0 <= j < n ==> (#[trigger] r@[j]).1 == occurrences(views(all@), r@[j].0@),
            decreases names@.len() - n,
        {
            let mut count: usize = 0;
            let mut k: usize = 0;
            while k < all.len()
                invariant
                    n < names@.len(),
                    k <= all@.len(),
                    count == occurrences(views(all@).take(k as int), names@[n as int]@),
                    count <= k,
                decreases all@.len() - k,
            {
                assert(views(all@).take(k + 1).drop_last() =~= views(all@).take(k as int));
                if crate::text::str_eq(all[k].as_str(), names[n].as_str()) {
                    count = count + 1;
                }
                k += 1;
            }
            assert(views(all@).take(k as int) =~= views(all@));
            r.push((names[n].clone(), count));
            n += 1;
        }
        assert(tally_names(r@) =~= views(names@));
        r
    }
}

/// The warm timing at a percentile of ascending samples: the sample at
/// `n * percent / 100`, or the last.
pub open spec fn warm_percentile(samples: Seq<u128>, percent: nat) -> u128 {
    let i = samples.len() * percent / 100;
    samples[if i < samples.len() - 1 { i as int } else { samples.len() - 1 }]
}

pub fn percentile(samples: &Vec<u128>, percent: usize) -> (r: u128)
    requires
        samples@.len() > 0,
        percent <= 100,
        samples@.len() * 100 <= usize::MAX,
    ensures
        r == warm_percentile(samples@, percent as nat),
{
    let n = samples.len();
    assert(n * percent <= n * 100) by (nonlinear_arith)
        requires
            percent <= 100,
    ;
    let i = n * percent / 100;
    samples[if i < n - 1 { i } else { n - 1 }]
}

/// Why qualification fails, the first reason in this order.
#[derive(Clone, Copy, Debug, PartialEq, Eq, Structural)]
pub enum Verdict {
    Qualified,
    SourceSelfFailed,
    EquivalentRejected,
    MutantSurvived,
    MutantMislocalized,
    SlowP95,
    SlowP99,
}

/// What a reader is told of a verdict.
pub open spec fn verdict_message(v: Verdict) -> Seq<char> {
    match v {
        Verdict::Qualified => "qualified"@,
        Verdict::SourceSelfFailed => "source-self qualification failed"@,
        Verdict::EquivalentRejected => "equivalent transform was rejected"@,
        Verdict::MutantSurvived => "one or more mutants survived"@,
        Verdict::MutantMislocalized => "one or more mutants were localized to the wrong first domain"@,
        Verdict::SlowP95 => "warm p95 exceeded 2000ms"@,
        Verdict::SlowP99 => "warm p99 exceeded 2500ms"@,
    }
}

impl Verdict {
    pub fn message(&self) -> (r: &'static str)
        ensures
            r@ == verdict_message(*self),
    {
        match self {
            Verdict::Qualified => "qualified",
            Verdict::SourceSelfFailed => "source-self qualification failed",
            Verdict::EquivalentRejected => "equivalent transform was rejected",
            Verdict::MutantSurvived => "one or more mutants survived",
            Verdict::MutantMislocalized => "one or more mutants were localized to the wrong first domain",
            Verdict::SlowP95 => "warm p95 exceeded 2000ms",
            Verdict::SlowP99 => "warm p99 exceeded 2500ms",
        }
    }
}

/// The requirements: the source certified against itself, the equivalent page
/// certified, every mutant caught and attributed to its domain, warm
/// comparisons within two seconds at the ninety-fifth percentile and two
/// and a half at the ninety-ninth.
pub open spec fn verdict_of(source_self: bool, equivalent: bool, c: Counts, total: nat, p95: u128, p99: u128) -> Verdict {
    if !source_self {
        Verdict::SourceSelfFailed
    } else if !equivalent {
        Verdict::EquivalentRejected
    } else if c.killed != total {
        Verdict::MutantSurvived
    } else if c.localized != total {
        Verdict::MutantMislocalized
    } else if p95 > 2000 {
        Verdict::SlowP95
    } else if p99 > 2500 {
        Verdict::SlowP99
    } else {
        Verdict::Qualified
    }
}

pub fn verdict(source_self: bool, equivalent: bool, counts: &Counts, total: usize, p95: u128, p99: u128) -> (r: Verdict)
    ensures
        r == verdict_of(source_self, equivalent, *counts, total as nat, p95, p99),
{
    if !source_self {
        Verdict::SourceSelfFailed
    } else if !equivalent {
        Verdict::EquivalentRejected
    } else if counts.killed != total {
        Verdict::MutantSurvived
    } else if counts.localized != total {
        Verdict::MutantMislocalized
    } else if p95 > 2000 {
        Verdict::SlowP95
    } else if p99 > 2500 {
        Verdict::SlowP99
    } else {
        Verdict::Qualified
    }
}

/// A qualified oracle caught every mutant it was shown and attributed each
/// to its domain, so no mutant is both caught and misattributed.
pub proof fn qualified_means_every_mutant_localized(source_self: bool, equivalent: bool, c: Counts, p95: u128, p99: u128)
    requires
        c.wf(),
        verdict_of(source_self, equivalent, c, c.seen as nat, p95, p99) == Verdict::Qualified,
    ensures
        c.killed == c.seen,
        c.localized == c.seen,
        p95 <= 2000,
        p99 <= 2500,
{
}

} // verus!
