//! The obligations a page's runtime registrations impose: each kind of
//! registration the page made must be exercised by a scenario that covers
//! it, or it stays uncovered.
use vstd::prelude::*;
use crate::json::{index_key, is_true, is_true_at, lookup, Json};
use crate::oracle::model::{Obligation, ObligationStatus};
use crate::order::{ascending_strings, enumerate_strings, insert_string, lemma_enumerate_strings, views};
use crate::text::str_eq;

verus! {

/// The kinds of registration the page reports by flag, in the order they
/// are checked.
pub open spec fn flagged_kinds() -> Seq<Seq<char>> {
    seq!["timer"@, "animation"@, "media"@, "container"@, "observer"@]
}

/// The scenario that covers a flagged kind of registration.
pub open spec fn scenario_for(kind: Seq<char>) -> Seq<char> {
    if kind == "timer"@ {
        "async-settled"@
    } else if kind == "animation"@ {
        "motion-frames"@
    } else if kind == "media"@ || kind == "container"@ || kind == "observer"@ {
        "responsive-ascending"@
    } else {
        "uncovered"@
    }
}

/// The scenario that covers a kind of runtime registration; listeners are
/// covered by keyboard navigation only where the page has controls.
pub open spec fn runtime_scenario(kind: Seq<char>, controls_empty: bool) -> Seq<char> {
    if kind == "timeout"@ || kind == "interval"@ || kind == "microtask"@ || kind == "fetch"@ {
        "async-settled"@
    } else if kind == "raf"@ || kind == "waapi"@ {
        "motion-frames"@
    } else if kind == "media"@ {
        "responsive-discovered"@
    } else if kind == "listener"@ && !controls_empty {
        "keyboard-navigation"@
    } else if kind == "shadow"@ {
        "responsive-ascending"@
    } else {
        "uncovered"@
    }
}

/// The kind a runtime registration names, or `unknown`.
pub open spec fn runtime_kind(registration: Json) -> Seq<char> {
    match index_key(registration, "kind"@) {
        Json::Text(s) => s@,
        _ => "unknown"@,
    }
}

/// Every kind of runtime registration the page reports.
pub open spec fn runtime_kinds(value: Json) -> Set<Seq<char>> {
    match index_key(value, "runtime"@) {
        Json::Array(items) => Set::new(
            |k: Seq<char>| exists|i: int| 0 <= i < items@.len() && runtime_kind(#[trigger] items@[i]) == k,
        ),
        _ => Set::empty(),
    }
}

/// An obligation by its id, kind, status and scenarios.
pub open spec fn obligation_view(o: Obligation) -> (Seq<char>, Seq<char>, ObligationStatus, Seq<Seq<char>>) {
    (o.id@, o.kind@, o.status, views(o.scenarios@))
}

/// The obligations of the flagged kinds among the first `n`.
pub open spec fn flagged_obligations(value: Json, n: int) -> Seq<(Seq<char>, Seq<char>, ObligationStatus, Seq<Seq<char>>)>
    decreases n,
{
    if n <= 0 {
        seq![]
    } else {
        let kind = flagged_kinds()[n - 1];
        flagged_obligations(value, n - 1) + if is_true(index_key(index_key(value, "registrations"@), kind)) {
            seq![("registration:"@ + kind, kind, ObligationStatus::Qualified, seq![scenario_for(kind)])]
        } else {
            seq![]
        }
    }
}

/// The obligation of one kind of runtime registration.
pub open spec fn runtime_obligation(kind: Seq<char>, controls_empty: bool) -> (
    Seq<char>,
    Seq<char>,
    ObligationStatus,
    Seq<Seq<char>>,
) {
    let scenario = runtime_scenario(kind, controls_empty);
    if scenario != "uncovered"@ {
        ("runtime:"@ + kind, kind, ObligationStatus::Qualified, seq![scenario])
    } else {
        ("runtime:"@ + kind, kind, ObligationStatus::Uncovered, seq![])
    }
}

/// Every obligation the registrations impose: the flagged kinds in order,
/// then each kind of runtime registration once, in ascending order, then
/// unbounded motion.
pub open spec fn imposed(value: Json, controls_empty: bool) -> Seq<(Seq<char>, Seq<char>, ObligationStatus, Seq<Seq<char>>)> {
    flagged_obligations(value, 5) + enumerate_strings(runtime_kinds(value)).map_values(
        |k: Seq<char>| runtime_obligation(k, controls_empty),
    ) + if is_true(index_key(value, "motionUnbounded"@)) {
        seq![("motion:unbounded"@, "motion"@, ObligationStatus::Uncovered, Seq::<Seq<char>>::empty())]
    } else {
        seq![]
    }
}

/// The scenario that covers a flagged kind of registration.
fn flagged_scenario(kind: &str) -> (r: &'static str)
    ensures
        r@ == scenario_for(kind@),
{
    if str_eq(kind, "timer") {
        "async-settled"
    } else if str_eq(kind, "animation") {
        "motion-frames"
    } else if str_eq(kind, "media") || str_eq(kind, "container") || str_eq(kind, "observer") {
        "responsive-ascending"
    } else {
        "uncovered"
    }
}

/// The scenario that covers a kind of runtime registration.
fn runtime_scenario_of(kind: &str, controls_empty: bool) -> (r: &'static str)
    ensures
        r@ == runtime_scenario(kind@, controls_empty),
{
    if str_eq(kind, "timeout") || str_eq(kind, "interval") || str_eq(kind, "microtask") || str_eq(kind, "fetch") {
        "async-settled"
    } else if str_eq(kind, "raf") || str_eq(kind, "waapi") {
        "motion-frames"
    } else if str_eq(kind, "media") {
        "responsive-discovered"
    } else if str_eq(kind, "listener") && !controls_empty {
        "keyboard-navigation"
    } else if str_eq(kind, "shadow") {
        "responsive-ascending"
    } else {
        "uncovered"
    }
}

/// The kind a runtime registration names, or `unknown`.
fn kind_of(registration: &Json) -> (r: String)
    ensures
        r@ == runtime_kind(*registration),
{
    match lookup(registration, "kind") {
        Some(Json::Text(s)) => s.clone(),
        _ => String::from_str("unknown"),
    }
}

/// Every kind of runtime registration the page reports, once each, in
/// ascending order.
fn runtime_kinds_of(value: &Json) -> (r: Vec<String>)
    ensures
        ascending_strings(views(r@)),
        forall|k: Seq<char>| #[trigger] views(r@).contains(k) <==> runtime_kinds(*value).contains(k),
{
    let mut r: Vec<String> = Vec::new();
    match lookup(value, "runtime") {
        Some(Json::Array(items)) => {
            let mut i: usize = 0;
            while i < items.len()
                invariant
                    index_key(*value, "runtime"@) == Json::Array(*items),
                    i <= items@.len(),
                    ascending_strings(views(r@)),
                    forall|k: Seq<char>|
                        #[trigger] views(r@).contains(k) <==> exists|j: int|
                            0 <= j < i && runtime_kind(#[trigger] items@[j]) == k,
                decreases items@.len() - i,
            {
                let kind = kind_of(&items[i]);
                insert_string(&mut r, &kind);
                proof {
                    assert forall|k: Seq<char>|
                        #[trigger] views(r@).contains(k) <==> exists|j: int|
                            0 <= j < i + 1 && runtime_kind(#[trigger] items@[j]) == k by {
                        if k == kind@ {
                            assert(runtime_kind(items@[i as int]) == k);
                        }
                        if exists|j: int| 0 <= j < i + 1 && runtime_kind(#[trigger] items@[j]) == k {
                            let j = choose|j: int| 0 <= j < i + 1 && runtime_kind(#[trigger] items@[j]) == k;
                            if j < i {
                                assert(exists|j: int| 0 <= j < i && runtime_kind(#[trigger] items@[j]) == k);
                            }
                        }
                    }
                }
                i += 1;
            }
        },
        _ => {},
    }
    r
}

/// An obligation under a prefixed id.
fn obligation(prefix: &str, kind: &str, status: ObligationStatus, scenario: Option<&str>) -> (r: Obligation)
    ensures
        obligation_view(r) == (prefix@ + kind@, kind@, status, match scenario {
            Some(s) => seq![s@],
            None => Seq::<Seq<char>>::empty(),
        }),
{
    let mut id = String::from_str(prefix);
    crate::text::push_str(&mut id, kind);
    let mut scenarios: Vec<String> = Vec::new();
    match scenario {
        Some(s) => {
            scenarios.push(String::from_str(s));
        },
        None => {},
    }
    let r = Obligation { id, kind: String::from_str(kind), status, scenarios };
    assert(views(r.scenarios@) =~= match scenario {
        Some(s) => seq![s@],
        None => Seq::<Seq<char>>::empty(),
    });
    r
}

/// The abstract values of a list of obligations.
pub open spec fn obligation_views(os: Seq<Obligation>) -> Seq<(Seq<char>, Seq<char>, ObligationStatus, Seq<Seq<char>>)> {
    os.map_values(|o: Obligation| obligation_view(o))
}

proof fn lemma_views_push(os: Seq<Obligation>, o: Obligation)
    ensures
        obligation_views(os.push(o)) == obligation_views(os).push(obligation_view(o)),
{
    assert(obligation_views(os.push(o)) =~= obligation_views(os).push(obligation_view(o)));
}

/// Adds the obligations a page's registrations impose, after those already
/// listed.
pub fn append(value: &Json, controls_empty: bool, obligations: &mut Vec<Obligation>)
    ensures
        final(obligations)@.len() == old(obligations)@.len() + imposed(*value, controls_empty).len(),
        forall|i: int| 0 <= i < old(obligations)@.len() ==> #[trigger] final(obligations)@[i] == old(obligations)@[i],
        obligation_views(final(obligations)@) == obligation_views(old(obligations)@) + imposed(*value, controls_empty),
{
    let ghost before = obligations@;
    let kinds = vec!["timer", "animation", "media", "container", "observer"];
    let registrations = lookup(value, "registrations");
    let mut k: usize = 0;
    while k < 5
        invariant
            k <= 5,
            kinds@.len() == 5,
            forall|j: int| 0 <= j < 5 ==> #[trigger] kinds@[j]@ == flagged_kinds()[j],
            match registrations {
                Some(x) => index_key(*value, "registrations"@) == *x,
                None => index_key(*value, "registrations"@) == Json::Null,
            },
            obligations@.len() >= before.len(),
            forall|i: int| 0 <= i < before.len() ==> #[trigger] obligations@[i] == before[i],
            obligation_views(obligations@) == obligation_views(before) + flagged_obligations(*value, k as int),
        decreases 5 - k,
    {
        let kind = kinds[k];
        let flagged = match registrations {
            Some(x) => is_true_at(lookup(x, kind)),
            None => false,
        };
        proof {
            assert(index_key(Json::Null, kind@) == Json::Null);
        }
        if flagged {
            let o = obligation("registration:", kind, ObligationStatus::Qualified, Some(flagged_scenario(kind)));
            let ghost prev = obligations@;
            obligations.push(o);
            proof {
                lemma_views_push(prev, o);
                assert(is_true(index_key(index_key(*value, "registrations"@), flagged_kinds()[k as int])));
                assert(obligation_view(o) == ("registration:"@ + flagged_kinds()[k as int], flagged_kinds()[k as int],
                    ObligationStatus::Qualified, seq![scenario_for(flagged_kinds()[k as int])]));
                assert(obligation_views(obligations@) =~= obligation_views(before) + flagged_obligations(*value, k + 1));
            }
        } else {
            proof {
                assert(flagged_obligations(*value, k + 1) =~= flagged_obligations(*value, k as int));
            }
        }
        k += 1;
    }
    let runtime = runtime_kinds_of(value);
    proof {
        lemma_enumerate_strings(views(runtime@), runtime_kinds(*value));
    }
    let ghost listed = obligation_views(before) + flagged_obligations(*value, 5);
    let mut n: usize = 0;
    while n < runtime.len()
        invariant
            n <= runtime@.len(),
            enumerate_strings(runtime_kinds(*value)) == views(runtime@),
            obligations@.len() >= before.len(),
            forall|i: int| 0 <= i < before.len() ==> #[trigger] obligations@[i] == before[i],
            obligation_views(obligations@) == listed + views(runtime@).take(n as int).map_values(
                |k: Seq<char>| runtime_obligation(k, controls_empty),
            ),
        decreases runtime@.len() - n,
    {
        let kind = runtime[n].as_str();
        let scenario = runtime_scenario_of(kind, controls_empty);
        let o = if str_eq(scenario, "uncovered") {
            obligation("runtime:", kind, ObligationStatus::Uncovered, None)
        } else {
            obligation("runtime:", kind, ObligationStatus::Qualified, Some(scenario))
        };
        let ghost prev = obligations@;
        obligations.push(o);
        proof {
            lemma_views_push(prev, o);
            assert(obligation_view(o) == runtime_obligation(runtime@[n as int]@, controls_empty));
            assert(views(runtime@)[n as int] == runtime@[n as int]@);
            assert(views(runtime@).take(n + 1).map_values(|k: Seq<char>| runtime_obligation(k, controls_empty))
                =~= views(runtime@).take(n as int).map_values(|k: Seq<char>| runtime_obligation(k, controls_empty))
                + seq![runtime_obligation(runtime@[n as int]@, controls_empty)]);
            assert(obligation_views(obligations@) =~= listed + views(runtime@).take(n + 1).map_values(
                |k: Seq<char>| runtime_obligation(k, controls_empty),
            ));
        }
        n += 1;
    }
    proof {
        assert(views(runtime@).take(n as int) =~= views(runtime@));
    }
    let unbounded = is_true_at(lookup(value, "motionUnbounded"));
    if unbounded {
        let o = Obligation {
            id: String::from_str("motion:unbounded"),
            kind: String::from_str("motion"),
            status: ObligationStatus::Uncovered,
            scenarios: Vec::new(),
        };
        let ghost prev = obligations@;
        obligations.push(o);
        proof {
            lemma_views_push(prev, o);
            assert(views(o.scenarios@) =~= Seq::<Seq<char>>::empty());
            assert(obligation_views(obligations@) =~= obligation_views(before) + imposed(*value, controls_empty));
        }
    } else {
        proof {
            assert(obligation_views(obligations@) =~= obligation_views(before) + imposed(*value, controls_empty));
        }
    }
    proof {
        assert(obligations@.len() == obligation_views(obligations@).len());
    }
}

} // verus!
