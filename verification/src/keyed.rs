//! Entries kept under string keys in ascending key order, the way a sorted
//! map iterates them. std's `BTreeMap` is not used for these: vstd states
//! its behaviour only for key types whose ordering it specifies, and it
//! specifies none for `String`, so nothing about such a map could be proved.
use crate::order::{ascending_strings, insert_string, lemma_lex_irreflexive, lemma_lex_transitive, lex_less, lex_lt, views};
use vstd::prelude::*;

verus! {

/// The abstract entries of a keyed list: each key by its characters, each
/// value by its view.
pub open spec fn entries<T: View>(e: Seq<(String, T)>) -> Seq<(Seq<char>, T::V)> {
    e.map_values(|p: (String, T)| (p.0@, p.1@))
}

/// Keys ascend strictly, so no key occurs twice.
pub open spec fn keys_ascending<V>(e: Seq<(Seq<char>, V)>) -> bool {
    forall|i: int, j: int| 0 <= i < j < e.len() ==> lex_lt(#[trigger] e[i].0, #[trigger] e[j].0)
}

/// Whether some entry has the key.
pub open spec fn has_key<V>(e: Seq<(Seq<char>, V)>, k: Seq<char>) -> bool {
    exists|i: int| 0 <= i < e.len() && #[trigger] e[i].0 == k
}

/// The value stored under a key, if any.
pub open spec fn lookup<V>(e: Seq<(Seq<char>, V)>, k: Seq<char>) -> Option<V> {
    if has_key(e, k) {
        Some(e[choose|i: int| 0 <= i < e.len() && #[trigger] e[i].0 == k].1)
    } else {
        None
    }
}

/// In an ascending list the entry at a key's position is the one `lookup` names.
pub proof fn lemma_lookup_at<V>(e: Seq<(Seq<char>, V)>, i: int)
    requires
        keys_ascending(e),
        0 <= i < e.len(),
    ensures
        lookup(e, e[i].0) == Some(e[i].1),
{
    let k = e[i].0;
    assert(0 <= i < e.len() && e[i].0 == k);
    assert(has_key(e, k));
    let j = choose|j: int| 0 <= j < e.len() && #[trigger] e[j].0 == k;
    assert(0 <= j < e.len() && e[j].0 == k);
    lemma_lex_irreflexive(k);
    if j != i {
        if j < i {
            assert(lex_lt(e[j].0, e[i].0));
        } else {
            assert(lex_lt(e[i].0, e[j].0));
        }
    }
    assert(lookup(e, k) == Some(e[j].1));
}

/// The position of a key in a keyed list.
pub fn position<T: View>(e: &Vec<(String, T)>, k: &String) -> (r: Option<usize>)
    ensures
        match r {
            Some(i) => i < e@.len() && e@[i as int].0@ == k@,
            None => !has_key(entries(e@), k@),
        },
{
    let mut i: usize = 0;
    while i < e.len()
        invariant
            i <= e.len(),
            forall|j: int| 0 <= j < i ==> e@[j].0@ != k@,
        decreases e.len() - i,
    {
        if e[i].0 == *k {
            return Some(i);
        }
        i += 1;
    }
    proof {
        assert forall|j: int| 0 <= j < entries(e@).len() implies #[trigger] entries(e@)[j].0 != k@ by {
            assert(entries(e@)[j].0 == e@[j].0@);
        }
    }
    None
}

/// The value under a key, by reference.
pub fn get<'a, T: View>(e: &'a Vec<(String, T)>, k: &String) -> (r: Option<&'a T>)
    requires
        keys_ascending(entries(e@)),
    ensures
        match r {
            Some(v) => lookup(entries(e@), k@) == Some(v@),
            None => lookup(entries(e@), k@) is None,
        },
{
    match position(e, k) {
        Some(i) => {
            proof {
                assert(entries(e@)[i as int] == (e@[i as int].0@, e@[i as int].1@));
                lemma_lookup_at(entries(e@), i as int);
            }
            Some(&e[i].1)
        },
        None => None,
    }
}


/// Every key of two keyed lists, once each, in ascending order.
pub fn union_keys<A: View, B: View>(a: &Vec<(String, A)>, b: &Vec<(String, B)>) -> (r: Vec<String>)
    ensures
        ascending_strings(views(r@)),
        forall|k: Seq<char>|
            #[trigger] views(r@).contains(k) <==> (has_key(entries(a@), k) || has_key(entries(b@), k)),
{
    let mut r: Vec<String> = Vec::new();
    let mut i: usize = 0;
    while i < a.len()
        invariant
            i <= a@.len(),
            ascending_strings(views(r@)),
            forall|k: Seq<char>|
                #[trigger] views(r@).contains(k) <==> exists|j: int| 0 <= j < i && a@[j].0@ == k,
        decreases a@.len() - i,
    {
        insert_string(&mut r, &a[i].0);
        i += 1;
    }
    let mut i: usize = 0;
    while i < b.len()
        invariant
            i <= b@.len(),
            ascending_strings(views(r@)),
            forall|k: Seq<char>|
                #[trigger] views(r@).contains(k) <==> ((exists|j: int| 0 <= j < a@.len() && a@[j].0@ == k)
                    || exists|j: int| 0 <= j < i && b@[j].0@ == k),
        decreases b@.len() - i,
    {
        insert_string(&mut r, &b[i].0);
        i += 1;
    }
    proof {
        assert forall|k: Seq<char>|
            #[trigger] views(r@).contains(k) <==> (has_key(entries(a@), k) || has_key(entries(b@), k)) by {
            if exists|j: int| 0 <= j < a@.len() && a@[j].0@ == k {
                let j = choose|j: int| 0 <= j < a@.len() && a@[j].0@ == k;
                assert(entries(a@)[j].0 == k);
            }
            if exists|j: int| 0 <= j < b@.len() && b@[j].0@ == k {
                let j = choose|j: int| 0 <= j < b@.len() && b@[j].0@ == k;
                assert(entries(b@)[j].0 == k);
            }
            if has_key(entries(a@), k) {
                let j = choose|j: int| 0 <= j < entries(a@).len() && #[trigger] entries(a@)[j].0 == k;
                assert(a@[j].0@ == k);
            }
            if has_key(entries(b@), k) {
                let j = choose|j: int| 0 <= j < entries(b@).len() && #[trigger] entries(b@)[j].0 == k;
                assert(b@[j].0@ == k);
            }
        }
    }
    r
}


/// No key occurs twice.
pub open spec fn keys_distinct<V>(e: Seq<(Seq<char>, V)>) -> bool {
    forall|i: int, j: int| 0 <= i < j < e.len() ==> #[trigger] e[i].0 != #[trigger] e[j].0
}

/// In a list whose keys are distinct, the entry at a key's position is the
/// one `lookup` names.
pub proof fn lemma_lookup_distinct<V>(e: Seq<(Seq<char>, V)>, i: int)
    requires
        keys_distinct(e),
        0 <= i < e.len(),
    ensures
        lookup(e, e[i].0) == Some(e[i].1),
{
    let k = e[i].0;
    assert(0 <= i < e.len() && e[i].0 == k);
    assert(has_key(e, k));
    let j = choose|j: int| 0 <= j < e.len() && #[trigger] e[j].0 == k;
    if j != i {
        if j < i {
            assert(e[j].0 != e[i].0);
        } else {
            assert(e[i].0 != e[j].0);
        }
    }
}

/// Whether the keys of a keyed list ascend strictly.
pub fn keys_in_order<T: View>(e: &Vec<(String, T)>) -> (r: bool)
    ensures
        r == keys_ascending(entries(e@)),
{
    let ghost es = entries(e@);
    if e.len() == 0 {
        return true;
    }
    let mut i: usize = 1;
    while i < e.len()
        invariant
            1 <= i <= e@.len(),
            es == entries(e@),
            forall|a: int, b: int| 0 <= a < b < i ==> lex_lt(#[trigger] es[a].0, #[trigger] es[b].0),
        decreases e@.len() - i,
    {
        assert(es[i - 1].0 == e@[i - 1].0@ && es[i as int].0 == e@[i as int].0@);
        if !lex_less(&crate::text::chars_of(e[i - 1].0.as_str()), &crate::text::chars_of(e[i].0.as_str())) {
            return false;
        }
        assert forall|a: int, b: int| 0 <= a < b < i + 1 implies lex_lt(#[trigger] es[a].0, #[trigger] es[b].0) by {
            if b == i && a < i - 1 {
                lemma_lex_transitive(es[a].0, es[i - 1].0, es[i as int].0);
            }
        }
        i += 1;
    }
    true
}

} // verus!
