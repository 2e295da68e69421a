//! The orders that keyed evidence is kept in: ascending integers and
//! strings compared character by character, as std orders `String`.
use vstd::prelude::*;

verus! {

/// Strict lexicographic order on character sequences, by code point.
pub open spec fn lex_lt(a: Seq<char>, b: Seq<char>) -> bool
    decreases a.len(),
{
    if a.len() == 0 {
        b.len() > 0
    } else if b.len() == 0 {
        false
    } else if a[0] == b[0] {
        lex_lt(a.drop_first(), b.drop_first())
    } else {
        (a[0] as int) < (b[0] as int)
    }
}

/// No sequence precedes itself.
pub proof fn lemma_lex_irreflexive(a: Seq<char>)
    ensures
        !lex_lt(a, a),
    decreases a.len(),
{
    if a.len() > 0 {
        lemma_lex_irreflexive(a.drop_first());
    }
}

/// The order is transitive.
pub proof fn lemma_lex_transitive(a: Seq<char>, b: Seq<char>, c: Seq<char>)
    requires
        lex_lt(a, b),
        lex_lt(b, c),
    ensures
        lex_lt(a, c),
    decreases a.len(),
{
    if a.len() > 0 && b.len() > 0 && c.len() > 0 {
        if a[0] == b[0] && b[0] == c[0] {
            lemma_lex_transitive(a.drop_first(), b.drop_first(), c.drop_first());
        }
    }
}

/// Two different sequences are ordered one way or the other.
pub proof fn lemma_lex_total(a: Seq<char>, b: Seq<char>)
    requires
        a != b,
    ensures
        lex_lt(a, b) || lex_lt(b, a),
    decreases a.len(),
{
    if a.len() > 0 && b.len() > 0 {
        if a[0] == b[0] {
            if a.drop_first() == b.drop_first() {
                assert(a =~= seq![a[0]] + a.drop_first());
                assert(b =~= seq![b[0]] + b.drop_first());
            }
            lemma_lex_total(a.drop_first(), b.drop_first());
        } else {
            assert((a[0] as int) != (b[0] as int));
        }
    } else if a.len() == 0 && b.len() == 0 {
        assert(a =~= b);
    }
}

/// Whether `a` precedes `b`, character by character.
pub fn lex_less(a: &Vec<char>, b: &Vec<char>) -> (r: bool)
    ensures
        r == lex_lt(a@, b@),
{
    let mut i: usize = 0;
    assert(a@.skip(0) =~= a@);
    assert(b@.skip(0) =~= b@);
    while i < a.len() && i < b.len() && a[i] == b[i]
        invariant
            i <= a.len(),
            i <= b.len(),
            a@.take(i as int) == b@.take(i as int),
            lex_lt(a@, b@) == lex_lt(a@.skip(i as int), b@.skip(i as int)),
        decreases a.len() - i,
    {
        proof {
            let sa = a@.skip(i as int);
            let sb = b@.skip(i as int);
            assert(sa.drop_first() =~= a@.skip(i + 1));
            assert(sb.drop_first() =~= b@.skip(i + 1));
            assert(a@.take(i + 1) =~= a@.take(i as int).push(a@[i as int]));
            assert(b@.take(i + 1) =~= b@.take(i as int).push(b@[i as int]));
        }
        i += 1;
    }
    if i == a.len() {
        i < b.len()
    } else if i == b.len() {
        false
    } else {
        a[i] < b[i]
    }
}

/// Every element precedes the next one: ascending and free of repeats.
pub open spec fn ascending_strings(s: Seq<Seq<char>>) -> bool {
    forall|i: int, j: int| 0 <= i < j < s.len() ==> lex_lt(#[trigger] s[i], #[trigger] s[j])
}

/// Strictly ascending integers.
pub open spec fn ascending_u32(s: Seq<u32>) -> bool {
    forall|i: int, j: int| 0 <= i < j < s.len() ==> #[trigger] s[i] < #[trigger] s[j]
}

/// The views of a list of strings.
pub open spec fn views(s: Seq<String>) -> Seq<Seq<char>> {
    s.map_values(|x: String| x@)
}

/// Inserts a value into an ascending list unless it is already there.
pub fn insert_u32(v: &mut Vec<u32>, x: u32)
    requires
        ascending_u32(old(v)@),
    ensures
        ascending_u32(final(v)@),
        forall|y: u32| final(v)@.contains(y) <==> (old(v)@.contains(y) || y == x),
        final(v)@.len() == old(v)@.len() + (if old(v)@.contains(x) { 0int } else { 1int }),
{
    let mut i: usize = 0;
    while i < v.len() && v[i] < x
        invariant
            i <= v.len(),
            forall|j: int| 0 <= j < i ==> v@[j] < x,
        decreases v.len() - i,
    {
        i += 1;
    }
    let ghost before = v@;
    if i < v.len() && v[i] == x {
        assert(before[i as int] == x);
        return;
    }
    proof {
        assert forall|k: int| 0 <= k < before.len() implies before[k] != x by {
            if k >= i {
                assert(before[i as int] > x);
                if k > i {
                    assert(before[i as int] < before[k]);
                }
            }
        }
    }
    v.insert(i, x);
    proof {
        assert(v@ =~= before.take(i as int).push(x) + before.skip(i as int));
        assert forall|a: int, b: int| 0 <= a < b < v@.len() implies #[trigger] v@[a] < #[trigger] v@[b] by {
            if a < i && b > i {
                assert(v@[b] == before[b - 1]);
            }
        }
        assert(v@[i as int] == x);
        assert forall|y: u32| v@.contains(y) <==> (before.contains(y) || y == x) by {
            if v@.contains(y) && y != x {
                let k = choose|k: int| 0 <= k < v@.len() && v@[k] == y;
                if k < i {
                    assert(before[k] == y);
                } else {
                    assert(before[k - 1] == y);
                }
            }
            if before.contains(y) {
                let k = choose|k: int| 0 <= k < before.len() && before[k] == y;
                if k < i {
                    assert(v@[k] == y);
                } else {
                    assert(v@[k + 1] == y);
                }
            }
        }
    }
}


/// Inserts a string into an ascending list unless it is already there.
pub fn insert_string(v: &mut Vec<String>, x: &String)
    requires
        ascending_strings(views(old(v)@)),
    ensures
        ascending_strings(views(final(v)@)),
        forall|y: Seq<char>|
            views(final(v)@).contains(y) <==> (views(old(v)@).contains(y) || y == x@),
{
    let xc = crate::text::chars_of(x.as_str());
    let mut i: usize = 0;
    while i < v.len() && lex_less(&crate::text::chars_of(v[i].as_str()), &xc)
        invariant
            i <= v.len(),
            xc@ == x@,
            forall|j: int| 0 <= j < i ==> lex_lt(#[trigger] views(v@)[j], x@),
        decreases v.len() - i,
    {
        i += 1;
    }
    let ghost before = views(v@);
    if i < v.len() && v[i] == *x {
        assert(before[i as int] == x@);
        return;
    }
    proof {
        if i < v.len() {
            lemma_lex_total(before[i as int], x@);
            assert(lex_lt(x@, before[i as int]));
        }
    }
    v.insert(i, x.clone());
    proof {
        let after = views(v@);
        assert(after =~= before.take(i as int).push(x@) + before.skip(i as int));
        assert forall|a: int, b: int| 0 <= a < b < after.len() implies lex_lt(
            #[trigger] after[a],
            #[trigger] after[b],
        ) by {
            if a < i && b > i {
                assert(after[b] == before[b - 1]);
                assert(after[a] == before[a]);
                assert(lex_lt(before[a], x@));
                if b - 1 > i {
                    lemma_lex_transitive(x@, before[i as int], before[b - 1]);
                }
                lemma_lex_transitive(after[a], x@, after[b]);
            } else if a == i && b > i {
                assert(after[b] == before[b - 1]);
                if b - 1 > i {
                    lemma_lex_transitive(x@, before[i as int], before[b - 1]);
                }
            }
        }
        assert forall|y: Seq<char>| after.contains(y) <==> (before.contains(y) || y == x@) by {
            if after.contains(y) && y != x@ {
                let k = choose|k: int| 0 <= k < after.len() && after[k] == y;
                if k < i {
                    assert(before[k] == y);
                } else {
                    assert(before[k - 1] == y);
                }
            }
            if before.contains(y) {
                let k = choose|k: int| 0 <= k < before.len() && before[k] == y;
                if k < i {
                    assert(after[k] == y);
                } else {
                    assert(after[k + 1] == y);
                }
            }
            if y == x@ {
                assert(after[i as int] == y);
            }
        }
    }
}


/// The result of the first key, in ascending order of `keys`, whose result
/// is present; `None` when no key of `keys` has one.
pub open spec fn least_of<T>(keys: Set<Seq<char>>, diff: spec_fn(Seq<char>) -> Option<T>) -> Option<T> {
    if exists|k: Seq<char>| #[trigger] keys.contains(k) && diff(k) is Some && (forall|o: Seq<char>|
        #[trigger] keys.contains(o) && diff(o) is Some ==> o == k || lex_lt(k, o)) {
        diff(
            choose|k: Seq<char>| #[trigger] keys.contains(k) && diff(k) is Some && (forall|o: Seq<char>|
                #[trigger] keys.contains(o) && diff(o) is Some ==> o == k || lex_lt(k, o)),
        )
    } else {
        None
    }
}

/// Walking an ascending enumeration of `keys` and stopping at the first
/// present result finds `least_of`.
pub proof fn lemma_least_at<T>(
    ids: Seq<Seq<char>>,
    keys: Set<Seq<char>>,
    diff: spec_fn(Seq<char>) -> Option<T>,
    k: int,
)
    requires
        ascending_strings(ids),
        forall|y: Seq<char>| #[trigger] keys.contains(y) <==> ids.contains(y),
        0 <= k < ids.len(),
        diff(ids[k]) is Some,
        forall|j: int| 0 <= j < k ==> (#[trigger] diff(ids[j])) is None,
    ensures
        least_of(keys, diff) == diff(ids[k]),
{
    let key = ids[k];
    assert(ids.contains(key));
    assert forall|o: Seq<char>| #[trigger] keys.contains(o) && diff(o) is Some implies o == key || lex_lt(key, o) by {
        assert(ids.contains(o));
        let j = choose|j: int| 0 <= j < ids.len() && ids[j] == o;
        if j < k {
            assert(diff(ids[j]) is None);
        } else if j > k {
            assert(lex_lt(ids[k], ids[j]));
        }
    }
    assert(keys.contains(key));
    let c = choose|c: Seq<char>| #[trigger] keys.contains(c) && diff(c) is Some && (forall|o: Seq<char>|
        #[trigger] keys.contains(o) && diff(o) is Some ==> o == c || lex_lt(c, o));
    assert(keys.contains(c) && diff(c) is Some);
    if c != key {
        assert(lex_lt(key, c));
        assert(keys.contains(key) && diff(key) is Some);
        assert(lex_lt(c, key));
        lemma_lex_transitive(key, c, key);
        lemma_lex_irreflexive(key);
    }
}

/// When no key of an enumeration of `keys` has a result, `least_of` is `None`.
pub proof fn lemma_least_none<T>(
    ids: Seq<Seq<char>>,
    keys: Set<Seq<char>>,
    diff: spec_fn(Seq<char>) -> Option<T>,
)
    requires
        forall|y: Seq<char>| #[trigger] keys.contains(y) <==> ids.contains(y),
        forall|j: int| 0 <= j < ids.len() ==> (#[trigger] diff(ids[j])) is None,
    ensures
        least_of(keys, diff) is None,
{
    assert forall|k: Seq<char>| #[trigger] keys.contains(k) implies diff(k) is None by {
        assert(ids.contains(k));
        let j = choose|j: int| 0 <= j < ids.len() && ids[j] == k;
        assert(diff(ids[j]) is None);
    }
}


/// The members of a finite set of integers in ascending order.
pub open spec fn enumerate_u32(set: Set<u32>) -> Seq<u32> {
    choose|q: Seq<u32>| ascending_u32(q) && forall|w: u32| #[trigger] q.contains(w) <==> set.contains(w)
}

/// Two ascending lists with the same members are the same list.
pub proof fn lemma_ascending_u32_unique(a: Seq<u32>, b: Seq<u32>)
    requires
        ascending_u32(a),
        ascending_u32(b),
        forall|w: u32| #![trigger a.contains(w)] #![trigger b.contains(w)] a.contains(w) <==> b.contains(w),
    ensures
        a == b,
    decreases a.len(),
{
    if a.len() == 0 {
        if b.len() > 0 {
            assert(b.contains(b[0]));
        }
        assert(a =~= b);
    } else {
        assert(a.contains(a[0]));
        let j = choose|j: int| 0 <= j < b.len() && b[j] == a[0];
        assert(b.contains(b[0]));
        let i = choose|i: int| 0 <= i < a.len() && a[i] == b[0];
        if j > 0 {
            assert(b[0] < b[j]);
            if i > 0 {
                assert(a[0] < a[i]);
            }
        }
        assert(a[0] == b[0]);
        let a1 = a.drop_first();
        let b1 = b.drop_first();
        assert forall|w: u32| #![trigger a1.contains(w)] #![trigger b1.contains(w)] a1.contains(w) <==> b1.contains(w) by {
            if a1.contains(w) {
                let k = choose|k: int| 0 <= k < a1.len() && a1[k] == w;
                assert(a[k + 1] == w);
                assert(a[0] < a[k + 1]);
                assert(a.contains(w));
                let m = choose|m: int| 0 <= m < b.len() && b[m] == w;
                assert(m != 0);
                assert(b1[m - 1] == w);
            }
            if b1.contains(w) {
                let k = choose|k: int| 0 <= k < b1.len() && b1[k] == w;
                assert(b[k + 1] == w);
                assert(b[0] < b[k + 1]);
                assert(b.contains(w));
                let m = choose|m: int| 0 <= m < a.len() && a[m] == w;
                assert(m != 0);
                assert(a1[m - 1] == w);
            }
        }
        lemma_ascending_u32_unique(a1, b1);
        assert(a =~= seq![a[0]] + a1);
        assert(b =~= seq![b[0]] + b1);
    }
}

/// An ascending list of a set's members is its enumeration.
pub proof fn lemma_enumerate_u32(q: Seq<u32>, set: Set<u32>)
    requires
        ascending_u32(q),
        forall|w: u32| #[trigger] q.contains(w) <==> set.contains(w),
    ensures
        enumerate_u32(set) == q,
{
    let e = enumerate_u32(set);
    assert(ascending_u32(e) && forall|w: u32| #[trigger] e.contains(w) <==> set.contains(w));
    assert forall|w: u32| #![trigger e.contains(w)] #![trigger q.contains(w)] e.contains(w) <==> q.contains(w) by {
        assert(e.contains(w) <==> set.contains(w));
        assert(q.contains(w) <==> set.contains(w));
    }
    lemma_ascending_u32_unique(e, q);
}

/// The members of a finite set of strings in ascending order.
pub open spec fn enumerate_strings(set: Set<Seq<char>>) -> Seq<Seq<char>> {
    choose|q: Seq<Seq<char>>| ascending_strings(q) && forall|w: Seq<char>| #[trigger] q.contains(w) <==> set.contains(w)
}

/// Two ascending lists of strings with the same members are the same list.
pub proof fn lemma_ascending_strings_unique(a: Seq<Seq<char>>, b: Seq<Seq<char>>)
    requires
        ascending_strings(a),
        ascending_strings(b),
        forall|w: Seq<char>| #![trigger a.contains(w)] #![trigger b.contains(w)] a.contains(w) <==> b.contains(w),
    ensures
        a == b,
    decreases a.len(),
{
    if a.len() == 0 {
        if b.len() > 0 {
            assert(b.contains(b[0]));
        }
        assert(a =~= b);
    } else {
        assert(a.contains(a[0]));
        let j = choose|j: int| 0 <= j < b.len() && b[j] == a[0];
        assert(b.contains(b[0]));
        let i = choose|i: int| 0 <= i < a.len() && a[i] == b[0];
        if j > 0 && i > 0 {
            assert(lex_lt(b[0], b[j]));
            assert(lex_lt(a[0], a[i]));
            lemma_lex_transitive(a[0], b[0], a[0]);
            lemma_lex_irreflexive(a[0]);
        }
        assert(a[0] == b[0]);
        let a1 = a.drop_first();
        let b1 = b.drop_first();
        assert forall|w: Seq<char>| #![trigger a1.contains(w)] #![trigger b1.contains(w)] a1.contains(w) <==> b1.contains(w) by {
            if a1.contains(w) {
                let k = choose|k: int| 0 <= k < a1.len() && a1[k] == w;
                assert(a[k + 1] == w);
                assert(lex_lt(a[0], a[k + 1]));
                assert(a.contains(w));
                let m = choose|m: int| 0 <= m < b.len() && b[m] == w;
                if m == 0 {
                    lemma_lex_irreflexive(w);
                }
                assert(b1[m - 1] == w);
            }
            if b1.contains(w) {
                let k = choose|k: int| 0 <= k < b1.len() && b1[k] == w;
                assert(b[k + 1] == w);
                assert(lex_lt(b[0], b[k + 1]));
                assert(b.contains(w));
                let m = choose|m: int| 0 <= m < a.len() && a[m] == w;
                if m == 0 {
                    lemma_lex_irreflexive(w);
                }
                assert(a1[m - 1] == w);
            }
        }
        lemma_ascending_strings_unique(a1, b1);
        assert(a =~= seq![a[0]] + a1);
        assert(b =~= seq![b[0]] + b1);
    }
}

/// An ascending list of a set's members is its enumeration.
pub proof fn lemma_enumerate_strings(q: Seq<Seq<char>>, set: Set<Seq<char>>)
    requires
        ascending_strings(q),
        forall|w: Seq<char>| #[trigger] q.contains(w) <==> set.contains(w),
    ensures
        enumerate_strings(set) == q,
{
    let e = enumerate_strings(set);
    assert(ascending_strings(e) && forall|w: Seq<char>| #[trigger] e.contains(w) <==> set.contains(w));
    assert forall|w: Seq<char>| #![trigger e.contains(w)] #![trigger q.contains(w)] e.contains(w) <==> q.contains(w) by {
        assert(e.contains(w) <==> set.contains(w));
        assert(q.contains(w) <==> set.contains(w));
    }
    lemma_ascending_strings_unique(e, q);
}


/// Strict lexicographic order on tuples of strings, component by component,
/// as std orders a tuple of `String`s.
pub open spec fn key_lt(a: Seq<Seq<char>>, b: Seq<Seq<char>>) -> bool
    decreases a.len(),
{
    if a.len() == 0 {
        b.len() > 0
    } else if b.len() == 0 {
        false
    } else if a[0] == b[0] {
        key_lt(a.drop_first(), b.drop_first())
    } else {
        lex_lt(a[0], b[0])
    }
}

/// No tuple precedes itself.
pub proof fn lemma_key_irreflexive(a: Seq<Seq<char>>)
    ensures
        !key_lt(a, a),
    decreases a.len(),
{
    if a.len() > 0 {
        lemma_key_irreflexive(a.drop_first());
    }
}

/// The tuple order is transitive.
pub proof fn lemma_key_transitive(a: Seq<Seq<char>>, b: Seq<Seq<char>>, c: Seq<Seq<char>>)
    requires
        key_lt(a, b),
        key_lt(b, c),
    ensures
        key_lt(a, c),
    decreases a.len(),
{
    if a.len() > 0 && b.len() > 0 && c.len() > 0 {
        if a[0] == b[0] && b[0] == c[0] {
            lemma_key_transitive(a.drop_first(), b.drop_first(), c.drop_first());
        } else if a[0] == b[0] {
        } else if b[0] == c[0] {
        } else {
            lemma_lex_transitive(a[0], b[0], c[0]);
            if a[0] == c[0] {
                lemma_lex_irreflexive(a[0]);
                lemma_lex_transitive(a[0], b[0], a[0]);
            }
        }
    }
}

/// Two different tuples are ordered one way or the other.
pub proof fn lemma_key_total(a: Seq<Seq<char>>, b: Seq<Seq<char>>)
    requires
        a != b,
    ensures
        key_lt(a, b) || key_lt(b, a),
    decreases a.len(),
{
    if a.len() > 0 && b.len() > 0 {
        if a[0] == b[0] {
            if a.drop_first() == b.drop_first() {
                assert(a =~= seq![a[0]] + a.drop_first());
                assert(b =~= seq![b[0]] + b.drop_first());
            }
            lemma_key_total(a.drop_first(), b.drop_first());
        } else {
            lemma_lex_total(a[0], b[0]);
        }
    } else if a.len() == 0 && b.len() == 0 {
        assert(a =~= b);
    }
}

/// Every tuple precedes the next one: ascending and free of repeats.
pub open spec fn ascending_keys(s: Seq<Seq<Seq<char>>>) -> bool {
    forall|i: int, j: int| 0 <= i < j < s.len() ==> key_lt(#[trigger] s[i], #[trigger] s[j])
}

/// The members of a finite set of tuples in ascending order.
pub open spec fn enumerate_keys(set: Set<Seq<Seq<char>>>) -> Seq<Seq<Seq<char>>> {
    choose|q: Seq<Seq<Seq<char>>>| ascending_keys(q) && forall|w: Seq<Seq<char>>| #[trigger] q.contains(w) <==> set.contains(w)
}

/// Two ascending lists of tuples with the same members are the same list.
pub proof fn lemma_ascending_keys_unique(a: Seq<Seq<Seq<char>>>, b: Seq<Seq<Seq<char>>>)
    requires
        ascending_keys(a),
        ascending_keys(b),
        forall|w: Seq<Seq<char>>| #![trigger a.contains(w)] #![trigger b.contains(w)] a.contains(w) <==> b.contains(w),
    ensures
        a == b,
    decreases a.len(),
{
    if a.len() == 0 {
        if b.len() > 0 {
            assert(b.contains(b[0]));
        }
        assert(a =~= b);
    } else {
        assert(a.contains(a[0]));
        let j = choose|j: int| 0 <= j < b.len() && b[j] == a[0];
        assert(b.contains(b[0]));
        let i = choose|i: int| 0 <= i < a.len() && a[i] == b[0];
        if j > 0 && i > 0 {
            assert(key_lt(b[0], b[j]));
            assert(key_lt(a[0], a[i]));
            lemma_key_transitive(a[0], b[0], a[0]);
            lemma_key_irreflexive(a[0]);
        }
        assert(a[0] == b[0]);
        let a1 = a.drop_first();
        let b1 = b.drop_first();
        assert forall|w: Seq<Seq<char>>| #![trigger a1.contains(w)] #![trigger b1.contains(w)] a1.contains(w) <==> b1.contains(w) by {
            if a1.contains(w) {
                let k = choose|k: int| 0 <= k < a1.len() && a1[k] == w;
                assert(a[k + 1] == w);
                assert(key_lt(a[0], a[k + 1]));
                assert(a.contains(w));
                let m = choose|m: int| 0 <= m < b.len() && b[m] == w;
                if m == 0 {
                    lemma_key_irreflexive(w);
                }
                assert(b1[m - 1] == w);
            }
            if b1.contains(w) {
                let k = choose|k: int| 0 <= k < b1.len() && b1[k] == w;
                assert(b[k + 1] == w);
                assert(key_lt(b[0], b[k + 1]));
                assert(b.contains(w));
                let m = choose|m: int| 0 <= m < a.len() && a[m] == w;
                if m == 0 {
                    lemma_key_irreflexive(w);
                }
                assert(a1[m - 1] == w);
            }
        }
        lemma_ascending_keys_unique(a1, b1);
        assert(a =~= seq![a[0]] + a1);
        assert(b =~= seq![b[0]] + b1);
    }
}

/// An ascending list of a set's members is its enumeration.
pub proof fn lemma_enumerate_keys(q: Seq<Seq<Seq<char>>>, set: Set<Seq<Seq<char>>>)
    requires
        ascending_keys(q),
        forall|w: Seq<Seq<char>>| #[trigger] q.contains(w) <==> set.contains(w),
    ensures
        enumerate_keys(set) == q,
{
    let e = enumerate_keys(set);
    assert(ascending_keys(e) && forall|w: Seq<Seq<char>>| #[trigger] e.contains(w) <==> set.contains(w));
    assert forall|w: Seq<Seq<char>>| #![trigger e.contains(w)] #![trigger q.contains(w)] e.contains(w) <==> q.contains(w) by {
        assert(e.contains(w) <==> set.contains(w));
        assert(q.contains(w) <==> set.contains(w));
    }
    lemma_ascending_keys_unique(e, q);
}

/// Whether tuple `a` precedes tuple `b`.
pub fn key_less(a: &Vec<String>, b: &Vec<String>) -> (r: bool)
    ensures
        r == key_lt(views(a@), views(b@)),
{
    let mut i: usize = 0;
    assert(views(a@).skip(0) =~= views(a@));
    assert(views(b@).skip(0) =~= views(b@));
    while i < a.len() && i < b.len() && crate::text::str_eq(a[i].as_str(), b[i].as_str())
        invariant
            i <= a.len(),
            i <= b.len(),
            key_lt(views(a@), views(b@)) == key_lt(views(a@).skip(i as int), views(b@).skip(i as int)),
        decreases a.len() - i,
    {
        proof {
            let sa = views(a@).skip(i as int);
            let sb = views(b@).skip(i as int);
            assert(sa.drop_first() =~= views(a@).skip(i + 1));
            assert(sb.drop_first() =~= views(b@).skip(i + 1));
        }
        i += 1;
    }
    if i == a.len() {
        i < b.len()
    } else if i == b.len() {
        false
    } else {
        lex_less(&crate::text::chars_of(a[i].as_str()), &crate::text::chars_of(b[i].as_str()))
    }
}

/// Whether two tuples are equal.
pub fn key_equal(a: &Vec<String>, b: &Vec<String>) -> (r: bool)
    ensures
        r == (views(a@) == views(b@)),
{
    if a.len() != b.len() {
        return false;
    }
    let mut i: usize = 0;
    while i < a.len()
        invariant
            i <= a.len(),
            a.len() == b.len(),
            forall|k: int| 0 <= k < i ==> views(a@)[k] == views(b@)[k],
        decreases a.len() - i,
    {
        if !crate::text::str_eq(a[i].as_str(), b[i].as_str()) {
            assert(views(a@)[i as int] != views(b@)[i as int]);
            return false;
        }
        i += 1;
    }
    assert(views(a@) =~= views(b@));
    true
}


/// A tuple placed in an ascending list of tuples, unless it is there.
pub open spec fn insert_key(q: Seq<Seq<Seq<char>>>, k: Seq<Seq<char>>) -> Seq<Seq<Seq<char>>>
    decreases q.len(),
{
    if q.len() == 0 {
        seq![k]
    } else if q[0] == k {
        q
    } else if key_lt(k, q[0]) {
        seq![k] + q
    } else {
        seq![q[0]] + insert_key(q.drop_first(), k)
    }
}

/// Placing a tuple keeps the list ascending and adds exactly that tuple.
pub proof fn lemma_insert_key(q: Seq<Seq<Seq<char>>>, k: Seq<Seq<char>>)
    requires
        ascending_keys(q),
    ensures
        ascending_keys(insert_key(q, k)),
        forall|w: Seq<Seq<char>>| #[trigger] insert_key(q, k).contains(w) <==> (q.contains(w) || w == k),
    decreases q.len(),
{
    let r = insert_key(q, k);
    if q.len() == 0 {
        assert(r =~= seq![k]);
        assert forall|w: Seq<Seq<char>>| #[trigger] r.contains(w) <==> (q.contains(w) || w == k) by {
            if r.contains(w) {
                assert(r[0] == w);
            }
            if w == k {
                assert(r[0] == k);
            }
        }
    } else if q[0] == k {
        assert forall|w: Seq<Seq<char>>| #[trigger] r.contains(w) <==> (q.contains(w) || w == k) by {
            if w == k {
                assert(q[0] == w);
            }
        }
    } else if key_lt(k, q[0]) {
        assert forall|a: int, b: int| 0 <= a < b < r.len() implies key_lt(#[trigger] r[a], #[trigger] r[b]) by {
            if a == 0 {
                if b > 1 {
                    lemma_key_transitive(k, q[0], q[b - 1]);
                }
            } else {
                assert(r[a] == q[a - 1] && r[b] == q[b - 1]);
            }
        }
        assert forall|w: Seq<Seq<char>>| #[trigger] r.contains(w) <==> (q.contains(w) || w == k) by {
            if r.contains(w) && w != k {
                let j = choose|j: int| 0 <= j < r.len() && r[j] == w;
                assert(q[j - 1] == w);
            }
            if q.contains(w) {
                let j = choose|j: int| 0 <= j < q.len() && q[j] == w;
                assert(r[j + 1] == w);
            }
            if w == k {
                assert(r[0] == w);
            }
        }
    } else {
        let t = q.drop_first();
        assert(ascending_keys(t)) by {
            assert forall|a: int, b: int| 0 <= a < b < t.len() implies key_lt(#[trigger] t[a], #[trigger] t[b]) by {
                assert(t[a] == q[a + 1] && t[b] == q[b + 1]);
            }
        }
        lemma_insert_key(t, k);
        let it = insert_key(t, k);
        lemma_key_total(k, q[0]);
        assert(key_lt(q[0], k));
        assert(r =~= seq![q[0]] + it);
        assert forall|a: int, b: int| 0 <= a < b < r.len() implies key_lt(#[trigger] r[a], #[trigger] r[b]) by {
            if a == 0 {
                let w = r[b];
                assert(it[b - 1] == w);
                assert(it.contains(w));
                if w != k {
                    assert(t.contains(w));
                    let j = choose|j: int| 0 <= j < t.len() && t[j] == w;
                    assert(q[j + 1] == w);
                }
            } else {
                assert(r[a] == it[a - 1] && r[b] == it[b - 1]);
            }
        }
        assert forall|w: Seq<Seq<char>>| #[trigger] r.contains(w) <==> (q.contains(w) || w == k) by {
            if r.contains(w) {
                let j = choose|j: int| 0 <= j < r.len() && r[j] == w;
                if j == 0 {
                    assert(q[0] == w);
                } else {
                    assert(it[j - 1] == w);
                    assert(it.contains(w));
                    if w != k {
                        assert(t.contains(w));
                        let m = choose|m: int| 0 <= m < t.len() && t[m] == w;
                        assert(q[m + 1] == w);
                    }
                }
            }
            if q.contains(w) {
                let j = choose|j: int| 0 <= j < q.len() && q[j] == w;
                if j == 0 {
                    assert(r[0] == w);
                } else {
                    assert(t[j - 1] == w);
                    assert(it.contains(w));
                    let m = choose|m: int| 0 <= m < it.len() && it[m] == w;
                    assert(r[m + 1] == w);
                }
            }
            if w == k {
                assert(it.contains(w));
                let m = choose|m: int| 0 <= m < it.len() && it[m] == w;
                assert(r[m + 1] == w);
            }
        }
    }
}

} // verus!
