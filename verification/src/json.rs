//! JSON values as the oracle observes them: objects keep their members in
//! ascending key order, numbers keep the text they were written with.
use vstd::prelude::*;
use crate::keyed::{entries, has_key};
use crate::keyed::union_keys;
use crate::order::{ascending_strings, lemma_least_at, lemma_least_none, least_of, views};
use crate::text::decimal;

verus! {

/// A JSON value.
#[derive(Debug)]
pub enum Json {
    Null,
    Bool(bool),
    Number(String),
    Text(String),
    Array(Vec<Json>),
    Object(Vec<(String, Json)>),
}

/// Two values are the same: same kind, same scalars, and the same items or
/// members, in order.
pub open spec fn same(a: Json, b: Json) -> bool
    decreases a,
{
    match a {
        Json::Null => b is Null,
        Json::Bool(x) => b is Bool && b->Bool_0 == x,
        Json::Number(x) => b is Number && b->Number_0@ == x@,
        Json::Text(x) => b is Text && b->Text_0@ == x@,
        Json::Array(xs) => b is Array && xs@.len() == b->Array_0@.len() && forall|i: int|
            0 <= i < xs@.len() ==> same(#[trigger] xs@[i], b->Array_0@[i]),
        Json::Object(xs) => b is Object && xs@.len() == b->Object_0@.len() && forall|i: int|
            0 <= i < xs@.len() ==> (#[trigger] xs@[i]).0@ == b->Object_0@[i].0@ && same(
                xs@[i].1,
                b->Object_0@[i].1,
            ),
    }
}

/// Every value is the same as itself.
pub proof fn lemma_same_reflexive(a: Json)
    ensures
        same(a, a),
    decreases a,
{
    match a {
        Json::Array(xs) => {
            assert forall|i: int| 0 <= i < xs@.len() implies same(#[trigger] xs@[i], xs@[i]) by {
                vstd::std_specs::vec::axiom_vec_index_decreases(xs, i);
                lemma_same_reflexive(xs@[i]);
            }
        },
        Json::Object(xs) => {
            assert forall|i: int| 0 <= i < xs@.len() implies same(#[trigger] xs@[i].1, xs@[i].1) by {
                vstd::std_specs::vec::axiom_vec_index_decreases(xs, i);
                assert(decreases_to!(xs@[i] => xs@[i].1));
                lemma_same_reflexive(xs@[i].1);
            }
        },
        _ => {},
    }
}

/// Sameness carries over from one value to a third.
pub proof fn lemma_same_transitive(a: Json, b: Json, c: Json)
    requires
        same(a, b),
        same(b, c),
    ensures
        same(a, c),
    decreases a,
{
    match a {
        Json::Array(xs) => {
            let ys = b->Array_0@;
            let zs = c->Array_0@;
            assert forall|i: int| 0 <= i < xs@.len() implies same(#[trigger] xs@[i], zs[i]) by {
                vstd::std_specs::vec::axiom_vec_index_decreases(xs, i);
                lemma_same_transitive(xs@[i], ys[i], zs[i]);
            }
        },
        Json::Object(xs) => {
            let ys = b->Object_0@;
            let zs = c->Object_0@;
            assert forall|i: int| 0 <= i < xs@.len() implies (#[trigger] xs@[i]).0@ == zs[i].0@ && same(
                xs@[i].1,
                zs[i].1,
            ) by {
                vstd::std_specs::vec::axiom_vec_index_decreases(xs, i);
                assert(decreases_to!(xs@[i] => xs@[i].1));
                lemma_same_transitive(xs@[i].1, ys[i].1, zs[i].1);
            }
        },
        _ => {},
    }
}

impl View for Json {
    type V = Json;

    open spec fn view(&self) -> Json {
        *self
    }
}

impl Clone for Json {
    fn clone(&self) -> (r: Self)
        ensures
            same(*self, r),
    {
        duplicate(self)
    }
}

/// Whether two values are the same.
pub fn json_eq(a: &Json, b: &Json) -> (r: bool)
    ensures
        r == same(*a, *b),
    decreases a,
{
    match a {
        Json::Null => matches!(b, Json::Null),
        Json::Bool(x) => match b {
            Json::Bool(y) => *x == *y,
            _ => false,
        },
        Json::Number(x) => match b {
            Json::Number(y) => crate::text::str_eq(x.as_str(), y.as_str()),
            _ => false,
        },
        Json::Text(x) => match b {
            Json::Text(y) => crate::text::str_eq(x.as_str(), y.as_str()),
            _ => false,
        },
        Json::Array(xs) => match b {
            Json::Array(ys) => {
                if xs.len() != ys.len() {
                    return false;
                }
                let mut i: usize = 0;
                while i < xs.len()
                    invariant
                        *a == Json::Array(*xs),
                        *b == Json::Array(*ys),
                        xs@.len() == ys@.len(),
                        i <= xs@.len(),
                        forall|k: int| 0 <= k < i ==> same(#[trigger] xs@[k], ys@[k]),
                    decreases xs@.len() - i,
                {
                    proof {
                        vstd::std_specs::vec::axiom_vec_index_decreases(*xs, i as int);
                        assert(decreases_to!(*a => (*a)->Array_0));
                    }
                    if !json_eq(&xs[i], &ys[i]) {
                        return false;
                    }
                    i += 1;
                }
                true
            },
            _ => false,
        },
        Json::Object(xs) => match b {
            Json::Object(ys) => {
                if xs.len() != ys.len() {
                    return false;
                }
                let mut i: usize = 0;
                while i < xs.len()
                    invariant
                        *a == Json::Object(*xs),
                        *b == Json::Object(*ys),
                        xs@.len() == ys@.len(),
                        i <= xs@.len(),
                        forall|k: int|
                            0 <= k < i ==> (#[trigger] xs@[k]).0@ == ys@[k].0@ && same(xs@[k].1, ys@[k].1),
                    decreases xs@.len() - i,
                {
                    if !crate::text::str_eq(xs[i].0.as_str(), ys[i].0.as_str()) {
                        return false;
                    }
                    proof {
                        vstd::std_specs::vec::axiom_vec_index_decreases(*xs, i as int);
                        assert(decreases_to!(*a => (*a)->Object_0));
                        assert(decreases_to!(xs@[i as int] => xs@[i as int].1));
                    }
                    if !json_eq(&xs[i].1, &ys[i].1) {
                        return false;
                    }
                    i += 1;
                }
                true
            },
            _ => false,
        },
    }
}

/// A copy of a value.
pub fn duplicate(v: &Json) -> (r: Json)
    ensures
        same(*v, r),
    decreases v,
{
    match v {
        Json::Null => Json::Null,
        Json::Bool(x) => Json::Bool(*x),
        Json::Number(x) => Json::Number(x.clone()),
        Json::Text(x) => Json::Text(x.clone()),
        Json::Array(xs) => {
            let mut out: Vec<Json> = Vec::new();
            let mut i: usize = 0;
            while i < xs.len()
                invariant
                    *v == Json::Array(*xs),
                    i <= xs@.len(),
                    out@.len() == i,
                    forall|k: int| 0 <= k < i ==> same(#[trigger] xs@[k], out@[k]),
                decreases xs@.len() - i,
            {
                proof {
                    vstd::std_specs::vec::axiom_vec_index_decreases(*xs, i as int);
                    assert(decreases_to!(*v => (*v)->Array_0));
                }
                let item = duplicate(&xs[i]);
                out.push(item);
                i += 1;
            }
            Json::Array(out)
        },
        Json::Object(xs) => {
            let mut out: Vec<(String, Json)> = Vec::new();
            let mut i: usize = 0;
            while i < xs.len()
                invariant
                    *v == Json::Object(*xs),
                    i <= xs@.len(),
                    out@.len() == i,
                    forall|k: int|
                        0 <= k < i ==> (#[trigger] xs@[k]).0@ == out@[k].0@ && same(xs@[k].1, out@[k].1),
                decreases xs@.len() - i,
            {
                proof {
                    vstd::std_specs::vec::axiom_vec_index_decreases(*xs, i as int);
                    assert(decreases_to!(*v => (*v)->Object_0));
                    assert(decreases_to!(xs@[i as int] => xs@[i as int].1));
                }
                let item = duplicate(&xs[i].1);
                out.push((xs[i].0.clone(), item));
                i += 1;
            }
            Json::Object(out)
        },
    }
}

/// The item at a position, if the array has one.
pub open spec fn item(xs: Seq<Json>, i: int) -> Option<Json> {
    if 0 <= i < xs.len() {
        Some(xs[i])
    } else {
        None
    }
}

/// Two optional values are the same: both absent, or both present and the
/// same.
pub open spec fn opt_same(x: Option<Json>, y: Option<Json>) -> bool {
    match (x, y) {
        (Some(x), Some(y)) => same(x, y),
        (None, None) => true,
        _ => false,
    }
}

/// The first position below `n` at which two arrays differ.
pub open spec fn first_item_diff(xs: Seq<Json>, ys: Seq<Json>, n: int) -> Option<int>
    decreases n,
{
    if n <= 0 {
        None
    } else {
        match first_item_diff(xs, ys, n - 1) {
            Some(i) => Some(i),
            None => if !opt_same(item(xs, n - 1), item(ys, n - 1)) {
                Some(n - 1)
            } else {
                None
            },
        }
    }
}

/// The position of the first of the first `n` members that bears the key.
pub open spec fn member_index(xs: Seq<(String, Json)>, k: Seq<char>, n: int) -> Option<int>
    decreases n,
{
    if n <= 0 {
        None
    } else {
        match member_index(xs, k, n - 1) {
            Some(i) => Some(i),
            None => if xs[n - 1].0@ == k {
                Some(n - 1)
            } else {
                None
            },
        }
    }
}

/// The value of the member that bears the key, if any.
pub open spec fn member(xs: Seq<(String, Json)>, k: Seq<char>) -> Option<Json> {
    match member_index(xs, k, xs.len() as int) {
        Some(i) => Some(xs[i].1),
        None => None,
    }
}

/// Every key either object has.
pub open spec fn member_keys(xs: Seq<(String, Json)>, ys: Seq<(String, Json)>) -> Set<Seq<char>> {
    Set::new(|k: Seq<char>| has_key(entries(xs), k) || has_key(entries(ys), k))
}

/// The key, when the two objects hold different values under it.
pub open spec fn member_diff(xs: Seq<(String, Json)>, ys: Seq<(String, Json)>) -> spec_fn(Seq<char>) -> Option<
    Seq<char>,
> {
    |k: Seq<char>|
        if !opt_same(member(xs, k), member(ys, k)) {
            Some(k)
        } else {
            None
        }
}

/// A value, or null where there is none.
pub open spec fn or_null(x: Option<Json>) -> Json {
    match x {
        Some(v) => v,
        None => Json::Null,
    }
}

/// The path of an array item.
pub open spec fn index_path(path: Seq<char>, i: int) -> Seq<char> {
    path + "["@ + decimal(i as nat) + "]"@
}

/// The path of an object member.
pub open spec fn key_path(path: Seq<char>, k: Seq<char>) -> Seq<char> {
    path + "."@ + k
}

/// The larger of two lengths.
pub open spec fn longer(a: int, b: int) -> int {
    if a < b {
        b
    } else {
        a
    }
}

/// Where two values first differ, and what each holds there: inside arrays
/// at the first differing position, inside objects at the least differing
/// key, down to the deepest pair that still differs as a whole. Where
/// nothing inside differs, the path itself and both values.
pub open spec fn walk(l: Json, r: Json, path: Seq<char>) -> (Seq<char>, Json, Json)
    decreases l,
{
    match l {
        Json::Array(xs) => if r is Array {
            let ys = r->Array_0@;
            match first_item_diff(xs@, ys, longer(xs@.len() as int, ys.len() as int)) {
                Some(i) => if 0 <= i < xs@.len() && i < ys.len() {
                    walk(xs@[i], ys[i], index_path(path, i))
                } else {
                    (index_path(path, i), or_null(item(xs@, i)), or_null(item(ys, i)))
                },
                None => (path, l, r),
            }
        } else {
            (path, l, r)
        },
        Json::Object(xs) => if r is Object {
            let ys = r->Object_0@;
            match least_of(member_keys(xs@, ys), member_diff(xs@, ys)) {
                Some(k) => match (member_index(xs@, k, xs@.len() as int), member_index(ys, k, ys.len() as int)) {
                    (Some(i), Some(j)) => if 0 <= i < xs@.len() && 0 <= j < ys.len() {
                        walk(xs@[i].1, ys[j].1, key_path(path, k))
                    } else {
                        (key_path(path, k), Json::Null, Json::Null)
                    },
                    _ => (key_path(path, k), or_null(member(xs@, k)), or_null(member(ys, k))),
                },
                None => (path, l, r),
            }
        } else {
            (path, l, r)
        },
        _ => (path, l, r),
    }
}

proof fn lemma_first_item_diff_stays(xs: Seq<Json>, ys: Seq<Json>, n: int, m: int)
    requires
        0 <= n <= m,
        first_item_diff(xs, ys, n) is Some,
    ensures
        first_item_diff(xs, ys, m) == first_item_diff(xs, ys, n),
    decreases m - n,
{
    if m > n {
        lemma_first_item_diff_stays(xs, ys, n, m - 1);
    }
}

proof fn lemma_member_index_stays(xs: Seq<(String, Json)>, k: Seq<char>, n: int, m: int)
    requires
        0 <= n <= m,
        member_index(xs, k, n) is Some,
    ensures
        member_index(xs, k, m) == member_index(xs, k, n),
    decreases m - n,
{
    if m > n {
        lemma_member_index_stays(xs, k, n, m - 1);
    }
}

/// The first position at which two arrays differ.
fn first_item_at(xs: &Vec<Json>, ys: &Vec<Json>) -> (r: Option<usize>)
    ensures
        match r {
            Some(i) => first_item_diff(xs@, ys@, longer(xs@.len() as int, ys@.len() as int)) == Some(i as int),
            None => first_item_diff(xs@, ys@, longer(xs@.len() as int, ys@.len() as int)) is None,
        },
{
    let n: usize = if xs.len() < ys.len() { ys.len() } else { xs.len() };
    let mut i: usize = 0;
    while i < n
        invariant
            n == longer(xs@.len() as int, ys@.len() as int),
            i <= n,
            first_item_diff(xs@, ys@, i as int) is None,
        decreases n - i,
    {
        let differs = if i < xs.len() && i < ys.len() {
            !json_eq(&xs[i], &ys[i])
        } else {
            true
        };
        if differs {
            proof {
                lemma_first_item_diff_stays(xs@, ys@, i + 1, n as int);
            }
            return Some(i);
        }
        i += 1;
    }
    None
}

/// The first member that bears the key.
pub(crate) fn member_at(xs: &Vec<(String, Json)>, k: &str) -> (r: Option<usize>)
    ensures
        match r {
            Some(i) => i < xs@.len() && member_index(xs@, k@, xs@.len() as int) == Some(i as int),
            None => member_index(xs@, k@, xs@.len() as int) is None,
        },
{
    let mut i: usize = 0;
    while i < xs.len()
        invariant
            i <= xs@.len(),
            member_index(xs@, k@, i as int) is None,
        decreases xs@.len() - i,
    {
        if crate::text::str_eq(xs[i].0.as_str(), k) {
            proof {
                lemma_member_index_stays(xs@, k@, i + 1, xs@.len() as int);
            }
            return Some(i);
        }
        i += 1;
    }
    None
}

/// The least key under which two objects hold different values.
fn least_member_diff(xs: &Vec<(String, Json)>, ys: &Vec<(String, Json)>) -> (r: Option<String>)
    ensures
        match r {
            Some(k) => least_of(member_keys(xs@, ys@), member_diff(xs@, ys@)) == Some(k@),
            None => least_of(member_keys(xs@, ys@), member_diff(xs@, ys@)) is None,
        },
{
    let keys = union_keys(xs, ys);
    let ghost ks = member_keys(xs@, ys@);
    let ghost diff = member_diff(xs@, ys@);
    assert forall|y: Seq<char>| #[trigger] ks.contains(y) <==> views(keys@).contains(y) by {}
    let mut n: usize = 0;
    while n < keys.len()
        invariant
            n <= keys@.len(),
            ks == member_keys(xs@, ys@),
            diff == member_diff(xs@, ys@),
            ascending_strings(views(keys@)),
            forall|y: Seq<char>| #[trigger] ks.contains(y) <==> views(keys@).contains(y),
            forall|j: int| 0 <= j < n ==> (#[trigger] diff(views(keys@)[j])) is None,
        decreases keys@.len() - n,
    {
        let k = keys[n].as_str();
        let mi = member_at(xs, k);
        let mj = member_at(ys, k);
        let differs = match (mi, mj) {
            (Some(i), Some(j)) => !json_eq(&xs[i].1, &ys[j].1),
            (None, None) => false,
            _ => true,
        };
        assert(views(keys@)[n as int] == keys@[n as int]@);
        if differs {
            proof {
                assert(diff(keys@[n as int]@) == Some(keys@[n as int]@));
                lemma_least_at(views(keys@), ks, diff, n as int);
            }
            return Some(keys[n].clone());
        }
        n += 1;
    }
    proof {
        lemma_least_none(views(keys@), ks, diff);
    }
    None
}

/// A path with an array position appended.
fn push_index(path: &String, i: usize) -> (r: String)
    ensures
        r@ == index_path(path@, i as int),
{
    let mut r = path.clone();
    crate::text::push_str(&mut r, "[");
    crate::text::push_decimal(&mut r, i as u128);
    crate::text::push_str(&mut r, "]");
    r
}

/// A path with an object key appended.
fn push_key(path: &String, k: &str) -> (r: String)
    ensures
        r@ == key_path(path@, k@),
{
    let mut r = path.clone();
    crate::text::push_str(&mut r, ".");
    crate::text::push_str(&mut r, k);
    r
}

/// The item at a position, or null.
fn item_or_null(xs: &Vec<Json>, i: usize) -> (r: Json)
    ensures
        same(or_null(item(xs@, i as int)), r),
{
    if i < xs.len() {
        duplicate(&xs[i])
    } else {
        Json::Null
    }
}

/// Where two values first differ below `path`.
fn walk_from(l: &Json, r: &Json, path: String) -> (out: (String, Json, Json))
    ensures
        out.0@ == walk(*l, *r, path@).0,
        same(walk(*l, *r, path@).1, out.1),
        same(walk(*l, *r, path@).2, out.2),
    decreases l,
{
    match l {
        Json::Array(xs) => match r {
            Json::Array(ys) => match first_item_at(xs, ys) {
                Some(i) => {
                    let p = push_index(&path, i);
                    if i < xs.len() && i < ys.len() {
                        proof {
                            vstd::std_specs::vec::axiom_vec_index_decreases(*xs, i as int);
                            assert(decreases_to!(*l => (*l)->Array_0));
                        }
                        return walk_from(&xs[i], &ys[i], p);
                    } else {
                        let a = item_or_null(xs, i);
                        let b = item_or_null(ys, i);
                        return (p, a, b);
                    }
                },
                None => {},
            },
            _ => {},
        },
        Json::Object(xs) => match r {
            Json::Object(ys) => match least_member_diff(xs, ys) {
                Some(k) => {
                    let p = push_key(&path, k.as_str());
                    let mi = member_at(xs, k.as_str());
                    let mj = member_at(ys, k.as_str());
                    match (mi, mj) {
                        (Some(i), Some(j)) => {
                            proof {
                                vstd::std_specs::vec::axiom_vec_index_decreases(*xs, i as int);
                                assert(decreases_to!(*l => (*l)->Object_0));
                                assert(decreases_to!(xs@[i as int] => xs@[i as int].1));
                            }
                            return walk_from(&xs[i].1, &ys[j].1, p);
                        },
                        (Some(i), None) => {
                            let a = duplicate(&xs[i].1);
                            return (p, a, Json::Null);
                        },
                        (None, Some(j)) => {
                            let b = duplicate(&ys[j].1);
                            return (p, Json::Null, b);
                        },
                        (None, None) => {
                            return (p, Json::Null, Json::Null);
                        },
                    }
                },
                None => {},
            },
            _ => {},
        },
        _ => {},
    }
    let a = duplicate(l);
    let b = duplicate(r);
    (path, a, b)
}

/// Where two values first differ, from the root `$`, and what each holds
/// there.
pub fn between(left: &Json, right: &Json) -> (out: (String, Json, Json))
    ensures
        out.0@ == walk(*left, *right, "$"@).0,
        same(walk(*left, *right, "$"@).1, out.1),
        same(walk(*left, *right, "$"@).2, out.2),
{
    walk_from(left, right, String::from_str("$"))
}

/// The member of an object under a key; null for anything else or a
/// missing key.
pub open spec fn index_key(v: Json, k: Seq<char>) -> Json {
    match v {
        Json::Object(xs) => or_null(member(xs@, k)),
        _ => Json::Null,
    }
}

/// The value is `true`.
pub open spec fn is_true(v: Json) -> bool {
    v is Bool && v->Bool_0
}

/// The member of an object under a key, if the value is an object that has
/// one.
pub fn lookup<'a>(v: &'a Json, k: &str) -> (r: Option<&'a Json>)
    ensures
        match r {
            Some(x) => index_key(*v, k@) == *x,
            None => index_key(*v, k@) == Json::Null,
        },
{
    match v {
        Json::Object(xs) => match member_at(xs, k) {
            Some(i) => Some(&xs[i].1),
            None => None,
        },
        _ => None,
    }
}

/// Whether a looked-up member is `true`.
pub fn is_true_at(v: Option<&Json>) -> (r: bool)
    ensures
        r == match v {
            Some(x) => is_true(*x),
            None => false,
        },
{
    match v {
        Some(Json::Bool(b)) => *b,
        _ => false,
    }
}

} // verus!
