//! How a cohort of alike elements is laid out: the rows a reader sees, how
//! many columns the widest row holds, the order the elements are met in,
//! how many of them overlap, and the typical gap between neighbours.
//!
//! Lengths are in hundredths of a CSS pixel.
use crate::backtest::authored::{scope_of, state_scope};
use crate::backtest::compare::{finding, finding_value};
use crate::backtest::display::{compact_number, compact_value, signed_delta, signed_delta_value, signed_number, signed_value};
use crate::backtest::model::{finding_views, Finding, FindingView, State};
use crate::order::{ascending_keys, enumerate_keys, key_equal, key_less, key_lt, lemma_enumerate_keys, lemma_key_total, lemma_key_transitive, views};
use crate::text::{decimal, push_decimal, push_str, str_eq};
use vstd::prelude::*;

verus! {

broadcast use vstd::string::group_string_axioms;


/// The box of an element, in hundredths of a CSS pixel.
#[derive(Clone, Copy, Debug, PartialEq, Eq, Structural)]
pub struct Bounds {
    pub x: i64,
    pub y: i64,
    pub width: i64,
    pub height: i64,
}

/// A box a browser can lay out: every coordinate and extent is below
/// 2^32 hundredths of a pixel, more than a browser's layout range.
pub open spec fn bounded(b: Bounds) -> bool {
    &&& -0x1_0000_0000 < b.x < 0x1_0000_0000
    &&& -0x1_0000_0000 < b.y < 0x1_0000_0000
    &&& -0x1_0000_0000 < b.width < 0x1_0000_0000
    &&& -0x1_0000_0000 < b.height < 0x1_0000_0000
}

/// Strictly before, by the first key, then by the second.
pub open spec fn key_before(a: (i64, i64, usize), b: (i64, i64, usize)) -> bool {
    a.0 < b.0 || (a.0 == b.0 && a.1 < b.1)
}

/// `e` placed into an ordered list after everything it does not precede.
pub open spec fn placed(s: Seq<(i64, i64, usize)>, e: (i64, i64, usize)) -> Seq<(i64, i64, usize)>
    decreases s.len(),
{
    if s.len() == 0 {
        seq![e]
    } else if key_before(e, s[0]) {
        seq![e] + s
    } else {
        seq![s[0]] + placed(s.drop_first(), e)
    }
}

/// The entries ordered by their two keys; entries with equal keys keep the
/// order they came in, as a stable sort keeps it.
pub open spec fn stable_sorted(s: Seq<(i64, i64, usize)>) -> Seq<(i64, i64, usize)>
    decreases s.len(),
{
    if s.len() == 0 {
        seq![]
    } else {
        placed(stable_sorted(s.drop_last()), s.last())
    }
}

/// Where `placed` puts `e`: before the first entry it precedes.
proof fn lemma_placed_at(s: Seq<(i64, i64, usize)>, e: (i64, i64, usize), j: int)
    requires
        0 <= j <= s.len(),
        forall|q: int| 0 <= q < j ==> !key_before(e, #[trigger] s[q]),
        j < s.len() ==> key_before(e, s[j]),
    ensures
        placed(s, e) == s.take(j) + seq![e] + s.skip(j),
    decreases s.len(),
{
    if s.len() == 0 {
        assert(s.take(j) + seq![e] + s.skip(j) =~= seq![e]);
    } else if j == 0 {
        assert(s.take(j) + seq![e] + s.skip(j) =~= seq![e] + s);
    } else {
        let t = s.drop_first();
        assert forall|q: int| 0 <= q < j - 1 implies !key_before(e, #[trigger] t[q]) by {
            assert(t[q] == s[q + 1]);
        }
        if j < s.len() {
            assert(t[j - 1] == s[j]);
        }
        lemma_placed_at(t, e, j - 1);
        assert(s.take(j) + seq![e] + s.skip(j) =~= seq![s[0]] + (t.take(j - 1) + seq![e] + t.skip(j - 1)));
    }
}

/// Places an entry into an ordered list, after every entry it does not
/// precede.
fn place(v: &mut Vec<(i64, i64, usize)>, e: (i64, i64, usize))
    ensures
        final(v)@ == placed(old(v)@, e),
{
    let mut j: usize = 0;
    while j < v.len() && !(e.0 < v[j].0 || (e.0 == v[j].0 && e.1 < v[j].1))
        invariant
            j <= v@.len(),
            forall|q: int| 0 <= q < j ==> !key_before(e, #[trigger] v@[q]),
        decreases v@.len() - j,
    {
        j += 1;
    }
    proof {
        lemma_placed_at(v@, e, j as int);
    }
    let ghost before = v@;
    v.insert(j, e);
    assert(v@ =~= before.take(j as int) + seq![e] + before.skip(j as int));
}

/// The entries in stable order of their two keys.
pub fn stable_sort(s: &Vec<(i64, i64, usize)>) -> (r: Vec<(i64, i64, usize)>)
    ensures
        r@ == stable_sorted(s@),
{
    let mut r: Vec<(i64, i64, usize)> = Vec::new();
    let mut i: usize = 0;
    assert(s@.take(0) =~= Seq::<(i64, i64, usize)>::empty());
    while i < s.len()
        invariant
            i <= s@.len(),
            r@ == stable_sorted(s@.take(i as int)),
        decreases s@.len() - i,
    {
        proof {
            assert(s@.take(i + 1).drop_last() =~= s@.take(i as int));
            assert(s@.take(i + 1).last() == s@[i as int]);
        }
        place(&mut r, s[i]);
        i += 1;
    }
    assert(s@.take(s@.len() as int) =~= s@);
    r
}


/// The entries that order `nodes` top to bottom, then left to right.
pub open spec fn yx_entries(nodes: Seq<(usize, Bounds)>) -> Seq<(i64, i64, usize)> {
    Seq::new(nodes.len(), |i: int| (nodes[i].1.y, nodes[i].1.x, i as usize))
}

/// The positions of `nodes`, top to bottom, then left to right.
pub open spec fn reading_order(nodes: Seq<(usize, Bounds)>) -> Seq<usize> {
    stable_sorted(yx_entries(nodes)).map_values(|t: (i64, i64, usize)| t.2)
}

pub open spec fn abs(v: int) -> int {
    if v < 0 {
        -v
    } else {
        v
    }
}

pub open spec fn clamped(v: int, lo: int, hi: int) -> int {
    if v < lo {
        lo
    } else if v > hi {
        hi
    } else {
        v
    }
}

/// Whether `e` sits on the row `first` opens: their tops differ by at most
/// 35% of the height of `e`, held between 6 and 20 pixels.
pub open spec fn same_row(first: Bounds, e: Bounds) -> bool {
    100 * abs(first.y - e.y) <= clamped(35 * e.height, 60000, 200000)
}

/// The first row whose opening element `p` sits on, or the number of rows.
pub open spec fn first_fit(nodes: Seq<(usize, Bounds)>, rows: Seq<Seq<usize>>, p: usize) -> int
    decreases rows.len(),
{
    if rows.len() == 0 {
        0
    } else if same_row(nodes[rows[0][0] as int].1, nodes[p as int].1) {
        0
    } else {
        1 + first_fit(nodes, rows.drop_first(), p)
    }
}

/// `p` added to the first row it sits on, or opening a row of its own.
pub open spec fn with_row(nodes: Seq<(usize, Bounds)>, rows: Seq<Seq<usize>>, p: usize) -> Seq<Seq<usize>> {
    let j = first_fit(nodes, rows, p);
    if j < rows.len() {
        rows.update(j, rows[j].push(p))
    } else {
        rows.push(seq![p])
    }
}

/// The rows the positions in `order` fall into, taken in that order.
pub open spec fn gathered(nodes: Seq<(usize, Bounds)>, order: Seq<usize>) -> Seq<Seq<usize>>
    decreases order.len(),
{
    if order.len() == 0 {
        seq![]
    } else {
        with_row(nodes, gathered(nodes, order.drop_last()), order.last())
    }
}

/// A row, left to right.
pub open spec fn by_x(nodes: Seq<(usize, Bounds)>, row: Seq<usize>) -> Seq<usize> {
    stable_sorted(Seq::new(row.len(), |k: int| (nodes[row[k] as int].1.x, 0i64, row[k]))).map_values(
        |t: (i64, i64, usize)| t.2,
    )
}

/// The entries that order rows by the top of their first element.
pub open spec fn row_entries(nodes: Seq<(usize, Bounds)>, rows: Seq<Seq<usize>>) -> Seq<(i64, i64, usize)> {
    Seq::new(rows.len(), |k: int| (nodes[rows[k][0] as int].1.y, 0i64, k as usize))
}

/// The rows of a cohort: gathered in reading order, each left to right, and
/// the rows top to bottom by their first element.
pub open spec fn layout_rows(nodes: Seq<(usize, Bounds)>) -> Seq<Seq<usize>> {
    let rows = gathered(nodes, reading_order(nodes)).map_values(|r: Seq<usize>| by_x(nodes, r));
    stable_sorted(row_entries(nodes, rows)).map_values(|t: (i64, i64, usize)| rows[t.2 as int])
}

/// The views of nested lists of positions.
pub open spec fn rows_view(v: Seq<Vec<usize>>) -> Seq<Seq<usize>> {
    v.map_values(|r: Vec<usize>| r@)
}

/// Where `first_fit` stops.
proof fn lemma_first_fit_at(nodes: Seq<(usize, Bounds)>, rows: Seq<Seq<usize>>, p: usize, j: int)
    requires
        0 <= j <= rows.len(),
        forall|q: int| 0 <= q < j ==> !same_row(nodes[(#[trigger] rows[q])[0] as int].1, nodes[p as int].1),
        j < rows.len() ==> same_row(nodes[rows[j][0] as int].1, nodes[p as int].1),
    ensures
        first_fit(nodes, rows, p) == j,
    decreases rows.len(),
{
    if rows.len() > 0 && j > 0 {
        let t = rows.drop_first();
        assert(rows[0] == rows[0]);
        assert(!same_row(nodes[rows[0][0] as int].1, nodes[p as int].1));
        assert forall|q: int| 0 <= q < j - 1 implies !same_row(nodes[(#[trigger] t[q])[0] as int].1, nodes[p as int].1) by {
            assert(t[q] == rows[q + 1]);
        }
        if j < rows.len() {
            assert(t[j - 1] == rows[j]);
        }
        lemma_first_fit_at(nodes, t, p, j - 1);
    }
}

/// Whether `e` sits on the row `first` opens.
fn on_row(first: Bounds, e: Bounds) -> (r: bool)
    requires
        bounded(first),
        bounded(e),
    ensures
        r == same_row(first, e),
{
    let dy: i128 = first.y as i128 - e.y as i128;
    let a: i128 = if dy < 0 {
        -dy
    } else {
        dy
    };
    let t: i128 = 35 * e.height as i128;
    let limit: i128 = if t < 60000 {
        60000
    } else if t > 200000 {
        200000
    } else {
        t
    };
    100 * a <= limit
}

/// Copies of a list of positions.
fn copy_positions(v: &Vec<usize>) -> (r: Vec<usize>)
    ensures
        r@ == v@,
{
    let mut r: Vec<usize> = Vec::new();
    let mut i: usize = 0;
    while i < v.len()
        invariant
            i <= v@.len(),
            r@ == v@.take(i as int),
        decreases v@.len() - i,
    {
        r.push(v[i]);
        i += 1;
        assert(r@ =~= v@.take(i as int));
    }
    assert(v@.take(v@.len() as int) =~= v@);
    r
}

/// The positions carried by sorted entries.
fn positions_of(s: &Vec<(i64, i64, usize)>) -> (r: Vec<usize>)
    ensures
        r@ == s@.map_values(|t: (i64, i64, usize)| t.2),
{
    let mut r: Vec<usize> = Vec::new();
    let mut i: usize = 0;
    while i < s.len()
        invariant
            i <= s@.len(),
            r@ == s@.take(i as int).map_values(|t: (i64, i64, usize)| t.2),
        decreases s@.len() - i,
    {
        r.push(s[i].2);
        i += 1;
        assert(r@ =~= s@.take(i as int).map_values(|t: (i64, i64, usize)| t.2));
    }
    assert(s@.take(s@.len() as int) =~= s@);
    r
}

/// Every position a row list holds is a position of `nodes`, and no row is
/// empty.
pub open spec fn rows_within(rows: Seq<Seq<usize>>, n: nat) -> bool {
    forall|j: int|
        0 <= j < rows.len() ==> (#[trigger] rows[j]).len() > 0 && forall|k: int| 0 <= k < rows[j].len() ==> (#[trigger] rows[j][k]) < n
}

proof fn lemma_sorted_positions(s: Seq<(i64, i64, usize)>, n: nat)
    requires
        forall|i: int| 0 <= i < s.len() ==> (#[trigger] s[i]).2 < n,
    ensures
        stable_sorted(s).len() == s.len(),
        forall|i: int| 0 <= i < stable_sorted(s).len() ==> (#[trigger] stable_sorted(s)[i]).2 < n,
    decreases s.len(),
{
    if s.len() > 0 {
        let d = s.drop_last();
        assert forall|i: int| 0 <= i < d.len() implies (#[trigger] d[i]).2 < n by {
            assert(d[i] == s[i]);
        }
        lemma_sorted_positions(d, n);
        lemma_placed_positions(stable_sorted(d), s.last(), n);
    }
}

proof fn lemma_placed_positions(s: Seq<(i64, i64, usize)>, e: (i64, i64, usize), n: nat)
    requires
        forall|i: int| 0 <= i < s.len() ==> (#[trigger] s[i]).2 < n,
        e.2 < n,
    ensures
        placed(s, e).len() == s.len() + 1,
        forall|i: int| 0 <= i < placed(s, e).len() ==> (#[trigger] placed(s, e)[i]).2 < n,
    decreases s.len(),
{
    if s.len() > 0 && !key_before(e, s[0]) {
        let t = s.drop_first();
        assert forall|i: int| 0 <= i < t.len() implies (#[trigger] t[i]).2 < n by {
            assert(t[i] == s[i + 1]);
        }
        lemma_placed_positions(t, e, n);
        let r = placed(s, e);
        assert forall|i: int| 0 <= i < r.len() implies (#[trigger] r[i]).2 < n by {
            if i > 0 {
                assert(r[i] == placed(t, e)[i - 1]);
            }
        }
    } else if s.len() > 0 {
        let r = placed(s, e);
        assert forall|i: int| 0 <= i < r.len() implies (#[trigger] r[i]).2 < n by {
            if i > 0 {
                assert(r[i] == s[i - 1]);
            }
        }
    }
}


/// Every box of a cohort is one a browser can lay out.
pub open spec fn all_bounded(nodes: Seq<(usize, Bounds)>) -> bool {
    forall|i: int| 0 <= i < nodes.len() ==> bounded(#[trigger] nodes[i].1)
}

/// A row, left to right.
fn row_by_x(nodes: &Vec<(usize, Bounds)>, row: &Vec<usize>) -> (r: Vec<usize>)
    requires
        forall|k: int| 0 <= k < row@.len() ==> (#[trigger] row@[k]) < nodes@.len(),
    ensures
        r@ == by_x(nodes@, row@),
        r@.len() == row@.len(),
        forall|k: int| 0 <= k < r@.len() ==> (#[trigger] r@[k]) < nodes@.len(),
{
    let ghost want = Seq::new(row@.len(), |k: int| (nodes@[row@[k] as int].1.x, 0i64, row@[k]));
    let mut e: Vec<(i64, i64, usize)> = Vec::new();
    let mut k: usize = 0;
    while k < row.len()
        invariant
            k <= row@.len(),
            forall|q: int| 0 <= q < row@.len() ==> (#[trigger] row@[q]) < nodes@.len(),
            want == Seq::new(row@.len(), |k: int| (nodes@[row@[k] as int].1.x, 0i64, row@[k])),
            e@ == want.take(k as int),
        decreases row@.len() - k,
    {
        let p = row[k];
        e.push((nodes[p].1.x, 0, p));
        k += 1;
        assert(e@ =~= want.take(k as int));
    }
    assert(want.take(row@.len() as int) =~= want);
    let sorted = stable_sort(&e);
    proof {
        lemma_sorted_positions(want, nodes@.len());
    }
    positions_of(&sorted)
}

/// The rows of a cohort, top to bottom, each left to right.
fn rows_of(nodes: &Vec<(usize, Bounds)>) -> (r: Vec<Vec<usize>>)
    requires
        all_bounded(nodes@),
    ensures
        rows_view(r@) == layout_rows(nodes@),
        rows_within(rows_view(r@), nodes@.len()),
{
    let n = nodes.len();
    let ghost ne = yx_entries(nodes@);
    let mut e: Vec<(i64, i64, usize)> = Vec::new();
    let mut i: usize = 0;
    while i < n
        invariant
            i <= n,
            n == nodes@.len(),
            ne == yx_entries(nodes@),
            e@ == ne.take(i as int),
        decreases n - i,
    {
        e.push((nodes[i].1.y, nodes[i].1.x, i));
        i += 1;
        assert(e@ =~= ne.take(i as int));
    }
    assert(ne.take(n as int) =~= ne);
    let sorted = stable_sort(&e);
    proof {
        lemma_sorted_positions(ne, n as nat);
    }
    let order = positions_of(&sorted);
    assert(order@ == reading_order(nodes@));
    let mut rows: Vec<Vec<usize>> = Vec::new();
    let mut i: usize = 0;
    assert(order@.take(0) =~= Seq::<usize>::empty());
    while i < order.len()
        invariant
            i <= order@.len(),
            n == nodes@.len(),
            all_bounded(nodes@),
            forall|k: int| 0 <= k < order@.len() ==> (#[trigger] order@[k]) < n,
            rows_view(rows@) == gathered(nodes@, order@.take(i as int)),
            rows_within(rows_view(rows@), n as nat),
        decreases order@.len() - i,
    {
        let p = order[i];
        let ghost rv = rows_view(rows@);
        assert forall|q: int| 0 <= q < rows@.len() implies (#[trigger] rows@[q])@.len() > 0 && rows@[q]@[0] < n by {
            assert(rv[q] == rows@[q]@);
        }
        let mut j: usize = 0;
        while j < rows.len() && !on_row(nodes[rows[j][0]].1, nodes[p].1)
            invariant
                j <= rows@.len(),
                p < n,
                n == nodes@.len(),
                all_bounded(nodes@),
                rv == rows_view(rows@),
                rows_within(rv, n as nat),
                forall|q: int| 0 <= q < rows@.len() ==> (#[trigger] rows@[q])@.len() > 0 && rows@[q]@[0] < n,
                forall|q: int| 0 <= q < j ==> !same_row(nodes@[(#[trigger] rv[q])[0] as int].1, nodes@[p as int].1),
            decreases rows@.len() - j,
        {
            assert(rv[j as int] == rows@[j as int]@);
            assert(rv[j as int].len() > 0);
            assert(rv[j as int][0] < n);
            j += 1;
        }
        proof {
            if j < rows@.len() {
                assert(rv[j as int] == rows@[j as int]@);
            }
            lemma_first_fit_at(nodes@, rv, p, j as int);
            assert(order@.take(i + 1).drop_last() =~= order@.take(i as int));
            assert(order@.take(i + 1).last() == p);
        }
        if j < rows.len() {
            let mut row = copy_positions(&rows[j]);
            row.push(p);
            rows.set(j, row);
            proof {
                assert(rows_view(rows@) =~= rv.update(j as int, rv[j as int].push(p)));
                assert forall|q: int| 0 <= q < rows_view(rows@).len() implies (#[trigger] rows_view(rows@)[q]).len() > 0
                    && forall|k: int| 0 <= k < rows_view(rows@)[q].len() ==> (#[trigger] rows_view(rows@)[q][k]) < n by {
                    if q != j {
                        assert(rows_view(rows@)[q] == rv[q]);
                    }
                }
            }
        } else {
            let mut row: Vec<usize> = Vec::new();
            row.push(p);
            rows.push(row);
            proof {
                assert(rows_view(rows@) =~= rv.push(seq![p]));
                assert forall|q: int| 0 <= q < rows_view(rows@).len() implies (#[trigger] rows_view(rows@)[q]).len() > 0
                    && forall|k: int| 0 <= k < rows_view(rows@)[q].len() ==> (#[trigger] rows_view(rows@)[q][k]) < n by {
                    if q < rv.len() {
                        assert(rows_view(rows@)[q] == rv[q]);
                    }
                }
            }
        }
        i += 1;
    }
    assert(order@.take(order@.len() as int) =~= order@);
    let ghost g = gathered(nodes@, order@);
    let ghost gx = g.map_values(|r: Seq<usize>| by_x(nodes@, r));
    let mut xs: Vec<Vec<usize>> = Vec::new();
    let mut k: usize = 0;
    while k < rows.len()
        invariant
            k <= rows@.len(),
            n == nodes@.len(),
            rows_view(rows@) == g,
            rows_within(g, n as nat),
            gx == g.map_values(|r: Seq<usize>| by_x(nodes@, r)),
            rows_view(xs@) == gx.take(k as int),
            rows_within(rows_view(xs@), n as nat),
        decreases rows@.len() - k,
    {
        assert(g[k as int] == rows@[k as int]@);
        let r = row_by_x(nodes, &rows[k]);
        let ghost before = rows_view(xs@);
        xs.push(r);
        proof {
            assert(rows_view(xs@) =~= before.push(r@));
            assert(gx.take(k + 1) =~= gx.take(k as int).push(gx[k as int]));
            assert forall|q: int| 0 <= q < rows_view(xs@).len() implies (#[trigger] rows_view(xs@)[q]).len() > 0
                && forall|m: int| 0 <= m < rows_view(xs@)[q].len() ==> (#[trigger] rows_view(xs@)[q][m]) < n by {
                if q < before.len() {
                    assert(rows_view(xs@)[q] == before[q]);
                } else {
                    assert(rows_view(xs@)[q] == r@);
                    assert(g[q].len() > 0);
                }
            }
        }
        k += 1;
    }
    assert(gx.take(rows@.len() as int) =~= gx);
    let ghost re = row_entries(nodes@, gx);
    let mut e: Vec<(i64, i64, usize)> = Vec::new();
    let mut k: usize = 0;
    while k < xs.len()
        invariant
            k <= xs@.len(),
            n == nodes@.len(),
            rows_view(xs@) == gx,
            rows_within(gx, n as nat),
            re == row_entries(nodes@, gx),
            e@ == re.take(k as int),
        decreases xs@.len() - k,
    {
        assert(gx[k as int] == xs@[k as int]@);
        assert(gx[k as int].len() > 0);
        let first = xs[k][0];
        assert(first < n);
        e.push((nodes[first].1.y, 0, k));
        k += 1;
        assert(e@ =~= re.take(k as int));
    }
    assert(re.take(xs@.len() as int) =~= re);
    let sorted = stable_sort(&e);
    proof {
        lemma_sorted_positions(re, xs@.len());
    }
    let ghost want = stable_sorted(re).map_values(|t: (i64, i64, usize)| gx[t.2 as int]);
    let mut out: Vec<Vec<usize>> = Vec::new();
    let mut k: usize = 0;
    while k < sorted.len()
        invariant
            k <= sorted@.len(),
            sorted@ == stable_sorted(re),
            sorted@.len() == re.len(),
            re.len() == gx.len(),
            forall|q: int| 0 <= q < sorted@.len() ==> (#[trigger] sorted@[q]).2 < xs@.len(),
            rows_view(xs@) == gx,
            n == nodes@.len(),
            rows_within(gx, n as nat),
            want == stable_sorted(re).map_values(|t: (i64, i64, usize)| gx[t.2 as int]),
            rows_view(out@) == want.take(k as int),
            rows_within(rows_view(out@), n as nat),
        decreases sorted@.len() - k,
    {
        let at = sorted[k].2;
        let r = copy_positions(&xs[at]);
        let ghost before = rows_view(out@);
        out.push(r);
        proof {
            assert(gx[at as int] == xs@[at as int]@);
            assert(rows_view(out@) =~= before.push(r@));
            assert(want.take(k + 1) =~= want.take(k as int).push(want[k as int]));
            assert forall|q: int| 0 <= q < rows_view(out@).len() implies (#[trigger] rows_view(out@)[q]).len() > 0
                && forall|m: int| 0 <= m < rows_view(out@)[q].len() ==> (#[trigger] rows_view(out@)[q][m]) < n by {
                if q < before.len() {
                    assert(rows_view(out@)[q] == before[q]);
                } else {
                    assert(rows_view(out@)[q] == gx[at as int]);
                }
            }
        }
        k += 1;
    }
    assert(want.take(sorted@.len() as int) =~= want);
    out
}


pub open spec fn right_of(b: Bounds) -> int {
    b.x + b.width
}

pub open spec fn bottom_of(b: Bounds) -> int {
    b.y + b.height
}

/// The gaps between neighbours on one row, left to right.
pub open spec fn row_gaps(nodes: Seq<(usize, Bounds)>, row: Seq<usize>) -> Seq<int> {
    if row.len() == 0 {
        seq![]
    } else {
        Seq::new(
            (row.len() - 1) as nat,
            |k: int| nodes[row[k + 1] as int].1.x - right_of(nodes[row[k] as int].1),
        )
    }
}

/// The gaps between neighbours on every row, row by row.
pub open spec fn horizontal_gaps(nodes: Seq<(usize, Bounds)>, rows: Seq<Seq<usize>>) -> Seq<int>
    decreases rows.len(),
{
    if rows.len() == 0 {
        seq![]
    } else {
        horizontal_gaps(nodes, rows.drop_last()) + row_gaps(nodes, rows.last())
    }
}

/// The highest top of a row's elements.
pub open spec fn row_top(nodes: Seq<(usize, Bounds)>, row: Seq<usize>) -> int
    decreases row.len(),
{
    if row.len() <= 1 {
        nodes[row[0] as int].1.y as int
    } else {
        let rest = row_top(nodes, row.drop_last());
        let y = nodes[row.last() as int].1.y as int;
        if y < rest {
            y
        } else {
            rest
        }
    }
}

/// The lowest bottom of a row's elements.
pub open spec fn row_bottom(nodes: Seq<(usize, Bounds)>, row: Seq<usize>) -> int
    decreases row.len(),
{
    if row.len() <= 1 {
        bottom_of(nodes[row[0] as int].1)
    } else {
        let rest = row_bottom(nodes, row.drop_last());
        let b = bottom_of(nodes[row.last() as int].1);
        if b > rest {
            b
        } else {
            rest
        }
    }
}

/// The gaps between consecutive rows: from the lowest bottom of one to the
/// highest top of the next.
pub open spec fn vertical_gaps(nodes: Seq<(usize, Bounds)>, rows: Seq<Seq<usize>>) -> Seq<int> {
    if rows.len() == 0 {
        seq![]
    } else {
        Seq::new(
            (rows.len() - 1) as nat,
            |k: int| row_top(nodes, rows[k + 1]) - row_bottom(nodes, rows[k]),
        )
    }
}

/// The middle value: the one at half the count in ascending order.
pub open spec fn median(v: Seq<int>) -> Option<int> {
    if v.len() == 0 {
        None
    } else {
        Some(stable_sorted(Seq::new(v.len(), |i: int| (v[i] as i64, 0i64, i as usize)))[(v.len() / 2) as int].0 as int)
    }
}

/// The median of a list of gaps.
fn median_of(v: &Vec<i64>) -> (r: Option<i64>)
    ensures
        match r {
            Some(m) => median(v@.map_values(|g: i64| g as int)) == Some(m as int),
            None => median(v@.map_values(|g: i64| g as int)) is None,
        },
{
    let ghost vi = v@.map_values(|g: i64| g as int);
    if v.len() == 0 {
        return None;
    }
    let ghost want = Seq::new(vi.len(), |i: int| (vi[i] as i64, 0i64, i as usize));
    let mut e: Vec<(i64, i64, usize)> = Vec::new();
    let mut i: usize = 0;
    while i < v.len()
        invariant
            i <= v@.len(),
            vi == v@.map_values(|g: i64| g as int),
            want == Seq::new(vi.len(), |i: int| (vi[i] as i64, 0i64, i as usize)),
            e@ == want.take(i as int),
        decreases v@.len() - i,
    {
        e.push((v[i], 0, i));
        i += 1;
        assert(e@ =~= want.take(i as int));
    }
    assert(want.take(v@.len() as int) =~= want);
    let sorted = stable_sort(&e);
    proof {
        lemma_sorted_positions(want, v@.len());
    }
    Some(sorted[v.len() / 2].0)
}


/// The smallest of a non-empty list.
pub open spec fn least(v: Seq<int>) -> int
    decreases v.len(),
{
    if v.len() <= 1 {
        v[0]
    } else if v.last() < least(v.drop_last()) {
        v.last()
    } else {
        least(v.drop_last())
    }
}

/// The largest of a non-empty list.
pub open spec fn greatest(v: Seq<int>) -> int
    decreases v.len(),
{
    if v.len() <= 1 {
        v[0]
    } else if v.last() > greatest(v.drop_last()) {
        v.last()
    } else {
        greatest(v.drop_last())
    }
}

/// The summed area of the boxes.
pub open spec fn area_sum(nodes: Seq<(usize, Bounds)>) -> int
    decreases nodes.len(),
{
    if nodes.len() == 0 {
        0
    } else {
        area_sum(nodes.drop_last()) + nodes.last().1.width * nodes.last().1.height
    }
}

/// Whether the boxes cover less than a quarter of the rectangle that
/// bounds them; an empty or flat bounding rectangle counts as uncovered.
pub open spec fn sparse(nodes: Seq<(usize, Bounds)>) -> bool {
    if nodes.len() == 0 {
        true
    } else {
        let left = least(nodes.map_values(|e: (usize, Bounds)| e.1.x as int));
        let top = least(nodes.map_values(|e: (usize, Bounds)| e.1.y as int));
        let right = greatest(nodes.map_values(|e: (usize, Bounds)| right_of(e.1)));
        let bottom = greatest(nodes.map_values(|e: (usize, Bounds)| bottom_of(e.1)));
        let w = if right - left > 0 { right - left } else { 0 };
        let h = if bottom - top > 0 { bottom - top } else { 0 };
        w * h <= 0 || 4 * area_sum(nodes) < w * h
    }
}

/// How much two boxes overlap, in square hundredths of a pixel.
pub open spec fn overlap_area(a: Bounds, b: Bounds) -> int {
    let r = if right_of(a) < right_of(b) { right_of(a) } else { right_of(b) };
    let l = if a.x > b.x { a.x as int } else { b.x as int };
    let bt = if bottom_of(a) < bottom_of(b) { bottom_of(a) } else { bottom_of(b) };
    let t = if a.y > b.y { a.y as int } else { b.y as int };
    let w = if r - l > 0 { r - l } else { 0 };
    let h = if bt - t > 0 { bt - t } else { 0 };
    w * h
}

/// The earlier boxes that overlap `b` by four square pixels or more.
pub open spec fn overlapping(nodes: Seq<(usize, Bounds)>, b: Bounds) -> nat
    decreases nodes.len(),
{
    if nodes.len() == 0 {
        0
    } else {
        overlapping(nodes.drop_last(), b) + if overlap_area(nodes.last().1, b) >= 40000 {
            1nat
        } else {
            0nat
        }
    }
}

/// The pairs of boxes that overlap by four square pixels or more.
pub open spec fn overlap_pairs(nodes: Seq<(usize, Bounds)>) -> nat
    decreases nodes.len(),
{
    if nodes.len() == 0 {
        0
    } else {
        overlap_pairs(nodes.drop_last()) + overlapping(nodes.drop_last(), nodes.last().1)
    }
}

/// The length of the longest row.
pub open spec fn widest(rows: Seq<Seq<usize>>) -> nat
    decreases rows.len(),
{
    if rows.len() == 0 {
        0
    } else if rows.last().len() > widest(rows.drop_last()) {
        rows.last().len()
    } else {
        widest(rows.drop_last())
    }
}

/// The rows, one after another.
pub open spec fn flattened(rows: Seq<Seq<usize>>) -> Seq<usize>
    decreases rows.len(),
{
    if rows.len() == 0 {
        seq![]
    } else {
        flattened(rows.drop_last()) + rows.last()
    }
}

/// The layout of a cohort.
pub struct LayoutView {
    pub rows: nat,
    pub columns: nat,
    pub horizontal_gap: Option<int>,
    pub vertical_gap: Option<int>,
    pub overlaps: nat,
    pub order: Seq<usize>,
    pub sparse: bool,
}

/// What the layout of a cohort is: its rows and columns, its typical gaps,
/// its overlapping pairs, the order its elements are met in (by their
/// indices), and whether it covers less than a quarter of its bounds.
pub open spec fn metrics_of(nodes: Seq<(usize, Bounds)>) -> LayoutView {
    if nodes.len() == 0 {
        LayoutView {
            rows: 0,
            columns: 0,
            horizontal_gap: None,
            vertical_gap: None,
            overlaps: 0,
            order: seq![],
            sparse: true,
        }
    } else {
        let rows = layout_rows(nodes);
        LayoutView {
            rows: rows.len(),
            columns: widest(rows),
            horizontal_gap: median(horizontal_gaps(nodes, rows)),
            vertical_gap: median(vertical_gaps(nodes, rows)),
            overlaps: overlap_pairs(nodes),
            order: flattened(rows).map_values(|p: usize| nodes[p as int].0),
            sparse: sparse(nodes),
        }
    }
}

/// The layout of a cohort.
pub struct LayoutMetrics {
    pub rows: usize,
    pub columns: usize,
    pub horizontal_gap: Option<i64>,
    pub vertical_gap: Option<i64>,
    pub overlaps: u64,
    pub order: Vec<usize>,
    pub sparse: bool,
}

impl LayoutMetrics {
    pub open spec fn view_of(&self) -> LayoutView {
        LayoutView {
            rows: self.rows as nat,
            columns: self.columns as nat,
            horizontal_gap: match self.horizontal_gap {
                Some(g) => Some(g as int),
                None => None,
            },
            vertical_gap: match self.vertical_gap {
                Some(g) => Some(g as int),
                None => None,
            },
            overlaps: self.overlaps as nat,
            order: self.order@,
            sparse: self.sparse,
        }
    }
}

fn gaps_within_rows(nodes: &Vec<(usize, Bounds)>, rows: &Vec<Vec<usize>>) -> (r: Vec<i64>)
    requires
        all_bounded(nodes@),
        rows_within(rows_view(rows@), nodes@.len()),
    ensures
        r@.map_values(|g: i64| g as int) == horizontal_gaps(nodes@, rows_view(rows@)),
{
    let ghost rv = rows_view(rows@);
    let mut out: Vec<i64> = Vec::new();
    let mut j: usize = 0;
    assert(rv.take(0) =~= Seq::<Seq<usize>>::empty());
    while j < rows.len()
        invariant
            j <= rows@.len(),
            rv == rows_view(rows@),
            all_bounded(nodes@),
            rows_within(rv, nodes@.len()),
            out@.map_values(|g: i64| g as int) == horizontal_gaps(nodes@, rv.take(j as int)),
        decreases rows@.len() - j,
    {
        let row = &rows[j];
        assert(rv[j as int] == row@);
        let ghost start = out@.map_values(|g: i64| g as int);
        let ghost gs = row_gaps(nodes@, row@);
        let mut k: usize = 0;
        while k < row.len() - 1
            invariant
                row@ == rv[j as int],
                row@.len() > 0,
                k + 1 <= row@.len(),
                all_bounded(nodes@),
                forall|q: int| 0 <= q < row@.len() ==> (#[trigger] row@[q]) < nodes@.len(),
                gs == row_gaps(nodes@, row@),
                out@.map_values(|g: i64| g as int) == start + gs.take(k as int),
            decreases row@.len() - k,
        {
            let a = nodes[row[k]].1;
            let b = nodes[row[k + 1]].1;
            assert(bounded(nodes@[row@[k as int] as int].1));
            assert(bounded(nodes@[row@[k + 1] as int].1));
            let g: i64 = b.x - (a.x + a.width);
            let ghost before = out@;
            out.push(g);
            proof {
                assert(out@.map_values(|g: i64| g as int) =~= before.map_values(|g: i64| g as int).push(g as int));
                assert(gs.take(k + 1) =~= gs.take(k as int).push(gs[k as int]));
            }
            k += 1;
        }
        proof {
            assert(gs.take(k as int) =~= gs);
            assert(rv.take(j + 1).drop_last() =~= rv.take(j as int));
            assert(rv.take(j + 1).last() == row@);
        }
        j += 1;
    }
    assert(rv.take(rows@.len() as int) =~= rv);
    out
}

fn top_of_row(nodes: &Vec<(usize, Bounds)>, row: &Vec<usize>) -> (r: i64)
    requires
        row@.len() > 0,
        forall|q: int| 0 <= q < row@.len() ==> (#[trigger] row@[q]) < nodes@.len(),
    ensures
        r as int == row_top(nodes@, row@),
{
    let mut best: i64 = nodes[row[0]].1.y;
    let mut k: usize = 1;
    assert(row@.take(1).len() == 1);
    while k < row.len()
        invariant
            1 <= k <= row@.len(),
            forall|q: int| 0 <= q < row@.len() ==> (#[trigger] row@[q]) < nodes@.len(),
            best as int == row_top(nodes@, row@.take(k as int)),
        decreases row@.len() - k,
    {
        let y = nodes[row[k]].1.y;
        proof {
            assert(row@.take(k + 1).drop_last() =~= row@.take(k as int));
            assert(row@.take(k + 1).last() == row@[k as int]);
        }
        if y < best {
            best = y;
        }
        k += 1;
    }
    assert(row@.take(row@.len() as int) =~= row@);
    best
}

fn bottom_of_row(nodes: &Vec<(usize, Bounds)>, row: &Vec<usize>) -> (r: i64)
    requires
        row@.len() > 0,
        all_bounded(nodes@),
        forall|q: int| 0 <= q < row@.len() ==> (#[trigger] row@[q]) < nodes@.len(),
    ensures
        r as int == row_bottom(nodes@, row@),
{
    assert(bounded(nodes@[row@[0] as int].1));
    let mut best: i64 = nodes[row[0]].1.y + nodes[row[0]].1.height;
    let mut k: usize = 1;
    while k < row.len()
        invariant
            1 <= k <= row@.len(),
            all_bounded(nodes@),
            forall|q: int| 0 <= q < row@.len() ==> (#[trigger] row@[q]) < nodes@.len(),
            best as int == row_bottom(nodes@, row@.take(k as int)),
        decreases row@.len() - k,
    {
        assert(bounded(nodes@[row@[k as int] as int].1));
        let b = nodes[row[k]].1.y + nodes[row[k]].1.height;
        proof {
            assert(row@.take(k + 1).drop_last() =~= row@.take(k as int));
            assert(row@.take(k + 1).last() == row@[k as int]);
        }
        if b > best {
            best = b;
        }
        k += 1;
    }
    assert(row@.take(row@.len() as int) =~= row@);
    best
}

proof fn lemma_row_top_bounded(nodes: Seq<(usize, Bounds)>, row: Seq<usize>)
    requires
        row.len() > 0,
        all_bounded(nodes),
        forall|q: int| 0 <= q < row.len() ==> (#[trigger] row[q]) < nodes.len(),
    ensures
        -0x1_0000_0000 < row_top(nodes, row) < 0x1_0000_0000,
        -0x2_0000_0000 < row_bottom(nodes, row) < 0x2_0000_0000,
    decreases row.len(),
{
    assert(bounded(nodes[row[0] as int].1));
    if row.len() > 1 {
        assert(bounded(nodes[row.last() as int].1));
        lemma_row_top_bounded(nodes, row.drop_last());
    }
}

fn gaps_between_rows(nodes: &Vec<(usize, Bounds)>, rows: &Vec<Vec<usize>>) -> (r: Vec<i64>)
    requires
        all_bounded(nodes@),
        rows_within(rows_view(rows@), nodes@.len()),
    ensures
        r@.map_values(|g: i64| g as int) == vertical_gaps(nodes@, rows_view(rows@)),
{
    let ghost rv = rows_view(rows@);
    let mut out: Vec<i64> = Vec::new();
    if rows.len() == 0 {
        assert(out@.map_values(|g: i64| g as int) =~= vertical_gaps(nodes@, rv));
        return out;
    }
    let ghost want = vertical_gaps(nodes@, rv);
    let mut k: usize = 0;
    while k < rows.len() - 1
        invariant
            rows@.len() > 0,
            k + 1 <= rows@.len(),
            rv == rows_view(rows@),
            all_bounded(nodes@),
            rows_within(rv, nodes@.len()),
            want == vertical_gaps(nodes@, rv),
            out@.map_values(|g: i64| g as int) == want.take(k as int),
        decreases rows@.len() - k,
    {
        assert(rv[k as int] == rows@[k as int]@);
        assert(rv[k + 1] == rows@[k + 1]@);
        proof {
            lemma_row_top_bounded(nodes@, rv[k + 1]);
            lemma_row_top_bounded(nodes@, rv[k as int]);
        }
        let t = top_of_row(nodes, &rows[k + 1]);
        let b = bottom_of_row(nodes, &rows[k]);
        let g: i64 = t - b;
        let ghost before = out@;
        out.push(g);
        proof {
            assert(out@.map_values(|g: i64| g as int) =~= before.map_values(|g: i64| g as int).push(g as int));
            assert(want.take(k + 1) =~= want.take(k as int).push(want[k as int]));
        }
        k += 1;
    }
    assert(want.take(k as int) =~= want);
    out
}


pub fn overlap_of(a: Bounds, b: Bounds) -> (r: i128)
    requires
        bounded(a),
        bounded(b),
    ensures
        r == overlap_area(a, b),
        0 <= r < 0x10_0000_0000_0000_0000,
{
    let ar: i128 = a.x as i128 + a.width as i128;
    let br: i128 = b.x as i128 + b.width as i128;
    let ab: i128 = a.y as i128 + a.height as i128;
    let bb: i128 = b.y as i128 + b.height as i128;
    let r: i128 = if ar < br { ar } else { br };
    let l: i128 = if a.x > b.x { a.x as i128 } else { b.x as i128 };
    let bt: i128 = if ab < bb { ab } else { bb };
    let t: i128 = if a.y > b.y { a.y as i128 } else { b.y as i128 };
    let w: i128 = if r - l > 0 { r - l } else { 0 };
    let h: i128 = if bt - t > 0 { bt - t } else { 0 };
    assert(0 <= w < 0x4_0000_0000 && 0 <= h < 0x4_0000_0000);
    assert(w * h < 0x10_0000_0000_0000_0000) by (nonlinear_arith)
        requires
            0 <= w < 0x4_0000_0000,
            0 <= h < 0x4_0000_0000,
    ;
    w * h
}

proof fn lemma_overlapping_bound(s: Seq<(usize, Bounds)>, b: Bounds)
    ensures
        overlapping(s, b) <= s.len(),
    decreases s.len(),
{
    if s.len() > 0 {
        lemma_overlapping_bound(s.drop_last(), b);
    }
}

proof fn lemma_overlap_pairs_bound(s: Seq<(usize, Bounds)>)
    ensures
        overlap_pairs(s) <= s.len() * s.len(),
    decreases s.len(),
{
    if s.len() > 0 {
        let d = s.drop_last();
        lemma_overlap_pairs_bound(d);
        lemma_overlapping_bound(d, s.last().1);
        let n = d.len();
        assert(n * n + n <= (n + 1) * (n + 1)) by (nonlinear_arith);
    }
}

/// How many pairs of boxes overlap by four square pixels or more.
fn count_overlaps(nodes: &Vec<(usize, Bounds)>) -> (r: u64)
    requires
        all_bounded(nodes@),
        nodes@.len() < 0x1_0000_0000,
    ensures
        r as nat == overlap_pairs(nodes@),
{
    let n = nodes.len();
    let mut count: u64 = 0;
    let mut j: usize = 0;
    assert(nodes@.take(0) =~= Seq::<(usize, Bounds)>::empty());
    while j < n
        invariant
            j <= n,
            n == nodes@.len(),
            n < 0x1_0000_0000,
            all_bounded(nodes@),
            count as nat == overlap_pairs(nodes@.take(j as int)),
        decreases n - j,
    {
        let ghost pre = nodes@.take(j as int);
        let ghost b = nodes@[j as int].1;
        let ghost base = count as nat;
        proof {
            lemma_overlap_pairs_bound(pre);
            assert(j * j < 0x1_0000_0000_0000_0000 - 0x1_0000_0000) by (nonlinear_arith)
                requires
                    j < n,
                    n < 0x1_0000_0000,
            ;
        }
        let mut i: usize = 0;
        while i < j
            invariant
                i <= j < n,
                n == nodes@.len(),
                n < 0x1_0000_0000,
                all_bounded(nodes@),
                pre == nodes@.take(j as int),
                b == nodes@[j as int].1,
                base == overlap_pairs(pre),
                base <= j * j,
                j * j < 0x1_0000_0000_0000_0000 - 0x1_0000_0000,
                count as nat == base + overlapping(pre.take(i as int), b),
            decreases j - i,
        {
            proof {
                lemma_overlapping_bound(pre.take(i as int), b);
                assert(pre.take(i + 1).drop_last() =~= pre.take(i as int));
                assert(pre.take(i + 1).last() == nodes@[i as int]);
            }
            if overlap_of(nodes[i].1, nodes[j].1) >= 40000 {
                count = count + 1;
            }
            i += 1;
        }
        proof {
            assert(pre.take(j as int) =~= pre);
            assert(nodes@.take(j + 1).drop_last() =~= pre);
            assert(nodes@.take(j + 1).last() == nodes@[j as int]);
        }
        j += 1;
    }
    assert(nodes@.take(n as int) =~= nodes@);
    count
}

proof fn lemma_area_sum_bound(s: Seq<(usize, Bounds)>)
    requires
        all_bounded(s),
    ensures
        -(s.len() * 0x1_0000_0000_0000_0000) <= area_sum(s) <= s.len() * 0x1_0000_0000_0000_0000,
    decreases s.len(),
{
    if s.len() > 0 {
        let d = s.drop_last();
        assert forall|i: int| 0 <= i < d.len() implies bounded(#[trigger] d[i].1) by {
            assert(d[i] == s[i]);
        }
        lemma_area_sum_bound(d);
        let b = s.last().1;
        assert(bounded(s[s.len() - 1].1));
        let w = b.width as int;
        let h = b.height as int;
        assert(-0x1_0000_0000_0000_0000 <= w * h <= 0x1_0000_0000_0000_0000) by (nonlinear_arith)
            requires
                -0x1_0000_0000 < w < 0x1_0000_0000,
                -0x1_0000_0000 < h < 0x1_0000_0000,
        ;
    }
}

/// Whether the boxes cover less than a quarter of their bounds.
fn is_sparse(nodes: &Vec<(usize, Bounds)>) -> (r: bool)
    requires
        all_bounded(nodes@),
        nodes@.len() < 0x1_0000_0000,
    ensures
        r == sparse(nodes@),
{
    let n = nodes.len();
    if n == 0 {
        return true;
    }
    let ghost xs = nodes@.map_values(|e: (usize, Bounds)| e.1.x as int);
    let ghost ys = nodes@.map_values(|e: (usize, Bounds)| e.1.y as int);
    let ghost rs = nodes@.map_values(|e: (usize, Bounds)| right_of(e.1));
    let ghost bs = nodes@.map_values(|e: (usize, Bounds)| bottom_of(e.1));
    assert(bounded(nodes@[0].1));
    let mut left: i128 = nodes[0].1.x as i128;
    let mut top: i128 = nodes[0].1.y as i128;
    let mut right: i128 = nodes[0].1.x as i128 + nodes[0].1.width as i128;
    let mut bottom: i128 = nodes[0].1.y as i128 + nodes[0].1.height as i128;
    proof {
        let w0 = nodes@[0].1.width as int;
        let h0 = nodes@[0].1.height as int;
        assert(-0x1_0000_0000_0000_0000 <= w0 * h0 <= 0x1_0000_0000_0000_0000) by (nonlinear_arith)
            requires
                -0x1_0000_0000 < w0 < 0x1_0000_0000,
                -0x1_0000_0000 < h0 < 0x1_0000_0000,
        ;
    }
    let mut area: i128 = nodes[0].1.width as i128 * nodes[0].1.height as i128;
    proof {
        assert(nodes@.take(1).last() == nodes@[0]);
        assert(xs.take(1).len() == 1 && xs.take(1)[0] == xs[0]);
        assert(ys.take(1)[0] == ys[0]);
        assert(rs.take(1)[0] == rs[0]);
        assert(bs.take(1)[0] == bs[0]);
        assert(nodes@.take(1).drop_last() =~= Seq::<(usize, Bounds)>::empty());
        assert(area_sum(nodes@.take(1).drop_last()) == 0);
        assert(area_sum(nodes@.take(1)) == nodes@[0].1.width * nodes@[0].1.height);
    }
    let mut i: usize = 1;
    while i < n
        invariant
            1 <= i <= n,
            n == nodes@.len(),
            n < 0x1_0000_0000,
            all_bounded(nodes@),
            xs == nodes@.map_values(|e: (usize, Bounds)| e.1.x as int),
            ys == nodes@.map_values(|e: (usize, Bounds)| e.1.y as int),
            rs == nodes@.map_values(|e: (usize, Bounds)| right_of(e.1)),
            bs == nodes@.map_values(|e: (usize, Bounds)| bottom_of(e.1)),
            left == least(xs.take(i as int)),
            top == least(ys.take(i as int)),
            right == greatest(rs.take(i as int)),
            bottom == greatest(bs.take(i as int)),
            area == area_sum(nodes@.take(i as int)),
            -0x1_0000_0000 < left < 0x1_0000_0000,
            -0x1_0000_0000 < top < 0x1_0000_0000,
            -0x2_0000_0000 < right < 0x2_0000_0000,
            -0x2_0000_0000 < bottom < 0x2_0000_0000,
        decreases n - i,
    {
        assert(bounded(nodes@[i as int].1));
        let b = nodes[i].1;
        proof {
            assert(xs.take(i + 1).drop_last() =~= xs.take(i as int));
            assert(ys.take(i + 1).drop_last() =~= ys.take(i as int));
            assert(rs.take(i + 1).drop_last() =~= rs.take(i as int));
            assert(bs.take(i + 1).drop_last() =~= bs.take(i as int));
            assert(nodes@.take(i + 1).drop_last() =~= nodes@.take(i as int));
            let pre = nodes@.take(i as int);
            assert forall|q: int| 0 <= q < pre.len() implies bounded(#[trigger] pre[q].1) by {
                assert(pre[q] == nodes@[q]);
            }
            lemma_area_sum_bound(pre);
            assert(i * 0x1_0000_0000_0000_0000 < 0x1_0000_0000 * 0x1_0000_0000_0000_0000) by (nonlinear_arith)
                requires
                    i < 0x1_0000_0000,
            ;
            let w = b.width as int;
            let h = b.height as int;
            assert(-0x1_0000_0000_0000_0000 <= w * h <= 0x1_0000_0000_0000_0000) by (nonlinear_arith)
                requires
                    -0x1_0000_0000 < w < 0x1_0000_0000,
                    -0x1_0000_0000 < h < 0x1_0000_0000,
            ;
        }
        let x = b.x as i128;
        let y = b.y as i128;
        let r = b.x as i128 + b.width as i128;
        let bt = b.y as i128 + b.height as i128;
        if x < left {
            left = x;
        }
        if y < top {
            top = y;
        }
        if r > right {
            right = r;
        }
        if bt > bottom {
            bottom = bt;
        }
        area = area + b.width as i128 * b.height as i128;
        i += 1;
    }
    proof {
        assert(xs.take(n as int) =~= xs);
        assert(ys.take(n as int) =~= ys);
        assert(rs.take(n as int) =~= rs);
        assert(bs.take(n as int) =~= bs);
        assert(nodes@.take(n as int) =~= nodes@);
        lemma_area_sum_bound(nodes@);
        assert(n * 0x1_0000_0000_0000_0000 < 0x1_0000_0000 * 0x1_0000_0000_0000_0000) by (nonlinear_arith)
            requires
                n < 0x1_0000_0000,
        ;
    }
    let w: i128 = if right - left > 0 { right - left } else { 0 };
    let h: i128 = if bottom - top > 0 { bottom - top } else { 0 };
    assert(0 <= w < 0x4_0000_0000 && 0 <= h < 0x4_0000_0000);
    assert(w * h < 0x10_0000_0000_0000_0000) by (nonlinear_arith)
        requires
            0 <= w < 0x4_0000_0000,
            0 <= h < 0x4_0000_0000,
    ;
    let wh = w * h;
    wh <= 0 || 4 * area < wh
}


/// The length of the longest row.
fn widest_row(rows: &Vec<Vec<usize>>) -> (r: usize)
    ensures
        r as nat == widest(rows_view(rows@)),
{
    let ghost rv = rows_view(rows@);
    let mut best: usize = 0;
    let mut j: usize = 0;
    assert(rv.take(0) =~= Seq::<Seq<usize>>::empty());
    while j < rows.len()
        invariant
            j <= rows@.len(),
            rv == rows_view(rows@),
            best as nat == widest(rv.take(j as int)),
        decreases rows@.len() - j,
    {
        proof {
            assert(rv.take(j + 1).drop_last() =~= rv.take(j as int));
            assert(rv.take(j + 1).last() == rows@[j as int]@);
        }
        if rows[j].len() > best {
            best = rows[j].len();
        }
        j += 1;
    }
    assert(rv.take(rows@.len() as int) =~= rv);
    best
}

/// The indices of the elements in the order the rows list them.
fn order_of(nodes: &Vec<(usize, Bounds)>, rows: &Vec<Vec<usize>>) -> (r: Vec<usize>)
    requires
        rows_within(rows_view(rows@), nodes@.len()),
    ensures
        r@ == flattened(rows_view(rows@)).map_values(|p: usize| nodes@[p as int].0),
{
    let ghost rv = rows_view(rows@);
    let mut out: Vec<usize> = Vec::new();
    let mut j: usize = 0;
    assert(rv.take(0) =~= Seq::<Seq<usize>>::empty());
    while j < rows.len()
        invariant
            j <= rows@.len(),
            rv == rows_view(rows@),
            rows_within(rv, nodes@.len()),
            out@ == flattened(rv.take(j as int)).map_values(|p: usize| nodes@[p as int].0),
        decreases rows@.len() - j,
    {
        let row = &rows[j];
        assert(rv[j as int] == row@);
        let ghost start = out@;
        let mut k: usize = 0;
        while k < row.len()
            invariant
                k <= row@.len(),
                forall|q: int| 0 <= q < row@.len() ==> (#[trigger] row@[q]) < nodes@.len(),
                out@ == start + row@.take(k as int).map_values(|p: usize| nodes@[p as int].0),
            decreases row@.len() - k,
        {
            out.push(nodes[row[k]].0);
            k += 1;
            assert(out@ =~= start + row@.take(k as int).map_values(|p: usize| nodes@[p as int].0));
        }
        proof {
            assert(row@.take(k as int) =~= row@);
            assert(rv.take(j + 1).drop_last() =~= rv.take(j as int));
            assert(rv.take(j + 1).last() == row@);
            assert(flattened(rv.take(j + 1)).map_values(|p: usize| nodes@[p as int].0) =~= flattened(
                rv.take(j as int),
            ).map_values(|p: usize| nodes@[p as int].0) + row@.map_values(|p: usize| nodes@[p as int].0));
        }
        j += 1;
    }
    assert(rv.take(rows@.len() as int) =~= rv);
    out
}

/// The layout of a cohort.
pub fn layout_metrics(nodes: &Vec<(usize, Bounds)>) -> (r: LayoutMetrics)
    requires
        all_bounded(nodes@),
        nodes@.len() < 0x1_0000_0000,
    ensures
        r.view_of() == metrics_of(nodes@),
{
    if nodes.len() == 0 {
        return LayoutMetrics {
            rows: 0,
            columns: 0,
            horizontal_gap: None,
            vertical_gap: None,
            overlaps: 0,
            order: Vec::new(),
            sparse: true,
        };
    }
    let rows = rows_of(nodes);
    let hg = gaps_within_rows(nodes, &rows);
    let vg = gaps_between_rows(nodes, &rows);
    let r = LayoutMetrics {
        rows: rows.len(),
        columns: widest_row(&rows),
        horizontal_gap: median_of(&hg),
        vertical_gap: median_of(&vg),
        overlaps: count_overlaps(nodes),
        order: order_of(nodes, &rows),
        sparse: is_sparse(nodes),
    };
    assert(r.view_of().horizontal_gap == metrics_of(nodes@).horizontal_gap);
    assert(r.view_of().vertical_gap == metrics_of(nodes@).vertical_gap);
    r
}


/// One element matched between the two pages, where it sits and what it is.
#[derive(Clone, Debug)]
pub struct LayoutPair {
    pub source: Bounds,
    pub candidate: Bounds,
    pub region: String,
    pub kind: String,
}

pub struct LayoutPairView {
    pub source: Bounds,
    pub candidate: Bounds,
    pub region: Seq<char>,
    pub kind: Seq<char>,
}

impl View for LayoutPair {
    type V = LayoutPairView;

    open spec fn view(&self) -> LayoutPairView {
        LayoutPairView { source: self.source, candidate: self.candidate, region: self.region@, kind: self.kind@ }
    }
}

pub open spec fn pair_views(ps: Seq<LayoutPair>) -> Seq<LayoutPairView> {
    ps.map_values(|p: LayoutPair| p@)
}

/// The kinds of element whose arrangement is compared as a cohort.
pub open spec fn cohort_kind(k: Seq<char>) -> bool {
    ||| k == "button"@
    ||| k == "link"@
    ||| k == "tab"@
    ||| k == "option"@
    ||| k == "listitem"@
    ||| k == "article"@
    ||| k == "image"@
}

/// A pair whose source element can join a cohort: of a cohort kind and at
/// least eight pixels wide and high.
pub open spec fn eligible(p: LayoutPairView) -> bool {
    cohort_kind(p.kind) && p.source.width >= 800 && p.source.height >= 800
}

/// A positive length in whole units of `unit` hundredths, rounded half up.
pub open spec fn size_class(v: int, unit: int) -> int {
    (2 * v + unit) / (2 * unit)
}

/// The cohort a pair joins: its region and kind, and its source width in
/// 32-pixel steps and height in 24-pixel steps.
pub open spec fn cohort_of(p: LayoutPairView) -> (Seq<Seq<char>>, int, int) {
    (seq![p.region, p.kind], size_class(p.source.width as int, 3200), size_class(p.source.height as int, 2400))
}

/// The positions, among the first `n` pairs, of those in cohort `c`.
pub open spec fn cohort_members(ps: Seq<LayoutPairView>, c: (Seq<Seq<char>>, int, int), n: int) -> Seq<usize>
    decreases n,
{
    if n <= 0 {
        seq![]
    } else {
        cohort_members(ps, c, n - 1) + if eligible(ps[n - 1]) && cohort_of(ps[n - 1]) == c {
            seq![(n - 1) as usize]
        } else {
            seq![]
        }
    }
}

/// How many pairs cohort `c` holds.
pub open spec fn cohort_size(ps: Seq<LayoutPairView>, c: (Seq<Seq<char>>, int, int)) -> nat {
    cohort_members(ps, c, ps.len() as int).len()
}

/// Size classes in order: by width class, then height class.
pub open spec fn class_before(a: (int, int), b: (int, int)) -> bool {
    a.0 < b.0 || (a.0 == b.0 && a.1 < b.1)
}

/// The cohort of a region and kind that is reported: one of three or more
/// pairs, larger than every other of its region and kind, and first in
/// size order among those as large.
pub open spec fn dominates(ps: Seq<LayoutPairView>, rk: Seq<Seq<char>>, w: int, h: int) -> bool {
    &&& cohort_size(ps, (rk, w, h)) >= 3
    &&& forall|w2: int, h2: int|
        #![trigger cohort_size(ps, (rk, w2, h2))]
        cohort_size(ps, (rk, w2, h2)) < cohort_size(ps, (rk, w, h)) || (cohort_size(ps, (rk, w2, h2))
            == cohort_size(ps, (rk, w, h)) && !class_before((w2, h2), (w, h)))
}

/// The reported cohort of a region and kind, when one holds three pairs.
pub open spec fn dominant(ps: Seq<LayoutPairView>, rk: Seq<Seq<char>>) -> Option<(int, int)> {
    if exists|w: int, h: int| dominates(ps, rk, w, h) {
        Some(choose|wh: (int, int)| dominates(ps, rk, wh.0, wh.1))
    } else {
        None
    }
}

/// The regions and kinds that eligible pairs fall under.
pub open spec fn region_kinds(ps: Seq<LayoutPairView>) -> Set<Seq<Seq<char>>> {
    Set::new(|rk: Seq<Seq<char>>| exists|i: int| 0 <= i < ps.len() && eligible(#[trigger] ps[i]) && cohort_of(ps[i]).0 == rk)
}

/// The boxes of a cohort's members on one side, with their positions.
pub open spec fn side_nodes(ps: Seq<LayoutPairView>, members: Seq<usize>, candidate: bool) -> Seq<(usize, Bounds)> {
    members.map_values(
        |i: usize|
            (
                i,
                if candidate {
                    ps[i as int].candidate
                } else {
                    ps[i as int].source
                },
            ),
    )
}

/// Two gaps that differ by two pixels or more.
pub open spec fn gap_changed(a: Option<int>, b: Option<int>) -> bool {
    a is Some && b is Some && (a->0 - b->0 >= 200 || b->0 - a->0 >= 200)
}

/// `<columns> columns / <rows> rows`.
pub open spec fn flow_text(m: LayoutView) -> Seq<char> {
    decimal(m.columns) + " columns / "@ + decimal(m.rows) + " rows"@
}

/// What a cohort's layout differs in: its flow, else its order, else its
/// overlaps, else its column gap, else its row gap. A cohort covering less
/// than a quarter of its bounds is no layout and is not compared.
pub open spec fn layout_change(s: State, region: Seq<char>, kind: Seq<char>, a: LayoutView, b: LayoutView) -> Seq<
    FindingView,
> {
    let scope = scope_of(s);
    let target = region + seq![' '] + kind + " layout"@;
    if a.sparse {
        seq![]
    } else if a.rows != b.rows || a.columns != b.columns {
        seq![finding_value(scope, target, "flow"@, flow_text(a), flow_text(b), None)]
    } else if a.order != b.order {
        seq![finding_value(scope, target, "visual-order"@, "source order"@, "changed order"@, None)]
    } else if a.overlaps != b.overlaps {
        seq![
            finding_value(
                scope,
                target,
                "overlaps"@,
                decimal(a.overlaps),
                decimal(b.overlaps),
                Some(signed_delta_value(b.overlaps - a.overlaps)),
            ),
        ]
    } else if gap_changed(a.horizontal_gap, b.horizontal_gap) {
        seq![
            finding_value(
                scope,
                target,
                "column-gap"@,
                compact_value(a.horizontal_gap->0) + "px"@,
                compact_value(b.horizontal_gap->0) + "px"@,
                Some(signed_value(b.horizontal_gap->0 - a.horizontal_gap->0) + "px"@),
            ),
        ]
    } else if gap_changed(a.vertical_gap, b.vertical_gap) {
        seq![
            finding_value(
                scope,
                target,
                "row-gap"@,
                compact_value(a.vertical_gap->0) + "px"@,
                compact_value(b.vertical_gap->0) + "px"@,
                Some(signed_value(b.vertical_gap->0 - a.vertical_gap->0) + "px"@),
            ),
        ]
    } else {
        seq![]
    }
}

/// What the reported cohort of a region and kind differs in, if it has one.
pub open spec fn cohort_change(s: State, ps: Seq<LayoutPairView>, rk: Seq<Seq<char>>) -> Seq<FindingView> {
    match dominant(ps, rk) {
        Some(wh) => {
            let members = cohort_members(ps, (rk, wh.0, wh.1), ps.len() as int);
            layout_change(
                s,
                rk[0],
                rk[1],
                metrics_of(side_nodes(ps, members, false)),
                metrics_of(side_nodes(ps, members, true)),
            )
        },
        None => seq![],
    }
}

/// The changes of every region and kind, in ascending order of both.
pub open spec fn changes_in(s: State, ps: Seq<LayoutPairView>, rks: Seq<Seq<Seq<char>>>) -> Seq<FindingView>
    decreases rks.len(),
{
    if rks.len() == 0 {
        seq![]
    } else {
        changes_in(s, ps, rks.drop_last()) + cohort_change(s, ps, rks.last())
    }
}

/// How the arrangement of alike elements changed, one finding per region
/// and kind at most.
pub open spec fn topology_findings(s: State, ps: Seq<LayoutPairView>) -> Seq<FindingView> {
    changes_in(s, ps, enumerate_keys(region_kinds(ps)))
}


/// Whether a kind of element is compared as a cohort.
fn is_cohort_kind(k: &str) -> (r: bool)
    ensures
        r == cohort_kind(k@),
{
    str_eq(k, "button") || str_eq(k, "link") || str_eq(k, "tab") || str_eq(k, "option") || str_eq(k, "listitem")
        || str_eq(k, "article") || str_eq(k, "image")
}

/// A positive length in whole units, rounded half up.
fn class_of(v: i64, unit: i64) -> (r: i64)
    requires
        0 < v < 0x1_0000_0000,
        0 < unit < 0x1_0000,
    ensures
        r as int == size_class(v as int, unit as int),
{
    (2 * v + unit) / (2 * unit)
}

/// Every pair's boxes are ones a browser can lay out.
pub open spec fn pairs_bounded(ps: Seq<LayoutPairView>) -> bool {
    forall|i: int| 0 <= i < ps.len() ==> bounded((#[trigger] ps[i]).source) && bounded(ps[i].candidate)
}

proof fn lemma_members_prefix(ps: Seq<LayoutPairView>, c: (Seq<Seq<char>>, int, int), n: int)
    requires
        0 <= n <= ps.len(),
        ps.len() <= usize::MAX,
    ensures
        cohort_members(ps, c, n).len() <= n,
        forall|k: int| 0 <= k < cohort_members(ps, c, n).len() ==> {
            let i = #[trigger] cohort_members(ps, c, n)[k] as int;
            0 <= i < n && eligible(ps[i]) && cohort_of(ps[i]) == c
        },
        cohort_members(ps, c, n).len() > 0 ==> exists|i: int|
            0 <= i < n && eligible(#[trigger] ps[i]) && cohort_of(ps[i]) == c,
    decreases n,
{
    if n > 0 {
        lemma_members_prefix(ps, c, n - 1);
        let m = cohort_members(ps, c, n);
        let m0 = cohort_members(ps, c, n - 1);
        assert forall|k: int| 0 <= k < m.len() implies {
            let i = #[trigger] m[k] as int;
            0 <= i < n && eligible(ps[i]) && cohort_of(ps[i]) == c
        } by {
            if eligible(ps[n - 1]) && cohort_of(ps[n - 1]) == c {
                assert(m == m0 + seq![(n - 1) as usize]);
                if k < m0.len() {
                    assert(m[k] == m0[k]);
                } else {
                    assert(m[k] == (n - 1) as usize);
                }
            } else {
                assert(m == m0 + Seq::<usize>::empty());
                assert(m[k] == m0[k]);
            }
        }
        if m.len() > 0 {
            let i = m[0] as int;
            assert(0 <= i < n && eligible(ps[i]) && cohort_of(ps[i]) == c);
        }
    }
}

/// The positions of the pairs in cohort `c`.
fn members_in(pairs: &Vec<LayoutPair>, region: &str, kind: &str, w: i64, h: i64) -> (r: Vec<usize>)
    requires
        pairs_bounded(pair_views(pairs@)),
    ensures
        r@ == cohort_members(pair_views(pairs@), (seq![region@, kind@], w as int, h as int), pairs@.len() as int),
{
    let ghost ps = pair_views(pairs@);
    let ghost c = (seq![region@, kind@], w as int, h as int);
    let mut out: Vec<usize> = Vec::new();
    let mut i: usize = 0;
    while i < pairs.len()
        invariant
            i <= pairs@.len(),
            ps == pair_views(pairs@),
            pairs_bounded(ps),
            c == (seq![region@, kind@], w as int, h as int),
            out@ == cohort_members(ps, c, i as int),
        decreases pairs@.len() - i,
    {
        let p = &pairs[i];
        assert(ps[i as int] == p@);
        let ghost pv = ps[i as int];
        let fits = is_cohort_kind(p.kind.as_str()) && p.source.width >= 800 && p.source.height >= 800;
        assert(fits == eligible(pv));
        if fits {
            assert(bounded(pv.source));
            let wc = class_of(p.source.width, 3200);
            let hc = class_of(p.source.height, 2400);
            let same = str_eq(p.region.as_str(), region) && str_eq(p.kind.as_str(), kind) && wc == w && hc == h;
            proof {
                if same {
                    assert(cohort_of(pv).0 =~= c.0);
                } else if cohort_of(pv) == c {
                    assert(cohort_of(pv).0[0] == region@);
                    assert(cohort_of(pv).0[1] == kind@);
                }
            }
            if same {
                out.push(i);
            }
        }
        proof {
            let m = cohort_members(ps, c, i + 1);
            assert(m == cohort_members(ps, c, i as int) + if eligible(ps[i as int]) && cohort_of(ps[i as int]) == c {
                seq![i as usize]
            } else {
                seq![]
            });
        }
        assert(out@ =~= cohort_members(ps, c, i + 1));
        i += 1;
    }
    out
}

/// The boxes of a cohort's members on one side.
fn side_of(pairs: &Vec<LayoutPair>, members: &Vec<usize>, candidate: bool) -> (r: Vec<(usize, Bounds)>)
    requires
        forall|k: int| 0 <= k < members@.len() ==> (#[trigger] members@[k]) < pairs@.len(),
        pairs_bounded(pair_views(pairs@)),
    ensures
        r@ == side_nodes(pair_views(pairs@), members@, candidate),
        all_bounded(r@),
        r@.len() == members@.len(),
{
    let ghost ps = pair_views(pairs@);
    let mut out: Vec<(usize, Bounds)> = Vec::new();
    let mut k: usize = 0;
    while k < members.len()
        invariant
            k <= members@.len(),
            ps == pair_views(pairs@),
            pairs_bounded(ps),
            forall|q: int| 0 <= q < members@.len() ==> (#[trigger] members@[q]) < pairs@.len(),
            out@ == side_nodes(ps, members@.take(k as int), candidate),
            all_bounded(out@),
        decreases members@.len() - k,
    {
        let i = members[k];
        assert(ps[i as int] == pairs@[i as int]@);
        let b = if candidate {
            pairs[i].candidate
        } else {
            pairs[i].source
        };
        let ghost before = out@;
        out.push((i, b));
        proof {
            assert(bounded(ps[i as int].source) && bounded(ps[i as int].candidate));
            assert(out@ =~= side_nodes(ps, members@.take(k + 1), candidate));
            assert forall|q: int| 0 <= q < out@.len() implies bounded(#[trigger] out@[q].1) by {
                if q < before.len() {
                    assert(out@[q] == before[q]);
                }
            }
        }
        k += 1;
    }
    assert(members@.take(members@.len() as int) =~= members@);
    out
}

/// `<columns> columns / <rows> rows`.
fn flow_of(m: &LayoutMetrics) -> (r: String)
    ensures
        r@ == flow_text(m.view_of()),
{
    let mut t = String::new();
    push_decimal(&mut t, m.columns as u128);
    push_str(&mut t, " columns / ");
    push_decimal(&mut t, m.rows as u128);
    push_str(&mut t, " rows");
    t
}

/// A gap in pixels.
fn gap_text(g: i64) -> (r: String)
    ensures
        r@ == compact_value(g as int) + "px"@,
{
    let mut t = compact_number(g as i128);
    push_str(&mut t, "px");
    t
}

/// A change of gap in pixels.
fn gap_delta(a: i64, b: i64) -> (r: String)
    ensures
        r@ == signed_value(b - a) + "px"@,
{
    let mut t = signed_number(b as i128 - a as i128);
    push_str(&mut t, "px");
    t
}

fn changed(a: Option<i64>, b: Option<i64>) -> (r: bool)
    ensures
        r == gap_changed(
            match a {
                Some(g) => Some(g as int),
                None => None,
            },
            match b {
                Some(g) => Some(g as int),
                None => None,
            },
        ),
{
    match (a, b) {
        (Some(x), Some(y)) => {
            let d: i128 = x as i128 - y as i128;
            d >= 200 || d <= -200
        },
        _ => false,
    }
}

/// What a cohort's layout differs in.
fn layout_diff(state: &State, region: &str, kind: &str, a: &LayoutMetrics, b: &LayoutMetrics) -> (r: Vec<Finding>)
    ensures
        finding_views(r@) == layout_change(*state, region@, kind@, a.view_of(), b.view_of()),
{
    let mut out: Vec<Finding> = Vec::new();
    if a.sparse {
        assert(finding_views(out@) =~= layout_change(*state, region@, kind@, a.view_of(), b.view_of()));
        return out;
    }
    let scope = state_scope(state);
    let mut target = String::new();
    push_str(&mut target, region);
    crate::text::push_char(&mut target, ' ');
    push_str(&mut target, kind);
    push_str(&mut target, " layout");
    assert(target@ =~= region@ + seq![' '] + kind@ + " layout"@);
    let t = target.as_str();
    let same_order = same_positions(&a.order, &b.order);
    assert(same_order == (a.order@ == b.order@));
    let f = if a.rows != b.rows || a.columns != b.columns {
        Some(finding(&scope, t, "flow", flow_of(a).as_str(), flow_of(b).as_str(), None))
    } else if !same_order {
        Some(finding(&scope, t, "visual-order", "source order", "changed order", None))
    } else if a.overlaps != b.overlaps {
        Some(
            finding(
                &scope,
                t,
                "overlaps",
                crate::text::decimal_string(a.overlaps as u128).as_str(),
                crate::text::decimal_string(b.overlaps as u128).as_str(),
                Some(signed_delta(b.overlaps as i128 - a.overlaps as i128)),
            ),
        )
    } else if changed(a.horizontal_gap, b.horizontal_gap) {
        let x = a.horizontal_gap.unwrap();
        let y = b.horizontal_gap.unwrap();
        Some(finding(&scope, t, "column-gap", gap_text(x).as_str(), gap_text(y).as_str(), Some(gap_delta(x, y))))
    } else if changed(a.vertical_gap, b.vertical_gap) {
        let x = a.vertical_gap.unwrap();
        let y = b.vertical_gap.unwrap();
        Some(finding(&scope, t, "row-gap", gap_text(x).as_str(), gap_text(y).as_str(), Some(gap_delta(x, y))))
    } else {
        None
    };
    match f {
        Some(v) => out.push(v),
        None => {},
    }
    assert(finding_views(out@) =~= layout_change(*state, region@, kind@, a.view_of(), b.view_of()));
    out
}


/// Whether two lists of positions are the same.
fn same_positions(a: &Vec<usize>, b: &Vec<usize>) -> (r: bool)
    ensures
        r == (a@ == b@),
{
    if a.len() != b.len() {
        return false;
    }
    let mut k: usize = 0;
    while k < a.len()
        invariant
            k <= a@.len(),
            a@.len() == b@.len(),
            forall|q: int| 0 <= q < k ==> a@[q] == b@[q],
        decreases a@.len() - k,
    {
        if a[k] != b[k] {
            return false;
        }
        k += 1;
    }
    assert(a@ =~= b@);
    true
}


pub open spec fn key_views(v: Seq<Vec<String>>) -> Seq<Seq<Seq<char>>> {
    v.map_values(|k: Vec<String>| views(k@))
}

/// Places a key into an ascending list of keys, unless it is there.
fn insert_key_list(list: &mut Vec<Vec<String>>, key: Vec<String>)
    requires
        ascending_keys(key_views(old(list)@)),
    ensures
        ascending_keys(key_views(final(list)@)),
        forall|w: Seq<Seq<char>>| #[trigger] key_views(final(list)@).contains(w) <==> (key_views(old(list)@).contains(w) || w == views(key@)),
{
    let ghost k = views(key@);
    let ghost before = key_views(list@);
    let mut i: usize = 0;
    while i < list.len() && key_less(&list[i], &key)
        invariant
            i <= list@.len(),
            k == views(key@),
            before == key_views(list@),
            forall|j: int| 0 <= j < i ==> key_lt(#[trigger] before[j], k),
        decreases list@.len() - i,
    {
        assert(before[i as int] == views(list@[i as int]@));
        i += 1;
    }
    if i < list.len() && key_equal(&list[i], &key) {
        assert(before[i as int] == k);
        return;
    }
    proof {
        if i < before.len() {
            lemma_key_total(before[i as int], k);
            assert(key_lt(k, before[i as int]));
        }
    }
    list.insert(i, key);
    proof {
        let after = key_views(list@);
        assert(after =~= before.take(i as int).push(k) + before.skip(i as int));
        assert forall|a: int, b: int| 0 <= a < b < after.len() implies key_lt(#[trigger] after[a], #[trigger] after[b]) by {
            if a < i && b > i {
                assert(after[b] == before[b - 1]);
                assert(after[a] == before[a]);
                if b - 1 > i {
                    lemma_key_transitive(k, before[i as int], before[b - 1]);
                }
                lemma_key_transitive(after[a], k, after[b]);
            } else if a == i && b > i {
                assert(after[b] == before[b - 1]);
                if b - 1 > i {
                    lemma_key_transitive(k, before[i as int], before[b - 1]);
                }
            } else if a < i && b < i {
                assert(after[a] == before[a]);
                assert(after[b] == before[b]);
            } else if a > i {
                assert(after[a] == before[a - 1]);
                assert(after[b] == before[b - 1]);
            } else {
                assert(after[a] == before[a]);
            }
        }
        assert forall|w: Seq<Seq<char>>| #[trigger] after.contains(w) <==> (before.contains(w) || w == k) by {
            if after.contains(w) && w != k {
                let j = choose|j: int| 0 <= j < after.len() && after[j] == w;
                if j < i {
                    assert(before[j] == w);
                } else {
                    assert(before[j - 1] == w);
                }
            }
            if before.contains(w) {
                let j = choose|j: int| 0 <= j < before.len() && before[j] == w;
                if j < i {
                    assert(after[j] == w);
                } else {
                    assert(after[j + 1] == w);
                }
            }
            if w == k {
                assert(after[i as int] == w);
            }
        }
    }
}

proof fn lemma_region_kinds_push(ps: Seq<LayoutPairView>, i: int)
    requires
        0 <= i < ps.len(),
    ensures
        forall|w: Seq<Seq<char>>| #[trigger] region_kinds(ps.take(i + 1)).contains(w) <==> (region_kinds(
            ps.take(i),
        ).contains(w) || (eligible(ps[i]) && cohort_of(ps[i]).0 == w)),
{
    let a = ps.take(i + 1);
    let b = ps.take(i);
    assert forall|w: Seq<Seq<char>>| #[trigger] region_kinds(a).contains(w) <==> (region_kinds(b).contains(w) || (
    eligible(ps[i]) && cohort_of(ps[i]).0 == w)) by {
        if region_kinds(a).contains(w) {
            let q = choose|q: int| 0 <= q < a.len() && eligible(#[trigger] a[q]) && cohort_of(a[q]).0 == w;
            if q < i {
                assert(b[q] == a[q]);
            }
        }
        if region_kinds(b).contains(w) {
            let q = choose|q: int| 0 <= q < b.len() && eligible(#[trigger] b[q]) && cohort_of(b[q]).0 == w;
            assert(a[q] == b[q]);
        }
        if eligible(ps[i]) && cohort_of(ps[i]).0 == w {
            assert(a[i] == ps[i]);
        }
    }
}

/// Whether one pair of size classes comes before another.
fn classes_before(a: (i64, i64), b: (i64, i64)) -> (r: bool)
    ensures
        r == class_before((a.0 as int, a.1 as int), (b.0 as int, b.1 as int)),
{
    a.0 < b.0 || (a.0 == b.0 && a.1 < b.1)
}

proof fn lemma_dominates_unique(ps: Seq<LayoutPairView>, rk: Seq<Seq<char>>, a: (int, int), b: (int, int))
    requires
        dominates(ps, rk, a.0, a.1),
        dominates(ps, rk, b.0, b.1),
    ensures
        a == b,
{
    let sa = cohort_size(ps, (rk, a.0, a.1));
    let sb = cohort_size(ps, (rk, b.0, b.1));
    assert(sb < sa || (sb == sa && !class_before((b.0, b.1), (a.0, a.1))));
    assert(sa < sb || (sa == sb && !class_before((a.0, a.1), (b.0, b.1))));
}

/// The reported cohort of a region and kind, if any.
fn dominant_of(pairs: &Vec<LayoutPair>, region: &str, kind: &str) -> (r: Option<(i64, i64)>)
    requires
        pairs_bounded(pair_views(pairs@)),
    ensures
        match r {
            Some(wh) => dominant(pair_views(pairs@), seq![region@, kind@]) == Some((wh.0 as int, wh.1 as int)),
            None => dominant(pair_views(pairs@), seq![region@, kind@]) is None,
        },
{
    let ghost ps = pair_views(pairs@);
    let ghost rk = seq![region@, kind@];
    let mut best: Option<(usize, i64, i64)> = None;
    let mut i: usize = 0;
    while i < pairs.len()
        invariant
            i <= pairs@.len(),
            ps == pair_views(pairs@),
            pairs_bounded(ps),
            rk == seq![region@, kind@],
            match best {
                None => forall|q: int| 0 <= q < i ==> !(eligible(#[trigger] ps[q]) && cohort_of(ps[q]).0 == rk),
                Some((bs, bw, bh)) => {
                    &&& bs as nat == cohort_size(ps, (rk, bw as int, bh as int))
                    &&& bs >= 1
                    &&& forall|q: int|
                        0 <= q < i && eligible(#[trigger] ps[q]) && cohort_of(ps[q]).0 == rk ==> cohort_size(
                            ps,
                            cohort_of(ps[q]),
                        ) < bs || (cohort_size(ps, cohort_of(ps[q])) == bs && !class_before(
                            (cohort_of(ps[q]).1, cohort_of(ps[q]).2),
                            (bw as int, bh as int),
                        ))
                },
            },
        decreases pairs@.len() - i,
    {
        let p = &pairs[i];
        assert(ps[i as int] == p@);
        let ghost pv = ps[i as int];
        let fits = is_cohort_kind(p.kind.as_str()) && p.source.width >= 800 && p.source.height >= 800;
        assert(fits == eligible(pv));
        if fits && str_eq(p.region.as_str(), region) && str_eq(p.kind.as_str(), kind) {
            assert(bounded(pv.source));
            assert(cohort_of(pv).0 =~= rk);
            let wc = class_of(p.source.width, 3200);
            let hc = class_of(p.source.height, 2400);
            let members = members_in(pairs, region, kind, wc, hc);
            let size = members.len();
            proof {
                assert(cohort_of(pv) == (rk, wc as int, hc as int));
                assert(ps.len() <= usize::MAX);
                lemma_members_prefix(ps, (rk, wc as int, hc as int), ps.len() as int);
                let m = cohort_members(ps, (rk, wc as int, hc as int), ps.len() as int);
                lemma_member_present(ps, (rk, wc as int, hc as int), i as int);
            }
            let better = match best {
                None => true,
                Some((bs, bw, bh)) => size > bs || (size == bs && classes_before((wc, hc), (bw, bh))),
            };
            let ghost old_best = best;
            if better {
                best = Some((size, wc, hc));
            }
            proof {
                match best {
                    Some((bs, bw, bh)) => {
                        assert forall|q: int|
                            0 <= q < i + 1 && eligible(#[trigger] ps[q]) && cohort_of(ps[q]).0 == rk implies cohort_size(
                            ps,
                            cohort_of(ps[q]),
                        ) < bs || (cohort_size(ps, cohort_of(ps[q])) == bs && !class_before(
                            (cohort_of(ps[q]).1, cohort_of(ps[q]).2),
                            (bw as int, bh as int),
                        )) by {
                            match old_best {
                                Some((os, ow, oh)) => {
                                    if q < i {
                                        if better {
                                            if cohort_size(ps, cohort_of(ps[q])) == os && os == bs {
                                                let c = (cohort_of(ps[q]).1, cohort_of(ps[q]).2);
                                                if class_before(c, (bw as int, bh as int)) {
                                                    assert(class_before((bw as int, bh as int), (ow as int, oh as int)));
                                                }
                                            }
                                        }
                                    } else {
                                        assert(q == i);
                                    }
                                },
                                None => {
                                    if q < i {
                                        assert(!(eligible(ps[q]) && cohort_of(ps[q]).0 == rk));
                                    }
                                },
                            }
                        }
                    },
                    None => {},
                }
            }
        } else {
            proof {
                if eligible(pv) && cohort_of(pv).0 == rk {
                    assert(cohort_of(pv).0[0] == region@);
                    assert(cohort_of(pv).0[1] == kind@);
                }
            }
        }
        i += 1;
    }
    match best {
        Some((bs, bw, bh)) => {
            if bs >= 3 {
                proof {
                    assert forall|w2: int, h2: int|
                        #![trigger cohort_size(ps, (rk, w2, h2))]
                        cohort_size(ps, (rk, w2, h2)) < cohort_size(ps, (rk, bw as int, bh as int)) || (cohort_size(
                            ps,
                            (rk, w2, h2),
                        ) == cohort_size(ps, (rk, bw as int, bh as int)) && !class_before((w2, h2), (bw as int, bh as int))) by {
                        let c = (rk, w2, h2);
                        assert(ps.len() <= usize::MAX);
                        lemma_members_prefix(ps, c, ps.len() as int);
                        if cohort_size(ps, c) > 0 {
                            let q = choose|q: int| 0 <= q < ps.len() && eligible(#[trigger] ps[q]) && cohort_of(ps[q]) == c;
                            assert(cohort_of(ps[q]).0 == rk);
                        }
                    }
                    assert(dominates(ps, rk, bw as int, bh as int));
                    let wh = choose|wh: (int, int)| dominates(ps, rk, wh.0, wh.1);
                    lemma_dominates_unique(ps, rk, wh, (bw as int, bh as int));
                }
                Some((bw, bh))
            } else {
                proof {
                    if exists|w: int, h: int| dominates(ps, rk, w, h) {
                        let (w, h) = choose|w: int, h: int| dominates(ps, rk, w, h);
                        let c = (rk, w, h);
                        assert(ps.len() <= usize::MAX);
                        lemma_members_prefix(ps, c, ps.len() as int);
                        let q = choose|q: int| 0 <= q < ps.len() && eligible(#[trigger] ps[q]) && cohort_of(ps[q]) == c;
                        assert(cohort_of(ps[q]).0 == rk);
                        assert(false);
                    }
                }
                None
            }
        },
        None => {
            proof {
                if exists|w: int, h: int| dominates(ps, rk, w, h) {
                    let (w, h) = choose|w: int, h: int| dominates(ps, rk, w, h);
                    let c = (rk, w, h);
                    assert(ps.len() <= usize::MAX);
                    lemma_members_prefix(ps, c, ps.len() as int);
                    let q = choose|q: int| 0 <= q < ps.len() && eligible(#[trigger] ps[q]) && cohort_of(ps[q]) == c;
                    assert(cohort_of(ps[q]).0 == rk);
                    assert(false);
                }
            }
            None
        },
    }
}

/// A pair in a cohort is among its members, so the cohort is not empty.
proof fn lemma_member_present(ps: Seq<LayoutPairView>, c: (Seq<Seq<char>>, int, int), i: int)
    requires
        0 <= i < ps.len(),
        ps.len() <= usize::MAX,
        eligible(ps[i]),
        cohort_of(ps[i]) == c,
    ensures
        cohort_size(ps, c) >= 1,
{
    lemma_members_grow(ps, c, i + 1, ps.len() as int);
    assert(cohort_members(ps, c, i + 1).len() >= 1);
}

proof fn lemma_members_grow(ps: Seq<LayoutPairView>, c: (Seq<Seq<char>>, int, int), a: int, b: int)
    requires
        0 <= a <= b,
    ensures
        cohort_members(ps, c, a).len() <= cohort_members(ps, c, b).len(),
    decreases b - a,
{
    if a < b {
        lemma_members_grow(ps, c, a, b - 1);
    }
}


proof fn lemma_region_kind_shape(ps: Seq<LayoutPairView>, rk: Seq<Seq<char>>)
    requires
        region_kinds(ps).contains(rk),
    ensures
        rk.len() == 2,
{
    let q = choose|q: int| 0 <= q < ps.len() && eligible(#[trigger] ps[q]) && cohort_of(ps[q]).0 == rk;
}

/// How the arrangement of alike elements changed between the two pages.
/// Elements of the same region and kind, at least eight pixels square,
/// fall into cohorts by their size in 32-by-24-pixel steps; the largest
/// cohort of three or more of each region and kind is compared, unless its
/// elements cover less than a quarter of their bounds. Its flow, else its
/// order, else its overlaps, else its column gap, else its row gap is
/// reported.
pub fn compare_layout_topology(state: &State, pairs: &Vec<LayoutPair>) -> (r: Vec<Finding>)
    requires
        pairs_bounded(pair_views(pairs@)),
        pairs@.len() < 0x1_0000_0000,
    ensures
        finding_views(r@) == topology_findings(*state, pair_views(pairs@)),
{
    let ghost ps = pair_views(pairs@);
    let mut rks: Vec<Vec<String>> = Vec::new();
    let mut i: usize = 0;
    proof {
        assert forall|w: Seq<Seq<char>>| #[trigger] key_views(rks@).contains(w) <==> region_kinds(ps.take(0)).contains(w) by {
            if region_kinds(ps.take(0)).contains(w) {
                let q = choose|q: int| 0 <= q < ps.take(0).len() && eligible(#[trigger] ps.take(0)[q]) && cohort_of(ps.take(0)[q]).0 == w;
            }
        }
    }
    while i < pairs.len()
        invariant
            i <= pairs@.len(),
            ps == pair_views(pairs@),
            pairs_bounded(ps),
            ascending_keys(key_views(rks@)),
            forall|w: Seq<Seq<char>>| #[trigger] key_views(rks@).contains(w) <==> region_kinds(ps.take(i as int)).contains(w),
        decreases pairs@.len() - i,
    {
        let p = &pairs[i];
        assert(ps[i as int] == p@);
        proof {
            lemma_region_kinds_push(ps, i as int);
        }
        let fits = is_cohort_kind(p.kind.as_str()) && p.source.width >= 800 && p.source.height >= 800;
        if fits {
            let mut key: Vec<String> = Vec::new();
            key.push(p.region.clone());
            key.push(p.kind.clone());
            assert(views(key@) =~= cohort_of(ps[i as int]).0);
            insert_key_list(&mut rks, key);
        }
        i += 1;
    }
    assert(ps.take(pairs@.len() as int) =~= ps);
    let ghost order = key_views(rks@);
    proof {
        lemma_enumerate_keys(order, region_kinds(ps));
    }
    let mut out: Vec<Finding> = Vec::new();
    let mut j: usize = 0;
    while j < rks.len()
        invariant
            j <= rks@.len(),
            ps == pair_views(pairs@),
            pairs_bounded(ps),
            pairs@.len() < 0x1_0000_0000,
            order == key_views(rks@),
            forall|w: Seq<Seq<char>>| #[trigger] order.contains(w) <==> region_kinds(ps).contains(w),
            finding_views(out@) == changes_in(*state, ps, order.take(j as int)),
        decreases rks@.len() - j,
    {
        let ghost rk = order[j as int];
        proof {
            assert(order.contains(rk));
            lemma_region_kind_shape(ps, rk);
            assert(rk == views(rks@[j as int]@));
        }
        let region = rks[j][0].as_str();
        let kind = rks[j][1].as_str();
        assert(rk =~= seq![region@, kind@]);
        let ghost before = finding_views(out@);
        match dominant_of(pairs, region, kind) {
            Some((w, h)) => {
                let members = members_in(pairs, region, kind, w, h);
                proof {
                    assert(ps.len() <= usize::MAX);
                    lemma_members_prefix(ps, (rk, w as int, h as int), ps.len() as int);
                }
                let src = side_of(pairs, &members, false);
                let cand = side_of(pairs, &members, true);
                let sm = layout_metrics(&src);
                let cm = layout_metrics(&cand);
                let mut part = layout_diff(state, region, kind, &sm, &cm);
                let ghost pv = finding_views(part@);
                out.append(&mut part);
                assert(finding_views(out@) =~= before + pv);
            },
            None => {
                assert(cohort_change(*state, ps, rk) =~= Seq::<FindingView>::empty());
                assert(finding_views(out@) =~= before + cohort_change(*state, ps, rk));
            },
        }
        proof {
            assert(order.take(j + 1).drop_last() =~= order.take(j as int));
            assert(order.take(j + 1).last() == rk);
        }
        j += 1;
    }
    assert(order.take(rks@.len() as int) =~= order);
    out
}

/// A cohort laid out alike on both sides but for the space between its
/// rows is reported by that space alone: a `row-gap` difference with both
/// gaps, once they differ by two pixels or more, and nothing below that.
pub proof fn a_changed_row_gap_alone_is_reported(
    s: State,
    region: Seq<char>,
    kind: Seq<char>,
    a: LayoutView,
    b: LayoutView,
    x: int,
    y: int,
)
    requires
        !a.sparse,
        a.rows == b.rows,
        a.columns == b.columns,
        a.order == b.order,
        a.overlaps == b.overlaps,
        a.horizontal_gap == b.horizontal_gap,
        a.vertical_gap == Some(x),
        b.vertical_gap == Some(y),
    ensures
        x - y >= 200 || y - x >= 200 ==> {
            let r = layout_change(s, region, kind, a, b);
            &&& r.len() == 1
            &&& r[0].property == "row-gap"@
            &&& r[0].target == region + seq![' '] + kind + " layout"@
            &&& r[0].source == compact_value(x) + "px"@
            &&& r[0].candidate == compact_value(y) + "px"@
        },
        -200 < x - y < 200 ==> layout_change(s, region, kind, a, b).len() == 0,
{
}

/// A cohort laid out alike on both sides but for the space between its
/// columns is reported by that space: a `column-gap` difference with both
/// gaps, once they differ by two pixels or more. A change in how many
/// elements overlap is reported by the counts, and a cohort too sparse to
/// be a layout is never reported.
pub proof fn a_changed_column_gap_or_overlap_is_reported(
    s: State,
    region: Seq<char>,
    kind: Seq<char>,
    a: LayoutView,
    b: LayoutView,
)
    ensures
        a.sparse ==> layout_change(s, region, kind, a, b).len() == 0,
        !a.sparse && a.rows == b.rows && a.columns == b.columns && a.order == b.order && a.overlaps == b.overlaps
            && a.horizontal_gap is Some && b.horizontal_gap is Some
            && (a.horizontal_gap->0 - b.horizontal_gap->0 >= 200 || b.horizontal_gap->0 - a.horizontal_gap->0 >= 200)
            ==> {
            let r = layout_change(s, region, kind, a, b);
            &&& r.len() == 1
            &&& r[0].property == "column-gap"@
            &&& r[0].source == compact_value(a.horizontal_gap->0) + "px"@
            &&& r[0].candidate == compact_value(b.horizontal_gap->0) + "px"@
        },
        !a.sparse && a.rows == b.rows && a.columns == b.columns && a.order == b.order && a.overlaps != b.overlaps
            ==> {
            let r = layout_change(s, region, kind, a, b);
            &&& r.len() == 1
            &&& r[0].property == "overlaps"@
            &&& r[0].source == decimal(a.overlaps)
            &&& r[0].candidate == decimal(b.overlaps)
        },
{
}

} // verus!
