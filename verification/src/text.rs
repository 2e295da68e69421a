//! Character-level helpers shared by every module that renders text.
use vstd::prelude::*;
use vstd::string::*;

verus! {

broadcast use vstd::string::group_string_axioms;

/// Appends one character to a string.
///
/// Calls `String::push`, which std documents as appending the character to
/// the end of the string; the contract states exactly that.
#[verifier::external_body]
pub fn push_char(s: &mut String, c: char)
    ensures
        final(s)@ == old(s)@.push(c),
{
    s.push(c);
}

/// The characters of a string slice, in order.
pub fn chars_of(s: &str) -> (v: Vec<char>)
    ensures
        v@ == s@,
{
    let mut v: Vec<char> = Vec::new();
    for c in it: s.chars()
        invariant
            v@ == it.seq().take(it.index() as int),
            it.seq() == s@,
    {
        v.push(c);
    }
    v
}


/// The character of a decimal digit.
pub open spec fn digit(d: nat) -> char {
    ((d + 48) as u8) as char
}

/// The decimal rendering of a natural number, most significant digit first.
pub open spec fn decimal(n: nat) -> Seq<char>
    decreases n,
{
    if n < 10 {
        seq![digit(n)]
    } else {
        decimal(n / 10).push(digit(n % 10))
    }
}

/// The decimal rendering of an integer, with a leading minus sign when negative.
pub open spec fn signed_decimal(n: int) -> Seq<char> {
    if n < 0 {
        seq!['-'].add(decimal((-n) as nat))
    } else {
        decimal(n as nat)
    }
}

/// Appends the decimal digits of `n`.
pub fn push_decimal(out: &mut String, n: u128)
    ensures
        final(out)@ == old(out)@ + decimal(n as nat),
    decreases n,
{
    if n >= 10 {
        push_decimal(out, n / 10);
    }
    let d: u8 = (n % 10) as u8;
    push_char(out, (d + 48) as char);
}

/// The decimal rendering of an unsigned number.
pub fn decimal_string(n: u128) -> (s: String)
    ensures
        s@ == decimal(n as nat),
{
    let mut s = String::new();
    push_decimal(&mut s, n);
    s
}

/// Appends the decimal rendering of a signed number.
pub fn push_signed_decimal(out: &mut String, n: i128)
    requires
        n > i128::MIN,
    ensures
        final(out)@ == old(out)@ + signed_decimal(n as int),
{
    if n < 0 {
        push_char(out, '-');
        let m: i128 = -n;
        push_decimal(out, m as u128);
        assert(final(out)@ =~= old(out)@ + signed_decimal(n as int));
    } else {
        push_decimal(out, n as u128);
    }
}

/// A string built from a sequence of characters.
pub fn string_of(v: &Vec<char>) -> (s: String)
    ensures
        s@ == v@,
{
    let mut s = String::new();
    let mut i: usize = 0;
    while i < v.len()
        invariant
            i <= v.len(),
            s@ == v@.take(i as int),
        decreases v.len() - i,
    {
        push_char(&mut s, v[i]);
        i += 1;
        assert(s@ =~= v@.take(i as int));
    }
    assert(v@.take(v.len() as int) =~= v@);
    s
}

/// Appends a string slice.
pub fn push_str(out: &mut String, s: &str)
    ensures
        final(out)@ == old(out)@ + s@,
{
    out.append(s);
}

/// An ASCII decimal digit.
pub open spec fn is_digit(c: char) -> bool {
    '0' <= c && c <= '9'
}

/// The number a run of decimal digits spells.
pub open spec fn digits_value(s: Seq<char>) -> nat
    decreases s.len(),
{
    if s.len() == 0 {
        0
    } else {
        digits_value(s.drop_last()) * 10 + ((s.last() as int) - 48) as nat
    }
}

/// Appending a digit multiplies the value by ten and adds the digit.
pub proof fn lemma_digits_push(s: Seq<char>, c: char)
    ensures
        digits_value(s.push(c)) == digits_value(s) * 10 + ((c as int) - 48) as nat,
{
    assert(s.push(c).drop_last() =~= s);
}


/// Ten to the power `k`.
pub open spec fn pow10(k: nat) -> nat
    decreases k,
{
    if k == 0 {
        1
    } else {
        10 * pow10((k - 1) as nat)
    }
}

/// Powers of ten grow tenfold, and thirty digits fit in 128 bits.
pub proof fn lemma_pow10_bound(k: nat)
    ensures
        pow10(k + 1) == 10 * pow10(k),
        k <= 30 ==> pow10(k) <= 1_000_000_000_000_000_000_000_000_000_000,
{
    assert(pow10(k + 1) == 10 * pow10(k));
    if k <= 30 {
        lemma_pow10_monotone(k, 30);
        reveal_with_fuel(pow10, 31);
        assert(pow10(30) == 1_000_000_000_000_000_000_000_000_000_000);
    }
}

proof fn lemma_pow10_monotone(a: nat, b: nat)
    requires
        a <= b,
    ensures
        pow10(a) <= pow10(b),
    decreases b,
{
    if a < b {
        lemma_pow10_monotone(a, (b - 1) as nat);
    }
}


/// Whether two string slices hold the same characters.
pub fn str_eq(a: &str, b: &str) -> (r: bool)
    ensures
        r == (a@ == b@),
{
    let x = chars_of(a);
    let y = chars_of(b);
    if x.len() != y.len() {
        assert(a@.len() != b@.len());
        return false;
    }
    let mut i: usize = 0;
    while i < x.len()
        invariant
            i <= x.len(),
            x.len() == y.len(),
            x@ == a@,
            y@ == b@,
            forall|k: int| 0 <= k < i ==> x@[k] == y@[k],
        decreases x.len() - i,
    {
        if x[i] != y[i] {
            assert(a@[i as int] != b@[i as int]);
            return false;
        }
        i += 1;
    }
    assert(x@ =~= y@);
    true
}

/// `p` begins `s`.
pub open spec fn is_prefix(p: Seq<char>, s: Seq<char>) -> bool {
    p.len() <= s.len() && s.take(p.len() as int) == p
}

/// Whether `s` begins with `p`.
pub fn starts_with(s: &str, p: &str) -> (r: bool)
    ensures
        r == is_prefix(p@, s@),
{
    let x = chars_of(s);
    let y = chars_of(p);
    if y.len() > x.len() {
        assert(p@.len() > s@.len());
        return false;
    }
    let mut i: usize = 0;
    while i < y.len()
        invariant
            i <= y.len(),
            y.len() <= x.len(),
            x@ == s@,
            y@ == p@,
            forall|k: int| 0 <= k < i ==> x@[k] == y@[k],
        decreases y.len() - i,
    {
        if x[i] != y[i] {
            assert(s@.take(p@.len() as int)[i as int] != p@[i as int]);
            assert(s@.take(p@.len() as int) != p@);
            return false;
        }
        i += 1;
    }
    assert(s@.take(p@.len() as int) =~= p@);
    true
}

/// `n` occurs in `s` starting at `i`.
pub open spec fn occurs_at(s: Seq<char>, n: Seq<char>, i: int) -> bool {
    0 <= i && i + n.len() <= s.len() && s.subrange(i, i + n.len()) == n
}

/// `n` occurs somewhere in `s`; the empty sequence occurs in every one.
pub open spec fn contains_seq(s: Seq<char>, n: Seq<char>) -> bool {
    exists|i: int| #[trigger] occurs_at(s, n, i)
}

/// Whether `n` occurs in `s` at `i`.
fn matches_at(s: &Vec<char>, n: &Vec<char>, i: usize) -> (r: bool)
    requires
        i + n@.len() <= s@.len(),
    ensures
        r == occurs_at(s@, n@, i as int),
{
    let mut k: usize = 0;
    while k < n.len()
        invariant
            k <= n.len(),
            i + n@.len() <= s@.len(),
            forall|q: int| 0 <= q < k ==> s@[i + q] == n@[q],
        decreases n.len() - k,
    {
        assert(i + k < s.len());
        if s[i + k] != n[k] {
            assert(s@.subrange(i as int, i + n@.len())[k as int] != n@[k as int]);
            return false;
        }
        k += 1;
    }
    assert(s@.subrange(i as int, i + n@.len()) =~= n@);
    true
}

/// Whether `n` occurs in `s`.
pub fn contains_chars(s: &Vec<char>, n: &Vec<char>) -> (r: bool)
    ensures
        r == contains_seq(s@, n@),
{
    if n.len() > s.len() {
        assert forall|i: int| !occurs_at(s@, n@, i) by {}
        return false;
    }
    let mut i: usize = 0;
    let last = s.len() - n.len();
    loop
        invariant_except_break
            i <= last,
            forall|q: int| 0 <= q < i ==> !occurs_at(s@, n@, q),
        invariant
            n@.len() <= s@.len(),
            last == s@.len() - n@.len(),
        ensures
            forall|q: int| 0 <= q <= last ==> !occurs_at(s@, n@, q),
        decreases last - i,
    {
        if matches_at(s, n, i) {
            return true;
        }
        if i == last {
            break;
        }
        i += 1;
    }
    assert forall|q: int| !occurs_at(s@, n@, q) by {
        if 0 <= q && q + n@.len() <= s@.len() {
            assert(q <= last);
        }
    }
    false
}

/// Whether the slice `n` occurs in `s`.
pub fn contains_str(s: &str, n: &str) -> (r: bool)
    ensures
        r == contains_seq(s@, n@),
{
    contains_chars(&chars_of(s), &chars_of(n))
}


/// A character with the Unicode `White_Space` property, the set that
/// `char::is_whitespace` and `str::split_whitespace` use.
pub open spec fn white(c: char) -> bool {
    ||| '\u{9}' <= c && c <= '\u{d}'
    ||| c == ' '
    ||| c == '\u{85}'
    ||| c == '\u{a0}'
    ||| c == '\u{1680}'
    ||| '\u{2000}' <= c && c <= '\u{200a}'
    ||| c == '\u{2028}'
    ||| c == '\u{2029}'
    ||| c == '\u{202f}'
    ||| c == '\u{205f}'
    ||| c == '\u{3000}'
}

pub fn is_white(c: char) -> (r: bool)
    ensures
        r == white(c),
{
    ('\u{9}' <= c && c <= '\u{d}') || c == ' ' || c == '\u{85}' || c == '\u{a0}' || c == '\u{1680}'
        || ('\u{2000}' <= c && c <= '\u{200a}') || c == '\u{2028}' || c == '\u{2029}' || c
        == '\u{202f}' || c == '\u{205f}' || c == '\u{3000}'
}

/// The words of `s` joined by single spaces: whitespace runs collapse to one
/// space, and leading and trailing whitespace goes.
pub open spec fn squeeze(s: Seq<char>) -> Seq<char>
    decreases s.len(),
{
    if s.len() == 0 {
        seq![]
    } else {
        let before = squeeze(s.drop_last());
        let c = s.last();
        if white(c) {
            before
        } else if before.len() > 0 && white(s[s.len() - 2]) {
            before + seq![' ', c]
        } else {
            before.push(c)
        }
    }
}

/// Collapses whitespace the way splitting on whitespace and joining the
/// words with one space does.
pub fn squeeze_whitespace(value: &str) -> (r: String)
    ensures
        r@ == squeeze(value@),
{
    let cs = chars_of(value);
    let mut out = String::new();
    let mut after_white = false;
    let mut started = false;
    let mut i: usize = 0;
    while i < cs.len()
        invariant
            i <= cs@.len(),
            cs@ == value@,
            out@ == squeeze(cs@.take(i as int)),
            started == (out@.len() > 0),
            after_white == (i > 0 && white(cs@[i - 1])),
        decreases cs@.len() - i,
    {
        let c = cs[i];
        let ghost t = cs@.take(i + 1 as int);
        assert(t.drop_last() =~= cs@.take(i as int));
        assert(t.last() == c);
        if is_white(c) {
            after_white = true;
        } else {
            if started && after_white {
                assert(t[t.len() - 2] == cs@[i - 1]);
                push_char(&mut out, ' ');
            } else if i > 0 {
                assert(t[t.len() - 2] == cs@[i - 1]);
            }
            push_char(&mut out, c);
            after_white = false;
            started = true;
        }
        i += 1;
        assert(out@ =~= squeeze(cs@.take(i as int)));
    }
    assert(cs@.take(cs@.len() as int) =~= cs@);
    out
}


/// Every occurrence of `pat` replaced by `rep`, scanning from the left
/// without overlap, as `str::replace` does for a non-empty pattern.
pub open spec fn replaced(s: Seq<char>, pat: Seq<char>, rep: Seq<char>) -> Seq<char>
    decreases s.len(),
{
    if pat.len() == 0 || s.len() < pat.len() {
        s
    } else if s.take(pat.len() as int) == pat {
        rep + replaced(s.skip(pat.len() as int), pat, rep)
    } else {
        seq![s[0]] + replaced(s.drop_first(), pat, rep)
    }
}

/// Replaces every occurrence of a non-empty pattern.
pub fn replace_all(s: &str, pat: &str, rep: &str) -> (r: String)
    requires
        pat@.len() > 0,
    ensures
        r@ == replaced(s@, pat@, rep@),
{
    let cs = chars_of(s);
    let ps = chars_of(pat);
    let mut out = String::new();
    let mut i: usize = 0;
    assert(cs@.skip(0) =~= cs@);
    while ps.len() <= cs.len() - i
        invariant
            cs@ == s@,
            ps@ == pat@,
            ps@.len() > 0,
            i <= cs@.len(),
            out@ + replaced(cs@.skip(i as int), pat@, rep@) == replaced(s@, pat@, rep@),
        decreases cs@.len() - i,
    {
        let ghost rest = cs@.skip(i as int);
        let hit = matches_at(&cs, &ps, i);
        assert(rest.take(ps@.len() as int) =~= cs@.subrange(i as int, i + ps@.len()));
        if hit {
            assert(rest.skip(ps@.len() as int) =~= cs@.skip(i + ps@.len()));
            let ghost before = out@;
            push_str(&mut out, rep);
            assert(out@ + replaced(cs@.skip(i + ps@.len()), pat@, rep@) =~= before + replaced(rest, pat@, rep@));
            i += ps.len();
        } else {
            assert(rest.drop_first() =~= cs@.skip(i + 1));
            assert(rest[0] == cs@[i as int]);
            let ghost before = out@;
            push_char(&mut out, cs[i]);
            assert(out@ + replaced(cs@.skip(i + 1), pat@, rep@) =~= before + replaced(rest, pat@, rep@));
            i += 1;
        }
    }
    let ghost tail = cs@.skip(i as int);
    assert(replaced(tail, pat@, rep@) == tail);
    let mut j: usize = i;
    while j < cs.len()
        invariant
            cs@ == s@,
            i <= j <= cs@.len(),
            out@ + tail.skip(j - i) == replaced(s@, pat@, rep@),
            tail == cs@.skip(i as int),
        decreases cs@.len() - j,
    {
        let ghost before = out@;
        push_char(&mut out, cs[j]);
        assert(tail.skip(j - i) =~= seq![cs@[j as int]] + tail.skip(j + 1 - i));
        assert(out@ + tail.skip(j + 1 - i) =~= before + tail.skip(j - i));
        j += 1;
    }
    assert(tail.skip(j - i) =~= Seq::<char>::empty());
    assert(out@ =~= out@ + tail.skip(j - i));
    out
}

/// The lowercase letters, in alphabet order.
pub open spec fn lower_letters() -> Seq<char> {
    seq!['a', 'b', 'c', 'd', 'e', 'f', 'g', 'h', 'i', 'j', 'k', 'l', 'm', 'n', 'o', 'p', 'q', 'r', 's', 't', 'u', 'v', 'w', 'x', 'y', 'z']
}

/// A character with an ASCII capital written as the lowercase letter at the
/// same alphabet position.
pub open spec fn lower_char(c: char) -> char {
    if 'A' <= c && c <= 'Z' {
        lower_letters()[(c as int) - ('A' as int)]
    } else {
        c
    }
}

/// ASCII letters in lower case; everything else unchanged.
pub open spec fn ascii_lower(s: Seq<char>) -> Seq<char> {
    s.map_values(|c: char| lower_char(c))
}

/// `str::to_ascii_lowercase`.
pub fn to_ascii_lower(s: &str) -> (r: String)
    ensures
        r@ == ascii_lower(s@),
{
    let letters = ['a', 'b', 'c', 'd', 'e', 'f', 'g', 'h', 'i', 'j', 'k', 'l', 'm', 'n', 'o', 'p', 'q', 'r', 's', 't', 'u', 'v', 'w', 'x', 'y', 'z'];
    assert(letters@ =~= lower_letters());
    let cs = chars_of(s);
    let mut out = String::new();
    let mut i: usize = 0;
    while i < cs.len()
        invariant
            cs@ == s@,
            i <= cs@.len(),
            letters@ == lower_letters(),
            out@ == ascii_lower(cs@.take(i as int)),
        decreases cs@.len() - i,
    {
        let c = cs[i];
        let lower = if 'A' <= c && c <= 'Z' {
            letters[(c as u32 - 'A' as u32) as usize]
        } else {
            c
        };
        assert(lower == lower_char(c));
        push_char(&mut out, lower);
        i += 1;
        assert(out@ =~= ascii_lower(cs@.take(i as int)));
    }
    assert(cs@.take(cs@.len() as int) =~= cs@);
    out
}
} // verus!
