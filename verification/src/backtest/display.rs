//! How measured values are written in findings.
//!
//! Lengths are held in hundredths of a pixel and layout-shift scores in
//! millionths, the precision the page records them at, so every rendering
//! here is exact decimal arithmetic.
use crate::text::{decimal, digits_value, is_digit, push_char, push_decimal, push_str, signed_decimal};
use vstd::prelude::*;

verus! {

broadcast use vstd::string::group_string_axioms;

/// A value in double quotes, with each quote inside it escaped.
pub open spec fn quoted_value(v: Seq<char>) -> Seq<char> {
    seq!['"'] + escape_quotes(v) + seq!['"']
}

/// Each `"` preceded by a backslash.
pub open spec fn escape_quotes(v: Seq<char>) -> Seq<char>
    decreases v.len(),
{
    if v.len() == 0 {
        seq![]
    } else if v.last() == '"' {
        escape_quotes(v.drop_last()) + seq!['\\', '"']
    } else {
        escape_quotes(v.drop_last()).push(v.last())
    }
}

/// A value in double quotes, with each quote inside it escaped.
pub fn quoted(value: &str) -> (r: String)
    ensures
        r@ == quoted_value(value@),
{
    let v = crate::text::chars_of(value);
    let mut r = String::new();
    push_char(&mut r, '"');
    let mut i: usize = 0;
    while i < v.len()
        invariant
            i <= v.len(),
            r@ == seq!['"'] + escape_quotes(v@.take(i as int)),
        decreases v.len() - i,
    {
        proof {
            assert(v@.take(i + 1).drop_last() =~= v@.take(i as int));
        }
        if v[i] == '"' {
            push_char(&mut r, '\\');
            push_char(&mut r, '"');
            assert(r@ =~= seq!['"'] + escape_quotes(v@.take(i + 1)));
        } else {
            push_char(&mut r, v[i]);
            assert(r@ =~= seq!['"'] + escape_quotes(v@.take(i + 1)));
        }
        i += 1;
    }
    push_char(&mut r, '"');
    assert(v@.take(v@.len() as int) =~= v@);
    assert(r@ =~= quoted_value(value@));
    r
}

/// The word for a visibility.
pub open spec fn visibility_word(value: bool) -> Seq<char> {
    if value {
        seq!['v', 'i', 's', 'i', 'b', 'l', 'e']
    } else {
        seq!['h', 'i', 'd', 'd', 'e', 'n']
    }
}

pub fn visibility(value: bool) -> (r: String)
    ensures
        r@ == visibility_word(value),
{
    let mut r = String::new();
    if value {
        push_str(&mut r, "visible");
        proof {
            reveal_strlit("visible");
        }
    } else {
        push_str(&mut r, "hidden");
        proof {
            reveal_strlit("hidden");
        }
    }
    assert(r@ =~= visibility_word(value));
    r
}

/// A count difference with an explicit sign: `+3`, `+0`, `-2`.
pub open spec fn signed_delta_value(v: int) -> Seq<char> {
    if v >= 0 {
        seq!['+'] + decimal(v as nat)
    } else {
        signed_decimal(v)
    }
}

pub fn signed_delta(value: i128) -> (r: String)
    requires
        value > i128::MIN,
    ensures
        r@ == signed_delta_value(value as int),
{
    let mut r = String::new();
    if value >= 0 {
        push_char(&mut r, '+');
        push_decimal(&mut r, value as u128);
    } else {
        crate::text::push_signed_decimal(&mut r, value);
    }
    assert(r@ =~= signed_delta_value(value as int));
    r
}

/// The two-digit fraction of a non-negative amount of hundredths.
pub open spec fn two_digits(h: nat) -> Seq<char> {
    seq![crate::text::digit(h / 10), crate::text::digit(h % 10)]
}

/// An amount of hundredths without false precision: a whole number when it
/// is one, otherwise two decimals.
pub open spec fn compact_value(hundredths: int) -> Seq<char> {
    let a = if hundredths < 0 { -hundredths } else { hundredths };
    let sign: Seq<char> = if hundredths < 0 { seq!['-'] } else { seq![] };
    if a % 100 == 0 {
        signed_decimal(hundredths / 100)
    } else {
        sign + decimal((a / 100) as nat) + seq!['.'] + two_digits((a % 100) as nat)
    }
}

/// Renders an amount of hundredths.
pub fn compact_number(hundredths: i128) -> (r: String)
    requires
        hundredths > i128::MIN,
    ensures
        r@ == compact_value(hundredths as int),
{
    let a: u128 = if hundredths < 0 { (-hundredths) as u128 } else { hundredths as u128 };
    let mut r = String::new();
    if a % 100 == 0 {
        let whole: i128 = hundredths / 100;
        assert(whole as int == hundredths as int / 100) by {
            assert((hundredths as int) % 100 == 0);
        }
        crate::text::push_signed_decimal(&mut r, whole);
    } else {
        if hundredths < 0 {
            push_char(&mut r, '-');
        }
        push_decimal(&mut r, a / 100);
        push_char(&mut r, '.');
        let h = a % 100;
        push_char(&mut r, ((h / 10) as u8 + 48) as char);
        push_char(&mut r, ((h % 10) as u8 + 48) as char);
    }
    assert(r@ =~= compact_value(hundredths as int));
    r
}

/// An amount of hundredths with an explicit sign.
pub open spec fn signed_value(hundredths: int) -> Seq<char> {
    let c = compact_value(hundredths);
    if c.len() > 0 && c[0] == '-' {
        c
    } else {
        seq!['+'] + c
    }
}

pub fn signed_number(hundredths: i128) -> (r: String)
    requires
        hundredths > i128::MIN,
    ensures
        r@ == signed_value(hundredths as int),
{
    let c = compact_number(hundredths);
    let cs = crate::text::chars_of(c.as_str());
    if cs.len() > 0 && cs[0] == '-' {
        c
    } else {
        let mut r = String::new();
        push_char(&mut r, '+');
        push_str(&mut r, c.as_str());
        assert(r@ =~= signed_value(hundredths as int));
        r
    }
}


/// Whether a sequence holds only digits and dots, at most one dot.
pub open spec fn plain_number(r: Seq<char>) -> bool {
    &&& forall|i: int| 0 <= i < r.len() ==> is_digit(#[trigger] r[i]) || r[i] == '.'
    &&& forall|i: int, j: int| 0 <= i < j < r.len() ==> !(#[trigger] r[i] == '.' && #[trigger] r[j] == '.')
}

/// Where the dot is, or the length when there is none.
pub open spec fn dot_index(r: Seq<char>) -> int {
    if exists|i: int| 0 <= i < r.len() && r[i] == '.' {
        choose|i: int| 0 <= i < r.len() && r[i] == '.'
    } else {
        r.len() as int
    }
}

/// The digits before the dot and after it.
pub open spec fn whole_part(r: Seq<char>) -> Seq<char> {
    r.take(dot_index(r))
}

pub open spec fn fraction_part(r: Seq<char>) -> Seq<char> {
    if dot_index(r) < r.len() {
        r.skip(dot_index(r) + 1)
    } else {
        seq![]
    }
}

/// The k-th fraction digit, zero past the end.
pub open spec fn fraction_digit(f: Seq<char>, k: int) -> int {
    if k < f.len() {
        f[k] as int - 48
    } else {
        0
    }
}

/// The digits after an optional sign.
pub open spec fn unsigned_part(b: Seq<char>) -> Seq<char> {
    if b.len() > 0 && (b[0] == '-' || b[0] == '+') {
        b.drop_first()
    } else {
        b
    }
}

/// A pixel length this renderer can round: a sign, digits with at most one
/// dot and at least one digit, at most thirty digits before the dot, and
/// `px`.
pub open spec fn roundable(v: Seq<char>) -> bool {
    let r = unsigned_part(v.take(v.len() - 2));
    &&& v.len() >= 2
    &&& v[v.len() - 2] == 'p'
    &&& v[v.len() - 1] == 'x'
    &&& plain_number(r)
    &&& whole_part(r).len() + fraction_part(r).len() > 0
    &&& whole_part(r).len() <= 30
}

/// The length in hundredths of a pixel, rounded half up.
pub open spec fn rounded_hundredths(r: Seq<char>) -> nat {
    let f = fraction_part(r);
    (digits_value(whole_part(r)) * 100 + fraction_digit(f, 0) * 10 + fraction_digit(f, 1) + if fraction_digit(f, 2) >= 5 {
        1int
    } else {
        0int
    }) as nat
}

/// The two fraction digits of a rounded length, with trailing zeros and a
/// bare dot removed.
pub open spec fn trimmed_fraction(h: nat) -> Seq<char> {
    if h == 0 {
        seq![]
    } else if h % 10 == 0 {
        seq!['.', crate::text::digit(h / 10)]
    } else {
        seq!['.'] + two_digits(h)
    }
}

/// A pixel length shown at two decimals with trailing zeros removed;
/// anything else unchanged.
pub open spec fn rounded_pixels(v: Seq<char>) -> Seq<char> {
    if roundable(v) {
        let b = v.take(v.len() - 2);
        let sign: Seq<char> = if b[0] == '-' { seq!['-'] } else { seq![] };
        let h = rounded_hundredths(unsigned_part(b));
        sign + decimal(h / 100) + trimmed_fraction(h % 100) + seq!['p', 'x']
    } else {
        v
    }
}

/// Scans `v[start..end]` for digits and dots, returning whether it is a
/// plain number and where its first dot is (`end` when there is none).
fn scan_number(v: &Vec<char>, start: usize, end: usize) -> (res: (bool, usize))
    requires
        start <= end <= v@.len(),
    ensures
        res.0 == plain_number(v@.subrange(start as int, end as int)),
        res.1 == end ==> forall|k: int| 0 <= k < end - start ==> v@.subrange(start as int, end as int)[k] != '.',
        res.1 != end ==> start <= res.1 < end && v@[res.1 as int] == '.' && forall|k: int|
            0 <= k < res.1 - start ==> v@.subrange(start as int, end as int)[k] != '.',
{
    let ghost r = v@.subrange(start as int, end as int);
    let n2 = end;
    let mut dot: usize = n2;
    let mut chars_ok = true;
    let mut twice = false;
    let mut i = start;
    while i < n2
        invariant
            n2 <= v@.len(),
            start <= i <= n2,
            r == v@.subrange(start as int, n2 as int),
            chars_ok == (forall|k: int| 0 <= k < i - start ==> is_digit(#[trigger] r[k]) || r[k] == '.'),
            twice == (exists|a: int, c: int| 0 <= a < c < i - start && #[trigger] r[a] == '.' && #[trigger] r[c] == '.'),
            dot == n2 ==> forall|k: int| 0 <= k < i - start ==> r[k] != '.',
            dot != n2 ==> start <= dot < i && r[dot - start] == '.' && forall|k: int| 0 <= k < dot - start ==> r[k] != '.',
        decreases n2 - i,
    {
        let c = v[i];
        let m: Ghost<int> = Ghost(i - start);
        assert(r[m@] == c);
        if c == '.' {
            if dot != n2 {
                assert(r[dot - start] == '.' && r[m@] == '.');
                twice = true;
            } else {
                dot = i;
            }
        } else if !('0' <= c && c <= '9') {
            chars_ok = false;
        }
        proof {
            let m1 = m@ + 1;
            if !twice {
                assert forall|a: int, d: int| 0 <= a < d < m1 implies !(#[trigger] r[a] == '.' && #[trigger] r[d] == '.') by {
                    if d == m@ && r[a] == '.' && r[d] == '.' {
                        assert(r[a] != '.');
                    }
                }
            }
            if chars_ok {
                assert forall|k: int| 0 <= k < m1 implies is_digit(#[trigger] r[k]) || r[k] == '.' by {
                    if k == m@ {
                        assert(r[k] == c);
                    }
                }
            }
        }
        i += 1;
    }
    (chars_ok && !twice, dot)
}

/// The number the digits `v[start..end]` spell.
fn whole_value(v: &Vec<char>, start: usize, dot: usize) -> (whole: u128)
    requires
        start <= dot <= v@.len(),
        dot - start <= 30,
        forall|q: int| start <= q < dot ==> is_digit(#[trigger] v@[q]),
    ensures
        whole as nat == digits_value(v@.subrange(start as int, dot as int)),
        whole < 1_000_000_000_000_000_000_000_000_000_000,
{
    assert(v@.subrange(start as int, start as int) =~= Seq::<char>::empty());
    let mut whole: u128 = 0;
    let mut k = start;
    while k < dot
        invariant
            start <= k <= dot,
            dot - start <= 30,
            dot <= v@.len(),
            forall|q: int| start <= q < dot ==> is_digit(#[trigger] v@[q]),
            whole as nat == digits_value(v@.subrange(start as int, k as int)),
            whole < crate::text::pow10((k - start) as nat),
        decreases dot - k,
    {
        proof {
            assert(v@.subrange(start as int, k + 1) =~= v@.subrange(start as int, k as int).push(v@[k as int]));
            crate::text::lemma_digits_push(v@.subrange(start as int, k as int), v@[k as int]);
            crate::text::lemma_pow10_bound((k - start) as nat);
        }
        let c = v[k];
        let cu: u32 = c as u32;
        assert(is_digit(v@[k as int]));
        assert(cu >= 48 && cu <= 57 && cu as int == c as int);
        let d: u128 = (cu - 48) as u128;
        whole = whole * 10 + d;
        k += 1;
    }
    proof {
        crate::text::lemma_pow10_bound((dot - start) as nat);
    }
    whole
}

/// The value of a decimal digit character.
fn digit_at(v: &Vec<char>, i: usize) -> (d: u128)
    requires
        i < v@.len(),
        is_digit(v@[i as int]),
    ensures
        d as int == v@[i as int] as int - 48,
        d <= 9,
{
    let cu: u32 = v[i] as u32;
    assert(cu >= 48 && cu <= 57 && cu as int == v@[i as int] as int);
    (cu - 48) as u128
}

proof fn lemma_dot_index(r: Seq<char>, d: int)
    requires
        plain_number(r),
        0 <= d < r.len(),
        r[d] == '.',
    ensures
        dot_index(r) == d,
{
    let q = choose|q: int| 0 <= q < r.len() && r[q] == '.';
    if q != d {
        if q < d {
            assert(!(r[q] == '.' && r[d] == '.'));
        } else {
            assert(!(r[d] == '.' && r[q] == '.'));
        }
    }
}

/// The sign and rounded hundredths of a pixel length, when the value is one
/// this renderer can round.
fn pixel_hundredths(v: &Vec<char>) -> (res: Option<(bool, u128)>)
    ensures
        match res {
            Some((negative, h)) => {
                &&& roundable(v@)
                &&& negative == (v@[0] == '-')
                &&& h as nat == rounded_hundredths(unsigned_part(v@.take(v@.len() - 2)))
                &&& h <= 100_000_000_000_000_000_000_000_000_000_000
            },
            None => !roundable(v@),
        },
{
    let n = v.len();
    if n < 2 || v[n - 2] != 'p' || v[n - 1] != 'x' {
        return None;
    }
    let ghost b = v@.take(n - 2);
    let negative = n > 2 && v[0] == '-';
    let start: usize = if n > 2 && (v[0] == '-' || v[0] == '+') { 1 } else { 0 };
    let ghost r = v@.subrange(start as int, n - 2);
    assert(r =~= unsigned_part(b));
    let (ok, dot) = scan_number(v, start, n - 2);
    if !ok {
        return None;
    }
    proof {
        if dot != n - 2 {
            lemma_dot_index(r, dot - start);
        } else {
            assert(dot_index(r) == r.len());
        }
    }
    let whole_len = dot - start;
    let frac_start = if dot == n - 2 { n - 2 } else { dot + 1 };
    let frac_len = n - 2 - frac_start;
    let ghost w = whole_part(r);
    let ghost f = fraction_part(r);
    assert(w =~= v@.subrange(start as int, dot as int));
    assert(f =~= v@.subrange(frac_start as int, n - 2));
    if whole_len + frac_len == 0 || whole_len > 30 {
        return None;
    }
    proof {
        assert forall|q: int| start <= q < dot implies is_digit(#[trigger] v@[q]) by {
            assert(v@[q] == r[q - start]);
            assert(r[q - start] != '.');
        }
        assert forall|q: int| frac_start <= q < n - 2 implies is_digit(#[trigger] v@[q]) by {
            assert(v@[q] == r[q - start]);
            if r[q - start] == '.' {
                assert(!(r[dot - start] == '.' && r[q - start] == '.'));
            }
        }
    }
    let whole = whole_value(v, start, dot);
    let f0: u128 = if frac_len > 0 { digit_at(v, frac_start) } else { 0 };
    let f1: u128 = if frac_len > 1 { digit_at(v, frac_start + 1) } else { 0 };
    let f2: u128 = if frac_len > 2 { digit_at(v, frac_start + 2) } else { 0 };
    assert(f0 as int == fraction_digit(f, 0));
    assert(f1 as int == fraction_digit(f, 1));
    assert(f2 as int == fraction_digit(f, 2));
    let h: u128 = whole * 100 + f0 * 10 + f1 + if f2 >= 5 { 1 } else { 0 };
    assert(whole_part(r).len() == whole_len);
    assert(fraction_part(r).len() == frac_len);
    assert(unsigned_part(v@.take(v@.len() - 2)) == r);
    assert(plain_number(r));
    assert(roundable(v@));
    Some((negative, h))
}

/// Comparison stays exact, but a reader gains nothing from `13.3333px`, so a
/// pixel value is displayed at two decimals with trailing zeros removed.
pub fn round_pixels(value: &str) -> (r: String)
    ensures
        r@ == rounded_pixels(value@),
{
    let v = crate::text::chars_of(value);
    match pixel_hundredths(&v) {
        None => crate::text::string_of(&v),
        Some((negative, h)) => {
            let mut out = String::new();
            if negative {
                push_char(&mut out, '-');
            }
            push_decimal(&mut out, h / 100);
            let rem = h % 100;
            if rem != 0 {
                push_char(&mut out, '.');
                push_char(&mut out, ((rem / 10) as u8 + 48) as char);
                if rem % 10 != 0 {
                    push_char(&mut out, ((rem % 10) as u8 + 48) as char);
                }
            }
            push_char(&mut out, 'p');
            push_char(&mut out, 'x');
            assert(out@ =~= rounded_pixels(value@));
            out
        },
    }
}


/// A value shortened for a finding line: whitespace collapsed, and when it
/// is still longer than `maximum` characters, its first `maximum - 3`
/// characters followed by `...`. A longer value needs room for the `...`,
/// so a maximum under three is meant only for values already short enough.
pub open spec fn truncated(v: Seq<char>, maximum: nat) -> Seq<char> {
    let c = crate::text::squeeze(v);
    if c.len() <= maximum {
        c
    } else {
        c.take(maximum - 3) + "..."@
    }
}

pub fn truncate(value: &str, maximum: usize) -> (r: String)
    requires
        maximum >= 3 || crate::text::squeeze(value@).len() <= maximum,
    ensures
        r@ == truncated(value@, maximum as nat),
        r@.len() <= maximum,
{
    let compact = crate::text::squeeze_whitespace(value);
    let cs = crate::text::chars_of(compact.as_str());
    if cs.len() <= maximum {
        compact
    } else {
        let mut head: Vec<char> = Vec::new();
        let mut i: usize = 0;
        while i < maximum - 3
            invariant
                i <= maximum - 3 < cs@.len(),
                head@ == cs@.take(i as int),
            decreases maximum - 3 - i,
        {
            head.push(cs[i]);
            i += 1;
            assert(head@ =~= cs@.take(i as int));
        }
        let mut r = crate::text::string_of(&head);
        push_str(&mut r, "...");
        proof {
            reveal_strlit("...");
        }
        assert(r@ =~= truncated(value@, maximum as nat));
        r
    }
}


/// A roundable pixel length in hundredths of a pixel, with its sign.
pub open spec fn pixel_length(v: Seq<char>) -> int {
    let b = v.take(v.len() - 2);
    let h = rounded_hundredths(unsigned_part(b)) as int;
    if b.len() > 0 && b[0] == '-' {
        -h
    } else {
        h
    }
}

/// How far one CSS pixel length is from another, signed, when both are
/// pixel lengths; each is first rounded to hundredths of a pixel.
pub open spec fn pixel_delta(source: Seq<char>, candidate: Seq<char>) -> Option<Seq<char>> {
    if roundable(source) && roundable(candidate) {
        Some(signed_value(pixel_length(candidate) - pixel_length(source)) + "px"@)
    } else {
        None
    }
}

/// The signed difference of two CSS pixel lengths, as a finding states it.
pub fn css_pixel_delta(source: &str, candidate: &str) -> (r: Option<String>)
    ensures
        match r {
            Some(d) => pixel_delta(source@, candidate@) == Some(d@),
            None => pixel_delta(source@, candidate@) is None,
        },
{
    let s = crate::text::chars_of(source);
    let c = crate::text::chars_of(candidate);
    let a = pixel_hundredths(&s);
    let b = pixel_hundredths(&c);
    match (a, b) {
        (Some((sn, sh)), Some((cn, ch))) => {
            let sv: i128 = if sn {
                -(sh as i128)
            } else {
                sh as i128
            };
            let cv: i128 = if cn {
                -(ch as i128)
            } else {
                ch as i128
            };
            proof {
                let sb = s@.take(s@.len() - 2);
                let cb = c@.take(c@.len() - 2);
                assert(sb.len() > 0 ==> sb[0] == s@[0]);
                assert(cb.len() > 0 ==> cb[0] == c@[0]);
                if sn {
                    assert(sb.len() > 0);
                }
                if cn {
                    assert(cb.len() > 0);
                }
                if sb.len() > 0 && sb[0] == '-' {
                    assert(s@[0] == '-');
                }
                if cb.len() > 0 && cb[0] == '-' {
                    assert(c@[0] == '-');
                }
                assert(sv as int == pixel_length(source@));
                assert(cv as int == pixel_length(candidate@));
            }
            let mut d = signed_number(cv - sv);
            push_str(&mut d, "px");
            Some(d)
        },
        _ => None,
    }
}

} // verus!
