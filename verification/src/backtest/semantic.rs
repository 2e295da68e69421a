//! How an element is named to a reader: its kind, its text, the region of
//! the page it sits in.
use crate::backtest::display::{quoted, quoted_value, truncate, truncated};
use crate::backtest::model::{NodeEvidence, State};
use crate::backtest::motion::dashes_as_spaces;
use crate::keyed::{entries, get, lookup};
use crate::text::{decimal, is_white, push_char, push_str, signed_decimal, str_eq, white};
use vstd::prelude::*;

verus! {

broadcast use vstd::string::group_string_axioms;

/// Leading whitespace removed.
pub open spec fn trim_start(s: Seq<char>) -> Seq<char>
    decreases s.len(),
{
    if s.len() > 0 && white(s[0]) {
        trim_start(s.drop_first())
    } else {
        s
    }
}

/// Trailing whitespace removed.
pub open spec fn trim_end(s: Seq<char>) -> Seq<char>
    decreases s.len(),
{
    if s.len() > 0 && white(s.last()) {
        trim_end(s.drop_last())
    } else {
        s
    }
}

/// Leading and trailing whitespace removed, as `str::trim` does.
pub open spec fn trimmed(s: Seq<char>) -> Seq<char> {
    trim_end(trim_start(s))
}

pub fn trim(value: &str) -> (r: String)
    ensures
        r@ == trimmed(value@),
{
    let cs = crate::text::chars_of(value);
    let mut lo: usize = 0;
    assert(cs@.skip(0) =~= cs@);
    while lo < cs.len() && is_white(cs[lo])
        invariant
            lo <= cs@.len(),
            cs@ == value@,
            trim_start(value@) == trim_start(cs@.skip(lo as int)),
        decreases cs@.len() - lo,
    {
        assert(cs@.skip(lo as int).drop_first() =~= cs@.skip(lo + 1));
        lo += 1;
    }
    let ghost start = cs@.skip(lo as int);
    assert(trim_start(value@) == start);
    let mut hi: usize = cs.len();
    while hi > lo && is_white(cs[hi - 1])
        invariant
            lo <= hi <= cs@.len(),
            cs@ == value@,
            start == cs@.skip(lo as int),
            trim_end(start) == trim_end(cs@.subrange(lo as int, hi as int)),
        decreases hi,
    {
        assert(cs@.subrange(lo as int, hi as int).drop_last() =~= cs@.subrange(lo as int, hi - 1));
        hi -= 1;
    }
    assert(trim_end(cs@.subrange(lo as int, hi as int)) == cs@.subrange(lo as int, hi as int));
    let mut out: Vec<char> = Vec::new();
    let mut i: usize = lo;
    while i < hi
        invariant
            lo <= i <= hi <= cs@.len(),
            out@ == cs@.subrange(lo as int, i as int),
        decreases hi - i,
    {
        out.push(cs[i]);
        i += 1;
        assert(out@ =~= cs@.subrange(lo as int, i as int));
    }
    proof {
        assert(cs@.skip(lo as int) =~= cs@.subrange(lo as int, cs@.len() as int));
    }
    crate::text::string_of(&out)
}

/// The accessible name when there is one, else the text, trimmed.
pub open spec fn text_of(n: NodeEvidence) -> Seq<char> {
    if trimmed(n.accessible_name@).len() == 0 {
        trimmed(n.text@)
    } else {
        trimmed(n.accessible_name@)
    }
}

pub fn semantic_text(node: &NodeEvidence) -> (r: String)
    ensures
        r@ == text_of(*node),
{
    let name = trim(node.accessible_name.as_str());
    if name.as_str().unicode_len() == 0 {
        trim(node.text.as_str())
    } else {
        name
    }
}

/// A role that names nothing beyond its element.
pub open spec fn plain_role(role: Seq<char>) -> bool {
    role.len() == 0 || role == "generic"@ || role == "none"@
}

/// A heading element.
pub open spec fn heading_tag(tag: Seq<char>) -> bool {
    tag == "h1"@ || tag == "h2"@ || tag == "h3"@ || tag == "h4"@ || tag == "h5"@ || tag == "h6"@
}

/// An element that only carries text.
pub open spec fn text_tag(tag: Seq<char>) -> bool {
    tag == "p"@ || tag == "span"@ || tag == "label"@ || tag == "strong"@ || tag == "em"@ || tag == "output"@
}

/// What kind of thing an element is: its role, or for an element with no
/// telling role, a heading, text, or its tag.
pub open spec fn kind_of(n: NodeEvidence) -> Seq<char> {
    if plain_role(n.role@) {
        if heading_tag(n.tag@) {
            "heading"@
        } else if text_tag(n.tag@) {
            "text"@
        } else {
            n.tag@
        }
    } else {
        n.role@
    }
}

pub fn semantic_kind(node: &NodeEvidence) -> (r: String)
    ensures
        r@ == kind_of(*node),
{
    let role = node.role.as_str();
    if role.unicode_len() == 0 || str_eq(role, "generic") || str_eq(role, "none") {
        let tag = node.tag.as_str();
        if str_eq(tag, "h1") || str_eq(tag, "h2") || str_eq(tag, "h3") || str_eq(tag, "h4") || str_eq(tag, "h5")
            || str_eq(tag, "h6") {
            String::from_str("heading")
        } else if str_eq(tag, "p") || str_eq(tag, "span") || str_eq(tag, "label") || str_eq(tag, "strong")
            || str_eq(tag, "em") || str_eq(tag, "output") {
            String::from_str("text")
        } else {
            node.tag.clone()
        }
    } else {
        node.role.clone()
    }
}

/// A landmark kind.
pub open spec fn landmark_kind(kind: Seq<char>) -> bool {
    kind == "toolbar"@ || kind == "navigation"@ || kind == "banner"@ || kind == "main"@ || kind
        == "complementary"@ || kind == "dialog"@
}

/// A landmark element.
pub open spec fn landmark_tag(tag: Seq<char>) -> bool {
    tag == "header"@ || tag == "nav"@ || tag == "main"@ || tag == "aside"@
}

/// A region of the page: a landmark by role or by element.
pub open spec fn region_node(n: NodeEvidence) -> bool {
    landmark_kind(kind_of(n)) || landmark_tag(n.tag@)
}

pub fn is_semantic_region(node: &NodeEvidence) -> (r: bool)
    ensures
        r == region_node(*node),
{
    let kind = semantic_kind(node);
    let k = kind.as_str();
    let tag = node.tag.as_str();
    str_eq(k, "toolbar") || str_eq(k, "navigation") || str_eq(k, "banner") || str_eq(k, "main") || str_eq(
        k,
        "complementary",
    ) || str_eq(k, "dialog") || str_eq(tag, "header") || str_eq(tag, "nav") || str_eq(tag, "main") || str_eq(
        tag,
        "aside",
    )
}

/// A kind that only says an element holds text.
pub open spec fn textual_kind(kind: Seq<char>) -> bool {
    kind == "text"@ || kind == "generic"@ || kind == "div"@ || kind == "span"@
}

/// How an element is described: its kind and its text, or `element` when
/// it has neither worth naming.
pub open spec fn description_of(n: NodeEvidence) -> Seq<char> {
    let kind = kind_of(n);
    let text = truncated(text_of(n), 72);
    if text.len() == 0 {
        if textual_kind(kind) {
            "element"@
        } else {
            dashes_as_spaces(kind)
        }
    } else if textual_kind(kind) {
        "text "@ + quoted_value(text)
    } else {
        dashes_as_spaces(kind) + seq![' '] + quoted_value(text)
    }
}

fn dashes_to_spaces(value: &str) -> (r: String)
    ensures
        r@ == dashes_as_spaces(value@),
{
    let cs = crate::text::chars_of(value);
    let mut r = String::new();
    let mut i: usize = 0;
    while i < cs.len()
        invariant
            i <= cs@.len(),
            cs@ == value@,
            r@ == dashes_as_spaces(cs@.take(i as int)),
        decreases cs@.len() - i,
    {
        let c = cs[i];
        push_char(&mut r, if c == '-' { ' ' } else { c });
        i += 1;
        assert(r@ =~= dashes_as_spaces(cs@.take(i as int)));
    }
    assert(cs@.take(cs@.len() as int) =~= cs@);
    r
}

pub fn semantic_description(node: &NodeEvidence) -> (r: String)
    ensures
        r@ == description_of(*node),
{
    let kind = semantic_kind(node);
    let k = kind.as_str();
    let text = truncate(semantic_text(node).as_str(), 72);
    let textual = str_eq(k, "text") || str_eq(k, "generic") || str_eq(k, "div") || str_eq(k, "span");
    if text.as_str().unicode_len() == 0 {
        if textual {
            String::from_str("element")
        } else {
            dashes_to_spaces(k)
        }
    } else if textual {
        let mut r = String::new();
        push_str(&mut r, "text ");
        push_str(&mut r, quoted(text.as_str()).as_str());
        r
    } else {
        let mut r = dashes_to_spaces(k);
        push_char(&mut r, ' ');
        push_str(&mut r, quoted(text.as_str()).as_str());
        r
    }
}

/// The nearest landmark ancestor's description, following at most `n`
/// parent links.
pub open spec fn region_from(nodes: Seq<(Seq<char>, NodeEvidence)>, parent: Seq<char>, n: nat) -> Option<
    Seq<char>,
>
    decreases n,
{
    if n == 0 {
        None
    } else {
        match lookup(nodes, parent) {
            None => None,
            Some(a) => if region_node(a) {
                Some(description_of(a))
            } else {
                region_from(nodes, a.parent@, (n - 1) as nat)
            },
        }
    }
}

/// Where on the page an element with no landmark ancestor sits, by height:
/// the toolbar band, the header band, or the content.
pub open spec fn inferred(n: NodeEvidence) -> Seq<char> {
    if n.y < 6400 {
        "application toolbar"@
    } else if n.y < 22500 {
        "page header"@
    } else {
        "content"@
    }
}

/// The region an element sits in: its nearest landmark ancestor, else where
/// it sits. A chain of parents longer than the page has nodes is a cycle and
/// names no landmark.
pub open spec fn region_of(s: State, n: NodeEvidence) -> Seq<char> {
    match region_from(entries(s.nodes@), n.parent@, (s.nodes@.len() + 1) as nat) {
        Some(d) => d,
        None => inferred(n),
    }
}

pub fn semantic_region(state: &State, node: &NodeEvidence) -> (r: String)
    requires
        state.wf(),
    ensures
        r@ == region_of(*state, *node),
{
    let ghost es = entries(state.nodes@);
    let mut parent = node.parent.clone();
    let mut left: usize = state.nodes.len();
    assert(region_of(*state, *node) == match region_from(es, parent@, (left + 1) as nat) {
        Some(d) => d,
        None => inferred(*node),
    });
    loop
        invariant
            state.wf(),
            es == entries(state.nodes@),
            left <= state.nodes@.len(),
            region_of(*state, *node) == match region_from(es, parent@, (left + 1) as nat) {
                Some(d) => d,
                None => inferred(*node),
            },
        decreases left,
    {
        match get(&state.nodes, &parent) {
            None => {
                return if node.y < 6400 {
                    String::from_str("application toolbar")
                } else if node.y < 22500 {
                    String::from_str("page header")
                } else {
                    String::from_str("content")
                };
            },
            Some(ancestor) => {
                if is_semantic_region(ancestor) {
                    return semantic_description(ancestor);
                }
                if left == 0 {
                    assert(region_from(es, ancestor.parent@, 0) is None);
                    return if node.y < 6400 {
                        String::from_str("application toolbar")
                    } else if node.y < 22500 {
                        String::from_str("page header")
                    } else {
                        String::from_str("content")
                    };
                }
                parent = ancestor.parent.clone();
                left = left - 1;
            },
        }
    }
}

/// An element named for a reader: its description, placed in its region
/// unless it is a region itself; an unnamed element by where it sits, and
/// the unnamed document root as the page.
pub open spec fn target_of(s: State, key: Seq<char>, n: NodeEvidence) -> Seq<char> {
    let own = description_of(n);
    let region = region_of(s, n);
    if own == region {
        own
    } else if own == "element"@ {
        "element at "@ + signed_decimal(rounded_px(n.x)) + seq![','] + signed_decimal(rounded_px(n.y))
    } else if text_of(n).len() == 0 && key == "html"@ {
        "page"@
    } else if !region_node(n) {
        region + " / "@ + own
    } else {
        own
    }
}

/// A length in hundredths of a pixel rounded to whole pixels, halves away
/// from zero.
pub open spec fn rounded_px(h: i64) -> int {
    if h >= 0 {
        (h + 50) / 100
    } else {
        -((-h + 50) / 100)
    }
}

fn round_px(h: i64) -> (r: i128)
    ensures
        r == rounded_px(h),
{
    let v = h as i128;
    if v >= 0 {
        (v + 50) / 100
    } else {
        -((-v + 50) / 100)
    }
}

pub fn semantic_target(state: &State, key: &str, node: &NodeEvidence) -> (r: String)
    requires
        state.wf(),
    ensures
        r@ == target_of(*state, key@, *node),
{
    let own = semantic_description(node);
    let region = semantic_region(state, node);
    if str_eq(own.as_str(), region.as_str()) {
        return own;
    }
    if str_eq(own.as_str(), "element") {
        let mut r = String::new();
        push_str(&mut r, "element at ");
        crate::text::push_signed_decimal(&mut r, round_px(node.x));
        push_char(&mut r, ',');
        crate::text::push_signed_decimal(&mut r, round_px(node.y));
        return r;
    }
    if semantic_text(node).as_str().unicode_len() == 0 && str_eq(key, "html") {
        return String::from_str("page");
    }
    if !is_semantic_region(node) {
        let mut r = region;
        push_str(&mut r, " / ");
        push_str(&mut r, own.as_str());
        return r;
    }
    own
}

} // verus!
