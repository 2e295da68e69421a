//! Which file a request to the local fixture server names: a path below
//! the fixture root, made only of plain names.
use vstd::prelude::*;

verus! {

/// The text with every leading `/` removed.
pub open spec fn without_leading_slashes(s: Seq<char>) -> Seq<char>
    decreases s.len(),
{
    if s.len() > 0 && s[0] == '/' {
        without_leading_slashes(s.drop_first())
    } else {
        s
    }
}

/// What `std::path::Path::components` splits a path into, one entry per
/// component: the text of a plain name, or `None` for any other component
/// (a parent `..`, a leading `.`, a root or a prefix).
pub uninterp spec fn path_components(path: Seq<char>) -> Seq<Option<Seq<char>>>;

/// A component as text, where it is a plain name.
pub open spec fn part_view(part: Option<String>) -> Option<Seq<char>> {
    match part {
        Some(name) => Some(name@),
        None => None,
    }
}

/// Splits with `std::path::Path::components`, keeping each `Normal`
/// component's text and marking every other component `None`. The contract
/// names the result, a function of the text alone; how std splits a path
/// (separators, `.` and `..`, roots and prefixes, which follow the path
/// syntax of the platform the library is built for) is not stated.
#[verifier::external_body]
fn components(path: &str) -> (r: Vec<Option<String>>)
    ensures
        r@.map_values(|p: Option<String>| part_view(p)) == path_components(path@),
{
    let mut parts = Vec::new();
    for component in std::path::Path::new(path).components() {
        match component {
            std::path::Component::Normal(value) => parts.push(Some(value.to_string_lossy().into_owned())),
            _ => parts.push(None),
        }
    }
    parts
}

/// Whether every component is a plain name.
pub open spec fn all_plain(parts: Seq<Option<Seq<char>>>) -> bool {
    forall|i: int| 0 <= i < parts.len() ==> (#[trigger] parts[i]) is Some
}

/// The names of the components, where every one is a plain name.
pub open spec fn names_of(parts: Seq<Option<Seq<char>>>) -> Seq<Seq<char>> {
    parts.map_values(|p: Option<Seq<char>>| p->0)
}

/// The names a split path leads through, or `None` where one of its
/// components is not a plain name.
pub fn plain_names(parts: Vec<Option<String>>) -> (r: Option<Vec<String>>)
    ensures
        ({
            let views = parts@.map_values(|p: Option<String>| part_view(p));
            match r {
                Some(v) => all_plain(views) && v@.map_values(|p: String| p@) == names_of(views),
                None => !all_plain(views),
            }
        }),
{
    let ghost views = parts@.map_values(|p: Option<String>| part_view(p));
    let mut names: Vec<String> = Vec::new();
    let mut i: usize = 0;
    while i < parts.len()
        invariant
            i <= parts@.len(),
            views == parts@.map_values(|p: Option<String>| part_view(p)),
            names@.len() == i,
            forall|k: int| 0 <= k < i ==> (#[trigger] views[k]) is Some,
            forall|k: int| 0 <= k < i ==> (#[trigger] names@[k])@ == views[k]->0,
        decreases parts@.len() - i,
    {
        match &parts[i] {
            Some(name) => {
                names.push(name.clone());
            },
            None => {
                assert(views[i as int] is None);
                return None;
            },
        }
        i += 1;
    }
    let ghost shown = names@.map_values(|p: String| p@);
    assert(shown =~= names_of(views));
    Some(names)
}

fn strip_leading_slashes(s: &str) -> (r: String)
    ensures
        r@ == without_leading_slashes(s@),
{
    let chars = crate::text::chars_of(s);
    let mut i: usize = 0;
    assert(chars@.skip(0) =~= chars@);
    while i < chars.len() && chars[i] == '/'
        invariant
            i <= chars@.len(),
            chars@ == s@,
            without_leading_slashes(s@) == without_leading_slashes(chars@.skip(i as int)),
        decreases chars@.len() - i,
    {
        assert(chars@.skip(i as int).drop_first() =~= chars@.skip(i + 1));
        i += 1;
    }
    let mut rest: Vec<char> = Vec::new();
    let mut j: usize = i;
    while j < chars.len()
        invariant
            i <= j <= chars@.len(),
            rest@ == chars@.subrange(i as int, j as int),
        decreases chars@.len() - j,
    {
        rest.push(chars[j]);
        j += 1;
        assert(rest@ =~= chars@.subrange(i as int, j as int));
    }
    assert(chars@.skip(i as int) =~= chars@.subrange(i as int, chars@.len() as int));
    crate::text::string_of(&rest)
}

/// The names a requested path leads through below the fixture root, or
/// `None` where it would leave the root or is not a plain relative path:
/// leading slashes are dropped, and every remaining component must be a
/// plain name. Whether the result is a directory, to serve its
/// `index.html`, is for the server to look up.
pub fn safe_path(requested: &str) -> (r: Option<Vec<String>>)
    ensures
        ({
            let parts = path_components(without_leading_slashes(requested@));
            match r {
                Some(v) => all_plain(parts) && v@.map_values(|p: String| p@) == names_of(parts),
                None => !all_plain(parts),
            }
        }),
{
    let relative = strip_leading_slashes(requested);
    plain_names(components(relative.as_str()))
}

} // verus!
