//! Locating the browser to drive, the DevTools target it exposes, and the
//! check that a page actually rendered before it is measured.
use vstd::prelude::*;

verus! {

/// A path and whether it names a file.
#[derive(Clone, Debug)]
pub struct PathProbe {
    pub path: String,
    pub is_file: bool,
}

/// Why no browser executable was found.
#[derive(Clone, Debug)]
pub enum FindError {
    /// The path given on the command line is not a file.
    NotFound { path: String },
    /// The environment variable names something that is not a file.
    NotExecutable { path: String },
    /// None of the usual install locations holds a browser.
    Missing,
}

/// The message a reader sees for a lookup failure.
pub open spec fn find_message(e: FindError) -> Seq<char> {
    match e {
        FindError::NotFound { path } => "browser executable not found: "@ + path@,
        FindError::NotExecutable { path } => "RECREATE_BACKTEST_BROWSER does not point at an executable: "@
            + path@,
        FindError::Missing => "Chrome or Edge executable was not found"@,
    }
}

impl FindError {
    pub fn message(&self) -> (r: String)
        ensures
            r@ == find_message(*self),
    {
        let mut r = String::new();
        match self {
            FindError::NotFound { path } => {
                crate::text::push_str(&mut r, "browser executable not found: ");
                crate::text::push_str(&mut r, path.as_str());
            },
            FindError::NotExecutable { path } => {
                crate::text::push_str(&mut r, "RECREATE_BACKTEST_BROWSER does not point at an executable: ");
                crate::text::push_str(&mut r, path.as_str());
            },
            FindError::Missing => {
                crate::text::push_str(&mut r, "Chrome or Edge executable was not found");
            },
        }
        r
    }
}

/// The first candidate, in order, that is a file.
pub open spec fn first_file(candidates: Seq<PathProbe>) -> Option<Seq<char>>
    decreases candidates.len(),
{
    if candidates.len() == 0 {
        None
    } else if candidates[0].is_file {
        Some(candidates[0].path@)
    } else {
        first_file(candidates.drop_first())
    }
}

/// The browser to launch: an explicit path wins and must be a file; then
/// the environment variable, which must name a file; then the first usual
/// install location that holds one.
pub fn find(explicit: Option<PathProbe>, variable: Option<PathProbe>, candidates: &Vec<PathProbe>) -> (r: Result<
    String,
    FindError,
>)
    ensures
        match explicit {
            Some(p) => if p.is_file {
                r matches Ok(s) && s@ == p.path@
            } else {
                r matches Err(FindError::NotFound { path }) && path@ == p.path@
            },
            None => match variable {
                Some(p) => if p.is_file {
                    r matches Ok(s) && s@ == p.path@
                } else {
                    r matches Err(FindError::NotExecutable { path }) && path@ == p.path@
                },
                None => match first_file(candidates@) {
                    Some(path) => r matches Ok(s) && s@ == path,
                    None => r matches Err(FindError::Missing),
                },
            },
        },
{
    match explicit {
        Some(p) => {
            if p.is_file {
                return Ok(p.path);
            } else {
                return Err(FindError::NotFound { path: p.path });
            }
        },
        None => {},
    }
    match variable {
        Some(p) => {
            if p.is_file {
                return Ok(p.path);
            } else {
                return Err(FindError::NotExecutable { path: p.path });
            }
        },
        None => {},
    }
    let ghost none_given = explicit is None && variable is None;
    assert(none_given);
    let mut i: usize = 0;
    assert(candidates@.skip(0) =~= candidates@);
    while i < candidates.len()
        invariant
            none_given == (explicit is None && variable is None),
            none_given,
            i <= candidates@.len(),
            first_file(candidates@) == first_file(candidates@.skip(i as int)),
        decreases candidates@.len() - i,
    {
        let ghost rest = candidates@.skip(i as int);
        assert(rest[0] == candidates@[i as int]);
        if candidates[i].is_file {
            return Ok(candidates[i].path.clone());
        }
        assert(rest.drop_first() =~= candidates@.skip(i + 1));
        i += 1;
    }
    Err(FindError::Missing)
}

/// A DevTools target of the browser being driven.
#[derive(Clone, Debug)]
pub struct Target {
    pub id: String,
    pub web_socket_debugger_url: String,
    pub url: String,
}

/// What a loaded document reports about itself before it is measured.
#[derive(Clone, Debug)]
pub struct DocumentIdentity {
    pub url: String,
    pub title: String,
    pub error_page: bool,
    pub element_count: u64,
}

/// Why a document must not be measured: a browser error page, or a
/// document of three elements or fewer.
pub open spec fn document_fault(identity: DocumentIdentity) -> Option<Seq<char>> {
    if identity.error_page {
        Some(
            "the browser showed its own error page instead of this address. Check that the server is running, and for https that this browser profile trusts its certificate"@,
        )
    } else if identity.element_count <= 3 {
        Some("this address rendered an empty document. Check that the server is serving the expected build"@)
    } else {
        None
    }
}

pub fn document_failure(identity: &DocumentIdentity) -> (r: Option<&'static str>)
    ensures
        match r {
            Some(m) => document_fault(*identity) == Some(m@),
            None => document_fault(*identity) is None,
        },
{
    if identity.error_page {
        return Some(
            "the browser showed its own error page instead of this address. Check that the server is running, and for https that this browser profile trusts its certificate",
        );
    }
    if identity.element_count <= 3 {
        return Some("this address rendered an empty document. Check that the server is serving the expected build");
    }
    None
}

} // verus!
