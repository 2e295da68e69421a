//! Qualification cases: mutated pages and the domain each mutation should
//! disturb.
use crate::text::{replace_all, replaced};
use vstd::prelude::*;

verus! {

/// One mutated page served for qualification.
#[derive(Clone, Debug)]
pub struct Case {
    pub url: String,
    pub expected_domain: String,
    pub hidden: bool,
}

/// A fixture page rewritten to run as a module and to fetch from the two
/// local network endpoints in place of its inline data URLs.
pub open spec fn rewritten(html: Seq<char>, ok_url: Seq<char>, failing_url: Seq<char>) -> Seq<char> {
    let a = replaced(html, "<script>"@, "<script type=\"module\">"@);
    let b = replaced(a, "data:application/json,%7B%22ok%22%3Atrue%7D"@, ok_url);
    let c = replaced(b, "data:application/json,%7B%22ok%22%3Afalse%7D"@, failing_url);
    replaced(c, "fetch(\"http://"@, "await fetch(\"http://"@)
}

pub fn rewrite_network(html: &str, network_urls: (&str, &str)) -> (r: String)
    ensures
        r@ == rewritten(html@, network_urls.0@, network_urls.1@),
{
    proof {
        reveal_strlit("<script>");
        reveal_strlit("data:application/json,%7B%22ok%22%3Atrue%7D");
        reveal_strlit("data:application/json,%7B%22ok%22%3Afalse%7D");
        reveal_strlit("fetch(\"http://");
    }
    let a = replace_all(html, "<script>", "<script type=\"module\">");
    let b = replace_all(a.as_str(), "data:application/json,%7B%22ok%22%3Atrue%7D", network_urls.0);
    let c = replace_all(b.as_str(), "data:application/json,%7B%22ok%22%3Afalse%7D", network_urls.1);
    replace_all(c.as_str(), "fetch(\"http://", "await fetch(\"http://")
}

} // verus!
