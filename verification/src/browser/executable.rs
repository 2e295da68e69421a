//! Picking a browser executable among the places one is usually installed.
use vstd::prelude::*;

verus! {

/// A path and whether a file exists there.
#[derive(Clone, Debug)]
pub struct PathProbe {
    pub path: String,
    pub exists: bool,
}

/// The first candidate, in order, that exists.
pub open spec fn first_existing(candidates: Seq<PathProbe>) -> Option<Seq<char>>
    decreases candidates.len(),
{
    if candidates.len() == 0 {
        None
    } else if candidates[0].exists {
        Some(candidates[0].path@)
    } else {
        first_existing(candidates.drop_first())
    }
}

/// The first installed browser among the candidates, in order.
pub fn find(candidates: &Vec<PathProbe>) -> (r: Option<String>)
    ensures
        match r {
            Some(p) => first_existing(candidates@) == Some(p@),
            None => first_existing(candidates@) is None,
        },
{
    let mut i: usize = 0;
    assert(candidates@.skip(0) =~= candidates@);
    while i < candidates.len()
        invariant
            i <= candidates@.len(),
            first_existing(candidates@) == first_existing(candidates@.skip(i as int)),
        decreases candidates@.len() - i,
    {
        let ghost rest = candidates@.skip(i as int);
        assert(rest[0] == candidates@[i as int]);
        if candidates[i].exists {
            return Some(candidates[i].path.clone());
        }
        assert(rest.drop_first() =~= candidates@.skip(i + 1));
        i += 1;
    }
    None
}

} // verus!
