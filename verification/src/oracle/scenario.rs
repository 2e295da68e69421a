//! The responsive scenarios: every width visited in both directions, then
//! time advanced until asynchronous work settles.
use crate::oracle::model::{Scenario, Step};
use crate::order::{ascending_u32, enumerate_u32, insert_u32, lemma_enumerate_u32};
use vstd::prelude::*;

verus! {

/// Why no responsive scenarios can be built.
#[derive(Clone, Copy, Debug, PartialEq, Eq, Structural)]
pub enum WidthsError {
    Empty,
    OutOfRange,
}

/// What a reader is told when no responsive scenarios can be built.
pub open spec fn widths_message(e: WidthsError) -> Seq<char> {
    match e {
        WidthsError::Empty => "at least one width is required"@,
        WidthsError::OutOfRange => "widths must be within 1..=16384"@,
    }
}

impl WidthsError {
    pub fn message(&self) -> (r: &'static str)
        ensures
            r@ == widths_message(*self),
    {
        match self {
            WidthsError::Empty => "at least one width is required",
            WidthsError::OutOfRange => "widths must be within 1..=16384",
        }
    }
}

/// The distinct widths, ascending.
pub open spec fn distinct_widths(widths: Seq<u32>) -> Seq<u32> {
    enumerate_u32(Set::new(|w: u32| widths.contains(w)))
}

/// A width a browser window can take.
pub open spec fn renderable(w: u32) -> bool {
    0 < w && w <= 16384
}

/// The widths of a path step, if it is one.
pub open spec fn path_of(step: Step) -> Option<(Seq<u32>, u32)> {
    match step {
        Step::ResizePath { widths, height } => Some((widths@, height)),
        _ => None,
    }
}

/// Up through the distinct widths, back down, then a hundred seconds of
/// timers.
pub open spec fn responsive_scenarios(v: Seq<Scenario>, widths: Seq<u32>, height: u32) -> bool {
    &&& v.len() == 3
    &&& v[0].id@ == "responsive-ascending"@
    &&& v[0].steps@.len() == 1
    &&& path_of(v[0].steps@[0]) == Some((distinct_widths(widths), height))
    &&& v[1].id@ == "responsive-descending"@
    &&& v[1].steps@.len() == 1
    &&& path_of(v[1].steps@[0]) == Some((distinct_widths(widths).reverse(), height))
    &&& v[2].id@ == "async-settled"@
    &&& v[2].steps@.len() == 1
    &&& (v[2].steps@[0] matches Step::AdvanceTime { milliseconds } && milliseconds == 100_000)
}

/// The scenarios that resize through every width up and then down, at one
/// height, and then let timers run for a hundred seconds.
pub fn responsive(widths: &Vec<u32>, height: u32) -> (r: Result<Vec<Scenario>, WidthsError>)
    ensures
        widths@.len() == 0 ==> r == Err::<Vec<Scenario>, WidthsError>(WidthsError::Empty),
        widths@.len() > 0 && (exists|i: int| 0 <= i < widths@.len() && !renderable(#[trigger] widths@[i]))
            ==> r == Err::<Vec<Scenario>, WidthsError>(WidthsError::OutOfRange),
        widths@.len() > 0 && (forall|i: int| 0 <= i < widths@.len() ==> renderable(#[trigger] widths@[i]))
            ==> (r matches Ok(v) && responsive_scenarios(v@, widths@, height)),
{
    let mut ascending: Vec<u32> = Vec::new();
    let mut i: usize = 0;
    while i < widths.len()
        invariant
            i <= widths@.len(),
            ascending_u32(ascending@),
            forall|w: u32| #[trigger] ascending@.contains(w) <==> widths@.take(i as int).contains(w),
        decreases widths@.len() - i,
    {
        let w = widths[i];
        insert_u32(&mut ascending, w);
        proof {
            let t = widths@.take(i + 1 as int);
            assert(t =~= widths@.take(i as int).push(w));
            assert forall|y: u32| #[trigger] ascending@.contains(y) <==> t.contains(y) by {
                if t.contains(y) && y != w {
                    let k = choose|k: int| 0 <= k < t.len() && t[k] == y;
                    assert(widths@.take(i as int)[k] == y);
                }
                if widths@.take(i as int).contains(y) {
                    let k = choose|k: int| 0 <= k < i && widths@.take(i as int)[k] == y;
                    assert(t[k] == y);
                }
                if y == w {
                    assert(t[i as int] == y);
                }
            }
        }
        i += 1;
    }
    assert(widths@.take(widths@.len() as int) =~= widths@);
    if ascending.len() == 0 {
        proof {
            if widths@.len() > 0 {
                assert(widths@.contains(widths@[0]));
                assert(ascending@.contains(widths@[0]));
            }
        }
        return Err(WidthsError::Empty);
    }
    let mut k: usize = 0;
    while k < ascending.len()
        invariant
            k <= ascending@.len(),
            ascending_u32(ascending@),
            forall|w: u32| #[trigger] ascending@.contains(w) <==> widths@.contains(w),
            forall|j: int| 0 <= j < k ==> renderable(#[trigger] ascending@[j]),
        decreases ascending@.len() - k,
    {
        if ascending[k] == 0 || ascending[k] > 16384 {
            proof {
                let w = ascending@[k as int];
                assert(ascending@.contains(w));
                assert(widths@.contains(w));
                let j = choose|j: int| 0 <= j < widths@.len() && widths@[j] == w;
                assert(!renderable(widths@[j]));
            }
            return Err(WidthsError::OutOfRange);
        }
        k += 1;
    }
    proof {
        assert(ascending@.contains(ascending@[0]));
        assert(widths@.contains(ascending@[0]));
        assert forall|i: int| 0 <= i < widths@.len() implies renderable(#[trigger] widths@[i]) by {
            assert(widths@.contains(widths@[i]));
            assert(ascending@.contains(widths@[i]));
        }
        let set = Set::new(|w: u32| widths@.contains(w));
        assert forall|w: u32| #[trigger] ascending@.contains(w) <==> set.contains(w) by {}
        lemma_enumerate_u32(ascending@, set);
    }
    let mut descending: Vec<u32> = Vec::new();
    let mut j: usize = ascending.len();
    while j > 0
        invariant
            j <= ascending@.len(),
            descending@ == ascending@.skip(j as int).reverse(),
            ascending_u32(ascending@),
        decreases j,
    {
        j -= 1;
        descending.push(ascending[j]);
        assert(descending@ =~= ascending@.skip(j as int).reverse());
    }
    assert(ascending@.skip(0) =~= ascending@);
    let up = Step::ResizePath { widths: ascending, height };
    let down = Step::ResizePath { widths: descending, height };
    let mut steps_up: Vec<Step> = Vec::new();
    steps_up.push(up);
    let mut steps_down: Vec<Step> = Vec::new();
    steps_down.push(down);
    let mut steps_settle: Vec<Step> = Vec::new();
    steps_settle.push(Step::AdvanceTime { milliseconds: 100_000 });
    let mut r: Vec<Scenario> = Vec::new();
    r.push(Scenario { id: String::from_str("responsive-ascending"), steps: steps_up });
    r.push(Scenario { id: String::from_str("responsive-descending"), steps: steps_down });
    r.push(Scenario { id: String::from_str("async-settled"), steps: steps_settle });
    Ok(r)
}

} // verus!
