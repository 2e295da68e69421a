//! Scenarios discovered from a page's controls.
use crate::oracle::model::{Scenario, Step};
use vstd::prelude::*;

verus! {

/// A control a keyboard user can reach, by its anchor.
#[derive(Clone, Debug)]
pub struct Control {
    pub anchor: String,
}

/// Whether a step presses one key.
pub open spec fn presses(step: Step, key: Seq<char>) -> bool {
    step matches Step::Key { key: k } && k@ == key
}

/// A fresh page, then one Tab for each control.
pub open spec fn tabbing(s: Scenario, controls: nat) -> bool {
    &&& s.id@ == "keyboard-navigation"@
    &&& s.steps@.len() == controls + 1
    &&& s.steps@[0] is Reset
    &&& forall|i: int| 1 <= i < s.steps@.len() ==> presses(#[trigger] s.steps@[i], "Tab"@)
}

/// Tabbing through every control once, from a fresh page; nothing when
/// there is no control.
pub fn keyboard(controls: &Vec<Control>) -> (r: Option<Scenario>)
    ensures
        controls@.len() == 0 <==> r is None,
        (r matches Some(s) ==> tabbing(s, controls@.len())),
{
    if controls.len() == 0 {
        return None;
    }
    let mut steps: Vec<Step> = Vec::new();
    steps.push(Step::Reset);
    let mut i: usize = 0;
    while i < controls.len()
        invariant
            i <= controls@.len(),
            steps@.len() == i + 1,
            steps@[0] is Reset,
            forall|j: int| 1 <= j < steps@.len() ==> presses(#[trigger] steps@[j], "Tab"@),
        decreases controls@.len() - i,
    {
        steps.push(Step::Key { key: String::from_str("Tab") });
        i += 1;
    }
    Some(Scenario { id: String::from_str("keyboard-navigation"), steps })
}

} // verus!
