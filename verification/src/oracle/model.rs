//! What the oracle records: the environment, the scenarios it drove, and
//! the obligations and coverage of a recording.
use vstd::prelude::*;

verus! {

/// The browser and machine a recording was made in.
#[derive(Clone, Debug)]
pub struct Environment {
    pub schema: u32,
    pub browser_product: String,
    pub browser_revision: String,
    pub protocol_version: String,
    pub command_line_digest: String,
    pub operating_system: String,
    pub architecture: String,
    pub locale: String,
    pub timezone: String,
    pub color_scheme: String,
    pub reduced_motion: bool,
    pub device_scale_factor_milli: u32,
}

/// A named sequence of steps driven against a page.
#[derive(Clone, Debug)]
pub struct Scenario {
    pub id: String,
    pub steps: Vec<Step>,
}

/// One thing a scenario does to the page.
#[derive(Clone, Debug)]
pub enum Step {
    Reset,
    SetViewport { width: u32, height: u32 },
    ResizePath { widths: Vec<u32>, height: u32 },
    AdvanceTime { milliseconds: u32 },
    Activate { anchor: String },
    Hover { anchor: String },
    Key { key: String },
    SeekAnimations { milliseconds: u32 },
    PrepareActivate { anchor: String },
    PrepareHover { anchor: String },
}

/// The abstract value of a step: strings as their characters, widths as a
/// sequence.
pub enum StepView {
    Reset,
    SetViewport { width: u32, height: u32 },
    ResizePath { widths: Seq<u32>, height: u32 },
    AdvanceTime { milliseconds: u32 },
    Activate { anchor: Seq<char> },
    Hover { anchor: Seq<char> },
    Key { key: Seq<char> },
    SeekAnimations { milliseconds: u32 },
    PrepareActivate { anchor: Seq<char> },
    PrepareHover { anchor: Seq<char> },
}

impl View for Step {
    type V = StepView;

    open spec fn view(&self) -> StepView {
        match self {
            Step::Reset => StepView::Reset,
            Step::SetViewport { width, height } => StepView::SetViewport { width: *width, height: *height },
            Step::ResizePath { widths, height } => StepView::ResizePath { widths: widths@, height: *height },
            Step::AdvanceTime { milliseconds } => StepView::AdvanceTime { milliseconds: *milliseconds },
            Step::Activate { anchor } => StepView::Activate { anchor: anchor@ },
            Step::Hover { anchor } => StepView::Hover { anchor: anchor@ },
            Step::Key { key } => StepView::Key { key: key@ },
            Step::SeekAnimations { milliseconds } => StepView::SeekAnimations { milliseconds: *milliseconds },
            Step::PrepareActivate { anchor } => StepView::PrepareActivate { anchor: anchor@ },
            Step::PrepareHover { anchor } => StepView::PrepareHover { anchor: anchor@ },
        }
    }
}

/// The abstract values of a list of steps.
pub open spec fn step_views(s: Seq<Step>) -> Seq<StepView> {
    s.map_values(|x: Step| x@)
}

/// A viewport in CSS pixels.
#[derive(Clone, Copy, Debug, PartialEq, Eq, Structural)]
pub struct Viewport {
    pub width: u32,
    pub height: u32,
}

/// Something a recording must show it exercised.
#[derive(Clone, Debug)]
pub struct Obligation {
    pub id: String,
    pub kind: String,
    pub status: ObligationStatus,
    pub scenarios: Vec<String>,
}

/// How an obligation was met, or that it was not.
#[derive(Clone, Copy, Debug, PartialEq, Eq, Structural)]
pub enum ObligationStatus {
    Qualified,
    UnreachableProven,
    Opaque,
    Uncovered,
}

/// How much of what a recording had to observe it did observe.
#[derive(Clone, Debug)]
pub struct Coverage {
    pub widths_required: usize,
    pub widths_observed: usize,
    pub domains_required: Vec<String>,
    pub incomplete: Vec<String>,
}

} // verus!
