//! Evidence recorded from a rendered page.
//!
//! Lengths a browser reports are recorded rounded to a hundredth of a pixel,
//! so every length here is held as an integer count of hundredths of a pixel.
use crate::digest::{hex_of, sha256};
use crate::keyed::{entries, keys_ascending, keys_in_order};
use crate::text::{decimal, push_decimal, push_str};
use vstd::prelude::*;

verus! {

/// One node's painted geometry at one swept width. Lengths are in
/// hundredths of a pixel.
#[derive(Clone, Debug)]
pub struct SweepNode {
    pub visible: bool,
    pub x: i64,
    pub y: i64,
    pub width: i64,
    pub height: i64,
    pub transform: String,
}

/// The abstract value of a swept node: two nodes are the same exactly when
/// their views are equal.
pub struct SweepNodeView {
    pub visible: bool,
    pub x: i64,
    pub y: i64,
    pub width: i64,
    pub height: i64,
    pub transform: Seq<char>,
}

impl View for SweepNode {
    type V = SweepNodeView;

    open spec fn view(&self) -> SweepNodeView {
        SweepNodeView {
            visible: self.visible,
            x: self.x,
            y: self.y,
            width: self.width,
            height: self.height,
            transform: self.transform@,
        }
    }
}

impl SweepNode {
    /// Whether two swept nodes record the same geometry.
    pub fn same(&self, other: &SweepNode) -> (r: bool)
        ensures
            r == (self@ == other@),
    {
        self.visible == other.visible && self.x == other.x && self.y == other.y && self.width
            == other.width && self.height == other.height && self.transform == other.transform
    }
}

/// Every node measured at one width, keyed by target in ascending order.
#[derive(Clone, Debug)]
pub struct SweepProbe {
    pub width: u32,
    pub nodes: Vec<(String, SweepNode)>,
}

impl SweepProbe {
    /// The nodes are keyed in ascending order, one entry per target.
    pub open spec fn wf(&self) -> bool {
        keys_ascending(entries(self.nodes@))
    }
}

/// Every probe of a sweep is well formed.
pub open spec fn probes_wf(s: Seq<SweepProbe>) -> bool {
    forall|i: int| 0 <= i < s.len() ==> (#[trigger] s[i]).wf()
}


/// The evidence format this library reads and writes.
pub const SCHEMA_VERSION: u32 = 1;

/// Which page a session drives.
#[derive(Clone, Copy, Debug, PartialEq, Eq, Structural)]
pub enum Side {
    Source,
    Candidate,
}

/// A viewport in CSS pixels.
#[derive(Clone, Copy, Debug, Default, PartialEq, Eq, Structural)]
pub struct Viewport {
    pub width: u32,
    pub height: u32,
}

/// One interaction the source recording discovered and the candidate replays.
#[derive(Clone, Debug)]
pub enum Action {
    Click { target: String },
    Hover { target: String },
    ClickSequence { targets: Vec<String>, label: String },
    Timer { milliseconds: u64, target: String },
    Animation { target: String },
}

/// The scenario name a replayed action records its state under.
pub open spec fn scenario_of(a: Action) -> Seq<char> {
    match a {
        Action::Click { target } => "click:"@ + target@,
        Action::Hover { target } => "hover:"@ + target@,
        Action::ClickSequence { label, .. } => "click:"@ + label@,
        Action::Timer { milliseconds, .. } => "timer:"@ + decimal(milliseconds as nat),
        Action::Animation { target } => "animation:"@ + target@,
    }
}

impl Action {
    pub fn scenario(&self) -> (r: String)
        ensures
            r@ == scenario_of(*self),
    {
        let mut r = String::new();
        match self {
            Action::Click { target } => {
                push_str(&mut r, "click:");
                push_str(&mut r, target.as_str());
            },
            Action::Hover { target } => {
                push_str(&mut r, "hover:");
                push_str(&mut r, target.as_str());
            },
            Action::ClickSequence { label, .. } => {
                push_str(&mut r, "click:");
                push_str(&mut r, label.as_str());
            },
            Action::Timer { milliseconds, .. } => {
                push_str(&mut r, "timer:");
                push_decimal(&mut r, *milliseconds as u128);
            },
            Action::Animation { target } => {
                push_str(&mut r, "animation:");
                push_str(&mut r, target.as_str());
            },
        }
        r
    }
}

/// One sampled moment of an animation: its progress percentage and the
/// computed value of each animated property, keyed in ascending order.
#[derive(Clone, Debug, Default)]
pub struct MotionCheckpoint {
    pub progress: u8,
    pub values: Vec<(String, String)>,
}

/// One animation or transition running on a node.
#[derive(Clone, Debug, Default)]
pub struct MotionEvidence {
    pub kind: String,
    pub name: String,
    pub duration_ms: u64,
    pub delay_ms: i64,
    pub end_delay_ms: i64,
    pub iterations: String,
    pub direction: String,
    pub fill: String,
    pub easing: String,
    pub properties: Vec<String>,
    pub checkpoints: Vec<MotionCheckpoint>,
}

/// Everything recorded of one element. Lengths are in hundredths of a pixel.
#[derive(Clone, Debug, Default)]
pub struct NodeEvidence {
    pub tag: String,
    pub parent: String,
    pub order: usize,
    pub text: String,
    pub visible: bool,
    pub clipped: bool,
    pub x: i64,
    pub y: i64,
    pub width: i64,
    pub height: i64,
    pub background: String,
    pub color: String,
    pub font_size: String,
    pub font_family: String,
    pub font_weight: String,
    pub line_height: String,
    pub border_color: String,
    pub border_radius: String,
    pub box_shadow: String,
    pub opacity: String,
    pub transform: String,
    pub role: String,
    pub accessible_name: String,
    pub raster_kind: String,
    pub rendered_content_sha256: String,
    pub animated: bool,
    pub animation_duration_ms: Option<u64>,
    pub animation_delay_ms: Option<i64>,
    pub animation_easing: String,
    pub animation_direction: String,
    pub motions: Vec<MotionEvidence>,
}

impl View for NodeEvidence {
    type V = NodeEvidence;

    open spec fn view(&self) -> NodeEvidence {
        *self
    }
}

/// One layout shift the page reported, its score in millionths.
#[derive(Clone, Debug)]
pub struct LayoutShiftEvidence {
    pub value: i64,
    pub sources: Vec<String>,
}

/// What the page did at run time: errors, requests, pending work.
#[derive(Clone, Debug, Default)]
pub struct RuntimeEvidence {
    pub console_errors: Vec<String>,
    pub requests: Vec<String>,
    pub pending_timers: usize,
    pub pending_frames: usize,
    pub layout_shifts: Vec<LayoutShiftEvidence>,
}

/// The hash of one square of rendered pixels.
#[derive(Clone, Debug)]
pub struct RasterTileEvidence {
    pub x: u32,
    pub y: u32,
    pub width: u32,
    pub height: u32,
    pub sha256: String,
}

/// What the page's stylesheets declare about widths.
#[derive(Clone, Debug, Default)]
pub struct StylesheetEvidence {
    pub viewport_bands: Vec<String>,
    pub frozen_pixels: usize,
    pub frozen_tracks: usize,
}

/// One recorded state of a page: a viewport and a scenario.
#[derive(Clone, Debug, Default)]
pub struct State {
    pub viewport: Viewport,
    pub scenario: String,
    pub nodes: Vec<(String, NodeEvidence)>,
    pub active_element: String,
    pub stylesheet: StylesheetEvidence,
    pub runtime: RuntimeEvidence,
    pub screenshot_sha256: String,
    pub raster_tiles: Vec<RasterTileEvidence>,
    pub capture_complete: bool,
}

impl State {
    /// The nodes are keyed in ascending order, one entry per target, and
    /// every animation checkpoint's values are keyed in ascending order.
    pub open spec fn wf(&self) -> bool {
        &&& keys_ascending(entries(self.nodes@))
        &&& self.runtime.layout_shifts@.len() < 0x1_0000_0000
        &&& forall|i: int| 0 <= i < self.nodes@.len() ==> crate::backtest::motion::motions_wf(
            #[trigger] self.nodes@[i].1.motions@,
        )
    }
}

/// Where the recorded page came from.
#[derive(Clone, Debug, Default)]
pub struct SourceIdentity {
    pub requested_url: String,
    pub rendered_url: String,
    pub browser: String,
    pub fingerprint: String,
}

/// Everything recorded of one page, sealed by a digest.
#[derive(Clone, Debug)]
pub struct Artifact {
    pub schema_version: u32,
    pub source: SourceIdentity,
    pub actions: Vec<Action>,
    pub states: Vec<State>,
    pub sweep: Vec<SweepProbe>,
    pub uncovered: Vec<u32>,
    pub digest: String,
}

impl Artifact {
    /// Every state and probe is keyed in ascending order.
    pub open spec fn wf(&self) -> bool {
        &&& forall|i: int| 0 <= i < self.states@.len() ==> (#[trigger] self.states@[i]).wf()
        &&& probes_wf(self.sweep@)
    }
}

fn motions_in_order(ms: &Vec<MotionEvidence>) -> (r: bool)
    ensures
        r == crate::backtest::motion::motions_wf(ms@),
{
    let mut i: usize = 0;
    while i < ms.len()
        invariant
            i <= ms@.len(),
            forall|j: int| 0 <= j < i ==> crate::backtest::motion::motion_wf(#[trigger] ms@[j]),
        decreases ms@.len() - i,
    {
        let cps = &ms[i].checkpoints;
        let mut k: usize = 0;
        while k < cps.len()
            invariant
                i < ms@.len(),
                cps@ == ms@[i as int].checkpoints@,
                k <= cps@.len(),
                forall|j: int| 0 <= j < k ==> keys_ascending(entries(#[trigger] cps@[j].values@)),
            decreases cps@.len() - k,
        {
            if !keys_in_order(&cps[k].values) {
                assert(!crate::backtest::motion::motion_wf(ms@[i as int]));
                return false;
            }
            k += 1;
        }
        i += 1;
    }
    true
}

impl State {
    /// Whether the state is well formed.
    pub fn is_wf(&self) -> (r: bool)
        ensures
            r == self.wf(),
    {
        if !keys_in_order(&self.nodes) || self.runtime.layout_shifts.len() as u64 >= 0x1_0000_0000 {
            return false;
        }
        let mut i: usize = 0;
        while i < self.nodes.len()
            invariant
                i <= self.nodes@.len(),
                forall|j: int| 0 <= j < i ==> crate::backtest::motion::motions_wf(#[trigger] self.nodes@[j].1.motions@),
            decreases self.nodes@.len() - i,
        {
            if !motions_in_order(&self.nodes[i].1.motions) {
                return false;
            }
            i += 1;
        }
        true
    }
}

impl Artifact {
    /// Whether the artifact is well formed: every state keyed in ascending
    /// order with well-formed motions and a countable number of layout
    /// shifts, and every sweep probe keyed in ascending order.
    pub fn is_wf(&self) -> (r: bool)
        ensures
            r == self.wf(),
    {
        let mut i: usize = 0;
        while i < self.states.len()
            invariant
                i <= self.states@.len(),
                forall|j: int| 0 <= j < i ==> (#[trigger] self.states@[j]).wf(),
            decreases self.states@.len() - i,
        {
            if !self.states[i].is_wf() {
                return false;
            }
            i += 1;
        }
        let mut k: usize = 0;
        while k < self.sweep.len()
            invariant
                k <= self.sweep@.len(),
                forall|j: int| 0 <= j < k ==> (#[trigger] self.sweep@[j]).wf(),
            decreases self.sweep@.len() - k,
        {
            if !keys_in_order(&self.sweep[k].nodes) {
                return false;
            }
            k += 1;
        }
        true
    }
}

/// A browser tab prepared for recording or comparison.
#[derive(Clone, Debug)]
pub struct Session {
    pub schema_version: u32,
    pub side: Side,
    pub cdp_url: String,
    pub target_id: String,
    pub requested_url: String,
    pub rendered_url: String,
    pub browser: String,
    pub executable: String,
    pub profile: String,
    pub viewport: Viewport,
    pub digest: String,
}

/// Why a session file was refused.
#[derive(Clone, Copy, Debug, PartialEq, Eq, Structural)]
pub enum SessionError {
    UnsupportedSchema,
    EmptyUrl,
    EmptyTarget,
    MissingDigest,
    Tampered,
}

/// What a reader is told about a refused session.
pub open spec fn session_message(e: SessionError) -> Seq<char> {
    match e {
        SessionError::UnsupportedSchema => "unsupported session schema"@,
        SessionError::EmptyUrl => "session URL is empty"@,
        SessionError::EmptyTarget => "session target is empty"@,
        SessionError::MissingDigest => "session digest is missing"@,
        SessionError::Tampered => "session integrity check failed"@,
    }
}

impl SessionError {
    pub fn message(&self) -> (r: &'static str)
        ensures
            r@ == session_message(*self),
    {
        match self {
            SessionError::UnsupportedSchema => "unsupported session schema",
            SessionError::EmptyUrl => "session URL is empty",
            SessionError::EmptyTarget => "session target is empty",
            SessionError::MissingDigest => "session digest is missing",
            SessionError::Tampered => "session integrity check failed",
        }
    }
}

/// Why a session is refused, checked in this order, or `None` when it is
/// sound. `unsigned` is the session's serialized form with an empty digest.
pub open spec fn session_fault(s: Session, unsigned: Seq<u8>) -> Option<SessionError> {
    if s.schema_version != SCHEMA_VERSION {
        Some(SessionError::UnsupportedSchema)
    } else if s.requested_url@.len() == 0 {
        Some(SessionError::EmptyUrl)
    } else if s.target_id@.len() == 0 {
        Some(SessionError::EmptyTarget)
    } else if s.digest@.len() == 0 {
        Some(SessionError::MissingDigest)
    } else if hex_of(sha256(unsigned)) != s.digest@ {
        Some(SessionError::Tampered)
    } else {
        None
    }
}

impl Session {
    /// Records the digest of the session's serialized form, taken with an
    /// empty digest.
    pub fn seal(&mut self, unsigned: &[u8])
        ensures
            final(self).digest@ == hex_of(sha256(unsigned@)),
            final(self).digest@.len() == 64,
            final(self).schema_version == old(self).schema_version,
            final(self).side == old(self).side,
            final(self).cdp_url == old(self).cdp_url,
            final(self).target_id == old(self).target_id,
            final(self).requested_url == old(self).requested_url,
            final(self).rendered_url == old(self).rendered_url,
            final(self).browser == old(self).browser,
            final(self).executable == old(self).executable,
            final(self).profile == old(self).profile,
            final(self).viewport == old(self).viewport,
    {
        self.digest = crate::digest::bytes(unsigned);
    }

    /// Checks a session before it is driven: its schema, that it names a
    /// page and a tab, and that its digest matches its content.
    pub fn verify(&self, unsigned: &[u8]) -> (r: Result<(), SessionError>)
        ensures
            match session_fault(*self, unsigned@) {
                Some(e) => r == Err::<(), SessionError>(e),
                None => r is Ok,
            },
    {
        if self.schema_version != SCHEMA_VERSION {
            return Err(SessionError::UnsupportedSchema);
        }
        if self.requested_url.as_str().unicode_len() == 0 {
            return Err(SessionError::EmptyUrl);
        }
        if self.target_id.as_str().unicode_len() == 0 {
            return Err(SessionError::EmptyTarget);
        }
        if self.digest.as_str().unicode_len() == 0 {
            return Err(SessionError::MissingDigest);
        }
        let expected = crate::digest::bytes(unsigned);
        if !crate::text::str_eq(expected.as_str(), self.digest.as_str()) {
            return Err(SessionError::Tampered);
        }
        Ok(())
    }
}

/// Why an artifact file was refused.
#[derive(Clone, Copy, Debug, PartialEq, Eq, Structural)]
pub enum ArtifactError {
    UnsupportedSchema,
    NoStates,
    MissingDigest,
    Tampered,
}

/// What a reader is told about a refused artifact.
pub open spec fn artifact_message(e: ArtifactError) -> Seq<char> {
    match e {
        ArtifactError::UnsupportedSchema => "unsupported artifact schema"@,
        ArtifactError::NoStates => "artifact has no states"@,
        ArtifactError::MissingDigest => "artifact digest is missing"@,
        ArtifactError::Tampered => "artifact integrity check failed"@,
    }
}

impl ArtifactError {
    pub fn message(&self) -> (r: &'static str)
        ensures
            r@ == artifact_message(*self),
    {
        match self {
            ArtifactError::UnsupportedSchema => "unsupported artifact schema",
            ArtifactError::NoStates => "artifact has no states",
            ArtifactError::MissingDigest => "artifact digest is missing",
            ArtifactError::Tampered => "artifact integrity check failed",
        }
    }
}

/// Why an artifact is refused, checked in this order, or `None` when it is
/// sound. `unsigned` is the artifact's serialized form with an empty digest.
pub open spec fn artifact_fault(a: Artifact, unsigned: Seq<u8>) -> Option<ArtifactError> {
    if a.schema_version != SCHEMA_VERSION {
        Some(ArtifactError::UnsupportedSchema)
    } else if a.states@.len() == 0 {
        Some(ArtifactError::NoStates)
    } else if a.digest@.len() == 0 {
        Some(ArtifactError::MissingDigest)
    } else if hex_of(sha256(unsigned)) != a.digest@ {
        Some(ArtifactError::Tampered)
    } else {
        None
    }
}

impl Artifact {
    /// Records the digest of the artifact's serialized form, taken with an
    /// empty digest.
    pub fn seal(&mut self, unsigned: &[u8])
        ensures
            final(self).digest@ == hex_of(sha256(unsigned@)),
            final(self).digest@.len() == 64,
            final(self).schema_version == old(self).schema_version,
            final(self).states@ == old(self).states@,
            final(self).sweep@ == old(self).sweep@,
            final(self).uncovered@ == old(self).uncovered@,
            final(self).actions@ == old(self).actions@,
    {
        self.digest = crate::digest::bytes(unsigned);
    }

    /// Checks an artifact before it is compared: its schema, that it holds
    /// states, and that its digest matches its content.
    pub fn verify(&self, unsigned: &[u8]) -> (r: Result<(), ArtifactError>)
        ensures
            match artifact_fault(*self, unsigned@) {
                Some(e) => r == Err::<(), ArtifactError>(e),
                None => r is Ok,
            },
    {
        if self.schema_version != SCHEMA_VERSION {
            return Err(ArtifactError::UnsupportedSchema);
        }
        if self.states.len() == 0 {
            return Err(ArtifactError::NoStates);
        }
        if self.digest.as_str().unicode_len() == 0 {
            return Err(ArtifactError::MissingDigest);
        }
        let expected = crate::digest::bytes(unsigned);
        if !crate::text::str_eq(expected.as_str(), self.digest.as_str()) {
            return Err(ArtifactError::Tampered);
        }
        Ok(())
    }
}

/// Sealing makes a session verify: a session whose schema is current, that
/// names a page and a tab, and that carries the digest sealing records for
/// its serialized form passes every check with that form.
pub proof fn a_sealed_session_verifies(s: Session, unsigned: Seq<u8>)
    requires
        s.schema_version == SCHEMA_VERSION,
        s.requested_url@.len() > 0,
        s.target_id@.len() > 0,
        s.digest@ == hex_of(sha256(unsigned)),
        s.digest@.len() == 64,
    ensures
        session_fault(s, unsigned) is None,
{
}

/// Sealing makes an artifact verify: an artifact whose schema is current,
/// that holds states, and that carries the digest sealing records for its
/// serialized form passes every check with that form.
pub proof fn a_sealed_artifact_verifies(a: Artifact, unsigned: Seq<u8>)
    requires
        a.schema_version == SCHEMA_VERSION,
        a.states@.len() > 0,
        a.digest@ == hex_of(sha256(unsigned)),
        a.digest@.len() == 64,
    ensures
        artifact_fault(a, unsigned) is None,
{
}

/// The verdict of a comparison.
#[derive(Clone, Copy, Debug, PartialEq, Eq, Structural)]
pub enum Status {
    Pass,
    Fail,
    Inconclusive,
    PreparationRequired,
}

/// One difference between the source and the candidate.
#[derive(Clone, Debug)]
pub struct Finding {
    pub key: String,
    pub line: String,
    pub viewport: u32,
    pub scenario: String,
    pub target: String,
    pub property: String,
    pub source: String,
    pub candidate: String,
    pub severity: String,
    pub confidence: String,
    /// Every element behind a grouped root cause, so the text report can
    /// list them one per line.
    pub items: Vec<String>,
}

/// The abstract value of a finding.
pub struct FindingView {
    pub key: Seq<char>,
    pub line: Seq<char>,
    pub viewport: u32,
    pub scenario: Seq<char>,
    pub target: Seq<char>,
    pub property: Seq<char>,
    pub source: Seq<char>,
    pub candidate: Seq<char>,
    pub severity: Seq<char>,
    pub confidence: Seq<char>,
    pub items: Seq<Seq<char>>,
}

impl View for Finding {
    type V = FindingView;

    open spec fn view(&self) -> FindingView {
        FindingView {
            key: self.key@,
            line: self.line@,
            viewport: self.viewport,
            scenario: self.scenario@,
            target: self.target@,
            property: self.property@,
            source: self.source@,
            candidate: self.candidate@,
            severity: self.severity@,
            confidence: self.confidence@,
            items: crate::order::views(self.items@),
        }
    }
}

impl Finding {
    /// A copy of this finding.
    pub fn duplicate(&self) -> (r: Finding)
        ensures
            r@ == self@,
    {
        let mut items: Vec<String> = Vec::new();
        let mut i: usize = 0;
        while i < self.items.len()
            invariant
                i <= self.items@.len(),
                crate::order::views(items@) == crate::order::views(self.items@).take(i as int),
            decreases self.items@.len() - i,
        {
            let c = self.items[i].clone();
            let ghost before = items@;
            items.push(c);
            proof {
                assert(crate::order::views(items@) =~= crate::order::views(before).push(c@));
                assert(crate::order::views(self.items@).take(i + 1 as int) =~= crate::order::views(
                    self.items@,
                ).take(i as int).push(self.items@[i as int]@));
            }
            i += 1;
        }
        assert(crate::order::views(self.items@).take(i as int) =~= crate::order::views(self.items@));
        Finding {
            key: self.key.clone(),
            line: self.line.clone(),
            viewport: self.viewport,
            scenario: self.scenario.clone(),
            target: self.target.clone(),
            property: self.property.clone(),
            source: self.source.clone(),
            candidate: self.candidate.clone(),
            severity: self.severity.clone(),
            confidence: self.confidence.clone(),
            items,
        }
    }
}

/// The abstract values of a list of findings.
pub open spec fn finding_views(s: Seq<Finding>) -> Seq<FindingView> {
    s.map_values(|f: Finding| f@)
}

/// The abstract value of an optional finding.
pub open spec fn finding_opt(r: Option<Finding>) -> Option<FindingView> {
    match r {
        Some(f) => Some(f@),
        None => None,
    }
}

/// The result of one comparison.
#[derive(Clone, Debug)]
pub struct Report {
    pub schema_version: u32,
    pub status: Status,
    pub findings: Vec<Finding>,
    pub suppressed_duplicates: usize,
    pub elapsed_ms: u128,
    pub source_digest: String,
    pub candidate_digest: String,
    pub diagnostic: Option<String>,
    pub scope: Option<String>,
    /// Findings withheld by a declared allowance.
    pub allowed: Vec<Finding>,
    /// Allowances that matched nothing.
    pub unused_allowances: Vec<String>,
}

} // verus!
