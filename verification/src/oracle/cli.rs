//! The oracle's command-line arguments as plain values.
use vstd::prelude::*;

verus! {

/// Which browser to drive and how.
#[derive(Clone, Debug)]
pub struct BrowserArgs {
    pub browser: Option<String>,
    pub cdp_url: Option<String>,
    pub target: Option<String>,
    pub height: u32,
}

/// Record a source page at a list of widths.
#[derive(Clone, Debug)]
pub struct RecordArgs {
    pub source: String,
    pub out: String,
    pub widths: Vec<u32>,
    pub browser: BrowserArgs,
}

/// Compare a candidate page against a recording.
#[derive(Clone, Debug)]
pub struct CompareArgs {
    pub artifact: String,
    pub candidate: String,
    pub out: Option<String>,
    pub browser: BrowserArgs,
}

/// Qualify the oracle against mutated fixtures.
#[derive(Clone, Debug)]
pub struct QualifyArgs {
    pub fixtures: String,
    pub out: Option<String>,
    pub holdouts: Option<String>,
    pub browser: BrowserArgs,
}

/// Time repeated comparisons.
#[derive(Clone, Debug)]
pub struct BenchmarkArgs {
    pub artifact: String,
    pub candidate: String,
    pub iterations: usize,
    pub out: Option<String>,
    pub browser: BrowserArgs,
}

/// One oracle command.
#[derive(Clone, Debug)]
pub enum Command {
    Record(RecordArgs),
    Compare(CompareArgs),
    Qualify(QualifyArgs),
    Benchmark(BenchmarkArgs),
}

} // verus!
