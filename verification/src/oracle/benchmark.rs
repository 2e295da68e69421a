//! Summaries of repeated timings.
use vstd::prelude::*;

verus! {

/// The nearest-rank percentile of ascending samples: the sample at rank
/// `ceil(n * p / 100)`, the first sample where that rank is zero and the
/// last where it runs past the end.
pub open spec fn percentile_value(samples: Seq<u128>, p: nat) -> u128 {
    let rank = (samples.len() * p + 99) / 100;
    let index = if rank == 0 { 0 } else if rank - 1 < samples.len() - 1 { rank - 1 } else { samples.len() - 1 };
    samples[index as int]
}

pub fn percentile(samples: &Vec<u128>, percent: usize) -> (r: u128)
    requires
        samples@.len() > 0,
        samples@.len() * percent + 99 <= usize::MAX,
    ensures
        r == percentile_value(samples@, percent as nat),
{
    let rank = (samples.len() * percent + 99) / 100;
    let below = if rank == 0 { 0 } else { rank - 1 };
    let index = if below < samples.len() - 1 { below } else { samples.len() - 1 };
    samples[index]
}

} // verus!
