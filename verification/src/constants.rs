use vstd::prelude::*;

verus! {

/// Number of samples in one block.  Every port buffer holds exactly one block.
pub const BUFFER_LEN: usize = 512;

/// Sample rate of the engine, in samples per second.
pub const SAMPLE_RATE: u64 = 44100;

/// Scale of a fixed-point signal sample: the sample value `SIGNAL_UNIT`
/// stands for an amplitude of one.
pub const SIGNAL_UNIT: i64 = 1000000;

} // verus!
