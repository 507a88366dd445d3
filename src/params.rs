use vstd::prelude::*;

verus! {

/// The consensus parameters that the derived window sizes and depths read.
/// They are fixed per network; changing one breaks consensus.
#[derive(Clone, Copy, Debug, PartialEq, Eq, Structural)]
pub struct Params {
    pub ghostdag_k: u16,
    /// Timestamp deviation tolerance, in blocks.
    pub timestamp_deviation_tolerance: u64,
    /// Timestamp deviation tolerance, in blocks, when a sampled window is used.
    pub sample_timestamp_deviation_tolerance: u64,
    /// One block in this many fills the past median time window.
    pub past_median_time_sample_rate: u64,
    /// Milliseconds.
    pub target_time_per_block: u64,
    /// One block in this many fills the difficulty window.
    pub difficulty_sample_rate: u64,
    pub difficulty_window_size: usize,
    pub mergeset_size_limit: u64,
    pub merge_depth: u64,
    pub finality_depth: u64,
}

impl Params {
    /// The sampled blocks that the timestamp deviation tolerance covers,
    /// rounded to the nearest.
    pub open spec fn deviation_tolerance_sample_blocks(&self) -> int {
        (self.sample_timestamp_deviation_tolerance + self.past_median_time_sample_rate / 2) as int
            / (self.past_median_time_sample_rate as int)
    }

    /// Blocks in the full window that the past median time looks at.
    pub fn past_median_time_window_size(&self) -> (r: usize)
        requires
            self.timestamp_deviation_tolerance >= 1,
            2 * self.timestamp_deviation_tolerance - 1 <= usize::MAX,
        ensures
            r == 2 * self.timestamp_deviation_tolerance - 1,
    {
        (self.timestamp_deviation_tolerance - 1 + self.timestamp_deviation_tolerance) as usize
    }

    /// Blocks in the sampled window that the past median time looks at.
    pub fn past_median_time_sample_window_size(&self) -> (r: usize)
        requires
            self.past_median_time_sample_rate > 0,
            self.sample_timestamp_deviation_tolerance + self.past_median_time_sample_rate / 2
                <= u64::MAX,
            self.deviation_tolerance_sample_blocks() >= 1,
            2 * self.deviation_tolerance_sample_blocks() - 1 <= usize::MAX,
        ensures
            r == 2 * self.deviation_tolerance_sample_blocks() - 1,
    {
        let deviation_tolerance_sample_blocks = (self.sample_timestamp_deviation_tolerance
            + self.past_median_time_sample_rate / 2) / self.past_median_time_sample_rate;
        (deviation_tolerance_sample_blocks - 1 + deviation_tolerance_sample_blocks) as usize
    }

    /// How long, in milliseconds, the difficulty window is expected to span.
    pub fn expected_daa_window_duration_in_milliseconds(&self) -> (r: u64)
        requires
            self.difficulty_window_size >= 1,
            self.target_time_per_block * self.difficulty_sample_rate <= u64::MAX,
            self.target_time_per_block * self.difficulty_sample_rate * (
            self.difficulty_window_size - 1) <= u64::MAX,
        ensures
            r == self.target_time_per_block * self.difficulty_sample_rate * (
            self.difficulty_window_size - 1),
    {
        self.target_time_per_block * self.difficulty_sample_rate * (self.difficulty_window_size as u64
            - 1)
    }

    /// The depth at which the anticone of a chain block is final.
    pub fn anticone_finalization_depth(&self) -> (r: u64)
        requires
            4 * self.mergeset_size_limit <= u64::MAX,
            4 * self.mergeset_size_limit * self.ghostdag_k <= u64::MAX,
            self.finality_depth + self.merge_depth + 4 * self.mergeset_size_limit * self.ghostdag_k
                + 2 * self.ghostdag_k + 2 <= u64::MAX,
        ensures
            r == self.finality_depth + self.merge_depth + 4 * self.mergeset_size_limit
                * self.ghostdag_k + 2 * self.ghostdag_k + 2,
    {
        let k = self.ghostdag_k as u64;
        self.finality_depth + self.merge_depth + 4 * self.mergeset_size_limit * k + 2 * k + 2
    }

    /// Whether a sink block of the given timestamp, seen at `now` (both in
    /// milliseconds since the Unix epoch), is within the span of the
    /// difficulty window: such blocks still count for synced nodes.
    pub fn is_nearly_synced(&self, now: u64, sink_timestamp: u64) -> (r: bool)
        requires
            self.difficulty_window_size >= 1,
            self.target_time_per_block * self.difficulty_sample_rate <= u64::MAX,
            self.target_time_per_block * self.difficulty_sample_rate * (
            self.difficulty_window_size - 1) <= u64::MAX,
            sink_timestamp + self.target_time_per_block * self.difficulty_sample_rate * (
            self.difficulty_window_size - 1) <= u64::MAX,
        ensures
            r == (now < sink_timestamp + self.target_time_per_block * self.difficulty_sample_rate
                * (self.difficulty_window_size - 1)),
    {
        now < sink_timestamp + self.expected_daa_window_duration_in_milliseconds()
    }
}

} // verus!
