use vstd::prelude::*;

verus! {

/// The failures the pipeline can report.  Every failure is deterministic in
/// the input; there is no retry or partial recovery.
#[derive(Clone, Copy, PartialEq, Eq, Structural, Debug)]
pub enum WaveError {
    /// A log line did not hold two well-formed decimal tokens.  `line` is the
    /// zero-based index of the first offending line.
    MalformedInput { line: usize },
    /// Resampling was asked of a series with fewer than two points, a zero
    /// sample rate, or a start offset that clips the series to zero samples.
    EmptySeries,
    /// The peak absolute value over the series is zero, so normalization is
    /// undefined.
    DegenerateAmplitude,
}

} // verus!
