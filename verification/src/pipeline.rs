use vstd::prelude::*;
use crate::error::WaveError;
use crate::normalize::{normalize, peak_abs, scale_spec};
use crate::resample::{first_tick, resample, resample_ok, resample_result};
use crate::series::{
    abs_val, lemma_held_bounded_by_peak, peak_of, time_sorted, StepSeries, SCALE,
};

verus! {

/// The full pipeline on one series: resample at `rate` samples per second
/// from the `start` offset, then normalize every held value by the peak over
/// the full series.  The peak is taken over the whole series, not the
/// window, so windowed exports of one log stay amplitude-consistent.
pub fn render_samples(series: &StepSeries, rate: u32, start: i64) -> (r: Result<
    Vec<i16>,
    WaveError,
>)
    requires
        time_sorted(series@),
    ensures
        r is Ok <==> (resample_ok(series@, rate as int, start as int) && peak_of(series@) != 0),
        !resample_ok(series@, rate as int, start as int) ==> r == Err::<Vec<i16>, WaveError>(
            WaveError::EmptySeries,
        ),
        resample_ok(series@, rate as int, start as int) && peak_of(series@) == 0 ==> r == Err::<
            Vec<i16>,
            WaveError,
        >(WaveError::DegenerateAmplitude),
        r matches Ok(out) ==> {
            &&& out@.len() == resample_result(series@, rate as int, start as int).len()
            &&& forall|j: int|
                0 <= j < out@.len() ==> out@[j] == scale_spec(
                    resample_result(series@, rate as int, start as int)[j],
                    peak_of(series@),
                )
            &&& forall|j: int| 0 <= j < out@.len() ==> -32767 <= #[trigger] out@[j] <= 32767
        },
{
    let raw = match resample(series, rate, start) {
        Ok(v) => v,
        Err(e) => {
            return Err(e);
        },
    };
    let peak = peak_abs(series);
    assert forall|j: int| 0 <= j < raw@.len() implies abs_val(raw@[j] as int) <= peak as int by {
        lemma_held_bounded_by_peak(
            series@,
            (first_tick(start as int, rate as int) + j) * (SCALE as int),
            rate as int,
        );
    }
    match normalize(&raw, peak) {
        Ok(o) => Ok(o),
        Err(e) => Err(e),
    }
}

} // verus!
