use vstd::prelude::*;
use vstd::arithmetic::div_mod::{lemma_div_is_ordered, lemma_div_multiples_vanish};
use vstd::arithmetic::mul::lemma_mul_inequality;
use crate::error::WaveError;
use crate::series::{abs_val, peak_of, StepSeries};

verus! {

/// The largest normalized magnitude: raw samples are rescaled so that a
/// sample at the series' peak maps to this value.
pub const PEAK_TARGET: i64 = 32767;

/// A raw sample rescaled by `PEAK_TARGET / p`, with the fractional part
/// discarded (truncation toward zero, not rounding).
pub open spec fn scale_spec(s: int, p: int) -> int {
    if s >= 0 {
        (32767 * s) / p
    } else {
        -((32767 * (-s)) / p)
    }
}

/// The peak absolute value over every point of the series, windowed or not:
/// normalization always uses the full series, so windowed exports of one log
/// stay amplitude-consistent with each other.
pub fn peak_abs(series: &StepSeries) -> (r: u64)
    ensures
        r == peak_of(series@),
{
    let ghost ps = series@;
    let n = series.points.len();
    let mut best: u64 = 0;
    let mut i: usize = 0;
    while i < n
        invariant
            n == series.points.len(),
            ps == series@,
            i <= n,
            best == peak_of(ps.take(i as int)),
        decreases n - i,
    {
        let v = series.points[i].v;
        let a: u64 = if v >= 0 {
            v as u64
        } else {
            (-(v as i128)) as u64
        };
        assert(ps[i as int] == (series.points@[i as int].t as int, series.points@[i as int].v as int));
        assert(a == abs_val(ps[i as int].1));
        if a > best {
            best = a;
        }
        proof {
            let pre = ps.take(i + 1);
            assert(pre.drop_last() =~= ps.take(i as int));
            assert(pre.last() == ps[i as int]);
        }
        i = i + 1;
    }
    assert(ps.take(n as int) =~= ps);
    best
}

/// Rescales every raw sample into the signed 16-bit range by the factor
/// `PEAK_TARGET / peak`, truncating toward zero.  A zero peak (an all-zero
/// series) makes normalization undefined and is reported, never divided by.
pub fn normalize(samples: &Vec<i64>, peak: u64) -> (r: Result<Vec<i16>, WaveError>)
    requires
        forall|j: int| 0 <= j < samples@.len() ==> abs_val(samples@[j] as int) <= peak as int,
    ensures
        r is Ok <==> peak != 0,
        peak == 0 ==> r == Err::<Vec<i16>, WaveError>(WaveError::DegenerateAmplitude),
        r matches Ok(out) ==> {
            &&& out@.len() == samples@.len()
            &&& forall|j: int|
                0 <= j < out@.len() ==> out@[j] == scale_spec(samples@[j] as int, peak as int)
            &&& forall|j: int| 0 <= j < out@.len() ==> -32767 <= #[trigger] out@[j] <= 32767
        },
{
    if peak == 0 {
        return Err(WaveError::DegenerateAmplitude);
    }
    let n = samples.len();
    let mut out: Vec<i16> = Vec::new();
    let mut i: usize = 0;
    while i < n
        invariant
            n == samples@.len(),
            peak > 0,
            forall|j: int| 0 <= j < n ==> abs_val(samples@[j] as int) <= peak as int,
            i <= n,
            out@.len() == i,
            forall|j: int|
                0 <= j < i ==> out@[j] == scale_spec(samples@[j] as int, peak as int),
            forall|j: int| 0 <= j < i ==> -32767 <= #[trigger] out@[j] <= 32767,
        decreases n - i,
    {
        let s = samples[i];
        let mag: u128 = if s >= 0 {
            s as u128
        } else {
            (-(s as i128)) as u128
        };
        assert(mag == abs_val(s as int));
        let q: u128 = (32767 * mag) / (peak as u128);
        proof {
            lemma_mul_inequality(mag as int, peak as int, 32767);
            lemma_div_is_ordered(32767 * (mag as int), 32767 * (peak as int), peak as int);
            lemma_div_multiples_vanish(32767, peak as int);
        }
        assert(q <= 32767);
        let v: i16 = if s >= 0 {
            q as i16
        } else {
            -(q as i16)
        };
        assert(v == scale_spec(s as int, peak as int));
        out.push(v);
        i = i + 1;
    }
    Ok(out)
}

} // verus!
