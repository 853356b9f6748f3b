use vstd::prelude::*;
use vstd::arithmetic::div_mod::{
    lemma_div_by_self, lemma_div_is_ordered, lemma_fundamental_div_mod, lemma_mod_bound,
};
use vstd::arithmetic::mul::lemma_mul_strictly_positive;
use crate::error::WaveError;
use crate::series::{held_at_tick, lemma_held_at_prefix, time_sorted, StepSeries, SCALE};

verus! {

/// A negative start offset is treated as zero.
pub open spec fn clamped_start(start: int) -> int {
    if start < 0 {
        0
    } else {
        start
    }
}

/// Index of the first tick emitted: the first multiple of `1 / rate` at or
/// after the clamped start offset.
pub open spec fn first_tick(start: int, rate: int) -> int {
    let s = clamped_start(start);
    if s == 0 {
        0
    } else {
        (s * rate + (SCALE as int) - 1) / (SCALE as int)
    }
}

/// Index of the last tick the series covers: the last multiple of `1 / rate`
/// at or before the series' final timestamp.
pub open spec fn last_tick(last_t: int, rate: int) -> int {
    (last_t * rate) / (SCALE as int)
}

/// Index of the last tick emitted.  The output clock starts at zero, so with
/// no start offset the tick at time zero is emitted even when the series ends
/// before it.
pub open spec fn end_tick(last_t: int, rate: int, start: int) -> int {
    if clamped_start(start) == 0 && last_t * rate < 0 {
        0
    } else {
        last_tick(last_t, rate)
    }
}

/// When resampling succeeds: a positive rate, at least two points, and a
/// window that still holds at least one tick.
pub open spec fn resample_ok(ps: Seq<(int, int)>, rate: int, start: int) -> bool {
    &&& rate > 0
    &&& ps.len() >= 2
    &&& (clamped_start(start) == 0 || first_tick(start, rate) <= last_tick(ps.last().0, rate))
}

/// How many samples a successful resampling emits.
pub open spec fn sample_count(ps: Seq<(int, int)>, rate: int, start: int) -> int {
    end_tick(ps.last().0, rate, start) - first_tick(start, rate) + 1
}

/// The samples a successful resampling emits: the held value at every emitted
/// tick, in tick order.
pub open spec fn resample_result(ps: Seq<(int, int)>, rate: int, start: int) -> Seq<int> {
    Seq::new(
        sample_count(ps, rate, start) as nat,
        |j: int| held_at_tick(ps, (first_tick(start, rate) + j) * (SCALE as int), rate),
    )
}

/// An executable output agrees with `resample_result` element by element.
pub open spec fn matches_resample(
    ps: Seq<(int, int)>,
    rate: int,
    start: int,
    out: Seq<i64>,
) -> bool {
    &&& out.len() == resample_result(ps, rate, start).len()
    &&& forall|j: int| 0 <= j < out.len() ==> out[j] == resample_result(ps, rate, start)[j]
}

/// The product of an `i64` and a `u32` stays well inside `i128`.
proof fn lemma_mul_i64_u32_fits(a: int, b: int)
    requires
        -0x8000_0000_0000_0000 <= a < 0x8000_0000_0000_0000,
        0 <= b < 0x1_0000_0000,
    ensures
        -0x8000_0000_0000_0000_0000_0000 <= a * b < 0x8000_0000_0000_0000_0000_0000,
{
    assert(-0x8000_0000_0000_0000_0000_0000 <= a * b
        < 0x8000_0000_0000_0000_0000_0000) by (nonlinear_arith)
        requires
            -0x8000_0000_0000_0000 <= a < 0x8000_0000_0000_0000,
            0 <= b < 0x1_0000_0000,
    ;
}

/// Walks the step series at `rate` samples per second, emitting the held
/// value at every tick from the clamped start offset up to the series' final
/// timestamp.  The cursor only moves forward, so the cost is linear in the
/// number of points plus the number of ticks.
pub fn resample(series: &StepSeries, rate: u32, start: i64) -> (r: Result<Vec<i64>, WaveError>)
    requires
        time_sorted(series@),
    ensures
        r is Ok <==> resample_ok(series@, rate as int, start as int),
        !resample_ok(series@, rate as int, start as int) ==> r == Err::<Vec<i64>, WaveError>(
            WaveError::EmptySeries,
        ),
        r matches Ok(out) ==> matches_resample(series@, rate as int, start as int, out@),
{
    let ghost ps = series@;
    let n = series.points.len();
    if rate == 0 || n < 2 {
        return Err(WaveError::EmptySeries);
    }
    let last_t: i64 = series.points[n - 1].t;
    assert(ps[n - 1] == (series.points@[n - 1].t as int, series.points@[n - 1].v as int));
    assert(ps.last().0 == last_t as int);
    let start_c: i64 = if start < 0 {
        0
    } else {
        start
    };
    proof {
        lemma_mul_i64_u32_fits(last_t as int, rate as int);
    }
    let num_last: i128 = (last_t as i128) * (rate as i128);
    let k0: u128 = if start_c == 0 {
        0u128
    } else {
        proof {
            lemma_mul_i64_u32_fits(start_c as int, rate as int);
            lemma_mul_strictly_positive(start_c as int, rate as int);
        }
        let a: i128 = (start_c as i128) * (rate as i128);
        ((a as u128) + 999_999) / 1_000_000
    };
    assert(k0 == first_tick(start as int, rate as int));
    if start_c > 0 {
        proof {
            // The first tick of a positive window has index at least one.
            let sr = (start_c as int) * (rate as int);
            lemma_mul_strictly_positive(start_c as int, rate as int);
            lemma_div_is_ordered(SCALE as int, sr + (SCALE as int) - 1, SCALE as int);
            lemma_div_by_self(SCALE as int);
        }
        assert(k0 >= 1);
        if num_last < 0 {
            proof {
                // A negative final timestamp puts the last tick below zero.
                let l = (last_t as int) * (rate as int);
                lemma_fundamental_div_mod(l, SCALE as int);
                lemma_mod_bound(l, SCALE as int);
            }
            return Err(WaveError::EmptySeries);
        }
        let bound: u128 = (num_last as u128) / 1_000_000;
        if k0 > bound {
            return Err(WaveError::EmptySeries);
        }
    }
    let k_end: u128 = if start_c == 0 && num_last < 0 {
        0u128
    } else {
        (num_last as u128) / 1_000_000
    };
    assert(k_end == end_tick(last_t as int, rate as int, start as int));
    proof {
        // k_end is far below the top of u128.
        if k_end > 0 {
            let l = (last_t as int) * (rate as int);
            lemma_fundamental_div_mod(l, SCALE as int);
            lemma_mod_bound(l, SCALE as int);
        }
    }
    assert(k_end < 0x1_0000_0000_0000_0000_0000);
    assert(k0 <= k_end);
    let ghost irate = rate as int;
    let ghost istart = start as int;
    let mut out: Vec<i64> = Vec::new();
    let mut held: i64 = series.points[0].v;
    let mut cur: usize = 1;
    let mut k: u128 = k0;
    assert(held == ps[0].1);
    while k <= k_end
        invariant
            n == series.points.len(),
            2 <= n,
            ps == series@,
            ps.len() == n,
            time_sorted(ps),
            irate == rate as int,
            istart == start as int,
            rate > 0,
            k0 == first_tick(istart, irate),
            k_end == end_tick(ps.last().0, irate, istart),
            k_end < 0x1_0000_0000_0000_0000_0000,
            k0 <= k <= k_end + 1,
            out@.len() == k - k0,
            forall|j: int|
                0 <= j < out@.len() ==> out@[j] == held_at_tick(
                    ps,
                    (k0 + j) * (SCALE as int),
                    irate,
                ),
            1 <= cur <= n,
            held == ps[cur - 1].1,
            cur >= 2 ==> ps[cur - 1].0 * irate <= (k as int) * (SCALE as int),
        decreases k_end + 1 - k,
    {
        loop
            invariant
                n == series.points.len(),
                2 <= n,
                ps == series@,
                ps.len() == n,
                rate > 0,
                irate == rate as int,
                k <= k_end + 1,
                k_end < 0x1_0000_0000_0000_0000_0000,
                1 <= cur <= n,
                held == ps[cur - 1].1,
                cur >= 2 ==> ps[cur - 1].0 * irate <= (k as int) * (SCALE as int),
            ensures
                1 <= cur <= n,
                held == ps[cur - 1].1,
                cur >= 2 ==> ps[cur - 1].0 * irate <= (k as int) * (SCALE as int),
                cur == n || ps[cur as int].0 * irate > (k as int) * (SCALE as int),
            decreases n - cur,
        {
            if cur >= n {
                break ;
            }
            proof {
                lemma_mul_i64_u32_fits(series.points@[cur as int].t as int, rate as int);
            }
            let t_r: i128 = (series.points[cur].t as i128) * (rate as i128);
            if t_r > (k as i128) * 1_000_000 {
                break ;
            }
            held = series.points[cur].v;
            cur = cur + 1;
        }
        proof {
            lemma_held_at_prefix(ps, (k as int) * (SCALE as int), irate, cur as int);
        }
        out.push(held);
        assert((k0 + (k - k0)) * (SCALE as int) == (k as int) * (SCALE as int));
        k = k + 1;
    }
    assert(out@.len() == sample_count(ps, irate, istart));
    assert forall|j: int| 0 <= j < out@.len() implies out@[j] == resample_result(
        ps,
        irate,
        istart,
    )[j] by {
        assert(out@[j] == held_at_tick(ps, (k0 + j) * (SCALE as int), irate));
    }
    Ok(out)
}

} // verus!
