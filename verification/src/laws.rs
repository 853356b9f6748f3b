use vstd::prelude::*;
use vstd::arithmetic::div_mod::{
    lemma_div_by_self, lemma_div_is_ordered, lemma_fundamental_div_mod, lemma_mod_bound,
};
use vstd::arithmetic::mul::{
    lemma_mul_is_commutative, lemma_mul_is_distributive_sub, lemma_mul_nonnegative,
    lemma_mul_strictly_positive,
};
use crate::resample::{
    clamped_start, end_tick, first_tick, last_tick, matches_resample, resample_ok,
    resample_result, sample_count,
};
use crate::series::{held_at_tick, lemma_held_at_prefix, time_sorted, SCALE};

verus! {

/// Resampling is deterministic: two outputs of the same series at the same
/// rate and start offset are identical, element for element and in length.
pub proof fn lemma_resample_deterministic(
    ps: Seq<(int, int)>,
    rate: int,
    start: int,
    out1: Seq<i64>,
    out2: Seq<i64>,
)
    requires
        matches_resample(ps, rate, start, out1),
        matches_resample(ps, rate, start, out2),
    ensures
        out1 == out2,
{
    assert(out1 =~= out2);
}

/// Zero-order hold: at every instant from a point's timestamp up to (and
/// excluding) the next strictly later timestamp, the held value is that
/// point's value.  The instant is given as the exact rational `num / rate`.
pub proof fn lemma_hold_property(ps: Seq<(int, int)>, rate: int, num: int, i: int)
    requires
        time_sorted(ps),
        rate > 0,
        0 <= i < ps.len() - 1,
        ps[i].0 * rate <= num,
        num < ps[i + 1].0 * rate,
    ensures
        held_at_tick(ps, num, rate) == ps[i].1,
{
    lemma_held_at_prefix(ps, num, rate, i + 1);
}

/// The hold law read off a resampled output: the sample at tick `k` is the
/// value of the point whose segment covers the tick's instant `k / rate`.
pub proof fn lemma_hold_at_output(ps: Seq<(int, int)>, rate: int, start: int, i: int, k: int)
    requires
        time_sorted(ps),
        resample_ok(ps, rate, start),
        first_tick(start, rate) <= k <= end_tick(ps.last().0, rate, start),
        0 <= i < ps.len() - 1,
        ps[i].0 * rate <= k * (SCALE as int),
        k * (SCALE as int) < ps[i + 1].0 * rate,
    ensures
        resample_result(ps, rate, start)[k - first_tick(start, rate)] == ps[i].1,
{
    lemma_hold_property(ps, rate, k * (SCALE as int), i);
    let j = k - first_tick(start, rate);
    assert((first_tick(start, rate) + j) * (SCALE as int) == k * (SCALE as int));
}

/// Windowing keeps the suffix: every sample of a run started at an offset
/// equals the sample of the unwindowed run at the same tick.
pub proof fn lemma_window_suffix(ps: Seq<(int, int)>, rate: int, start: int, j: int)
    requires
        resample_ok(ps, rate, start),
        resample_ok(ps, rate, 0),
        0 <= j < resample_result(ps, rate, start).len(),
    ensures
        first_tick(start, rate) + j < resample_result(ps, rate, 0).len(),
        resample_result(ps, rate, start)[j] == resample_result(ps, rate, 0)[first_tick(
            start,
            rate,
        ) + j],
{
    let s = clamped_start(start);
    let ft = first_tick(start, rate);
    let lt = last_tick(ps.last().0, rate);
    if s > 0 {
        // A positive window starts at tick one or later, so the series ends
        // at or after the first full second's tick and the unwindowed run
        // reaches every windowed tick.
        let a = s * rate;
        lemma_mul_strictly_positive(s, rate);
        lemma_div_is_ordered(SCALE as int, a + (SCALE as int) - 1, SCALE as int);
        lemma_div_by_self(SCALE as int);
        assert(ft >= 1);
        let l = ps.last().0 * rate;
        assert(SCALE as int == 1_000_000);
        lemma_fundamental_div_mod(l, 1_000_000);
        lemma_mod_bound(l, 1_000_000);
        assert(lt == l / 1_000_000);
        assert(lt >= 1);
        assert(l >= 0);
        assert(end_tick(ps.last().0, rate, 0) == lt);
    }
    assert((0 + (first_tick(start, rate) + j)) * (SCALE as int) == (first_tick(start, rate) + j)
        * (SCALE as int));
}

/// The output length tracks the window: a successful run over a series
/// ending at a non-negative timestamp emits about `(last - start) * rate`
/// plus one samples.  The count never passes that ideal; it can fall short
/// of it by at most two ticks when both window ends land between ticks, and
/// by at most one when there is no start offset.
pub proof fn lemma_sample_count_bound(ps: Seq<(int, int)>, rate: int, start: int)
    requires
        resample_ok(ps, rate, start),
        ps.last().0 >= 0,
    ensures
        ({
            let ideal = ((ps.last().0 - clamped_start(start)) * rate + (SCALE as int) - 1) / (
            SCALE as int) + 1;
            &&& resample_result(ps, rate, start).len() == sample_count(ps, rate, start)
            &&& sample_count(ps, rate, start) <= ideal
            &&& sample_count(ps, rate, start) >= ideal - 2
            &&& (clamped_start(start) == 0 ==> sample_count(ps, rate, start) >= ideal - 1)
        }),
{
    let s = clamped_start(start);
    let last = ps.last().0;
    let l = last * rate;
    let a = s * rate;
    assert(SCALE as int == 1_000_000);
    lemma_mul_nonnegative(last, rate);
    lemma_mul_is_distributive_sub(rate, last, s);
    lemma_mul_is_commutative(last - s, rate);
    lemma_mul_is_commutative(last, rate);
    lemma_mul_is_commutative(s, rate);
    assert((last - s) * rate == l - a);
    lemma_fundamental_div_mod(l, 1_000_000);
    lemma_mod_bound(l, 1_000_000);
    lemma_fundamental_div_mod(l - a + 999_999, 1_000_000);
    lemma_mod_bound(l - a + 999_999, 1_000_000);
    let ql = l / 1_000_000;
    let qb = (l - a + 999_999) / 1_000_000;
    if s == 0 {
        assert(a == 0);
        assert(end_tick(last, rate, start) == ql);
        assert(first_tick(start, rate) == 0);
        assert(sample_count(ps, rate, start) == ql + 1);
        assert(ql <= qb <= ql + 1);
    } else {
        lemma_mul_strictly_positive(s, rate);
        lemma_fundamental_div_mod(a + 999_999, 1_000_000);
        lemma_mod_bound(a + 999_999, 1_000_000);
        let qa = (a + 999_999) / 1_000_000;
        assert(first_tick(start, rate) == qa);
        assert(end_tick(last, rate, start) == ql);
        assert(sample_count(ps, rate, start) == ql - qa + 1);
        assert(ql <= qa + qb);
        assert(qa + qb <= ql + 2);
    }
    assert(sample_count(ps, rate, start) >= 1);
}

} // verus!
