use vstd::prelude::*;

verus! {

/// Times and values are exact fixed-point numbers: one unit is one millionth
/// of a second (for times) or of the signal's unit (for values).
pub const SCALE: i64 = 1_000_000;

/// One parsed log entry: a timestamp and a value, both in `SCALE` units.
#[derive(Clone, Copy, PartialEq, Eq, Structural, Debug)]
pub struct RawPoint {
    pub t: i64,
    pub v: i64,
}

/// The expanded, step-shaped record of a log: between two consecutive
/// timestamps the signal equals the value of the earlier point, and each
/// value change appears as a vertical step because the parser materializes a
/// pre-transition point.  Timestamps are non-decreasing by convention of the
/// input; `time_sorted` states that convention and the resampler requires it.
#[derive(Debug)]
pub struct StepSeries {
    pub points: Vec<RawPoint>,
}

/// The mathematical reading of a point sequence: timestamp/value pairs over
/// the unbounded integers.
pub open spec fn points_view(ps: Seq<RawPoint>) -> Seq<(int, int)> {
    ps.map_values(|p: RawPoint| (p.t as int, p.v as int))
}

impl View for StepSeries {
    type V = Seq<(int, int)>;

    open spec fn view(&self) -> Seq<(int, int)> {
        points_view(self.points@)
    }
}

/// |x| over the mathematical integers.
pub open spec fn abs_val(x: int) -> int {
    if x < 0 {
        -x
    } else {
        x
    }
}

/// Timestamps never decrease along the series.
pub open spec fn time_sorted(ps: Seq<(int, int)>) -> bool {
    forall|i: int, j: int|
        #![trigger ps[i], ps[j]]
        0 <= i <= j < ps.len() ==> ps[i].0 <= ps[j].0
}

/// The value the step function holds at time `num / rate`: the value of the
/// last point whose timestamp is at or before that instant (last write wins
/// when several points share the instant), and the first point's value before
/// any timestamp is reached.
pub open spec fn held_at_tick(ps: Seq<(int, int)>, num: int, rate: int) -> int
    decreases ps.len(),
{
    if ps.len() == 0 {
        0
    } else if ps.len() == 1 {
        ps[0].1
    } else if ps.last().0 * rate <= num {
        ps.last().1
    } else {
        held_at_tick(ps.drop_last(), num, rate)
    }
}

/// The peak absolute value over every point of a series.
pub open spec fn peak_of(ps: Seq<(int, int)>) -> int
    decreases ps.len(),
{
    if ps.len() == 0 {
        0
    } else if abs_val(ps.last().1) >= peak_of(ps.drop_last()) {
        abs_val(ps.last().1)
    } else {
        peak_of(ps.drop_last())
    }
}

/// The step expansion of the raw log pairs: the first pair is kept alone, and
/// every later pair `(t, v)` is preceded by the synthetic pre-transition point
/// `(t, previous value)`.
pub open spec fn expand(ps: Seq<(int, int)>) -> Seq<(int, int)>
    decreases ps.len(),
{
    if ps.len() == 0 {
        Seq::empty()
    } else if ps.len() == 1 {
        seq![ps[0]]
    } else {
        expand(ps.drop_last()) + seq![(ps.last().0, ps[ps.len() - 2].1), ps.last()]
    }
}

/// The step expansion of a time-ordered log is itself time-ordered, ends at
/// the log's last timestamp, and holds one point for the first pair plus two
/// for every later pair: `2 n - 1` points for `n` pairs.
pub proof fn lemma_expand_sorted(ps: Seq<(int, int)>)
    requires
        time_sorted(ps),
    ensures
        time_sorted(expand(ps)),
        expand(ps).len() == if ps.len() == 0 {
            0int
        } else {
            2 * ps.len() - 1
        },
        ps.len() >= 1 ==> expand(ps).last().0 == ps.last().0,
    decreases ps.len(),
{
    if ps.len() >= 2 {
        let pre = ps.drop_last();
        assert(time_sorted(pre)) by {
            assert(forall|i: int, j: int|
                #![trigger pre[i], pre[j]]
                0 <= i <= j < pre.len() ==> pre[i] == ps[i] && pre[j] == ps[j]);
        }
        lemma_expand_sorted(pre);
        let e = expand(pre);
        let t = ps.last().0;
        assert(pre.last() == ps[ps.len() - 2]);
        assert(pre.last().0 <= t);
        let whole = expand(ps);
        assert(whole == e + seq![(t, ps[ps.len() - 2].1), ps.last()]);
        assert forall|i: int, j: int|
            #![trigger whole[i], whole[j]]
            0 <= i <= j < whole.len() implies whole[i].0 <= whole[j].0 by {
            if i < e.len() {
                assert(whole[i] == e[i]);
                assert(e[i].0 <= e.last().0);
            }
            if j < e.len() {
                assert(whole[j] == e[j]);
                assert(e[i].0 <= e[j].0);
            } else {
                assert(whole[j].0 == t);
            }
        }
    }
}

impl StepSeries {
    /// Whether the points really are in non-decreasing time order, so that a
    /// caller can establish the convention the resampler relies on.
    pub fn is_time_ordered(&self) -> (r: bool)
        ensures
            r == time_sorted(self@),
    {
        let n = self.points.len();
        let mut i: usize = 1;
        while i < n
            invariant
                1 <= i,
                i <= n || n == 0,
                n == self.points.len(),
                forall|a: int, b: int|
                    #![trigger self@[a], self@[b]]
                    0 <= a <= b < i ==> self@[a].0 <= self@[b].0,
            decreases n - i,
        {
            if self.points[i - 1].t > self.points[i].t {
                assert(!(self@[i - 1].0 <= self@[i as int].0));
                return false;
            }
            assert forall|a: int, b: int|
                #![trigger self@[a], self@[b]]
                0 <= a <= b < i + 1 implies self@[a].0 <= self@[b].0 by {
                lemma_sorted_step(self@, a, b, i as int);
            }
            i = i + 1;
        }
        true
    }
}

/// The held value at any instant is the value of the point just before a
/// forward cursor that has consumed every point at or before that instant:
/// point `c - 1` is at or before `num / rate` (or is the very first point)
/// and point `c` (if any) is strictly after it.
pub proof fn lemma_held_at_prefix(ps: Seq<(int, int)>, num: int, rate: int, c: int)
    requires
        time_sorted(ps),
        rate > 0,
        1 <= c <= ps.len(),
        c < ps.len() ==> ps[c].0 * rate > num,
        c >= 2 ==> ps[c - 1].0 * rate <= num,
    ensures
        held_at_tick(ps, num, rate) == ps[c - 1].1,
    decreases ps.len(),
{
    if c < ps.len() {
        let m = ps.len() - 1;
        assert(ps[c].0 <= ps[m].0);
        vstd::arithmetic::mul::lemma_mul_inequality(ps[c].0, ps[m].0, rate);
        assert(ps[m].0 * rate > num);
        let pre = ps.drop_last();
        assert(pre[c - 1] == ps[c - 1]);
        if c < pre.len() {
            assert(pre[c] == ps[c]);
        }
        lemma_held_at_prefix(pre, num, rate, c);
    }
}

/// Every held value is one of the series' point values, so its magnitude is
/// bounded by the series' peak.
pub proof fn lemma_held_bounded_by_peak(ps: Seq<(int, int)>, num: int, rate: int)
    requires
        ps.len() >= 1,
    ensures
        abs_val(held_at_tick(ps, num, rate)) <= peak_of(ps),
    decreases ps.len(),
{
    if ps.len() > 1 && !(ps.last().0 * rate <= num) {
        lemma_held_bounded_by_peak(ps.drop_last(), num, rate);
    }
}

/// Helper for `is_time_ordered`: extends pairwise order one step to the right.
proof fn lemma_sorted_step(ps: Seq<(int, int)>, a: int, b: int, i: int)
    requires
        1 <= i < ps.len(),
        forall|x: int, y: int| #![trigger ps[x], ps[y]] 0 <= x <= y < i ==> ps[x].0 <= ps[y].0,
        ps[i - 1].0 <= ps[i].0,
        0 <= a <= b <= i,
    ensures
        ps[a].0 <= ps[b].0,
{
    if b == i && a < i {
        assert(ps[a].0 <= ps[i - 1].0);
    }
}

} // verus!
