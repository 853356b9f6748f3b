use vstd::prelude::*;
use crate::series::StepSeries;

verus! {

/// The shared drawing window of one or more series: the earliest first
/// timestamp, the latest last timestamp, and the smallest and largest value
/// over every point of every series.
#[derive(Clone, Copy, PartialEq, Eq, Structural, Debug)]
pub struct SeriesExtent {
    pub min_t: i64,
    pub max_t: i64,
    pub min_v: i64,
    pub max_v: i64,
}

/// The smallest value over the points of one series.
pub fn min_value(series: &StepSeries) -> (r: i64)
    requires
        series@.len() > 0,
    ensures
        forall|j: int| 0 <= j < series@.len() ==> r <= #[trigger] series@[j].1,
        exists|j: int| 0 <= j < series@.len() && r == #[trigger] series@[j].1,
{
    let n = series.points.len();
    assert(series@.len() == series.points@.len());
    let mut best: i64 = series.points[0].v;
    assert(best == series@[0].1);
    let mut i: usize = 1;
    while i < n
        invariant
            n == series.points.len(),
            n == series@.len(),
            1 <= i <= n,
            forall|j: int| 0 <= j < i ==> best <= #[trigger] series@[j].1,
            exists|j: int| 0 <= j < i && best == #[trigger] series@[j].1,
        decreases n - i,
    {
        assert(series@[i as int].1 == series.points@[i as int].v);
        if series.points[i].v < best {
            best = series.points[i].v;
        }
        i = i + 1;
    }
    best
}

/// The largest value over the points of one series.
pub fn max_value(series: &StepSeries) -> (r: i64)
    requires
        series@.len() > 0,
    ensures
        forall|j: int| 0 <= j < series@.len() ==> r >= #[trigger] series@[j].1,
        exists|j: int| 0 <= j < series@.len() && r == #[trigger] series@[j].1,
{
    let n = series.points.len();
    assert(series@.len() == series.points@.len());
    let mut best: i64 = series.points[0].v;
    assert(best == series@[0].1);
    let mut i: usize = 1;
    while i < n
        invariant
            n == series.points.len(),
            n == series@.len(),
            1 <= i <= n,
            forall|j: int| 0 <= j < i ==> best >= #[trigger] series@[j].1,
            exists|j: int| 0 <= j < i && best == #[trigger] series@[j].1,
        decreases n - i,
    {
        assert(series@[i as int].1 == series.points@[i as int].v);
        if series.points[i].v > best {
            best = series.points[i].v;
        }
        i = i + 1;
    }
    best
}

/// The shared window of a list of series, for drawing several over one pair
/// of axes: time runs from the earliest first point to the latest last
/// point, and value covers every point of every series.  Nothing is computed
/// when the list is empty or some series has no points.
pub fn extents(all: &Vec<StepSeries>) -> (r: Option<SeriesExtent>)
    ensures
        r is Some <==> (all@.len() > 0 && (forall|i: int|
            0 <= i < all@.len() ==> #[trigger] all@[i]@.len() > 0)),
        r matches Some(e) ==> {
            &&& forall|i: int| 0 <= i < all@.len() ==> e.min_t <= #[trigger] all@[i]@[0].0
            &&& exists|i: int| 0 <= i < all@.len() && e.min_t == #[trigger] all@[i]@[0].0
            &&& forall|i: int|
                0 <= i < all@.len() ==> e.max_t >= #[trigger] all@[i]@[all@[i]@.len() - 1].0
            &&& exists|i: int|
                0 <= i < all@.len() && e.max_t == #[trigger] all@[i]@[all@[i]@.len() - 1].0
            &&& forall|i: int, j: int|
                0 <= i < all@.len() && 0 <= j < all@[i]@.len() ==> e.min_v <= #[trigger] all@[i]@[j].1
            &&& exists|i: int, j: int|
                0 <= i < all@.len() && 0 <= j < all@[i]@.len() && e.min_v == #[trigger] all@[i]@[j].1
            &&& forall|i: int, j: int|
                0 <= i < all@.len() && 0 <= j < all@[i]@.len() ==> e.max_v >= #[trigger] all@[i]@[j].1
            &&& exists|i: int, j: int|
                0 <= i < all@.len() && 0 <= j < all@[i]@.len() && e.max_v == #[trigger] all@[i]@[j].1
        },
{
    let n = all.len();
    if n == 0 {
        return None;
    }
    let mut i: usize = 0;
    while i < n
        invariant
            n == all@.len(),
            i <= n,
            forall|k: int| 0 <= k < i ==> #[trigger] all@[k]@.len() > 0,
        decreases n - i,
    {
        if all[i].points.len() == 0 {
            assert(all@[i as int]@.len() == 0);
            return None;
        }
        assert(all@[i as int]@.len() == all@[i as int].points@.len());
        i = i + 1;
    }
    let first = &all[0];
    assert(all@[0]@.len() > 0);
    assert(first.points@.len() == all@[0]@.len());
    let mut min_t: i64 = first.points[0].t;
    assert(min_t == all@[0]@[0].0);
    let mut max_t: i64 = first.points[first.points.len() - 1].t;
    assert(max_t == all@[0]@[all@[0]@.len() - 1].0);
    let mut min_v: i64 = min_value(first);
    let mut max_v: i64 = max_value(first);
    let mut i: usize = 1;
    while i < n
        invariant
            n == all@.len(),
            1 <= i <= n,
            forall|k: int| 0 <= k < n ==> #[trigger] all@[k]@.len() > 0,
            forall|k: int| 0 <= k < i ==> min_t <= #[trigger] all@[k]@[0].0,
            exists|k: int| 0 <= k < i && min_t == #[trigger] all@[k]@[0].0,
            forall|k: int| 0 <= k < i ==> max_t >= #[trigger] all@[k]@[all@[k]@.len() - 1].0,
            exists|k: int| 0 <= k < i && max_t == #[trigger] all@[k]@[all@[k]@.len() - 1].0,
            forall|k: int, j: int|
                0 <= k < i && 0 <= j < all@[k]@.len() ==> min_v <= #[trigger] all@[k]@[j].1,
            exists|k: int, j: int|
                0 <= k < i && 0 <= j < all@[k]@.len() && min_v == #[trigger] all@[k]@[j].1,
            forall|k: int, j: int|
                0 <= k < i && 0 <= j < all@[k]@.len() ==> max_v >= #[trigger] all@[k]@[j].1,
            exists|k: int, j: int|
                0 <= k < i && 0 <= j < all@[k]@.len() && max_v == #[trigger] all@[k]@[j].1,
        decreases n - i,
    {
        let s = &all[i];
        assert(all@[i as int]@.len() > 0);
        assert(s.points@.len() == all@[i as int]@.len());
        let ft = s.points[0].t;
        assert(ft == all@[i as int]@[0].0);
        if ft < min_t {
            min_t = ft;
        }
        let lt = s.points[s.points.len() - 1].t;
        assert(lt == all@[i as int]@[all@[i as int]@.len() - 1].0);
        if lt > max_t {
            max_t = lt;
        }
        let mv = min_value(s);
        if mv < min_v {
            min_v = mv;
        }
        let xv = max_value(s);
        if xv > max_v {
            max_v = xv;
        }
        i = i + 1;
    }
    Some(SeriesExtent { min_t, max_t, min_v, max_v })
}

} // verus!
