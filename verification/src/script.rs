//! The series of a graph: each series' points spread over the common
//! times of all series, and the series stacked on each other.

use vstd::prelude::*;
use crate::sorting::{stably_sorted, sort_by_key, lemma_stably_sorted, keys_ascending};
use crate::filter::Duration;
use crate::util::{decimal, push_decimal};

verus! {

/// Where the walk through the sparse points stands after `i` of the dense
/// times: the index of the next sparse point, or nothing where a sparse
/// point's time is not among the dense times at its place.
pub open spec fn match_next(xs: Seq<u64>, keys: Seq<u64>, i: nat) -> Option<int>
    decreases i,
{
    if i == 0 {
        Some(0)
    } else {
        match match_next(xs, keys, (i - 1) as nat) {
            None => None,
            Some(j) => {
                let x = xs[i - 1];
                if j < keys.len() {
                    if x < keys[j] {
                        if i == xs.len() { None } else { Some(j) }
                    } else if x == keys[j] {
                        Some(j + 1)
                    } else {
                        None
                    }
                } else {
                    Some(j)
                }
            },
        }
    }
}

/// The times of the sparse points.
pub open spec fn keys_of<V>(datapoints: Seq<(u64, V)>) -> Seq<u64> {
    datapoints.map_values(|p: (u64, V)| p.0)
}

/// Whether the sparse points can be spread over the dense times: each
/// sparse time is one of the dense times, in the same order, and the dense
/// times start no later and end no earlier than the sparse ones.
pub open spec fn expandable<V>(xs: Seq<u64>, datapoints: Seq<(u64, V)>) -> bool {
    xs.len() > 0 && datapoints.len() > 0 ==> {
        &&& xs.len() >= datapoints.len()
        &&& xs[0] <= datapoints[0].0
        &&& xs.last() >= datapoints.last().0
        &&& match_next(xs, keys_of(datapoints), xs.len()) is Some
    }
}

/// The value at each of the first `i` dense times: that of the latest
/// sparse point at or before it, or `zero` before the first.
pub open spec fn spread<V>(xs: Seq<u64>, datapoints: Seq<(u64, V)>, zero: V, i: nat) -> (Seq<(u64, V)>, V)
    decreases i,
{
    if i == 0 {
        (Seq::empty(), zero)
    } else {
        let (points, last) = spread(xs, datapoints, zero, (i - 1) as nat);
        let x = xs[i - 1];
        match match_next(xs, keys_of(datapoints), (i - 1) as nat) {
            Some(j) => if j < datapoints.len() && x == datapoints[j].0 {
                (points.push((x, datapoints[j].1)), datapoints[j].1)
            } else {
                (points.push((x, last)), last)
            },
            None => (points, last),
        }
    }
}

/// The sparse points spread over all the dense times.
pub open spec fn expanded<V>(xs: Seq<u64>, datapoints: Seq<(u64, V)>, zero: V) -> Seq<(u64, V)> {
    if xs.len() == 0 {
        Seq::empty()
    } else {
        spread(xs, datapoints, zero, xs.len()).0
    }
}

/// Spreads sparse points over dense times, with `zero` before the first
/// point.
pub fn expand_datapoints_from<V: Copy>(xs: &[u64], datapoints: &[(u64, V)], zero: V) -> (expanded_points: Vec<(u64, V)>)
    requires
        expandable(xs@, datapoints@),
    ensures
        expanded_points@ == expanded(xs@, datapoints@, zero),
        expanded_points@.len() == xs@.len(),
{
    let mut out: Vec<(u64, V)> = Vec::new();
    if xs.len() == 0 {
        return out;
    }
    let ghost keys = keys_of(datapoints@);
    let mut next: usize = 0;
    let mut last = zero;
    let mut i: usize = 0;
    while i < xs.len()
        invariant
            0 < xs@.len(),
            expandable(xs@, datapoints@),
            keys == keys_of(datapoints@),
            0 <= i <= xs@.len(),
            match_next(xs@, keys, i as nat) == Some(next as int),
            next <= datapoints@.len(),
            (out@, last) == spread(xs@, datapoints@, zero, i as nat),
            out@.len() == i,
        decreases xs@.len() - i,
    {
        let x = xs[i];
        let ghost before = out@;
        proof {
            if datapoints@.len() > 0 {
                lemma_match_some_prefix(xs@, keys, xs@.len(), (i + 1) as nat);
            }
            if next < datapoints@.len() {
                assert(keys[next as int] == datapoints@[next as int].0);
            }
        }
        if next < datapoints.len() && x == datapoints[next].0 {
            last = datapoints[next].1;
            out.push((x, last));
            next = next + 1;
        } else {
            out.push((x, last));
        }
        i = i + 1;
        proof {
            assert(spread(xs@, datapoints@, zero, i as nat) == (out@, last));
        }
    }
    out
}

/// Where the walk succeeds to the end, it succeeds on the way.
proof fn lemma_match_some_prefix(xs: Seq<u64>, keys: Seq<u64>, n: nat, i: nat)
    requires
        i <= n,
        match_next(xs, keys, n) is Some,
    ensures
        match_next(xs, keys, i) is Some,
    decreases n - i,
{
    if i < n {
        lemma_match_some_prefix(xs, keys, (n - 1) as nat, i);
    }
}

/// Spreads sparse points over dense times, with the type's default value
/// before the first point.
pub fn expand_datapoints<V: Copy + Default>(xs: &[u64], datapoints: &[(u64, V)]) -> (expanded_points: Vec<(u64, V)>)
    requires
        expandable(xs@, datapoints@),
    ensures
        exists|zero: V| call_ensures(V::default, (), zero) && expanded_points@ == expanded(xs@, datapoints@, zero),
{
    let zero = V::default();
    expand_datapoints_from(xs, datapoints, zero)
}

/// The times, each paired with itself for sorting.
pub open spec fn time_entries(xs: Seq<u64>) -> Seq<(u64, u64)> {
    xs.map_values(|x: u64| (x, x))
}

/// The times in ascending order.
pub open spec fn sorted_times(xs: Seq<u64>) -> Seq<u64> {
    stably_sorted(time_entries(xs)).map_values(|e: (u64, u64)| e.0)
}

/// Each series spread over the times, where it has points at all.
pub open spec fn spread_series(xs: Seq<u64>, series: Seq<Seq<(u64, u64)>>) -> Seq<Seq<(u64, u64)>> {
    series.map_values(|s: Seq<(u64, u64)>| if s.len() == 0 { s } else { expanded(xs, s, 0u64) })
}

/// The sum at the `i`-th time of the first `k` series that have points.
pub open spec fn stacked_value(series: Seq<Seq<(u64, u64)>>, k: nat, i: int) -> int
    decreases k,
{
    if k == 0 {
        0
    } else {
        stacked_value(series, (k - 1) as nat, i) + if series[k - 1].len() == 0 {
            0
        } else {
            series[k - 1][i].1 as int
        }
    }
}

/// The series stacked on each other: each point of a series holds the sum
/// of its value and those of the series before it at the same time.
pub open spec fn stacked(series: Seq<Seq<(u64, u64)>>) -> Seq<Seq<(u64, u64)>> {
    Seq::new(
        series.len(),
        |k: int|
            if series[k].len() == 0 {
                series[k]
            } else {
                Seq::new(series[k].len(), |i: int| (series[k][i].0, stacked_value(series, (k + 1) as nat, i) as u64))
            },
    )
}

/// Whether the series can be finalized over the times: each spreads over
/// them, and no stacked sum outgrows 64 bits.
pub open spec fn can_finalize(xs: Seq<u64>, series: Seq<Seq<(u64, u64)>>) -> bool {
    let times = sorted_times(xs);
    let spread_out = spread_series(times, series);
    &&& forall|k: int| 0 <= k < series.len() ==> #[trigger] expandable(times, series[k])
    &&& forall|k: int, i: int|
        0 <= k < series.len() && 0 <= i < xs.len() ==> #[trigger] stacked_value(spread_out, (k + 1) as nat, i)
            <= u64::MAX
}

/// Sorts the times, spreads each series over them and stacks the series.
pub fn finalize_datapoints(xs: Vec<u64>, datapoints_for_ops: Vec<Vec<(u64, u64)>>) -> (result: (
    Vec<u64>,
    Vec<Vec<(u64, u64)>>,
))
    requires
        can_finalize(xs@, datapoints_for_ops@.map_values(|s: Vec<(u64, u64)>| s@)),
    ensures
        result.0@ == sorted_times(xs@),
        result.1@.map_values(|s: Vec<(u64, u64)>| s@) == stacked(
            spread_series(sorted_times(xs@), datapoints_for_ops@.map_values(|s: Vec<(u64, u64)>| s@)),
        ),
{
    let ghost series = datapoints_for_ops@.map_values(|s: Vec<(u64, u64)>| s@);
    let n = xs.len();
    let mut entries: Vec<(u64, u64)> = Vec::new();
    let mut i: usize = 0;
    while i < n
        invariant
            n == xs@.len(),
            0 <= i <= n,
            entries@ == time_entries(xs@).take(i as int),
        decreases n - i,
    {
        entries.push((xs[i], xs[i]));
        i = i + 1;
        proof {
            assert(entries@ =~= time_entries(xs@).take(i as int));
        }
    }
    proof {
        assert(entries@ =~= time_entries(xs@));
        lemma_stably_sorted(time_entries(xs@));
    }
    sort_by_key(&mut entries);
    let mut times: Vec<u64> = Vec::new();
    let mut j: usize = 0;
    while j < n
        invariant
            n == entries@.len(),
            0 <= j <= n,
            times@ == entries@.map_values(|e: (u64, u64)| e.0).take(j as int),
        decreases n - j,
    {
        times.push(entries[j].0);
        j = j + 1;
        proof {
            assert(times@ =~= entries@.map_values(|e: (u64, u64)| e.0).take(j as int));
        }
    }
    proof {
        assert(times@ =~= sorted_times(xs@));
    }
    let ghost spread_out = spread_series(times@, series);
    let count = datapoints_for_ops.len();
    let mut running: Vec<u64> = Vec::new();
    while running.len() < n
        invariant
            running@.len() <= n,
            forall|x: int| 0 <= x < running@.len() ==> #[trigger] running@[x] == 0,
        decreases n - running@.len(),
    {
        running.push(0);
    }
    let mut result: Vec<Vec<(u64, u64)>> = Vec::new();
    let mut k: usize = 0;
    while k < count
        invariant
            count == datapoints_for_ops@.len(),
            series == datapoints_for_ops@.map_values(|s: Vec<(u64, u64)>| s@),
            can_finalize(xs@, series),
            times@ == sorted_times(xs@),
            spread_out == spread_series(times@, series),
            n == xs@.len(),
            times@.len() == n,
            0 <= k <= count,
            running@.len() == n,
            forall|x: int| 0 <= x < n ==> #[trigger] running@[x] == stacked_value(spread_out, k as nat, x),
            result@.len() == k,
            forall|m: int| 0 <= m < k ==> #[trigger] result@[m]@ == stacked(spread_out)[m],
        decreases count - k,
    {
        let points = &datapoints_for_ops[k];
        proof {
            assert(series[k as int] == points@);
            assert(expandable(times@, series[k as int]));
        }
        if points.len() == 0 {
            proof {
                assert(spread_out[k as int] == points@);
                assert forall|x: int| 0 <= x < n implies #[trigger] running@[x] == stacked_value(spread_out, (k + 1) as nat, x) by {
                }
            }
            result.push(Vec::new());
            proof {
                assert(result@[k as int]@ =~= stacked(spread_out)[k as int]);
            }
        } else {
            let spread_points = expand_datapoints_from(times.as_slice(), points.as_slice(), 0u64);
            proof {
                assert(spread_out[k as int] == spread_points@);
            }
            let mut stacked_points: Vec<(u64, u64)> = Vec::new();
            let mut x: usize = 0;
            while x < n
                invariant
                    n == spread_points@.len(),
                    spread_out[k as int] == spread_points@,
                    can_finalize(xs@, series),
                    spread_out == spread_series(sorted_times(xs@), series),
                    n == xs@.len(),
                    k < count,
                    count == series.len(),
                    0 <= x <= n,
                    running@.len() == n,
                    forall|y: int| x <= y < n ==> #[trigger] running@[y] == stacked_value(spread_out, k as nat, y),
                    forall|y: int| 0 <= y < x ==> #[trigger] running@[y] == stacked_value(spread_out, (k + 1) as nat, y),
                    stacked_points@.len() == x,
                    forall|y: int| 0 <= y < x ==> #[trigger] stacked_points@[y] == (spread_points@[y].0, stacked_value(spread_out, (k + 1) as nat, y) as u64),
                decreases n - x,
            {
                proof {
                    assert(stacked_value(spread_out, (k + 1) as nat, x as int) <= u64::MAX);
                }
                let value = running[x] + spread_points[x].1;
                running.set(x, value);
                stacked_points.push((spread_points[x].0, value));
                x = x + 1;
            }
            result.push(stacked_points);
            proof {
                assert(result@[k as int]@ =~= stacked(spread_out)[k as int]);
            }
        }
        k = k + 1;
    }
    proof {
        assert(result@.map_values(|s: Vec<(u64, u64)>| s@) =~= stacked(spread_out));
    }
    (times, result)
}

/// The times come out in ascending order, as many as went in.
pub proof fn lemma_sorted_times_ascend(xs: Seq<u64>)
    ensures
        sorted_times(xs).len() == xs.len(),
        forall|i: int, j: int| 0 <= i <= j < xs.len() ==> sorted_times(xs)[i] <= sorted_times(xs)[j],
{
    lemma_stably_sorted(time_entries(xs));
    let sorted = stably_sorted(time_entries(xs));
    assert forall|i: int, j: int| 0 <= i <= j < xs.len() implies sorted_times(xs)[i] <= sorted_times(xs)[j] by {
        if i < j {
            assert(keys_ascending(sorted));
            assert(sorted[i].0 <= sorted[j].0);
        }
    }
}

/// How many steps of `scale` cover `width`, rounded up.
pub open spec fn steps(width: int, scale: int) -> int {
    (width + scale - 1) / scale
}

/// The step between the points of an axis over `width`: starting from
/// `scale`, the first of twice, five times and ten times the step that
/// needs fewer than `max_points` points, as soon as the step needs more
/// than `max_points`.
pub open spec fn axis_scale(width: nat, max_points: nat, scale: nat) -> nat
    decreases (if scale == 0 || scale > width { 0 } else { width + 1 - scale }),
{
    if scale == 0 || max_points == 0 || steps(width as int, scale as int) <= max_points {
        scale
    } else if steps(width as int, (2 * scale) as int) < max_points {
        2 * scale
    } else if steps(width as int, (5 * scale) as int) < max_points {
        5 * scale
    } else if steps(width as int, (10 * scale) as int) < max_points {
        10 * scale
    } else {
        proof {
            lemma_steps_above_one(width as int, scale as int);
        }
        axis_scale(width, max_points, 10 * scale)
    }
}

/// Where more than one step of `scale` is needed, the width exceeds it.
pub proof fn lemma_steps_above_one(width: int, scale: int)
    requires
        scale > 0,
        width >= 0,
        steps(width, scale) > 1,
    ensures
        scale < width,
{
    if width <= scale {
        assert(width + scale - 1 < 2 * scale);
        assert((width + scale - 1) / scale < 2) by (nonlinear_arith)
            requires
                scale > 0,
                0 <= width + scale - 1 < 2 * scale,
        ;
    }
}

/// Whether the search for the step stays within 64 bits.
pub open spec fn axis_fits(width: nat, max_points: nat, scale: nat) -> bool
    decreases (if scale == 0 || scale > width { 0 } else { width + 1 - scale }),
{
    &&& width + scale - 1 <= u64::MAX
    &&& (scale == 0 || max_points == 0 || steps(width as int, scale as int) <= max_points || {
        &&& 10 * scale <= u64::MAX
        &&& width + 2 * scale - 1 <= u64::MAX
        &&& (steps(width as int, (2 * scale) as int) < max_points || {
            &&& width + 5 * scale - 1 <= u64::MAX
            &&& (steps(width as int, (5 * scale) as int) < max_points || {
                &&& width + 10 * scale - 1 <= u64::MAX
                &&& (steps(width as int, (10 * scale) as int) < max_points || {
                    proof {
                        lemma_steps_above_one(width as int, scale as int);
                    }
                    axis_fits(width, max_points, 10 * scale)
                })
            })
        })
    })
}

/// The multiples of `scale` from `left` up to `right`.
pub open spec fn multiples(left: int, right: int, scale: int) -> Seq<u64>
    decreases (if left > right { 0 } else { right + 1 - left }),
{
    if scale <= 0 || left > right {
        Seq::empty()
    } else {
        seq![left as u64] + multiples(left + scale, right, scale)
    }
}

/// The lower and the upper end of a range.
pub open spec fn ordered(range: (u64, u64)) -> (u64, u64) {
    if range.0 <= range.1 { range } else { (range.1, range.0) }
}

/// Whether the points of an axis over `range` can be worked out in 64
/// bits: a count of points is asked for where the range is wide, the
/// search for the step and the first point stay within 64 bits, and so
/// does the step past the last point.
pub open spec fn keypoints_fit(range: (u64, u64), max_points: usize) -> bool {
    let (low, high) = ordered(range);
    let width = (high - low) as nat;
    let scale = axis_scale(width, max_points as nat, 1) as int;
    &&& max_points > 0 || width == 0
    &&& axis_fits(width, max_points as nat, 1)
    &&& low + (scale - (low as int) % scale) % scale <= u64::MAX
    &&& high - (high as int) % scale + scale <= u64::MAX
}

/// The points of an axis over `range`: the multiples of the chosen step
/// within it.
pub open spec fn keypoints(range: (u64, u64), max_points: usize) -> Seq<u64> {
    let (low, high) = ordered(range);
    let scale = axis_scale((high - low) as nat, max_points as nat, 1) as int;
    multiples(low + (scale - (low as int) % scale) % scale, high - (high as int) % scale, scale)
}

/// Where the search for the step starts from a positive step and points
/// are asked for, it ends on a positive step.
proof fn lemma_axis_scale_positive(width: nat, max_points: nat, scale: nat)
    requires
        scale > 0,
    ensures
        axis_scale(width, max_points, scale) >= scale,
    decreases (if scale == 0 || scale > width { 0 } else { width + 1 - scale }),
{
    if !(max_points == 0 || steps(width as int, scale as int) <= max_points) && steps(width as int, (2 * scale) as int)
        >= max_points && steps(width as int, (5 * scale) as int) >= max_points && steps(width as int, (10 * scale) as int) >= max_points {
        lemma_steps_above_one(width as int, scale as int);
        lemma_axis_scale_positive(width, max_points, 10 * scale);
    }
}

/// The points of an axis over `range`, at most about `max_points` of them,
/// on round multiples.
pub fn gen_keypoints(range: (u64, u64), max_points: usize) -> (points: Vec<u64>)
    requires
        keypoints_fit(range, max_points),
    ensures
        points@ == keypoints(range, max_points),
{
    let low = if range.0 < range.1 { range.0 } else { range.1 };
    let high = if range.0 < range.1 { range.1 } else { range.0 };
    let width = high - low;
    let max = max_points as u64;
    let ghost w = width as nat;
    let ghost m = max_points as nat;
    let mut scale: u64 = 1;
    proof {
        assert(ordered(range) == (low, high));
        lemma_axis_scale_positive(w, m, 1);
    }
    loop
        invariant_except_break
            scale >= 1,
            max == m,
            m > 0 || w == 0,
            width == w,
            axis_fits(w, m, scale as nat),
            axis_scale(w, m, scale as nat) == axis_scale(w, m, 1),
        ensures
            scale >= 1,
            scale == axis_scale(w, m, 1),
        decreases (if scale > w { 0 } else { w + 1 - scale }),
    {
        if (width + (scale - 1)) / scale <= max {
            break;
        }
        proof {
            lemma_steps_above_one(w as int, scale as int);
        }
        let next_scale = scale * 10;
        if (width + (scale * 2 - 1)) / (scale * 2) < max {
            scale = scale * 2;
            break;
        }
        if (width + (scale * 5 - 1)) / (scale * 5) < max {
            scale = scale * 5;
            break;
        }
        if (width + (scale * 10 - 1)) / (scale * 10) < max {
            scale = scale * 10;
            break;
        }
        scale = next_scale;
    }
    assert(high % scale <= high) by (nonlinear_arith)
        requires
            scale >= 1,
    ;
    let left_start = low + (scale - low % scale) % scale;
    let right = high - high % scale;
    let mut left = left_start;
    let mut points: Vec<u64> = Vec::new();
    proof {
        assert(points@ + multiples(left as int, right as int, scale as int) =~= multiples(left as int, right as int, scale as int));
    }
    while left <= right
        invariant
            scale >= 1,
            right + scale <= u64::MAX,
            points@ + multiples(left as int, right as int, scale as int) == multiples(
                left_start as int,
                right as int,
                scale as int,
            ),
        decreases (if left > right { 0 } else { right + 1 - left }),
    {
        let ghost before = points@;
        points.push(left);
        proof {
            assert(multiples(left as int, right as int, scale as int) == seq![left] + multiples(
                left + scale,
                right as int,
                scale as int,
            ));
            assert(points@ + multiples(left + scale, right as int, scale as int) =~= before + multiples(
                left as int,
                right as int,
                scale as int,
            ));
        }
        left = left + scale;
    }
    proof {
        assert(points@ + multiples(left as int, right as int, scale as int) =~= points@);
    }
    points
}

/// Microseconds in a millisecond, a second, a minute, an hour and a day.
pub const MS: u64 = 1000;
pub const SECOND: u64 = 1000_000;
pub const MINUTE: u64 = 60_000_000;
pub const HOUR: u64 = 3600_000_000;
pub const DAY: u64 = 86400_000_000;

/// A duration split into days, hours, minutes, seconds, milliseconds and
/// microseconds.
#[derive(Copy, Clone, Debug, PartialEq, Eq)]
pub struct DecomposedDuration {
    pub days: u64,
    pub hours: u64,
    pub minutes: u64,
    pub secs: u64,
    pub ms: u64,
    pub us: u64,
}

proof fn lemma_split(x: int, d: int)
    requires
        0 <= x,
        0 < d,
    ensures
        x - (x / d) * d == x % d,
        0 <= x % d < d,
        (x / d) * d <= x,
{
    vstd::arithmetic::div_mod::lemma_fundamental_div_mod(x, d);
    vstd::arithmetic::mul::lemma_mul_is_commutative(d, x / d);
}

impl Duration {
    /// The duration in days, hours, minutes, seconds, milliseconds and
    /// microseconds, each part below the unit above it; together they make
    /// up the whole duration.
    pub fn decompose(self) -> (parts: DecomposedDuration)
        ensures
            parts.days == self.0.0 / DAY,
            parts.hours == self.0.0 % DAY / HOUR,
            parts.minutes == self.0.0 % HOUR / MINUTE,
            parts.secs == self.0.0 % MINUTE / SECOND,
            parts.ms == self.0.0 % SECOND / MS,
            parts.us == self.0.0 % MS,
            parts.hours < 24 && parts.minutes < 60 && parts.secs < 60 && parts.ms < 1000 && parts.us < 1000,
            parts.days * DAY + parts.hours * HOUR + parts.minutes * MINUTE + parts.secs * SECOND
                + parts.ms * MS + parts.us == self.0.0,
    {
        let mut us = self.0.as_usecs();
        let days = us / DAY;
        proof { lemma_split(us as int, DAY as int); }
        us = us - days * DAY;
        let hours = us / HOUR;
        proof { lemma_split(us as int, HOUR as int); }
        us = us - hours * HOUR;
        let minutes = us / MINUTE;
        proof { lemma_split(us as int, MINUTE as int); }
        us = us - minutes * MINUTE;
        let secs = us / SECOND;
        proof { lemma_split(us as int, SECOND as int); }
        us = us - secs * SECOND;
        let ms = us / MS;
        proof { lemma_split(us as int, MS as int); }
        us = us - ms * MS;
        proof {
            let t = self.0.0 as int;
            vstd::arithmetic::div_mod::lemma_mod_mod(t, HOUR as int, 24);
            vstd::arithmetic::div_mod::lemma_mod_mod(t, MINUTE as int, 60);
            vstd::arithmetic::div_mod::lemma_mod_mod(t, SECOND as int, 60);
            vstd::arithmetic::div_mod::lemma_mod_mod(t, MS as int, 1000);
            lemma_split(t % DAY as int, HOUR as int);
            lemma_split(t % HOUR as int, MINUTE as int);
            lemma_split(t % MINUTE as int, SECOND as int);
            lemma_split(t % SECOND as int, MS as int);
            vstd::arithmetic::div_mod::lemma_div_is_ordered_by_denominator(t % DAY as int, HOUR as int, DAY as int);
        }
        DecomposedDuration { days, hours, minutes, secs, ms, us }
    }
}

/// `text` followed by one part of a duration: nothing where the part is
/// zero, else its number and unit, after a space where `text` is not empty.
#[verifier::opaque]
pub open spec fn with_part(text: Seq<char>, value: u64, unit: Seq<char>) -> Seq<char> {
    if value == 0 {
        text
    } else if text.len() == 0 {
        decimal(value as nat) + unit
    } else {
        text + seq![' '] + decimal(value as nat) + unit
    }
}

/// A decomposed duration as text: the parts that are not zero, largest
/// first, each with its unit, separated by spaces.
pub open spec fn duration_text(d: DecomposedDuration) -> Seq<char> {
    let days = with_part(Seq::empty(), d.days, seq!['d']);
    let hours = with_part(days, d.hours, seq!['h']);
    let minutes = with_part(hours, d.minutes, seq!['m']);
    let secs = with_part(minutes, d.secs, seq!['s']);
    let ms = with_part(secs, d.ms, seq!['m', 's']);
    with_part(ms, d.us, seq!['u', 's'])
}

fn push_part(out: &mut String, value: u64, unit: &str)
    ensures
        final(out)@ == with_part(old(out)@, value, unit@),
{
    proof { reveal(with_part); }
    if value > 0 {
        proof { reveal_strlit(" "); }
        let non_empty = !out.as_str().is_empty();
        if non_empty {
            out.append(" ");
        }
        push_decimal(out, value);
        out.append(unit);
        proof {
            if old(out)@.len() == 0 {
                assert(out@ =~= decimal(value as nat) + unit@);
            } else {
                assert(out@ =~= old(out)@ + seq![' '] + decimal(value as nat) + unit@);
            }
        }
    }
}

impl DecomposedDuration {
    /// The duration as text, such as `1h 30m 5s` or `250ms 3us`; empty for
    /// a duration of zero.
    pub fn to_text(&self) -> (text: String)
        ensures
            text@ == duration_text(*self),
    {
        proof {
            reveal_strlit("d");
            reveal_strlit("h");
            reveal_strlit("m");
            reveal_strlit("s");
            reveal_strlit("ms");
            reveal_strlit("us");
            assert("d"@ =~= seq!['d']);
            assert("h"@ =~= seq!['h']);
            assert("m"@ =~= seq!['m']);
            assert("s"@ =~= seq!['s']);
            assert("ms"@ =~= seq!['m', 's']);
            assert("us"@ =~= seq!['u', 's']);
        }
        let mut text = String::new();
        push_part(&mut text, self.days, "d");
        push_part(&mut text, self.hours, "h");
        push_part(&mut text, self.minutes, "m");
        push_part(&mut text, self.secs, "s");
        push_part(&mut text, self.ms, "ms");
        push_part(&mut text, self.us, "us");
        text
    }
}

} // verus!
