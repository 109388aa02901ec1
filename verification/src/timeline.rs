//! Timelines: a stream of timed changes, sampled into points of a fixed
//! granularity, each with the highest value reached in its interval and the
//! growth and shrinkage within it.

use vstd::prelude::*;
use crate::timestamp::Timestamp;
use crate::ids::{AllocationId, OperationId, operation_kind_of, operation_target_of};
use crate::data::Allocation;
use crate::loaded::Data;

verus! {

/// A change of one or more quantities, which can be added up, compared
/// component by component, and cut at zero.
pub trait Delta: Copy + Sized {
    /// The sum of two changes.
    spec fn plus(self, other: Self) -> Self;

    /// The difference of two changes.
    spec fn minus(self, other: Self) -> Self;

    /// The larger of each component.
    spec fn larger(self, other: Self) -> Self;

    /// The smaller of each component.
    spec fn smaller(self, other: Self) -> Self;

    /// No change.
    spec fn zero() -> Self;

    /// Whether the sum fits.
    spec fn can_add(self, other: Self) -> bool;

    /// Whether the difference fits.
    spec fn can_sub(self, other: Self) -> bool;

    fn nothing() -> (r: Self)
        ensures
            r == Self::zero(),
    ;

    fn add_delta(self, other: Self) -> (r: Self)
        requires
            self.can_add(other),
        ensures
            r == self.plus(other),
    ;

    fn sub_delta(self, other: Self) -> (r: Self)
        requires
            self.can_sub(other),
        ensures
            r == self.minus(other),
    ;

    fn max(lhs: Self, rhs: Self) -> (r: Self)
        ensures
            r == lhs.larger(rhs),
    ;

    fn min(lhs: Self, rhs: Self) -> (r: Self)
        ensures
            r == lhs.smaller(rhs),
    ;

    /// The change with its negative components raised to zero.
    fn at_least_zero(self) -> (r: Self)
        ensures
            r == self.larger(Self::zero()),
    {
        Self::max(self, Self::nothing())
    }

    /// The change with its positive components lowered to zero.
    fn at_most_zero(self) -> (r: Self)
        ensures
            r == self.smaller(Self::zero()),
    {
        Self::min(self, Self::nothing())
    }
}

pub open spec fn i64_fits(value: int) -> bool {
    i64::MIN <= value <= i64::MAX
}

pub open spec fn max_int(a: int, b: int) -> int {
    if a >= b {
        a
    } else {
        b
    }
}

pub open spec fn min_int(a: int, b: int) -> int {
    if a <= b {
        a
    } else {
        b
    }
}

fn max_i64(a: i64, b: i64) -> (r: i64)
    ensures
        r == max_int(a as int, b as int),
{
    if a >= b {
        a
    } else {
        b
    }
}

fn min_i64(a: i64, b: i64) -> (r: i64)
    ensures
        r == min_int(a as int, b as int),
{
    if a <= b {
        a
    } else {
        b
    }
}

impl Delta for i64 {
    open spec fn plus(self, other: Self) -> Self {
        (self + other) as i64
    }

    open spec fn minus(self, other: Self) -> Self {
        (self - other) as i64
    }

    open spec fn larger(self, other: Self) -> Self {
        max_int(self as int, other as int) as i64
    }

    open spec fn smaller(self, other: Self) -> Self {
        min_int(self as int, other as int) as i64
    }

    open spec fn zero() -> Self {
        0
    }

    open spec fn can_add(self, other: Self) -> bool {
        i64_fits(self + other)
    }

    open spec fn can_sub(self, other: Self) -> bool {
        i64_fits(self - other)
    }

    fn nothing() -> (r: Self) {
        0
    }

    fn add_delta(self, other: Self) -> (r: Self) {
        self + other
    }

    fn sub_delta(self, other: Self) -> (r: Self) {
        self - other
    }

    fn max(lhs: Self, rhs: Self) -> (r: Self) {
        max_i64(lhs, rhs)
    }

    fn min(lhs: Self, rhs: Self) -> (r: Self) {
        min_i64(lhs, rhs)
    }
}

/// A change in memory usage and in the number of allocations.
#[derive(Copy, Clone, Default, Debug, PartialEq, Eq, Structural)]
pub struct AllocationDelta {
    pub memory_usage: i64,
    pub allocations: i64,
}

impl Delta for AllocationDelta {
    open spec fn plus(self, other: Self) -> Self {
        AllocationDelta {
            memory_usage: (self.memory_usage + other.memory_usage) as i64,
            allocations: (self.allocations + other.allocations) as i64,
        }
    }

    open spec fn minus(self, other: Self) -> Self {
        AllocationDelta {
            memory_usage: (self.memory_usage - other.memory_usage) as i64,
            allocations: (self.allocations - other.allocations) as i64,
        }
    }

    open spec fn larger(self, other: Self) -> Self {
        AllocationDelta {
            memory_usage: max_int(self.memory_usage as int, other.memory_usage as int) as i64,
            allocations: max_int(self.allocations as int, other.allocations as int) as i64,
        }
    }

    open spec fn smaller(self, other: Self) -> Self {
        AllocationDelta {
            memory_usage: min_int(self.memory_usage as int, other.memory_usage as int) as i64,
            allocations: min_int(self.allocations as int, other.allocations as int) as i64,
        }
    }

    open spec fn zero() -> Self {
        AllocationDelta { memory_usage: 0, allocations: 0 }
    }

    open spec fn can_add(self, other: Self) -> bool {
        i64_fits(self.memory_usage + other.memory_usage) && i64_fits(self.allocations + other.allocations)
    }

    open spec fn can_sub(self, other: Self) -> bool {
        i64_fits(self.memory_usage - other.memory_usage) && i64_fits(self.allocations - other.allocations)
    }

    fn nothing() -> (r: Self) {
        AllocationDelta { memory_usage: 0, allocations: 0 }
    }

    fn add_delta(self, other: Self) -> (r: Self) {
        AllocationDelta {
            memory_usage: self.memory_usage + other.memory_usage,
            allocations: self.allocations + other.allocations,
        }
    }

    fn sub_delta(self, other: Self) -> (r: Self) {
        AllocationDelta {
            memory_usage: self.memory_usage - other.memory_usage,
            allocations: self.allocations - other.allocations,
        }
    }

    fn max(lhs: Self, rhs: Self) -> (r: Self) {
        AllocationDelta {
            memory_usage: max_i64(lhs.memory_usage, rhs.memory_usage),
            allocations: max_i64(lhs.allocations, rhs.allocations),
        }
    }

    fn min(lhs: Self, rhs: Self) -> (r: Self) {
        AllocationDelta {
            memory_usage: min_i64(lhs.memory_usage, rhs.memory_usage),
            allocations: min_i64(lhs.allocations, rhs.allocations),
        }
    }
}

/// A change in the usage of a memory map, by kind of memory.
#[derive(Copy, Clone, Default, Debug, PartialEq, Eq, Structural)]
pub struct UsageDelta {
    pub address_space: i64,
    pub anonymous: i64,
    pub shared_clean: i64,
    pub shared_dirty: i64,
    pub private_clean: i64,
    pub private_dirty: i64,
    pub swap: i64,
}

impl Delta for UsageDelta {
    open spec fn plus(self, other: Self) -> Self {
        UsageDelta {
            address_space: (self.address_space + other.address_space) as i64,
            anonymous: (self.anonymous + other.anonymous) as i64,
            shared_clean: (self.shared_clean + other.shared_clean) as i64,
            shared_dirty: (self.shared_dirty + other.shared_dirty) as i64,
            private_clean: (self.private_clean + other.private_clean) as i64,
            private_dirty: (self.private_dirty + other.private_dirty) as i64,
            swap: (self.swap + other.swap) as i64,
        }
    }

    open spec fn minus(self, other: Self) -> Self {
        UsageDelta {
            address_space: (self.address_space - other.address_space) as i64,
            anonymous: (self.anonymous - other.anonymous) as i64,
            shared_clean: (self.shared_clean - other.shared_clean) as i64,
            shared_dirty: (self.shared_dirty - other.shared_dirty) as i64,
            private_clean: (self.private_clean - other.private_clean) as i64,
            private_dirty: (self.private_dirty - other.private_dirty) as i64,
            swap: (self.swap - other.swap) as i64,
        }
    }

    open spec fn larger(self, other: Self) -> Self {
        UsageDelta {
            address_space: max_int(self.address_space as int, other.address_space as int) as i64,
            anonymous: max_int(self.anonymous as int, other.anonymous as int) as i64,
            shared_clean: max_int(self.shared_clean as int, other.shared_clean as int) as i64,
            shared_dirty: max_int(self.shared_dirty as int, other.shared_dirty as int) as i64,
            private_clean: max_int(self.private_clean as int, other.private_clean as int) as i64,
            private_dirty: max_int(self.private_dirty as int, other.private_dirty as int) as i64,
            swap: max_int(self.swap as int, other.swap as int) as i64,
        }
    }

    open spec fn smaller(self, other: Self) -> Self {
        UsageDelta {
            address_space: min_int(self.address_space as int, other.address_space as int) as i64,
            anonymous: min_int(self.anonymous as int, other.anonymous as int) as i64,
            shared_clean: min_int(self.shared_clean as int, other.shared_clean as int) as i64,
            shared_dirty: min_int(self.shared_dirty as int, other.shared_dirty as int) as i64,
            private_clean: min_int(self.private_clean as int, other.private_clean as int) as i64,
            private_dirty: min_int(self.private_dirty as int, other.private_dirty as int) as i64,
            swap: min_int(self.swap as int, other.swap as int) as i64,
        }
    }

    open spec fn zero() -> Self {
        UsageDelta {
            address_space: 0,
            anonymous: 0,
            shared_clean: 0,
            shared_dirty: 0,
            private_clean: 0,
            private_dirty: 0,
            swap: 0,
        }
    }

    open spec fn can_add(self, other: Self) -> bool {
        &&& i64_fits(self.address_space + other.address_space)
        &&& i64_fits(self.anonymous + other.anonymous)
        &&& i64_fits(self.shared_clean + other.shared_clean)
        &&& i64_fits(self.shared_dirty + other.shared_dirty)
        &&& i64_fits(self.private_clean + other.private_clean)
        &&& i64_fits(self.private_dirty + other.private_dirty)
        &&& i64_fits(self.swap + other.swap)
    }

    open spec fn can_sub(self, other: Self) -> bool {
        &&& i64_fits(self.address_space - other.address_space)
        &&& i64_fits(self.anonymous - other.anonymous)
        &&& i64_fits(self.shared_clean - other.shared_clean)
        &&& i64_fits(self.shared_dirty - other.shared_dirty)
        &&& i64_fits(self.private_clean - other.private_clean)
        &&& i64_fits(self.private_dirty - other.private_dirty)
        &&& i64_fits(self.swap - other.swap)
    }

    fn nothing() -> (r: Self) {
        UsageDelta {
            address_space: 0,
            anonymous: 0,
            shared_clean: 0,
            shared_dirty: 0,
            private_clean: 0,
            private_dirty: 0,
            swap: 0,
        }
    }

    fn add_delta(self, other: Self) -> (r: Self) {
        UsageDelta {
            address_space: self.address_space + other.address_space,
            anonymous: self.anonymous + other.anonymous,
            shared_clean: self.shared_clean + other.shared_clean,
            shared_dirty: self.shared_dirty + other.shared_dirty,
            private_clean: self.private_clean + other.private_clean,
            private_dirty: self.private_dirty + other.private_dirty,
            swap: self.swap + other.swap,
        }
    }

    fn sub_delta(self, other: Self) -> (r: Self) {
        UsageDelta {
            address_space: self.address_space - other.address_space,
            anonymous: self.anonymous - other.anonymous,
            shared_clean: self.shared_clean - other.shared_clean,
            shared_dirty: self.shared_dirty - other.shared_dirty,
            private_clean: self.private_clean - other.private_clean,
            private_dirty: self.private_dirty - other.private_dirty,
            swap: self.swap - other.swap,
        }
    }

    fn max(lhs: Self, rhs: Self) -> (r: Self) {
        UsageDelta {
            address_space: max_i64(lhs.address_space, rhs.address_space),
            anonymous: max_i64(lhs.anonymous, rhs.anonymous),
            shared_clean: max_i64(lhs.shared_clean, rhs.shared_clean),
            shared_dirty: max_i64(lhs.shared_dirty, rhs.shared_dirty),
            private_clean: max_i64(lhs.private_clean, rhs.private_clean),
            private_dirty: max_i64(lhs.private_dirty, rhs.private_dirty),
            swap: max_i64(lhs.swap, rhs.swap),
        }
    }

    fn min(lhs: Self, rhs: Self) -> (r: Self) {
        UsageDelta {
            address_space: min_i64(lhs.address_space, rhs.address_space),
            anonymous: min_i64(lhs.anonymous, rhs.anonymous),
            shared_clean: min_i64(lhs.shared_clean, rhs.shared_clean),
            shared_dirty: min_i64(lhs.shared_dirty, rhs.shared_dirty),
            private_clean: min_i64(lhs.private_clean, rhs.private_clean),
            private_dirty: min_i64(lhs.private_dirty, rhs.private_dirty),
            swap: min_i64(lhs.swap, rhs.swap),
        }
    }
}

/// One point of a timeline: the highest value reached in its interval, and
/// how much was added and taken away within it.
#[derive(Copy, Clone, PartialEq, Eq, Debug)]
pub struct TimelinePoint<T> {
    pub timestamp: u64,
    pub value: T,
    pub positive_change: T,
    pub negative_change: T,
}

/// Where the sampling of a timeline stands: the interval being filled, the
/// running value, the highest value in the interval, what was added and
/// taken away in it, and the points of the intervals before it.
pub struct Sampling<T> {
    pub current_time: u64,
    pub current: T,
    pub current_max: T,
    pub positive: T,
    pub negative: T,
    pub output: Seq<TimelinePoint<T>>,
}

/// The sampling before any change.
pub open spec fn start_sampling<T: Delta>() -> Sampling<T> {
    Sampling {
        current_time: 0,
        current: T::zero(),
        current_max: T::zero(),
        positive: T::zero(),
        negative: T::zero(),
        output: Seq::empty(),
    }
}

/// The points of the intervals from `from` up to `to`: the first carries
/// what was gathered in it, the others keep the value and change nothing.
pub open spec fn gap_points<T: Delta>(
    from: u64,
    to: u64,
    granularity: u64,
    max: T,
    positive: T,
    negative: T,
) -> Seq<TimelinePoint<T>> {
    Seq::new(
        (to - from) as nat,
        |i: int|
            TimelinePoint {
                timestamp: ((from + i) * granularity) as u64,
                value: max.larger(T::zero()),
                positive_change: if i == 0 {
                    positive.larger(T::zero())
                } else {
                    T::zero().larger(T::zero())
                },
                negative_change: if i == 0 {
                    negative.larger(T::zero())
                } else {
                    T::zero().larger(T::zero())
                },
            },
    )
}

/// The sampling moved to the interval of `timestamp`: the first change
/// picks the interval; a later interval closes the ones before it; an
/// earlier one starts the highest value afresh.
pub open spec fn advanced<T: Delta>(s: Sampling<T>, granularity: u64, timestamp: Timestamp) -> Sampling<T> {
    let next_time = timestamp.0 / granularity;
    if s.current_time == 0 {
        Sampling { current_time: next_time, ..s }
    } else if s.current_time < next_time {
        Sampling {
            current_time: next_time,
            current_max: T::zero(),
            positive: T::zero(),
            negative: T::zero(),
            output: s.output + gap_points(
                s.current_time,
                next_time,
                granularity,
                s.current_max,
                s.positive,
                s.negative,
            ),
            ..s
        }
    } else if s.current_time > next_time {
        Sampling { current_max: T::zero(), ..s }
    } else {
        s
    }
}

/// The sampling after the change `delta` at `timestamp`.
pub open spec fn sample<T: Delta>(s: Sampling<T>, granularity: u64, timestamp: Timestamp, delta: T) -> Sampling<T> {
    let next = s.current.plus(delta);
    let moved = advanced(s, granularity, timestamp);
    Sampling {
        current: next,
        current_max: moved.current_max.larger(next),
        positive: moved.positive.plus(delta.larger(T::zero())),
        negative: moved.negative.minus(delta.smaller(T::zero())),
        ..moved
    }
}

/// Whether the sums of that change fit.
pub open spec fn can_sample<T: Delta>(s: Sampling<T>, granularity: u64, timestamp: Timestamp, delta: T) -> bool {
    let moved = advanced(s, granularity, timestamp);
    &&& s.current.can_add(delta)
    &&& moved.positive.can_add(delta.larger(T::zero()))
    &&& moved.negative.can_sub(delta.smaller(T::zero()))
}

/// The sampling after all of `ops`.
pub open spec fn sampled<T: Delta>(ops: Seq<(Timestamp, T)>, granularity: u64) -> Sampling<T>
    decreases ops.len(),
{
    if ops.len() == 0 {
        start_sampling()
    } else {
        sample(sampled(ops.drop_last(), granularity), granularity, ops.last().0, ops.last().1)
    }
}

/// Whether the sums of every change fit.
pub open spec fn samples_fit<T: Delta>(ops: Seq<(Timestamp, T)>, granularity: u64) -> bool
    decreases ops.len(),
{
    ops.len() == 0 || (samples_fit(ops.drop_last(), granularity) && can_sample(
        sampled(ops.drop_last(), granularity),
        granularity,
        ops.last().0,
        ops.last().1,
    ))
}

/// The points of a finished sampling: those of the closed intervals (or,
/// where there are none, a point of nothing), the last interval, and the
/// final value just after it.
pub open spec fn finished<T: Delta>(s: Sampling<T>, granularity: u64) -> Seq<TimelinePoint<T>> {
    let closed = if s.output.len() == 0 {
        seq![
            TimelinePoint {
                timestamp: (s.current_time * (if granularity > 0 { granularity - 1 } else { 0 })) as u64,
                value: T::zero(),
                positive_change: T::zero(),
                negative_change: T::zero(),
            },
        ]
    } else {
        s.output
    };
    closed.push(
        TimelinePoint {
            timestamp: (s.current_time * granularity) as u64,
            value: s.current_max.larger(T::zero()),
            positive_change: s.positive.larger(T::zero()),
            negative_change: s.negative.larger(T::zero()),
        },
    ).push(
        TimelinePoint {
            timestamp: (s.current_time * granularity + 1) as u64,
            value: s.current.larger(T::zero()),
            positive_change: T::zero(),
            negative_change: T::zero(),
        },
    )
}

/// The length of an interval: the span over the number of points, and at
/// least one.
pub open spec fn granularity_of(timestamp_min: Timestamp, timestamp_max: Timestamp, point_count: usize) -> u64 {
    let per_point = ((timestamp_max.0 - timestamp_min.0) / (point_count as int)) as u64;
    if per_point > 1 {
        per_point
    } else {
        1
    }
}

/// The timeline of `ops` between the two times, in about `point_count`
/// points.
pub open spec fn timeline<T: Delta>(
    timestamp_min: Timestamp,
    timestamp_max: Timestamp,
    point_count: usize,
    ops: Seq<(Timestamp, T)>,
) -> Seq<TimelinePoint<T>> {
    let granularity = granularity_of(timestamp_min, timestamp_max, point_count);
    finished(sampled(ops, granularity), granularity)
}

/// The changes added up in turn.
pub open spec fn total_change<T: Delta>(ops: Seq<(Timestamp, T)>) -> T
    decreases ops.len(),
{
    if ops.len() == 0 {
        T::zero()
    } else {
        total_change(ops.drop_last()).plus(ops.last().1)
    }
}

/// The running value of a sampling is the sum of its changes.
proof fn lemma_sampled_current<T: Delta>(ops: Seq<(Timestamp, T)>, granularity: u64)
    ensures
        sampled(ops, granularity).current == total_change(ops),
    decreases ops.len(),
{
    if ops.len() > 0 {
        lemma_sampled_current(ops.drop_last(), granularity);
    }
}

/// A timeline has at least three points, and the last gives the sum of all
/// the changes, or zero where that sum is below zero.
pub proof fn lemma_timeline_ends_with_the_total<T: Delta>(
    timestamp_min: Timestamp,
    timestamp_max: Timestamp,
    point_count: usize,
    ops: Seq<(Timestamp, T)>,
)
    ensures
        timeline(timestamp_min, timestamp_max, point_count, ops).len() >= 3,
        timeline(timestamp_min, timestamp_max, point_count, ops).last().value == total_change(ops).larger(
            T::zero(),
        ),
{
    lemma_sampled_current(ops, granularity_of(timestamp_min, timestamp_max, point_count));
}

proof fn lemma_bucket_start(t: u64, g: u64)
    requires
        g > 0,
    ensures
        (t / g) * g <= t,
{
    vstd::arithmetic::div_mod::lemma_fundamental_div_mod(t as int, g as int);
    assert((t / g) * g <= t) by (nonlinear_arith)
        requires
            t == g * (t / g) + t % g,
            t % g >= 0,
    ;
}

proof fn lemma_bucket_below(a: u64, b: u64, t: u64, g: u64)
    requires
        g > 0,
        a < b,
        b == t / g,
    ensures
        (a + 1) * g <= t,
        a * g <= t,
{
    lemma_bucket_start(t, g);
    assert((a + 1) * g <= b * g) by (nonlinear_arith)
        requires
            a + 1 <= b,
            g > 0,
    ;
    assert(a * g <= (a + 1) * g) by (nonlinear_arith)
        requires
            g > 0,
    ;
}

/// Samples `ops`, changes at given times, into about `point_count` points
/// between the two times: each point gives the highest value reached in its
/// interval, and what was added and taken away within it.
pub fn build_timeline<T: Delta>(
    timestamp_min: Timestamp,
    timestamp_max: Timestamp,
    point_count: usize,
    ops: &[(Timestamp, T)],
) -> (output: Vec<TimelinePoint<T>>)
    requires
        timestamp_min.0 <= timestamp_max.0,
        point_count > 0,
        samples_fit(ops@, granularity_of(timestamp_min, timestamp_max, point_count)),
        sampled(ops@, granularity_of(timestamp_min, timestamp_max, point_count)).current_time
            * granularity_of(timestamp_min, timestamp_max, point_count) + 1 <= u64::MAX,
    ensures
        output@ == timeline(timestamp_min, timestamp_max, point_count, ops@),
        output@.len() >= 3,
        output@.last().value == total_change(ops@).larger(T::zero()),
{
    proof {
        lemma_timeline_ends_with_the_total(timestamp_min, timestamp_max, point_count, ops@);
    }
    let span = timestamp_max.sub(timestamp_min).as_usecs();
    let per_point = span / point_count as u64;
    let granularity: u64 = if per_point > 1 {
        per_point
    } else {
        1
    };
    let ghost g = granularity;
    let mut output: Vec<TimelinePoint<T>> = Vec::new();
    let mut current_time: u64 = 0;
    let mut current = T::nothing();
    let mut current_max = T::nothing();
    let mut current_positive_per_time = T::nothing();
    let mut current_negative_per_time = T::nothing();
    let mut k: usize = 0;
    proof {
        assert(ops@.take(0) =~= Seq::<(Timestamp, T)>::empty());
        assert(output@ =~= Seq::<TimelinePoint<T>>::empty());
    }
    while k < ops.len()
        invariant
            g == granularity,
            g == granularity_of(timestamp_min, timestamp_max, point_count),
            g >= 1,
            0 <= k <= ops@.len(),
            samples_fit(ops@, g),
            (Sampling {
                current_time,
                current,
                current_max,
                positive: current_positive_per_time,
                negative: current_negative_per_time,
                output: output@,
            }) == sampled(ops@.take(k as int), g),
            current_time * g <= u64::MAX,
        decreases ops@.len() - k,
    {
        let ghost before = sampled(ops@.take(k as int), g);
        let (timestamp, delta) = ops[k];
        proof {
            assert(ops@.take(k + 1).drop_last() =~= ops@.take(k as int));
            assert(ops@.take(k + 1).last() == (timestamp, delta));
            lemma_samples_fit_prefix(ops@, g, k + 1);
        }
        let next = current.add_delta(delta);
        let next_time = timestamp.as_usecs() / granularity;
        proof {
            lemma_bucket_start(timestamp.0, g);
        }
        if current_time == 0 {
            current_time = next_time;
        } else if current_time != next_time {
            let ghost start_time = current_time;
            let ghost start_output = output@;
            let ghost start_positive = current_positive_per_time;
            let ghost start_negative = current_negative_per_time;
            proof {
                assert(output@ =~= start_output + gap_points(start_time, current_time, g, current_max, start_positive, start_negative));
            }
            while current_time < next_time
                invariant
                    g == granularity,
                    g >= 1,
                    next_time == timestamp.0 / g,
                    start_time <= next_time ==> start_time <= current_time <= next_time,
                    start_time > next_time ==> current_time == start_time,
                    output@ == start_output + gap_points(
                        start_time,
                        current_time,
                        g,
                        current_max,
                        start_positive,
                        start_negative,
                    ),
                    current_time == start_time ==> current_positive_per_time == start_positive
                        && current_negative_per_time == start_negative,
                    current_time > start_time ==> current_positive_per_time == T::zero()
                        && current_negative_per_time == T::zero(),
                decreases next_time - current_time,
            {
                proof {
                    lemma_bucket_below(current_time, next_time, timestamp.0, g);
                }
                let value = current_max.at_least_zero();
                let positive_change = current_positive_per_time.at_least_zero();
                let negative_change = current_negative_per_time.at_least_zero();
                let point = TimelinePoint {
                    timestamp: current_time * granularity,
                    value,
                    positive_change,
                    negative_change,
                };
                output.push(point);
                proof {
                    assert(output@ =~= start_output + gap_points(
                        start_time,
                        (current_time + 1) as u64,
                        g,
                        current_max,
                        start_positive,
                        start_negative,
                    ));
                }
                current_time = current_time + 1;
                current_positive_per_time = T::nothing();
                current_negative_per_time = T::nothing();
            }
            current_max = T::nothing();
        }
        proof {
            assert(advanced(before, g, timestamp) == (Sampling {
                current_time,
                current: before.current,
                current_max,
                positive: current_positive_per_time,
                negative: current_negative_per_time,
                output: output@,
            }));
        }
        current = next;
        current_max = T::max(current_max, next);
        current_positive_per_time = current_positive_per_time.add_delta(delta.at_least_zero());
        current_negative_per_time = current_negative_per_time.sub_delta(delta.at_most_zero());
        k = k + 1;
    }
    proof {
        assert(ops@.take(ops@.len() as int) =~= ops@);
    }
    if output.len() == 0 {
        proof {
            assert(current_time * (g - 1) <= current_time * g) by (nonlinear_arith)
                requires
                    g >= 1,
            ;
        }
        output.push(
            TimelinePoint {
                timestamp: current_time * granularity.saturating_sub(1),
                value: T::nothing(),
                positive_change: T::nothing(),
                negative_change: T::nothing(),
            },
        );
    }
    let value = current_max.at_least_zero();
    let positive_change = current_positive_per_time.at_least_zero();
    let negative_change = current_negative_per_time.at_least_zero();
    output.push(
        TimelinePoint { timestamp: current_time * granularity, value, positive_change, negative_change },
    );
    let value = current.at_least_zero();
    output.push(
        TimelinePoint {
            timestamp: current_time * granularity + 1,
            value,
            positive_change: T::nothing(),
            negative_change: T::nothing(),
        },
    );
    proof {
        assert(output@ =~= finished(sampled(ops@, g), g));
    }
    output
}

/// The timeline of changes in the usage of a memory map, in about a
/// thousand points.
pub fn build_map_timeline(
    timestamp_min: Timestamp,
    timestamp_max: Timestamp,
    ops: &[(Timestamp, UsageDelta)],
) -> (output: Vec<TimelinePoint<UsageDelta>>)
    requires
        timestamp_min.0 <= timestamp_max.0,
        samples_fit(ops@, granularity_of(timestamp_min, timestamp_max, 1000)),
        sampled(ops@, granularity_of(timestamp_min, timestamp_max, 1000)).current_time * granularity_of(
            timestamp_min,
            timestamp_max,
            1000,
        ) + 1 <= u64::MAX,
    ensures
        output@ == timeline(timestamp_min, timestamp_max, 1000, ops@),
        output@.len() >= 3,
        output@.last().value == total_change(ops@).larger(UsageDelta::zero()),
{
    proof {
        lemma_timeline_ends_with_the_total(timestamp_min, timestamp_max, 1000, ops@);
    }
    build_timeline(timestamp_min, timestamp_max, 1000, ops)
}

/// The change that an operation makes, and when: an allocation adds its
/// size and one allocation, a deallocation takes them away when it
/// happens, and a reallocation changes the size.
pub open spec fn operation_delta(allocations: Seq<Allocation>, op: OperationId) -> (Timestamp, AllocationDelta) {
    let allocation = allocations[operation_target_of(op.0) as int];
    let kind = operation_kind_of(op.0);
    if kind == 0 {
        (allocation.timestamp, AllocationDelta { memory_usage: allocation.size as i64, allocations: 1 })
    } else if kind == 1 {
        (
            allocation.deallocation.unwrap().timestamp,
            AllocationDelta { memory_usage: -(allocation.size as i64) as i64, allocations: -1i64 },
        )
    } else {
        let old = allocations[allocation.reallocated_from.unwrap().0 as int];
        (
            allocation.timestamp,
            AllocationDelta {
                memory_usage: (allocation.size as i64 - old.size as i64) as i64,
                allocations: 0,
            },
        )
    }
}

/// Whether the change of an operation can be worked out: the allocation
/// exists, a deallocation happened, a reallocation has what it was made
/// from, and the sizes fit 64 signed bits.
pub open spec fn operation_delta_defined(allocations: Seq<Allocation>, op: OperationId) -> bool {
    let id = operation_target_of(op.0);
    let kind = operation_kind_of(op.0);
    &&& id < allocations.len()
    &&& kind <= 2
    &&& kind == 1 ==> allocations[id as int].deallocation is Some && (allocations[id as int].size as i64)
        != i64::MIN
    &&& kind == 2 ==> {
        &&& allocations[id as int].reallocated_from is Some
        &&& allocations[id as int].reallocated_from.unwrap().0 < allocations.len()
        &&& i64_fits(
            (allocations[id as int].size as i64) - (allocations[allocations[id as int].reallocated_from.unwrap().0 as int].size as i64),
        )
    }
}

fn allocation_delta(data: &Data, op: OperationId) -> (change: (Timestamp, AllocationDelta))
    requires
        operation_delta_defined(data.allocations@, op),
    ensures
        change == operation_delta(data.allocations@, op),
{
    let allocation = data.get_allocation(op.id());
    if op.is_allocation() {
        (allocation.timestamp, AllocationDelta { memory_usage: allocation.size as i64, allocations: 1 })
    } else if op.is_deallocation() {
        let deallocation = allocation.deallocation.unwrap();
        (deallocation.timestamp, AllocationDelta { memory_usage: -(allocation.size as i64), allocations: -1 })
    } else {
        let old_allocation = data.get_allocation(allocation.reallocated_from.unwrap());
        (
            allocation.timestamp,
            AllocationDelta {
                memory_usage: allocation.size as i64 - old_allocation.size as i64,
                allocations: 0,
            },
        )
    }
}

/// What each kind of operation does to the timeline, where sizes fit a
/// signed 64-bit number: an allocation adds its size and one allocation
/// at the time it was made; a deallocation takes its size and one
/// allocation away at the time it was freed; a reallocation changes the
/// memory in use by the new size less the size of the allocation it
/// replaced, at the time it was made, and leaves the number of
/// allocations alone, so that over a chain of reallocations the memory in
/// use is the size of the allocation alive at its end.
pub proof fn lemma_operation_changes(allocations: Seq<Allocation>, op: OperationId)
    requires
        operation_delta_defined(allocations, op),
    ensures
        ({
            let a = allocations[operation_target_of(op.0) as int];
            let (t, d) = operation_delta(allocations, op);
            &&& operation_kind_of(op.0) == 0 && a.size <= i64::MAX ==> {
                &&& t == a.timestamp
                &&& d.memory_usage == a.size
                &&& d.allocations == 1
            }
            &&& operation_kind_of(op.0) == 1 && a.size <= i64::MAX ==> {
                &&& t == a.deallocation.unwrap().timestamp
                &&& d.memory_usage == -a.size
                &&& d.allocations == -1
            }
            &&& operation_kind_of(op.0) == 2 ==> {
                let old = allocations[a.reallocated_from.unwrap().0 as int];
                &&& a.size <= i64::MAX && old.size <= i64::MAX ==> d.memory_usage + old.size == a.size
                &&& d.allocations == 0
                &&& t == a.timestamp
            }
        }),
{
    let a = allocations[operation_target_of(op.0) as int];
    let size = a.size;
    if size <= i64::MAX {
        assert(size as i64 == size) by (bit_vector)
            requires
                size <= 0x7fff_ffff_ffff_ffffu64,
        ;
    }
    if operation_kind_of(op.0) == 2 {
        let old = allocations[a.reallocated_from.unwrap().0 as int];
        let old_size = old.size;
        if size <= i64::MAX && old_size <= i64::MAX {
            assert(old_size as i64 == old_size) by (bit_vector)
                requires
                    old_size <= 0x7fff_ffff_ffff_ffffu64,
            ;
            assert(((size as i64) - (old_size as i64)) as i64 == size - old_size);
        }
    }
}

/// The changes that the operations make, in their order.
pub open spec fn allocation_deltas(allocations: Seq<Allocation>, ops: Seq<OperationId>) -> Seq<(Timestamp, AllocationDelta)> {
    ops.map_values(|op: OperationId| operation_delta(allocations, op))
}

/// The timeline of the memory usage and the number of allocations that the
/// operations give, in about a thousand points.
pub fn build_allocation_timeline(
    data: &Data,
    timestamp_min: Timestamp,
    timestamp_max: Timestamp,
    ops: &[OperationId],
) -> (output: Vec<TimelinePoint<AllocationDelta>>)
    requires
        timestamp_min.0 <= timestamp_max.0,
        forall|i: int| 0 <= i < ops@.len() ==> operation_delta_defined(data.allocations@, #[trigger] ops@[i]),
        samples_fit(allocation_deltas(data.allocations@, ops@), granularity_of(timestamp_min, timestamp_max, 1000)),
        sampled(allocation_deltas(data.allocations@, ops@), granularity_of(timestamp_min, timestamp_max, 1000)).current_time
            * granularity_of(timestamp_min, timestamp_max, 1000) + 1 <= u64::MAX,
    ensures
        output@ == timeline(timestamp_min, timestamp_max, 1000, allocation_deltas(data.allocations@, ops@)),
{
    let mut changes: Vec<(Timestamp, AllocationDelta)> = Vec::new();
    let mut i: usize = 0;
    while i < ops.len()
        invariant
            0 <= i <= ops@.len(),
            forall|j: int| 0 <= j < ops@.len() ==> operation_delta_defined(data.allocations@, #[trigger] ops@[j]),
            changes@ == allocation_deltas(data.allocations@, ops@.take(i as int)),
        decreases ops@.len() - i,
    {
        let change = allocation_delta(data, ops[i]);
        changes.push(change);
        i = i + 1;
        proof {
            assert(changes@ =~= allocation_deltas(data.allocations@, ops@.take(i as int)));
        }
    }
    proof {
        assert(ops@.take(ops@.len() as int) =~= ops@);
    }
    build_timeline(timestamp_min, timestamp_max, 1000, changes.as_slice())
}

/// Whether no point of `points` has a negative value or change.
pub open spec fn never_negative(points: Seq<TimelinePoint<i64>>) -> bool {
    forall|i: int|
        #![trigger points[i]]
        0 <= i < points.len() ==> points[i].value >= 0 && points[i].positive_change >= 0
            && points[i].negative_change >= 0
}

proof fn lemma_sampled_never_negative(ops: Seq<(Timestamp, i64)>, g: u64)
    ensures
        never_negative(sampled(ops, g).output),
    decreases ops.len(),
{
    if ops.len() > 0 {
        let before = sampled(ops.drop_last(), g);
        lemma_sampled_never_negative(ops.drop_last(), g);
        let after = sampled(ops, g);
        let next_time = ops.last().0.0 / g;
        if before.current_time != 0 && before.current_time < next_time {
            let gap = gap_points(before.current_time, next_time, g, before.current_max, before.positive, before.negative);
            assert(after.output == before.output + gap);
            assert forall|i: int| #![trigger after.output[i]] 0 <= i < after.output.len() implies after.output[i].value >= 0
                && after.output[i].positive_change >= 0 && after.output[i].negative_change >= 0 by {
                if i >= before.output.len() {
                    assert(after.output[i] == gap[i - before.output.len()]);
                } else {
                    assert(after.output[i] == before.output[i]);
                }
            }
        }
    }
}

/// A timeline of changes to one signed quantity never shows a negative
/// value, growth or shrinkage: the running value may dip below zero, but
/// every point is cut at zero.
pub proof fn lemma_timeline_never_negative(
    timestamp_min: Timestamp,
    timestamp_max: Timestamp,
    point_count: usize,
    ops: Seq<(Timestamp, i64)>,
)
    ensures
        never_negative(timeline(timestamp_min, timestamp_max, point_count, ops)),
{
    let g = granularity_of(timestamp_min, timestamp_max, point_count);
    let s = sampled(ops, g);
    lemma_sampled_never_negative(ops, g);
    let points = timeline(timestamp_min, timestamp_max, point_count, ops);
    let closed = if s.output.len() == 0 {
        seq![
            TimelinePoint {
                timestamp: (s.current_time * (if g > 0 { g - 1 } else { 0 })) as u64,
                value: 0i64,
                positive_change: 0i64,
                negative_change: 0i64,
            },
        ]
    } else {
        s.output
    };
    assert forall|i: int| #![trigger points[i]] 0 <= i < points.len() implies points[i].value >= 0
        && points[i].positive_change >= 0 && points[i].negative_change >= 0 by {
        if i < closed.len() {
            assert(points[i] == closed[i]);
        }
    }
}

proof fn lemma_samples_fit_prefix<T: Delta>(ops: Seq<(Timestamp, T)>, g: u64, k: int)
    requires
        samples_fit(ops, g),
        0 <= k <= ops.len(),
    ensures
        samples_fit(ops.take(k), g),
    decreases ops.len() - k,
{
    if k < ops.len() {
        assert(ops.take(k + 1).drop_last() =~= ops.take(k));
        lemma_samples_fit_prefix(ops, g, k + 1);
    } else {
        assert(ops.take(k) =~= ops);
    }
}

} // verus!
