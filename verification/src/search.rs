use vstd::prelude::*;
use core::ops::Range;

verus! {

/// The keys are in ascending order.
pub open spec fn ascending(keys: Seq<u64>) -> bool {
    forall|i: int, j: int| 0 <= i <= j < keys.len() ==> keys[i] <= keys[j]
}

/// Whether `key` lies within the optional bounds, both inclusive.
pub open spec fn within_bounds(key: u64, min: Option<u64>, max: Option<u64>) -> bool {
    (min is None || min.unwrap() <= key) && (max is None || key <= max.unwrap())
}

/// `index` is the first position whose key is at least `bound`.
pub open spec fn is_lower_bound(keys: Seq<u64>, bound: u64, index: int) -> bool {
    &&& 0 <= index <= keys.len()
    &&& forall|i: int| 0 <= i < index ==> keys[i] < bound
    &&& forall|i: int| index <= i < keys.len() ==> keys[i] >= bound
}

/// `index` is the first position whose key is above `bound`.
pub open spec fn is_upper_bound(keys: Seq<u64>, bound: u64, index: int) -> bool {
    &&& 0 <= index <= keys.len()
    &&& forall|i: int| 0 <= i < index ==> keys[i] <= bound
    &&& forall|i: int| index <= i < keys.len() ==> keys[i] > bound
}

/// The first position whose key is at least `bound`.
fn lower_bound(keys: &[u64], bound: u64) -> (index: usize)
    requires
        ascending(keys@),
    ensures
        is_lower_bound(keys@, bound, index as int),
{
    let mut lo: usize = 0;
    let mut hi: usize = keys.len();
    while lo < hi
        invariant
            0 <= lo <= hi <= keys@.len(),
            ascending(keys@),
            forall|i: int| 0 <= i < lo ==> keys@[i] < bound,
            forall|i: int| hi <= i < keys@.len() ==> keys@[i] >= bound,
        decreases hi - lo,
    {
        let mid = lo + (hi - lo) / 2;
        if keys[mid] < bound {
            lo = mid + 1;
        } else {
            hi = mid;
        }
    }
    lo
}

/// The first position whose key is above `bound`.
fn upper_bound(keys: &[u64], bound: u64) -> (index: usize)
    requires
        ascending(keys@),
    ensures
        is_upper_bound(keys@, bound, index as int),
{
    let mut lo: usize = 0;
    let mut hi: usize = keys.len();
    while lo < hi
        invariant
            0 <= lo <= hi <= keys@.len(),
            ascending(keys@),
            forall|i: int| 0 <= i < lo ==> keys@[i] <= bound,
            forall|i: int| hi <= i < keys@.len() ==> keys@[i] > bound,
        decreases hi - lo,
    {
        let mid = lo + (hi - lo) / 2;
        if keys[mid] <= bound {
            lo = mid + 1;
        } else {
            hi = mid;
        }
    }
    lo
}

/// The positions of the ascending `keys` that lie within `min..=max`.
/// The range is empty where every key is below `min` or above `max`.
pub fn binary_search_range(keys: &[u64], min: Option<u64>, max: Option<u64>) -> (range: Range<usize>)
    requires
        ascending(keys@),
    ensures
        (keys@.len() == 0 || (min is Some && min.unwrap() > keys@[keys@.len() - 1]) || (max is Some
            && max.unwrap() < keys@[0])) ==> range.start == 0 && range.end == 0,
        !(keys@.len() == 0 || (min is Some && min.unwrap() > keys@[keys@.len() - 1]) || (max is Some
            && max.unwrap() < keys@[0])) ==> {
            &&& match min {
                Some(m) => is_lower_bound(keys@, m, range.start as int),
                None => range.start == 0,
            }
            &&& match max {
                Some(m) => is_upper_bound(keys@, m, range.end as int),
                None => range.end == keys@.len(),
            }
        },
        (min is None || max is None || min.unwrap() <= max.unwrap()) ==> {
            &&& range.start <= range.end <= keys@.len()
            &&& forall|i: int|
                0 <= i < keys@.len() ==> (range.start <= i < range.end <==> within_bounds(
                    #[trigger] keys@[i],
                    min,
                    max,
                ))
        },
{
    if keys.len() == 0 {
        return 0..0;
    }
    let last = keys.len() - 1;
    let start = match min {
        Some(min) => {
            if min > keys[last] {
                return 0..0;
            }
            if min <= keys[0] {
                0
            } else {
                lower_bound(keys, min)
            }
        },
        None => 0,
    };
    let end = match max {
        Some(max) => {
            if max < keys[0] {
                return 0..0;
            }
            if max >= keys[last] {
                keys.len()
            } else {
                upper_bound(keys, max)
            }
        },
        None => keys.len(),
    };
    proof {
        if min is None || max is None || min.unwrap() <= max.unwrap() {
            if start > end {
                let i = end as int;
                assert(keys@[i] > max.unwrap());
                assert(keys@[i] < min.unwrap());
            }
            assert forall|i: int| 0 <= i < keys@.len() implies (start <= i < end <==> within_bounds(
                #[trigger] keys@[i],
                min,
                max,
            )) by {
                if min is Some {
                    assert(keys@[0] <= keys@[i]);
                }
                if max is Some {
                    assert(keys@[i] <= keys@[keys@.len() - 1]);
                }
            }
        }
    }
    start..end
}

} // verus!
