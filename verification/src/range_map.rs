//! A map from address ranges to values, kept in a vector ordered by range,
//! in which no two ranges overlap.

use vstd::prelude::*;
use core::ops::Range;

verus! {

/// `a` comes no later than `b` in the order by start, then by end.
pub open spec fn range_le(a: Range<u64>, b: Range<u64>) -> bool {
    a.start < b.start || (a.start == b.start && a.end <= b.end)
}

/// The two ranges have no point in common.
pub open spec fn outside(a: Range<u64>, b: Range<u64>) -> bool {
    a.end <= b.start || a.start >= b.end
}

/// Whether the range holds `point`.
pub open spec fn includes(r: Range<u64>, point: u64) -> bool {
    r.start <= point < r.end
}

/// The entries' ranges are not inverted, they are ordered by range and no
/// two of them overlap.
pub open spec fn well_ordered<T>(s: Seq<(Range<u64>, T)>) -> bool {
    &&& forall|i: int| 0 <= i < s.len() ==> (#[trigger] s[i]).0.start <= s[i].0.end
    &&& sorted_apart(s)
}

/// The entries are ordered by range and no two of them overlap; their
/// ranges may be inverted.
pub open spec fn sorted_apart<T>(s: Seq<(Range<u64>, T)>) -> bool {
    forall|i: int, j: int|
        0 <= i < j < s.len() ==> range_le((#[trigger] s[i]).0, (#[trigger] s[j]).0) && outside(
            s[i].0,
            s[j].0,
        )
}

/// How many entries of `s` come no later than `r`.
pub open spec fn count_le<T>(s: Seq<(Range<u64>, T)>, r: Range<u64>) -> nat
    decreases s.len(),
{
    if s.len() == 0 {
        0
    } else {
        count_le(s.drop_last(), r) + if range_le(s.last().0, r) {
            1nat
        } else {
            0nat
        }
    }
}

/// `s` ordered by range, entries with equal ranges keeping their order:
/// each entry in turn goes after those that come no later than it.
pub open spec fn stable_sorted<T>(s: Seq<(Range<u64>, T)>) -> Seq<(Range<u64>, T)>
    decreases s.len(),
{
    if s.len() == 0 {
        s
    } else {
        let t = stable_sorted(s.drop_last());
        t.insert(count_le(t, s.last().0) as int, s.last())
    }
}

/// The smallest range that holds all the ranges of `s`.
pub open spec fn hull<T>(s: Seq<(Range<u64>, T)>) -> Range<u64>
    decreases s.len(),
{
    if s.len() <= 1 {
        if s.len() == 0 {
            0..0
        } else {
            s[0].0
        }
    } else {
        let h = hull(s.drop_last());
        let r = s.last().0;
        (if h.start < r.start {
            h.start
        } else {
            r.start
        })..(if h.end > r.end {
            h.end
        } else {
            r.end
        })
    }
}

/// Whether an entry with range `r` is taken after the entries `kept`: it
/// must lie outside their hull, or else have neither end inside the hull
/// and overlap none of them.
pub open spec fn accepts<T>(kept: Seq<(Range<u64>, T)>, r: Range<u64>) -> bool {
    kept.len() == 0 || outside(r, hull(kept)) || (!includes(hull(kept), r.start) && !includes(
        hull(kept),
        r.end,
    ) && forall|k: int| 0 <= k < kept.len() ==> outside(r, (#[trigger] kept[k]).0))
}

/// The entries of `s`, in order, that are taken: each one that the ones
/// taken before it accept.
pub open spec fn taken<T>(s: Seq<(Range<u64>, T)>) -> Seq<(Range<u64>, T)>
    decreases s.len(),
{
    if s.len() == 0 {
        s
    } else {
        let kept = taken(s.drop_last());
        if accepts(kept, s.last().0) {
            kept.push(s.last())
        } else {
            kept
        }
    }
}

/// The entries are ordered by range.
pub open spec fn ordered<T>(s: Seq<(Range<u64>, T)>) -> bool {
    forall|i: int, j: int| 0 <= i < j < s.len() ==> range_le((#[trigger] s[i]).0, (#[trigger] s[j]).0)
}

proof fn lemma_ordered_drop_last<T>(s: Seq<(Range<u64>, T)>)
    requires
        ordered(s),
        s.len() > 0,
    ensures
        ordered(s.drop_last()),
{
    let t = s.drop_last();
    assert forall|i: int, j: int| 0 <= i < j < t.len() implies range_le((#[trigger] t[i]).0, (#[trigger] t[j]).0) by {
        assert(t[i] == s[i] && t[j] == s[j]);
    }
}

/// In ordered entries, those that come no later than `r` are a prefix.
proof fn lemma_count_le<T>(s: Seq<(Range<u64>, T)>, r: Range<u64>)
    requires
        ordered(s),
    ensures
        count_le(s, r) <= s.len(),
        forall|i: int| 0 <= i < count_le(s, r) ==> range_le((#[trigger] s[i]).0, r),
        forall|i: int| count_le(s, r) <= i < s.len() ==> !range_le((#[trigger] s[i]).0, r),
    decreases s.len(),
{
    if s.len() > 0 {
        let t = s.drop_last();
        lemma_ordered_drop_last(s);
        lemma_count_le(t, r);
        let n = s.len() - 1;
        assert(s.last() == s[n]);
        if range_le(s[n].0, r) {
            assert forall|i: int| 0 <= i < count_le(s, r) implies range_le((#[trigger] s[i]).0, r) by {
                if i < n {
                    assert(range_le(s[i].0, s[n].0));
                }
            }
            assert(count_le(t, r) == t.len()) by {
                if count_le(t, r) < t.len() {
                    let i = count_le(t, r) as int;
                    assert(t[i] == s[i]);
                    assert(range_le(s[i].0, s[n].0));
                }
            }
        } else {
            assert forall|i: int| 0 <= i < count_le(s, r) implies range_le((#[trigger] s[i]).0, r) by {
                assert(t[i] == s[i]);
            }
            assert forall|i: int| count_le(s, r) <= i < s.len() implies !range_le((#[trigger] s[i]).0, r) by {
                if i < n {
                    assert(t[i] == s[i]);
                }
            }
        }
    }
}

/// Inserting an entry after those that come no later than it keeps the
/// entries ordered.
proof fn lemma_insert_ordered<T>(t: Seq<(Range<u64>, T)>, x: (Range<u64>, T))
    requires
        ordered(t),
    ensures
        ordered(t.insert(count_le(t, x.0) as int, x)),
{
    lemma_count_le(t, x.0);
    let c = count_le(t, x.0) as int;
    let u = t.insert(c, x);
    t.insert_ensures(c, x);
    assert forall|i: int, j: int| 0 <= i < j < u.len() implies range_le((#[trigger] u[i]).0, (#[trigger] u[j]).0) by {
        if j < c {
            assert(u[i] == t[i] && u[j] == t[j]);
        } else if j == c {
            assert(u[i] == t[i]);
        } else if i > c {
            assert(u[i] == t[i - 1] && u[j] == t[j - 1]);
        } else if i == c {
            assert(u[j] == t[j - 1]);
        } else {
            assert(u[i] == t[i] && u[j] == t[j - 1]);
        }
    }
}

/// A stable sort is ordered and keeps the number of entries.
pub proof fn lemma_stable_sorted<T>(s: Seq<(Range<u64>, T)>)
    ensures
        ordered(stable_sorted(s)),
        stable_sorted(s).len() == s.len(),
    decreases s.len(),
{
    if s.len() > 0 {
        lemma_stable_sorted(s.drop_last());
        let t = stable_sorted(s.drop_last());
        lemma_count_le(t, s.last().0);
        lemma_insert_ordered(t, s.last());
    }
}

/// The hull of the entries holds each of their ranges.
proof fn lemma_hull<T>(s: Seq<(Range<u64>, T)>)
    ensures
        forall|k: int|
            0 <= k < s.len() ==> hull(s).start <= (#[trigger] s[k]).0.start && s[k].0.end <= hull(s).end,
    decreases s.len(),
{
    if s.len() > 1 {
        lemma_hull(s.drop_last());
        assert forall|k: int| 0 <= k < s.len() implies hull(s).start <= (#[trigger] s[k]).0.start && s[k].0.end
            <= hull(s).end by {
            if k < s.len() - 1 {
                assert(s.drop_last()[k] == s[k]);
            }
        }
    }
}

/// The entries taken out of ordered entries are entries of them, ordered,
/// and overlap nowhere.
pub proof fn lemma_taken<T>(s: Seq<(Range<u64>, T)>)
    requires
        ordered(s),
        forall|i: int| 0 <= i < s.len() ==> (#[trigger] s[i]).0.start <= s[i].0.end,
    ensures
        well_ordered(taken(s)),
        taken(s).len() <= s.len(),
        forall|k: int| 0 <= k < taken(s).len() ==> s.contains(#[trigger] taken(s)[k]),
    decreases s.len(),
{
    if s.len() > 0 {
        let t = s.drop_last();
        let n = s.len() - 1;
        lemma_ordered_drop_last(s);
        lemma_taken(t);
        let kept = taken(t);
        let x = s.last();
        assert(x == s[n]);
        assert forall|i: int| 0 <= i < t.len() implies (#[trigger] t[i]).0.start <= t[i].0.end by {
            assert(t[i] == s[i]);
        }
        if accepts(kept, x.0) {
            let u = kept.push(x);
            lemma_hull(kept);
            assert forall|k: int| 0 <= k < u.len() implies s.contains(#[trigger] u[k]) by {
                if k < kept.len() {
                    let j = choose|j: int| 0 <= j < t.len() && #[trigger] t[j] == kept[k];
                    assert(s[j] == t[j]);
                } else {
                    assert(s[n] == u[k]);
                }
            }
            assert forall|i: int, j: int| 0 <= i < j < u.len() implies range_le((#[trigger] u[i]).0, (#[trigger] u[j]).0)
                && outside(u[i].0, u[j].0) by {
                if j == kept.len() {
                    let jj = choose|jj: int| 0 <= jj < t.len() && #[trigger] t[jj] == kept[i];
                    assert(s[jj] == t[jj]);
                    assert(range_le(s[jj].0, s[n].0));
                    assert(u[i] == kept[i]);
                    if !outside(x.0, hull(kept)) {
                        assert(outside(x.0, kept[i].0));
                    }
                } else {
                    assert(u[i] == kept[i] && u[j] == kept[j]);
                }
            }
        } else {
            assert forall|k: int| 0 <= k < kept.len() implies s.contains(#[trigger] kept[k]) by {
                let j = choose|j: int| 0 <= j < t.len() && #[trigger] t[j] == kept[k];
                assert(s[j] == t[j]);
            }
        }
    }
}

/// `std`'s stable `sort_by_key`, by start and then end of the range.
#[verifier::external_body]
fn sort<T>(values: &mut Vec<(Range<u64>, T)>)
    ensures
        final(values)@ == stable_sorted(old(values)@),
{
    values.sort_by_key(|entry: &(Range<u64>, T)| (entry.0.start, entry.0.end));
}

/// A map from non-overlapping ranges to values.
pub struct RangeMap<T> {
    values: Vec<(Range<u64>, T)>,
}

impl<T> View for RangeMap<T> {
    type V = Seq<(Range<u64>, T)>;

    closed spec fn view(&self) -> Seq<(Range<u64>, T)> {
        self.values@
    }
}

/// Ordered entries are their own stable sort.
proof fn lemma_stable_sorted_ordered<T>(s: Seq<(Range<u64>, T)>)
    requires
        ordered(s),
    ensures
        stable_sorted(s) == s,
    decreases s.len(),
{
    if s.len() > 0 {
        let t = s.drop_last();
        lemma_ordered_drop_last(s);
        lemma_stable_sorted_ordered(t);
        assert(count_le(t, s.last().0) == t.len()) by {
            lemma_count_le(t, s.last().0);
            if count_le(t, s.last().0) < t.len() {
                let i = count_le(t, s.last().0) as int;
                assert(t[i] == s[i]);
                assert(range_le(s[i].0, s[s.len() - 1].0));
            }
        }
        assert(t.insert(t.len() as int, s.last()) =~= s);
    }
}

/// The entries of a stable sort are entries of what was sorted.
proof fn lemma_stable_sorted_elements<T>(s: Seq<(Range<u64>, T)>)
    ensures
        forall|k: int| 0 <= k < stable_sorted(s).len() ==> s.contains(#[trigger] stable_sorted(s)[k]),
    decreases s.len(),
{
    if s.len() > 0 {
        let t = s.drop_last();
        lemma_stable_sorted_elements(t);
        lemma_stable_sorted(t);
        let u = stable_sorted(t);
        let c = count_le(u, s.last().0) as int;
        lemma_count_le_bound(u, s.last().0);
        u.insert_ensures(c, s.last());
        assert forall|k: int| 0 <= k < stable_sorted(s).len() implies s.contains(#[trigger] stable_sorted(s)[k]) by {
            let x = stable_sorted(s)[k];
            if k < c {
                assert(t.contains(u[k]));
                let j = choose|j: int| 0 <= j < t.len() && t[j] == u[k];
                assert(s[j] == t[j]);
            } else if k > c {
                assert(t.contains(u[k - 1]));
                let j = choose|j: int| 0 <= j < t.len() && t[j] == u[k - 1];
                assert(s[j] == t[j]);
            } else {
                assert(s[s.len() - 1] == x);
            }
        }
    }
}

proof fn lemma_count_le_bound<T>(s: Seq<(Range<u64>, T)>, r: Range<u64>)
    ensures
        count_le(s, r) <= s.len(),
    decreases s.len(),
{
    if s.len() > 0 {
        lemma_count_le_bound(s.drop_last(), r);
    }
}

/// The position of the entry whose range holds `point`, if any.
pub open spec fn holds_at<T>(s: Seq<(Range<u64>, T)>, point: u64, index: Option<usize>) -> bool {
    match index {
        Some(i) => i < s.len() && includes(s[i as int].0, point),
        None => forall|k: int| 0 <= k < s.len() ==> !includes((#[trigger] s[k]).0, point),
    }
}

impl<T> RangeMap<T> {
    /// The map's invariant: its entries are ordered and do not overlap.
    pub open spec fn wf(&self) -> bool {
        well_ordered(self@)
    }

    pub fn new() -> (map: RangeMap<T>)
        ensures
            map.wf(),
            map@ == Seq::<(Range<u64>, T)>::empty(),
    {
        RangeMap { values: Vec::new() }
    }

    /// Whether `range` overlaps none of `values`.
    fn outside_all(values: &Vec<(Range<u64>, T)>, range: &Range<u64>) -> (r: bool)
        ensures
            r == forall|k: int| 0 <= k < values@.len() ==> outside(*range, (#[trigger] values@[k]).0),
    {
        let mut i: usize = 0;
        while i < values.len()
            invariant
                0 <= i <= values@.len(),
                forall|k: int| 0 <= k < i ==> outside(*range, (#[trigger] values@[k]).0),
            decreases values@.len() - i,
        {
            let existing = &values[i].0;
            if !(range.end <= existing.start || range.start >= existing.end) {
                return false;
            }
            i = i + 1;
        }
        true
    }

    /// A map of the entries of `values`, ordered by range; an entry that
    /// overlaps one taken before it is left out.
    pub fn from_vec(values: Vec<(Range<u64>, T)>) -> (map: RangeMap<T>)
        requires
            forall|i: int| 0 <= i < values@.len() ==> (#[trigger] values@[i]).0.start <= values@[i].0.end,
        ensures
            map.wf(),
            map@ == taken(stable_sorted(values@)),
    {
        let mut values = values;
        if values.len() == 0 {
            return RangeMap::new();
        }
        let ghost unsorted = values@;
        sort(&mut values);
        let ghost sorted = values@;
        proof {
            lemma_stable_sorted(unsorted);
            assert forall|k: int| 0 <= k < sorted.len() implies (#[trigger] sorted[k]).0.start <= sorted[k].0.end by {
                lemma_stable_sorted_elements(unsorted);
                assert(unsorted.contains(sorted[k]));
            }
        }
        let ghost n = sorted.len();
        // Reverse the entries, so that they can be taken off the end in order.
        let mut stack: Vec<(Range<u64>, T)> = Vec::new();
        while values.len() > 0
            invariant
                n == sorted.len(),
                ordered(sorted),
                forall|k: int| 0 <= k < n ==> (#[trigger] sorted[k]).0.start <= sorted[k].0.end,
                values@.len() + stack@.len() == n,
                forall|k: int| 0 <= k < values@.len() ==> #[trigger] values@[k] == sorted[k],
                forall|k: int| 0 <= k < stack@.len() ==> #[trigger] stack@[k] == sorted[n - 1 - k],
            decreases values@.len(),
        {
            let entry = values.pop().unwrap();
            stack.push(entry);
        }
        let mut map = RangeMap { values: Vec::new() };
        let (first_range, first_value) = stack.pop().unwrap();
        let mut bounds = first_range.start..first_range.end;
        map.values.push((first_range, first_value));
        let ghost mut i: int = 1;
        proof {
            assert(sorted.take(1).drop_last() =~= Seq::<(Range<u64>, T)>::empty());
            assert(taken(sorted.take(1).drop_last()) =~= Seq::<(Range<u64>, T)>::empty());
            assert(sorted.take(1).last() == sorted[0]);
            assert(map.values@ =~= taken(sorted.take(1)));
        }
        while stack.len() > 0
            invariant
                n == sorted.len(),
                ordered(sorted),
                forall|k: int| 0 <= k < n ==> (#[trigger] sorted[k]).0.start <= sorted[k].0.end,
                1 <= i <= n,
                stack@.len() == n - i,
                forall|k: int| 0 <= k < stack@.len() ==> #[trigger] stack@[k] == sorted[n - 1 - k],
                map.values@ == taken(sorted.take(i)),
                map.values@.len() > 0,
                bounds == hull(map.values@),
            decreases stack@.len(),
        {
            let (range, value) = stack.pop().unwrap();
            let ghost kept = map.values@;
            proof {
                assert(sorted.take(i + 1).drop_last() =~= sorted.take(i));
                assert(sorted.take(i + 1).last() == sorted[i]);
            }
            let overlapping = !(range.end <= bounds.start || range.start >= bounds.end);
            if overlapping {
                if (bounds.start <= range.start && range.start < bounds.end) || (bounds.start <= range.end
                    && range.end < bounds.end) {
                    proof {
                        i = i + 1;
                    }
                    continue;
                }
                if !Self::outside_all(&map.values, &range) {
                    proof {
                        i = i + 1;
                    }
                    continue;
                }
            }
            let start = if bounds.start < range.start {
                bounds.start
            } else {
                range.start
            };
            let end = if bounds.end > range.end {
                bounds.end
            } else {
                range.end
            };
            bounds = start..end;
            map.values.push((range, value));
            proof {
                assert(map.values@.drop_last() =~= kept);
                i = i + 1;
            }
        }
        proof {
            assert(sorted.take(n as int) =~= sorted);
            lemma_taken(sorted);
            assert forall|k: int| 0 <= k < map.values@.len() implies (#[trigger] map.values@[k]).0.start
                <= map.values@[k].0.end by {
                assert(sorted.contains(map.values@[k]));
            }
        }
        map
    }

    /// The position of the entry whose range holds `key`, looking at every
    /// entry in turn.
    fn get_index_linear_search(&self, key: u64) -> (index: Option<usize>)
        ensures
            holds_at(self@, key, index),
    {
        let mut i: usize = 0;
        while i < self.values.len()
            invariant
                0 <= i <= self.values@.len(),
                forall|k: int| 0 <= k < i ==> !includes((#[trigger] self.values@[k]).0, key),
            decreases self.values@.len() - i,
        {
            let range = &self.values[i].0;
            if key >= range.start && key < range.end {
                return Some(i);
            }
            i = i + 1;
        }
        None
    }

    /// The position of the entry whose range holds `key`, found by
    /// bisection.
    fn get_index_binary_search(&self, key: u64) -> (index: Option<usize>)
        requires
            self.wf(),
        ensures
            holds_at(self@, key, index),
    {
        let mut lo: usize = 0;
        let mut hi: usize = self.values.len();
        while lo < hi
            invariant
                self.wf(),
                0 <= lo <= hi <= self.values@.len(),
                forall|k: int| 0 <= k < lo ==> !includes((#[trigger] self.values@[k]).0, key),
                forall|k: int| hi <= k < self.values@.len() ==> !includes((#[trigger] self.values@[k]).0, key),
            decreases hi - lo,
        {
            let mid = lo + (hi - lo) / 2;
            let range = &self.values[mid].0;
            if key >= range.start && key < range.end {
                return Some(mid);
            } else if key < range.start {
                proof {
                    assert forall|k: int| mid <= k < self.values@.len() implies !includes(
                        (#[trigger] self.values@[k]).0,
                        key,
                    ) by {
                        if k > mid {
                            assert(range_le(self.values@[mid as int].0, self.values@[k].0));
                        }
                    }
                }
                hi = mid;
            } else {
                proof {
                    assert forall|k: int| 0 <= k <= mid implies !includes((#[trigger] self.values@[k]).0, key) by {
                        if k < mid {
                            assert(range_le(self.values@[k].0, self.values@[mid as int].0));
                            assert(outside(self.values@[k].0, self.values@[mid as int].0));
                        }
                    }
                }
                lo = mid + 1;
            }
        }
        None
    }

    /// The position of the entry whose range holds `key`, if any.
    pub fn get_index(&self, key: u64) -> (index: Option<usize>)
        requires
            self.wf(),
        ensures
            holds_at(self@, key, index),
    {
        if self.values.len() <= 4 {
            self.get_index_linear_search(key)
        } else {
            self.get_index_binary_search(key)
        }
    }

    /// The position of the first entry that overlaps `range`, if any.
    pub fn get_index_by_any_point(&self, range: &Range<u64>) -> (index: Option<usize>)
        ensures
            match index {
                Some(i) => i < self@.len() && !outside(*range, self@[i as int].0) && forall|k: int|
                    0 <= k < i ==> outside(*range, (#[trigger] self@[k]).0),
                None => forall|k: int| 0 <= k < self@.len() ==> outside(*range, (#[trigger] self@[k]).0),
            },
    {
        let mut i: usize = 0;
        while i < self.values.len()
            invariant
                0 <= i <= self.values@.len(),
                forall|k: int| 0 <= k < i ==> outside(*range, (#[trigger] self.values@[k]).0),
            decreases self.values@.len() - i,
        {
            let existing = &self.values[i].0;
            if !(range.end <= existing.start || range.start >= existing.end) {
                return Some(i);
            }
            i = i + 1;
        }
        None
    }

    /// The range and value of the entry at `index`, if there is one.
    pub fn get_by_index(&self, index: usize) -> (entry: Option<(Range<u64>, &T)>)
        ensures
            match entry {
                Some((range, value)) => index < self@.len() && range == self@[index as int].0 && *value
                    == self@[index as int].1,
                None => index >= self@.len(),
            },
    {
        if index < self.values.len() {
            let entry = &self.values[index];
            Some((entry.0.start..entry.0.end, &entry.1))
        } else {
            None
        }
    }

    /// The value of the entry at `index`, if there is one.
    pub fn get_value_by_index(&self, index: usize) -> (value: Option<&T>)
        ensures
            match value {
                Some(value) => index < self@.len() && *value == self@[index as int].1,
                None => index >= self@.len(),
            },
    {
        if index < self.values.len() {
            Some(&self.values[index].1)
        } else {
            None
        }
    }

    /// The entry whose range holds `key`, if any.
    pub fn get(&self, key: u64) -> (entry: Option<(Range<u64>, &T)>)
        requires
            self.wf(),
        ensures
            match entry {
                Some((range, value)) => exists|i: int|
                    0 <= i < self@.len() && includes(#[trigger] self@[i].0, key) && range == self@[i].0
                        && *value == self@[i].1,
                None => forall|k: int| 0 <= k < self@.len() ==> !includes((#[trigger] self@[k]).0, key),
            },
    {
        match self.get_index(key) {
            Some(index) => {
                let entry = &self.values[index];
                Some((entry.0.start..entry.0.end, &entry.1))
            },
            None => None,
        }
    }

    /// The value of the entry whose range holds `key`, if any.
    pub fn get_value(&self, key: u64) -> (value: Option<&T>)
        requires
            self.wf(),
        ensures
            match value {
                Some(value) => exists|i: int|
                    0 <= i < self@.len() && includes(#[trigger] self@[i].0, key) && *value == self@[i].1,
                None => forall|k: int| 0 <= k < self@.len() ==> !includes((#[trigger] self@[k]).0, key),
            },
    {
        match self.get(key) {
            Some((_, value)) => Some(value),
            None => None,
        }
    }

    /// The values, in the order of their ranges.
    pub fn values(&self) -> (values: Vec<&T>)
        ensures
            values@.len() == self@.len(),
            forall|i: int| 0 <= i < values@.len() ==> *(#[trigger] values@[i]) == self@[i].1,
    {
        let mut values: Vec<&T> = Vec::new();
        let mut i: usize = 0;
        while i < self.values.len()
            invariant
                0 <= i <= self.values@.len(),
                values@.len() == i,
                forall|k: int| 0 <= k < i ==> *(#[trigger] values@[k]) == self.values@[k].1,
            decreases self.values@.len() - i,
        {
            values.push(&self.values[i].1);
            i = i + 1;
        }
        values
    }

    pub fn is_empty(&self) -> (r: bool)
        ensures
            r == (self@.len() == 0),
    {
        self.values.len() == 0
    }

    pub fn len(&self) -> (len: usize)
        ensures
            len == self@.len(),
    {
        self.values.len()
    }

    /// Adds an entry, unless its range overlaps one already there: then
    /// gives the position of the first such entry.
    #[verifier::rlimit(40)]
    pub fn push(&mut self, range: Range<u64>, value: T) -> (result: Result<(), usize>)
        requires
            sorted_apart(old(self)@),
        ensures
            sorted_apart(final(self)@),
            old(self).wf() && range.start <= range.end ==> final(self).wf(),
            match result {
                Ok(()) => {
                    &&& forall|k: int| 0 <= k < old(self)@.len() ==> outside(range, (#[trigger] old(self)@[k]).0)
                    &&& final(self)@ == stable_sorted(old(self)@.push((range, value)))
                },
                Err(position) => {
                    &&& position < old(self)@.len()
                    &&& !outside(range, old(self)@[position as int].0)
                    &&& forall|k: int| 0 <= k < position ==> outside(range, (#[trigger] old(self)@[k]).0)
                    &&& final(self)@ == old(self)@
                },
            },
    {
        if let Some(position) = self.get_index_by_any_point(&range) {
            return Err(position);
        }
        let ghost old_values = self.values@;
        let ghost old_self_wf = self.wf();
        let mut i: usize = 0;
        while i < self.values.len() && ((self.values[i].0.start < range.start) || (self.values[i].0.start
            == range.start && self.values[i].0.end <= range.end))
            invariant
                self.values@ == old_values,
                sorted_apart(old_values),
                0 <= i <= old_values.len(),
                forall|k: int| 0 <= k < i ==> range_le((#[trigger] old_values[k]).0, range),
            decreases old_values.len() - i,
        {
            i = i + 1;
        }
        proof {
            assert(ordered(old_values));
            lemma_count_le(old_values, range);
            lemma_stable_sorted_ordered(old_values);
            assert(old_values.push((range, value)).drop_last() =~= old_values);
            if i < old_values.len() {
                assert(!range_le(old_values[i as int].0, range));
            }
            assert(count_le(old_values, range) == i) by {
                let c = count_le(old_values, range) as int;
                if c > i {
                    assert(range_le(old_values[i as int].0, range));
                }
                if c < i {
                    assert(range_le(old_values[c].0, range));
                }
            }
        }
        self.values.insert(i, (range, value));
        proof {
            let u = self.values@;
            let x = (range, value);
            old_values.insert_ensures(i as int, x);
            assert forall|a: int, b: int| 0 <= a < b < u.len() implies range_le((#[trigger] u[a]).0, (#[trigger] u[b]).0)
                && outside(u[a].0, u[b].0) by {
                if b < i {
                    assert(u[a] == old_values[a] && u[b] == old_values[b]);
                } else if b == i {
                    assert(u[a] == old_values[a]);
                } else if a > i {
                    assert(u[a] == old_values[a - 1] && u[b] == old_values[b - 1]);
                } else if a == i {
                    assert(u[b] == old_values[b - 1]);
                } else {
                    assert(u[a] == old_values[a] && u[b] == old_values[b - 1]);
                }
            }
            assert forall|a: int| 0 <= a < u.len() && old_self_wf && range.start <= range.end implies (#[trigger] u[a]).0.start <= u[a].0.end by {
                if a < i {
                    assert(u[a] == old_values[a]);
                } else if a > i {
                    assert(u[a] == old_values[a - 1]);
                }
            }
        }
        Ok(())
    }

    /// Takes out the entry whose range is exactly `range`, and gives its value.
    pub fn remove_by_exact_range(&mut self, range: Range<u64>) -> (value: Option<T>)
        requires
            old(self).wf(),
        ensures
            final(self).wf(),
            match value {
                Some(v) => exists|i: int|
                    0 <= i < old(self)@.len() && (#[trigger] old(self)@[i]).0 == range && old(self)@[i].1 == v
                        && final(self)@ == old(self)@.remove(i),
                None => forall|k: int| 0 <= k < old(self)@.len() ==> (#[trigger] old(self)@[k]).0 != range
                    && final(self)@ == old(self)@,
            },
    {
        let mut i: usize = 0;
        while i < self.values.len()
            invariant
                self.values@ == old(self)@,
                well_ordered(old(self)@),
                0 <= i <= self.values@.len(),
                forall|k: int| 0 <= k < i ==> (#[trigger] self.values@[k]).0 != range,
            decreases self.values@.len() - i,
        {
            if self.values[i].0.start == range.start && self.values[i].0.end == range.end {
                let ghost old_values = self.values@;
                let (_, value) = self.values.remove(i);
                proof {
                    old_values.remove_ensures(i as int);
                    let u = self.values@;
                    assert forall|a: int, b: int| 0 <= a < b < u.len() implies range_le((#[trigger] u[a]).0, (#[trigger] u[b]).0)
                        && outside(u[a].0, u[b].0) by {
                        let aa = if a < i { a } else { a + 1 };
                        let bb = if b < i { b } else { b + 1 };
                        assert(u[a] == old_values[aa] && u[b] == old_values[bb]);
                    }
                }
                return Some(value);
            }
            i = i + 1;
        }
        None
    }

    /// Takes out the entry at `index`.
    pub fn remove_by_index(&mut self, index: usize) -> (entry: (Range<u64>, T))
        requires
            old(self).wf(),
            index < old(self)@.len(),
        ensures
            final(self).wf(),
            entry == old(self)@[index as int],
            final(self)@ == old(self)@.remove(index as int),
    {
        let ghost old_values = self.values@;
        let entry = self.values.remove(index);
        proof {
            old_values.remove_ensures(index as int);
            let u = self.values@;
            assert forall|a: int, b: int| 0 <= a < b < u.len() implies range_le((#[trigger] u[a]).0, (#[trigger] u[b]).0)
                && outside(u[a].0, u[b].0) by {
                let aa = if a < index { a } else { a + 1 };
                let bb = if b < index { b } else { b + 1 };
                assert(u[a] == old_values[aa] && u[b] == old_values[bb]);
            }
        }
        entry
    }

    /// The entries, in the order of their ranges.
    pub fn into_vec(self) -> (entries: Vec<(Range<u64>, T)>)
        ensures
            entries@ == self@,
    {
        self.values
    }
}

} // verus!
