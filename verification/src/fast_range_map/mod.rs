//! A map from non-overlapping address ranges to values, where setting a
//! range cuts away what it overlaps of the ranges already there.

mod spec;
mod table;
mod linked;

use vstd::prelude::*;
use std::collections::BTreeMap;
use core::ops::Range;
use self::linked::{LinkedHashMap, lemma_index_of_unique};
pub use self::linked::counter_limit;

pub use self::linked::{Index, folded_multiply, folded_product};
pub use self::spec::{
    Entry, covers, sorted_disjoint, value_at, pieces_below, pieces_above, overwrite,
    lemma_overwrite_value_at, lemma_overwrite_sorted,
};
use self::spec::{
    lemma_value_at_sorted, lemma_pieces_below_concat, lemma_pieces_above_concat,
    lemma_pieces_below_none, lemma_pieces_below_all, lemma_pieces_above_none,
    lemma_pieces_above_all, lemma_pieces_single, lemma_sorted_concat, lemma_pieces_below_within, lemma_sorted_remove,
};

verus! {

broadcast use {vstd::laws_cmp::group_laws_cmp, vstd::std_specs::btree::group_btree_axioms};

/// `BTreeMap::range(bound..)` and its first item: the entry with the
/// smallest key that is at least `bound`, if any.
#[verifier::external_body]
fn first_end_from(map: &BTreeMap<u64, Index>, bound: u64) -> (found: Option<(u64, Index)>)
    ensures
        match found {
            Some((end, index)) => {
                &&& map@.contains_key(end)
                &&& map@[end] == index
                &&& bound <= end
                &&& forall|k: u64| #[trigger] map@.contains_key(k) && bound <= k ==> end <= k
            },
            None => forall|k: u64| #[trigger] map@.contains_key(k) ==> k < bound,
        },
{
    match map.range(bound..).next() {
        Some((end, index)) => Some((*end, *index)),
        None => None,
    }
}

/// The entries of a map made by setting the ranges of `items` one after
/// the other.
pub open spec fn build_from(items: Seq<(Range<u64>, u64)>) -> Seq<Entry>
    decreases items.len(),
{
    if items.len() == 0 {
        Seq::empty()
    } else {
        let before = build_from(items.drop_last());
        let (key, value) = items.last();
        if key.start == key.end {
            before
        } else {
            overwrite(before, key.start, key.end, value)
        }
    }
}

/// Every entry is found under its end in `ends`, and nothing else is.
pub open spec fn ends_indexed(ends: Map<u64, Index>, entries: Seq<Entry>, order: Seq<u64>) -> bool {
    &&& forall|i: int|
        0 <= i < entries.len() ==> ends.contains_key((#[trigger] entries[i]).1) && ends[entries[i].1]
            == Index(order[i])
    &&& forall|k: u64| #[trigger]
        ends.contains_key(k) ==> exists|i: int| 0 <= i < entries.len() && (#[trigger] entries[i]).1 == k
}

proof fn lemma_ends_insert(m: Map<u64, Index>, e: Seq<Entry>, o: Seq<u64>, c: int, ent: Entry, x: u64)
    requires
        ends_indexed(m, e, o),
        e.len() == o.len(),
        0 <= c <= e.len(),
        forall|i: int| 0 <= i < e.len() ==> (#[trigger] e[i]).1 != ent.1,
    ensures
        ends_indexed(m.insert(ent.1, Index(x)), e.insert(c, ent), o.insert(c, x)),
{
    let m2 = m.insert(ent.1, Index(x));
    let e2 = e.insert(c, ent);
    let o2 = o.insert(c, x);
    e.insert_ensures(c, ent);
    o.insert_ensures(c, x);
    assert forall|i: int| 0 <= i < e2.len() implies m2.contains_key((#[trigger] e2[i]).1) && m2[e2[i].1]
        == Index(o2[i]) by {
        if i < c {
            assert(e2[i] == e[i] && o2[i] == o[i]);
        } else if i > c {
            assert(e2[i] == e[i - 1] && o2[i] == o[i - 1]);
        }
    }
    assert forall|k: u64| #[trigger] m2.contains_key(k) implies exists|i: int|
        0 <= i < e2.len() && (#[trigger] e2[i]).1 == k by {
        if k == ent.1 {
            assert(e2[c].1 == k);
        } else {
            let i = choose|i: int| 0 <= i < e.len() && (#[trigger] e[i]).1 == k;
            if i < c {
                assert(e2[i] == e[i]);
            } else {
                assert(e2[i + 1] == e[i]);
            }
        }
    }
}

proof fn lemma_ends_remove(m: Map<u64, Index>, e: Seq<Entry>, o: Seq<u64>, c: int)
    requires
        ends_indexed(m, e, o),
        e.len() == o.len(),
        0 <= c < e.len(),
        forall|i: int| 0 <= i < e.len() && i != c ==> (#[trigger] e[i]).1 != e[c].1,
    ensures
        ends_indexed(m.remove(e[c].1), e.remove(c), o.remove(c)),
{
    let m2 = m.remove(e[c].1);
    let e2 = e.remove(c);
    let o2 = o.remove(c);
    e.remove_ensures(c);
    o.remove_ensures(c);
    assert forall|i: int| 0 <= i < e2.len() implies m2.contains_key((#[trigger] e2[i]).1) && m2[e2[i].1]
        == Index(o2[i]) by {
        if i < c {
            assert(e2[i] == e[i] && o2[i] == o[i]);
        } else {
            assert(e2[i] == e[i + 1] && o2[i] == o[i + 1]);
        }
    }
    assert forall|k: u64| #[trigger] m2.contains_key(k) implies exists|i: int|
        0 <= i < e2.len() && (#[trigger] e2[i]).1 == k by {
        let i = choose|i: int| 0 <= i < e.len() && (#[trigger] e[i]).1 == k;
        if i < c {
            assert(e2[i] == e[i]);
        } else {
            assert(e2[i - 1] == e[i]);
        }
    }
}

proof fn lemma_ends_move_end(m: Map<u64, Index>, e: Seq<Entry>, o: Seq<u64>, c: int, ent: Entry)
    requires
        ends_indexed(m, e, o),
        e.len() == o.len(),
        0 <= c < e.len(),
        forall|i: int| 0 <= i < e.len() && i != c ==> (#[trigger] e[i]).1 != e[c].1 && e[i].1 != ent.1,
    ensures
        ends_indexed(m.remove(e[c].1).insert(ent.1, Index(o[c])), e.update(c, ent), o),
{
    let m2 = m.remove(e[c].1).insert(ent.1, Index(o[c]));
    let e2 = e.update(c, ent);
    assert forall|i: int| 0 <= i < e2.len() implies m2.contains_key((#[trigger] e2[i]).1) && m2[e2[i].1]
        == Index(o[i]) by {
        if i != c {
            assert(e2[i] == e[i]);
        }
    }
    assert forall|k: u64| #[trigger] m2.contains_key(k) implies exists|i: int|
        0 <= i < e2.len() && (#[trigger] e2[i]).1 == k by {
        if k == ent.1 {
            assert(e2[c].1 == k);
        } else {
            let i = choose|i: int| 0 <= i < e.len() && (#[trigger] e[i]).1 == k;
            assert(e2[i] == e[i]);
        }
    }
}

proof fn lemma_ends_keep_end(m: Map<u64, Index>, e: Seq<Entry>, o: Seq<u64>, c: int, ent: Entry)
    requires
        ends_indexed(m, e, o),
        0 <= c < e.len(),
        ent.1 == e[c].1,
    ensures
        ends_indexed(m, e.update(c, ent), o),
{
    let e2 = e.update(c, ent);
    assert forall|i: int| 0 <= i < e2.len() implies m.contains_key((#[trigger] e2[i]).1) && m[e2[i].1]
        == Index(o[i]) by {
        if i != c {
            assert(e2[i] == e[i]);
        }
    }
    assert forall|k: u64| #[trigger] m.contains_key(k) implies exists|i: int|
        0 <= i < e2.len() && (#[trigger] e2[i]).1 == k by {
        let i = choose|i: int| 0 <= i < e.len() && (#[trigger] e[i]).1 == k;
        if i != c {
            assert(e2[i] == e[i]);
        } else {
            assert(e2[c].1 == k);
        }
    }
}

/// Cuts the old entries into the part before the starting position, the
/// part already walked over and the rest.
proof fn lemma_overwrite_split(s0: Seq<Entry>, p0: int, q: int, a: u64, b: u64, v: u64)
    requires
        sorted_disjoint(s0),
        a < b,
        0 <= p0 <= q <= s0.len(),
        forall|j: int| 0 <= j < p0 ==> (#[trigger] s0[j]).1 <= a,
        forall|j: int| p0 <= j < q ==> (#[trigger] s0[j]).1 <= b,
    ensures
        overwrite(s0, a, b, v) == s0.take(p0) + pieces_below(s0.subrange(p0, q), a) + pieces_below(
            s0.skip(q),
            a,
        ) + seq![(a, b, v)] + pieces_above(s0.skip(q), b),
{
    let t = s0.take(p0);
    let m = s0.subrange(p0, q);
    let r = s0.skip(q);
    assert(s0 =~= t + m + r);
    lemma_pieces_below_concat(t + m, r, a);
    lemma_pieces_below_concat(t, m, a);
    lemma_pieces_above_concat(t + m, r, b);
    lemma_pieces_above_concat(t, m, b);
    lemma_pieces_below_all(t, a);
    lemma_pieces_above_none(t, b);
    lemma_pieces_above_none(m, b);
    assert(pieces_above(t, b) + pieces_above(m, b) + pieces_above(r, b) =~= pieces_above(r, b));
    assert(overwrite(s0, a, b, v) =~= t + pieces_below(m, a) + pieces_below(r, a) + seq![(a, b, v)]
        + pieces_above(r, b));
}

/// The pieces of the entries from position `q` on: those of the entry at
/// `q`, then the later ones, which start where that one ends or later.
proof fn lemma_rest_split(s0: Seq<Entry>, q: int, a: u64, b: u64)
    requires
        sorted_disjoint(s0),
        0 <= q < s0.len(),
        s0[q].1 >= a,
    ensures
        pieces_below(s0.skip(q), a) == pieces_below(seq![s0[q]], a),
        s0[q].1 >= b ==> pieces_above(s0.skip(q), b) == pieces_above(seq![s0[q]], b) + s0.skip(q + 1),
        forall|j: int| 0 <= j < s0.skip(q + 1).len() ==> (#[trigger] s0.skip(q + 1)[j]).0 >= s0[q].1,
{
    let r = s0.skip(q + 1);
    assert(s0.skip(q) =~= seq![s0[q]] + r);
    assert forall|j: int| 0 <= j < r.len() implies (#[trigger] r[j]).0 >= s0[q].1 && r[j].0 < r[j].1 by {
        assert(r[j] == s0[q + 1 + j]);
    }
    lemma_pieces_below_concat(seq![s0[q]], r, a);
    lemma_pieces_below_none(r, a);
    assert(pieces_below(seq![s0[q]], a) + Seq::<Entry>::empty() =~= pieces_below(seq![s0[q]], a));
    if s0[q].1 >= b {
        lemma_pieces_above_concat(seq![s0[q]], r, b);
        lemma_pieces_above_all(r, b);
    }
}

/// A map from non-overlapping ranges of `u64` to values. Its entries are
/// kept in address order in a linked hash map, and a B-tree finds the
/// entry of a point by the entries' ends.
pub struct RangeMap {
    map: BTreeMap<u64, Index>,
    data: LinkedHashMap,
}

impl View for RangeMap {
    type V = Seq<Entry>;

    closed spec fn view(&self) -> Seq<Entry> {
        self.data.entries()
    }
}

impl Default for RangeMap {
    fn default() -> (map: RangeMap)
        ensures
            map.wf(),
            map@ == Seq::<Entry>::empty(),
            map.room() == counter_limit(),
    {
        RangeMap::new()
    }
}

/// The entries of a map are ordered by address and do not overlap.
pub proof fn lemma_entries_sorted(map: &RangeMap)
    requires
        map.wf(),
    ensures
        sorted_disjoint(map@),
{
}

impl RangeMap {
    /// The map's invariant.
    pub closed spec fn wf(&self) -> bool {
        &&& self.data.wf()
        &&& sorted_disjoint(self.data.entries())
        &&& ends_indexed(self.map@, self.data.entries(), self.data.order())
    }

    /// How many more entries can be made: each entry gets a handle of its
    /// own, and there are `counter_limit()` of them.
    pub closed spec fn room(&self) -> nat {
        (counter_limit() - self.data.counter()) as nat
    }

    pub fn new() -> (map: RangeMap)
        ensures
            map.wf(),
            map@ == Seq::<Entry>::empty(),
            map.room() == counter_limit(),
    {
        let map = RangeMap { map: BTreeMap::new(), data: LinkedHashMap::new() };
        proof {
            assert(ends_indexed(map.map@, map.data.entries(), map.data.order()));
        }
        map
    }

    pub fn is_empty(&self) -> (r: bool)
        requires
            self.wf(),
        ensures
            r == (self@.len() == 0),
    {
        self.data.is_empty()
    }

    pub fn len(&self) -> (len: usize)
        requires
            self.wf(),
        ensures
            len == self@.len(),
    {
        self.data.len()
    }

    pub fn clone(&self) -> (copy: RangeMap)
        requires
            self.wf(),
        ensures
            copy.wf(),
            copy@ == self@,
            copy.room() == self.room(),
    {
        RangeMap { map: self.map.clone(), data: self.data.clone() }
    }

    /// The entries, as ranges with their values, in address order.
    pub fn into_vec(self) -> (entries: Vec<(Range<u64>, u64)>)
        requires
            self.wf(),
        ensures
            entries@.len() == self@.len(),
            forall|i: int|
                0 <= i < entries@.len() ==> #[trigger] entries@[i].0.start == self@[i].0
                    && entries@[i].0.end == self@[i].1 && entries@[i].1 == self@[i].2,
            sorted_disjoint(self@),
    {
        proof {
            lemma_entries_sorted(&self);
        }
        self.data.into_vec()
    }

    /// The handle of the first entry that ends after `start`.
    fn find_starting_index(&self, start: u64) -> (found: Option<Index>)
        requires
            self.wf(),
            start < u64::MAX,
        ensures
            match found {
                Some(index) => {
                    &&& self.data.contains(index.0)
                    &&& self@[self.data.position(index.0)].1 > start
                    &&& forall|j: int|
                        0 <= j < self.data.position(index.0) ==> (#[trigger] self@[j]).1 <= start
                },
                None => forall|j: int| 0 <= j < self@.len() ==> (#[trigger] self@[j]).1 <= start,
            },
    {
        let found = first_end_from(&self.map, start + 1);
        match found {
            Some((end, index)) => {
                proof {
                    let e = self.data.entries();
                    let o = self.data.order();
                    let i = choose|i: int| 0 <= i < e.len() && (#[trigger] e[i]).1 == end;
                    assert(index == Index(o[i]));
                    lemma_index_of_unique(o, i);
                    assert forall|j: int| 0 <= j < i implies (#[trigger] e[j]).1 <= start by {
                        assert(self.map@.contains_key(e[j].1));
                        assert(e[j].1 <= e[i].0);
                    }
                }
                Some(index)
            },
            None => {
                proof {
                    let e = self.data.entries();
                    assert forall|j: int| 0 <= j < e.len() implies (#[trigger] e[j]).1 <= start by {
                        assert(self.map@.contains_key(e[j].1));
                    }
                }
                None
            },
        }
    }

    /// The value that `key` maps to.
    pub fn get_value(&self, key: u64) -> (value: Option<u64>)
        requires
            self.wf(),
        ensures
            value == value_at(self@, key),
    {
        let ghost e = self.data.entries();
        let ghost o = self.data.order();
        let (end, mut index) = match first_end_from(&self.map, key) {
            Some(found) => found,
            None => {
                proof {
                    assert forall|j: int| 0 <= j < e.len() implies !#[trigger] covers(e[j], key) by {
                        assert(self.map@.contains_key(e[j].1));
                    }
                }
                return None;
            },
        };
        let ghost mut i = choose|i: int| 0 <= i < e.len() && (#[trigger] e[i]).1 == end;
        proof {
            lemma_index_of_unique(o, i);
            assert forall|j: int| 0 <= j < i implies !#[trigger] covers(e[j], key) by {
                assert(self.map@.contains_key(e[j].1));
                assert(e[j].1 <= e[i].0);
            }
        }
        let mut range = self.data.get_key(index);
        if key == range.end {
            if end == u64::MAX {
                proof {
                    assert forall|j: int| 0 <= j < e.len() implies !#[trigger] covers(e[j], key) by {
                        if j > i {
                            assert(e[i].1 <= e[j].0);
                        }
                    }
                }
                return None;
            }
            let (next_end, next_index) = match first_end_from(&self.map, end + 1) {
                Some(found) => found,
                None => {
                    proof {
                        assert forall|j: int| 0 <= j < e.len() implies !#[trigger] covers(e[j], key) by {
                            assert(self.map@.contains_key(e[j].1));
                        }
                    }
                    return None;
                },
            };
            proof {
                let i2 = choose|i2: int| 0 <= i2 < e.len() && (#[trigger] e[i2]).1 == next_end;
                lemma_index_of_unique(o, i2);
                assert forall|j: int| 0 <= j < i2 implies !#[trigger] covers(e[j], key) by {
                    assert(self.map@.contains_key(e[j].1));
                    assert(e[j].1 <= e[i2].0);
                }
                i = i2;
            }
            index = next_index;
            range = self.data.get_key(index);
        }
        proof {
            assert forall|j: int| i < j < e.len() implies !#[trigger] covers(e[j], key) by {
                assert(e[i].1 <= e[j].0);
            }
        }
        if key >= range.start && key < range.end {
            proof {
                lemma_value_at_sorted(e, i, key);
            }
            return Some(self.data.get_value(index));
        }
        proof {
            assert(!covers(e[i], key));
        }
        None
    }

    /// The state of the walk that sets `a..b`: the entries before `p0`
    /// end by `a` and are kept; those from `p0` to `q` have been cut down
    /// to their pieces `d` below `a`; those from `q` on are untouched.
    spec fn walking(&self, s0: Seq<Entry>, p0: int, q: int, d: Seq<Entry>, a: u64, b: u64) -> bool {
        &&& self.wf()
        &&& a < b
        &&& sorted_disjoint(s0)
        &&& 0 <= p0 <= q <= s0.len()
        &&& forall|j: int| 0 <= j < p0 ==> (#[trigger] s0[j]).1 <= a
        &&& forall|j: int| p0 <= j < s0.len() ==> (#[trigger] s0[j]).1 > a
        &&& forall|j: int| p0 <= j < q ==> (#[trigger] s0[j]).1 < b
        &&& d == pieces_below(s0.subrange(p0, q), a)
        &&& self@ == s0.take(p0) + d + s0.skip(q)
    }

    proof fn lemma_walking(&self, s0: Seq<Entry>, p0: int, q: int, d: Seq<Entry>, a: u64, b: u64, v: u64)
        requires
            self.walking(s0, p0, q, d, a, b),
        ensures
            self@.len() == p0 + d.len() + s0.len() - q,
            forall|i: int| 0 <= i < p0 + d.len() ==> (#[trigger] self@[i]).1 <= a,
            forall|i: int| p0 + d.len() <= i < self@.len() ==> #[trigger] self@[i] == s0[i - p0 - d.len() + q],
            overwrite(s0, a, b, v) == s0.take(p0) + d + pieces_below(s0.skip(q), a) + seq![(a, b, v)]
                + pieces_above(s0.skip(q), b),
            q < s0.len() ==> {
                &&& self@[p0 + d.len()] == s0[q]
                &&& self.data.position(self.data.order()[p0 + d.len()]) == p0 + d.len()
                &&& self.data.contains(self.data.order()[p0 + d.len()])
                &&& pieces_below(s0.skip(q), a) == pieces_below(seq![s0[q]], a)
                &&& s0[q].1 >= b ==> pieces_above(s0.skip(q), b) == pieces_above(seq![s0[q]], b)
                    + s0.skip(q + 1)
                &&& forall|j: int|
                    0 <= j < s0.skip(q + 1).len() ==> (#[trigger] s0.skip(q + 1)[j]).0 >= s0[q].1
            },
    {
        let e = self@;
        let c = p0 + d.len();
        lemma_overwrite_split(s0, p0, q, a, b, v);
        let sub = s0.subrange(p0, q);
        assert forall|i: int| 0 <= i < sub.len() implies (#[trigger] sub[i]).0 < sub[i].1 by {
            assert(sub[i] == s0[p0 + i]);
        }
        lemma_pieces_below_within(sub, a);
        assert forall|i: int| 0 <= i < c implies (#[trigger] e[i]).1 <= a by {
            if i < p0 {
                assert(e[i] == s0[i]);
            } else {
                assert(e[i] == d[i - p0]);
            }
        }
        if q < s0.len() {
            lemma_index_of_unique(self.data.order(), c);
            lemma_rest_split(s0, q, a, b);
        }
    }

    /// The walk ends at an entry that starts at or after `b`: the new entry
    /// goes right before it.
    #[verifier::spinoff_prover]
    #[verifier::rlimit(50)]
    fn finish_before(
        &mut self,
        index: Index,
        a: u64,
        b: u64,
        value: u64,
        Ghost(s0): Ghost<Seq<Entry>>,
        Ghost(p0): Ghost<int>,
        Ghost(q): Ghost<int>,
        Ghost(d): Ghost<Seq<Entry>>,
    )
        requires
            old(self).walking(s0, p0, q, d, a, b),
            q < s0.len(),
            index.0 == old(self).data.order()[p0 + d.len()],
            b <= s0[q].0,
            old(self).data.counter() < counter_limit(),
        ensures
            final(self).wf(),
            final(self)@ == overwrite(s0, a, b, value),
            final(self).data.counter() == old(self).data.counter() + 1,
    {
        let ghost e = self@;
        let ghost o = self.data.order();
        let ghost m = self.map@;
        let ghost c = p0 + d.len();
        proof {
            self.lemma_walking(s0, p0, q, d, a, b, value);
        }
        let new_index = self.data.insert_before(index, a, b, value);
        self.map.insert(b, new_index);
        proof {
            lemma_pieces_single(s0[q], a, b);
            assert forall|j: int| 0 <= j < s0.skip(q).len() implies (#[trigger] s0.skip(q)[j]).0 >= b
                && s0.skip(q)[j].0 < s0.skip(q)[j].1 by {
                assert(s0.skip(q)[j] == s0[q + j]);
                if j > 0 {
                    assert(s0[q].1 <= s0[q + j].0);
                }
            }
            lemma_pieces_above_all(s0.skip(q), b);
            lemma_pieces_below_none(s0.skip(q), a);
            assert forall|i: int| 0 <= i < e.len() implies (#[trigger] e[i]).1 != b by {
                if i < c {
                    assert(e[i].1 <= a);
                } else if i > c {
                    assert(e[c].1 <= e[i].0);
                }
            }
            lemma_ends_insert(m, e, o, c, (a, b, value), new_index.0);
            assert(self@ =~= overwrite(s0, a, b, value));
            lemma_overwrite_sorted(s0, a, b, value);
        }
    }

    /// The walk ends at an entry that ends at `b` and starts at or after
    /// `a`: it becomes the new entry.
    #[verifier::spinoff_prover]
    #[verifier::rlimit(50)]
    fn finish_replace(
        &mut self,
        index: Index,
        a: u64,
        b: u64,
        value: u64,
        Ghost(s0): Ghost<Seq<Entry>>,
        Ghost(p0): Ghost<int>,
        Ghost(q): Ghost<int>,
        Ghost(d): Ghost<Seq<Entry>>,
    )
        requires
            old(self).walking(s0, p0, q, d, a, b),
            q < s0.len(),
            index.0 == old(self).data.order()[p0 + d.len()],
            a <= s0[q].0,
            s0[q].1 == b,
        ensures
            final(self).wf(),
            final(self)@ == overwrite(s0, a, b, value),
            final(self).data.counter() == old(self).data.counter(),
    {
        let ghost e = self@;
        let ghost o = self.data.order();
        let ghost m = self.map@;
        let ghost c = p0 + d.len();
        proof {
            self.lemma_walking(s0, p0, q, d, a, b, value);
        }
        self.data.set_key(index, a, b);
        self.data.set_value(index, value);
        proof {
            lemma_pieces_single(s0[q], a, b);
            lemma_ends_keep_end(m, e, o, c, (a, b, value));
            assert(e.update(c, (a, b, e[c].2)).update(c, (a, b, value)) =~= e.update(c, (a, b, value)));
            assert(self@ =~= overwrite(s0, a, b, value));
            lemma_overwrite_sorted(s0, a, b, value);
        }
    }

    /// The walk ends at an entry that holds all of `a..b` and more on both
    /// sides: it is cut in two around the new entry.
    #[verifier::spinoff_prover]
    #[verifier::rlimit(50)]
    fn finish_split(
        &mut self,
        index: Index,
        a: u64,
        b: u64,
        value: u64,
        Ghost(s0): Ghost<Seq<Entry>>,
        Ghost(p0): Ghost<int>,
        Ghost(q): Ghost<int>,
        Ghost(d): Ghost<Seq<Entry>>,
    )
        requires
            old(self).walking(s0, p0, q, d, a, b),
            q < s0.len(),
            index.0 == old(self).data.order()[p0 + d.len()],
            s0[q].0 < a,
            b < s0[q].1,
            old(self).data.counter() + 2 <= counter_limit(),
        ensures
            final(self).wf(),
            final(self)@ == overwrite(s0, a, b, value),
            final(self).data.counter() == old(self).data.counter() + 2,
    {
        let ghost e = self@;
        let ghost o = self.data.order();
        let ghost m = self.map@;
        let ghost c = p0 + d.len();
        proof {
            self.lemma_walking(s0, p0, q, d, a, b, value);
        }
        let old = self.data.get_key(index);
        let old_value = self.data.get_value(index);
        self.data.set_key(index, old.start, a);
        self.map.remove(&old.end);
        self.map.insert(a, index);
        let ghost e1 = self@;
        let ghost o1 = self.data.order();
        let ghost m1 = self.map@;
        proof {
            assert forall|i: int| 0 <= i < e.len() && i != c implies (#[trigger] e[i]).1 != e[c].1 && e[i].1
                != a by {
                if i < c {
                    assert(e[i].1 <= a);
                } else {
                    assert(e[c].1 <= e[i].0);
                }
            }
            lemma_ends_move_end(m, e, o, c, (old.start, a, old_value));
        }
        let new_index_1 = self.data.insert_after(index, a, b, value);
        let ghost e2 = self@;
        let ghost o2 = self.data.order();
        proof {
            lemma_index_of_unique(o1, c);
            assert(o2[c + 1] == new_index_1.0);
            lemma_index_of_unique(o2, c + 1);
        }
        let new_index_2 = self.data.insert_after(new_index_1, b, old.end, old_value);
        self.map.insert(b, new_index_1);
        self.map.insert(old.end, new_index_2);
        proof {
            assert forall|i: int| 0 <= i < e1.len() implies (#[trigger] e1[i]).1 != b by {
                if i < c {
                    assert(e[i].1 <= a);
                    assert(e1[i] == e[i]);
                } else if i > c {
                    assert(e[c].1 <= e[i].0);
                    assert(e1[i] == e[i]);
                }
            }
            lemma_ends_insert(m1, e1, o1, c + 1, (a, b, value), new_index_1.0);
            assert forall|i: int| 0 <= i < e2.len() implies (#[trigger] e2[i]).1 != old.end by {
                if i < c {
                    assert(e[i].1 <= a);
                    assert(e2[i] == e[i]);
                } else if i > c + 1 {
                    assert(e[c].1 <= e[i - 1].0);
                    assert(e2[i] == e[i - 1]);
                }
            }
            lemma_ends_insert(m1.insert(b, new_index_1), e2, o2, c + 2, (b, old.end, old_value), new_index_2.0);
            lemma_pieces_single(s0[q], a, b);
            assert(self@ =~= overwrite(s0, a, b, value));
            lemma_overwrite_sorted(s0, a, b, value);
        }
    }

    /// The walk ends at an entry that starts inside `a..b` and ends after
    /// `b`: its start is cut off, and the new entry goes before it.
    #[verifier::spinoff_prover]
    #[verifier::rlimit(50)]
    fn finish_cut_start(
        &mut self,
        index: Index,
        a: u64,
        b: u64,
        value: u64,
        Ghost(s0): Ghost<Seq<Entry>>,
        Ghost(p0): Ghost<int>,
        Ghost(q): Ghost<int>,
        Ghost(d): Ghost<Seq<Entry>>,
    )
        requires
            old(self).walking(s0, p0, q, d, a, b),
            q < s0.len(),
            index.0 == old(self).data.order()[p0 + d.len()],
            a <= s0[q].0 < b,
            b < s0[q].1,
            old(self).data.counter() < counter_limit(),
        ensures
            final(self).wf(),
            final(self)@ == overwrite(s0, a, b, value),
            final(self).data.counter() == old(self).data.counter() + 1,
    {
        let ghost e = self@;
        let ghost o = self.data.order();
        let ghost m = self.map@;
        let ghost c = p0 + d.len();
        proof {
            self.lemma_walking(s0, p0, q, d, a, b, value);
        }
        let old = self.data.get_key(index);
        let old_value = self.data.get_value(index);
        self.data.set_key(index, b, old.end);
        let ghost e1 = self@;
        let ghost o1 = self.data.order();
        let new_index = self.data.insert_before(index, a, b, value);
        self.map.insert(b, new_index);
        proof {
            lemma_ends_keep_end(m, e, o, c, (b, old.end, old_value));
            assert forall|i: int| 0 <= i < e1.len() implies (#[trigger] e1[i]).1 != b by {
                if i < c {
                    assert(e[i].1 <= a);
                    assert(e1[i] == e[i]);
                } else if i > c {
                    assert(e[c].1 <= e[i].0);
                    assert(e1[i] == e[i]);
                }
            }
            lemma_ends_insert(m, e1, o1, c, (a, b, value), new_index.0);
            lemma_pieces_single(s0[q], a, b);
            assert(self@ =~= overwrite(s0, a, b, value));
            lemma_overwrite_sorted(s0, a, b, value);
        }
    }

    /// The walk ends at an entry that starts before `a` and ends at `b`:
    /// its end is cut off, and the new entry goes after it.
    #[verifier::spinoff_prover]
    #[verifier::rlimit(50)]
    fn finish_cut_end(
        &mut self,
        index: Index,
        a: u64,
        b: u64,
        value: u64,
        Ghost(s0): Ghost<Seq<Entry>>,
        Ghost(p0): Ghost<int>,
        Ghost(q): Ghost<int>,
        Ghost(d): Ghost<Seq<Entry>>,
    )
        requires
            old(self).walking(s0, p0, q, d, a, b),
            q < s0.len(),
            index.0 == old(self).data.order()[p0 + d.len()],
            s0[q].0 < a,
            s0[q].1 == b,
            old(self).data.counter() < counter_limit(),
        ensures
            final(self).wf(),
            final(self)@ == overwrite(s0, a, b, value),
            final(self).data.counter() == old(self).data.counter() + 1,
    {
        let ghost e = self@;
        let ghost o = self.data.order();
        let ghost m = self.map@;
        let ghost c = p0 + d.len();
        proof {
            self.lemma_walking(s0, p0, q, d, a, b, value);
        }
        let old = self.data.get_key(index);
        let old_value = self.data.get_value(index);
        self.data.set_key(index, old.start, a);
        let ghost e1 = self@;
        let ghost o1 = self.data.order();
        let new_index = self.data.insert_after(index, a, b, value);
        self.map.remove(&old.end);
        self.map.insert(a, index);
        self.map.insert(b, new_index);
        proof {
            assert forall|i: int| 0 <= i < e.len() && i != c implies (#[trigger] e[i]).1 != e[c].1 && e[i].1
                != a by {
                if i < c {
                    assert(e[i].1 <= a);
                } else {
                    assert(e[c].1 <= e[i].0);
                }
            }
            lemma_ends_move_end(m, e, o, c, (old.start, a, old_value));
            let m1 = m.remove(old.end).insert(a, index);
            assert forall|i: int| 0 <= i < e1.len() implies (#[trigger] e1[i]).1 != b by {
                if i < c {
                    assert(e[i].1 <= a);
                    assert(e1[i] == e[i]);
                } else if i > c {
                    assert(e[c].1 <= e[i].0);
                    assert(e1[i] == e[i]);
                }
            }
            lemma_index_of_unique(o1, c);
            lemma_ends_insert(m1, e1, o1, c + 1, (a, b, value), new_index.0);
            lemma_pieces_single(s0[q], a, b);
            assert(self@ =~= overwrite(s0, a, b, value));
            lemma_overwrite_sorted(s0, a, b, value);
        }
    }

    /// Every entry ends by `a`: the new entry goes last.
    #[verifier::spinoff_prover]
    #[verifier::rlimit(50)]
    fn finish_back(
        &mut self,
        a: u64,
        b: u64,
        value: u64,
        Ghost(s0): Ghost<Seq<Entry>>,
        Ghost(p0): Ghost<int>,
        Ghost(d): Ghost<Seq<Entry>>,
    )
        requires
            old(self).walking(s0, p0, s0.len() as int, d, a, b),
            old(self).data.counter() < counter_limit(),
        ensures
            final(self).wf(),
            final(self)@ == overwrite(s0, a, b, value),
            final(self).data.counter() == old(self).data.counter() + 1,
    {
        let ghost e = self@;
        let ghost o = self.data.order();
        let ghost m = self.map@;
        let ghost q = s0.len() as int;
        proof {
            self.lemma_walking(s0, p0, q, d, a, b, value);
        }
        let new_index = self.data.insert_back(a, b, value);
        self.map.insert(b, new_index);
        proof {
            assert(s0.skip(q) =~= Seq::<Entry>::empty());
            assert(e.insert(e.len() as int, (a, b, value)) =~= e.push((a, b, value)));
            assert(o.insert(o.len() as int, new_index.0) =~= o.push(new_index.0));
            assert forall|i: int| 0 <= i < e.len() implies (#[trigger] e[i]).1 != b by {
                assert(e[i].1 <= a);
            }
            lemma_ends_insert(m, e, o, e.len() as int, (a, b, value), new_index.0);
            assert(self@ =~= overwrite(s0, a, b, value));
            lemma_overwrite_sorted(s0, a, b, value);
        }
    }

    /// The walk passes an entry that lies inside `a..b`: it goes.
    #[verifier::spinoff_prover]
    #[verifier::rlimit(50)]
    fn step_remove(
        &mut self,
        index: Index,
        a: u64,
        b: u64,
        Ghost(s0): Ghost<Seq<Entry>>,
        Ghost(p0): Ghost<int>,
        Ghost(q): Ghost<int>,
        Ghost(d): Ghost<Seq<Entry>>,
    ) -> (next: Option<Index>)
        requires
            old(self).walking(s0, p0, q, d, a, b),
            q < s0.len(),
            index.0 == old(self).data.order()[p0 + d.len()],
            a <= s0[q].0,
            s0[q].1 < b,
        ensures
            final(self).walking(s0, p0, q + 1, d, a, b),
            final(self).data.counter() == old(self).data.counter(),
            next == (if q + 1 < s0.len() {
                Some(Index(final(self).data.order()[p0 + d.len()]))
            } else {
                None::<Index>
            }),
    {
        let ghost e = self@;
        let ghost o = self.data.order();
        let ghost m = self.map@;
        let ghost c = p0 + d.len();
        proof {
            self.lemma_walking(s0, p0, q, d, a, b, 0);
        }
        let old = self.data.get_key(index);
        let next = self.data.remove_and_get_next_index(index);
        self.map.remove(&old.end);
        proof {
            assert forall|i: int| 0 <= i < e.len() && i != c implies (#[trigger] e[i]).1 != e[c].1 by {
                if i < c {
                    assert(e[i].1 <= a);
                } else {
                    assert(e[c].1 <= e[i].0);
                }
            }
            lemma_ends_remove(m, e, o, c);
            let sub = s0.subrange(p0, q);
            lemma_pieces_below_concat(sub, seq![s0[q]], a);
            assert(s0.subrange(p0, q + 1) =~= sub + seq![s0[q]]);
            lemma_pieces_single(s0[q], a, b);
            assert(d + Seq::<Entry>::empty() =~= d);
            assert(self@ =~= s0.take(p0) + d + s0.skip(q + 1));
            lemma_sorted_remove(e, c);
        }
        next
    }

    /// The walk passes an entry that starts before `a` and ends inside
    /// `a..b`: its end is cut off.
    #[verifier::spinoff_prover]
    #[verifier::rlimit(50)]
    fn step_cut_end(
        &mut self,
        index: Index,
        a: u64,
        b: u64,
        Ghost(s0): Ghost<Seq<Entry>>,
        Ghost(p0): Ghost<int>,
        Ghost(q): Ghost<int>,
        Ghost(d): Ghost<Seq<Entry>>,
    ) -> (next: Option<Index>)
        requires
            old(self).walking(s0, p0, q, d, a, b),
            q < s0.len(),
            index.0 == old(self).data.order()[p0 + d.len()],
            s0[q].0 < a,
            s0[q].1 < b,
        ensures
            final(self).walking(s0, p0, q + 1, d + seq![(s0[q].0, a, s0[q].2)], a, b),
            final(self).data.counter() == old(self).data.counter(),
            next == (if q + 1 < s0.len() {
                Some(Index(final(self).data.order()[p0 + d.len() + 1]))
            } else {
                None::<Index>
            }),
    {
        let ghost e = self@;
        let ghost o = self.data.order();
        let ghost m = self.map@;
        let ghost c = p0 + d.len();
        proof {
            self.lemma_walking(s0, p0, q, d, a, b, 0);
        }
        let old = self.data.get_key(index);
        let old_value = self.data.get_value(index);
        self.data.set_key(index, old.start, a);
        self.map.remove(&old.end);
        self.map.insert(a, index);
        let next = self.data.next_index(index);
        proof {
            assert forall|i: int| 0 <= i < e.len() && i != c implies (#[trigger] e[i]).1 != e[c].1 && e[i].1
                != a by {
                if i < c {
                    assert(e[i].1 <= a);
                } else {
                    assert(e[c].1 <= e[i].0);
                }
            }
            lemma_ends_move_end(m, e, o, c, (old.start, a, old_value));
            let sub = s0.subrange(p0, q);
            lemma_pieces_below_concat(sub, seq![s0[q]], a);
            assert(s0.subrange(p0, q + 1) =~= sub + seq![s0[q]]);
            lemma_pieces_single(s0[q], a, b);
            let d2 = d + seq![(old.start, a, old_value)];
            assert(self@ =~= s0.take(p0) + d2 + s0.skip(q + 1));
            assert(sorted_disjoint(self@)) by {
                assert forall|i: int, j: int| 0 <= i < j < self@.len() implies (#[trigger] self@[i]).1
                    <= (#[trigger] self@[j]).0 by {
                    if i != c && j != c {
                        assert(self@[i] == e[i]);
                        assert(self@[j] == e[j]);
                    } else if i == c {
                        assert(self@[j] == e[j]);
                        assert(e[c].1 <= e[j].0);
                    } else {
                        assert(self@[i] == e[i]);
                        assert(e[i].1 <= e[c].0);
                    }
                }
                assert forall|i: int| 0 <= i < self@.len() implies (#[trigger] self@[i]).0 < self@[i].1 by {
                    if i != c {
                        assert(self@[i] == e[i]);
                    }
                }
            }
        }
        next
    }

    /// Sets `key` to `value`, walking the entries from the first one that
    /// ends after `key.start`, given as `index_opt`.
    fn insert_at_starting_index(&mut self, index_opt: Option<Index>, key: Range<u64>, value: u64)
        requires
            old(self).wf(),
            key.start < key.end,
            old(self).room() >= 2,
            match index_opt {
                Some(index) => {
                    &&& old(self).data.contains(index.0)
                    &&& old(self)@[old(self).data.position(index.0)].1 > key.start
                    &&& forall|j: int|
                        0 <= j < old(self).data.position(index.0) ==> (#[trigger] old(self)@[j]).1
                            <= key.start
                },
                None => forall|j: int| 0 <= j < old(self)@.len() ==> (#[trigger] old(self)@[j]).1 <= key.start,
            },
        ensures
            final(self).wf(),
            final(self)@ == overwrite(old(self)@, key.start, key.end, value),
            final(self).room() + 2 >= old(self).room(),
    {
        let a = key.start;
        let b = key.end;
        let ghost s0 = self@;
        let ghost counter0 = self.data.counter();
        let ghost p0: int = match index_opt {
            Some(index) => self.data.position(index.0),
            None => s0.len() as int,
        };
        proof {
            if let Some(index) = index_opt {
                assert forall|j: int| p0 <= j < s0.len() implies (#[trigger] s0[j]).1 > a by {
                    if j > p0 {
                        assert(s0[p0].1 <= s0[j].0);
                    }
                }
            }
            assert(s0.subrange(p0, p0) =~= Seq::<Entry>::empty());
            assert(s0 =~= s0.take(p0) + pieces_below(s0.subrange(p0, p0), a) + s0.skip(p0));
        }
        let ghost mut q: int = p0;
        let ghost mut d: Seq<Entry> = pieces_below(s0.subrange(p0, p0), a);
        let mut index_opt = index_opt;
        loop
            invariant
                self.walking(s0, p0, q, d, a, b),
                a == key.start,
                b == key.end,
                s0 == old(self)@,
                counter0 == old(self).data.counter(),
                self.data.counter() == counter0,
                counter0 + 2 <= counter_limit(),
                index_opt == (if q < s0.len() {
                    Some(Index(self.data.order()[p0 + d.len()]))
                } else {
                    None::<Index>
                }),
            decreases s0.len() - q,
        {
            let index = match index_opt {
                Some(index) => index,
                None => {
                    self.finish_back(a, b, value, Ghost(s0), Ghost(p0), Ghost(d));
                    return;
                },
            };
            proof {
                self.lemma_walking(s0, p0, q, d, a, b, value);
            }
            let old = self.data.get_key(index);
            if b <= old.start {
                self.finish_before(index, a, b, value, Ghost(s0), Ghost(p0), Ghost(q), Ghost(d));
                return;
            }
            if old.start >= a && old.end <= b {
                if old.end == b {
                    self.finish_replace(index, a, b, value, Ghost(s0), Ghost(p0), Ghost(q), Ghost(d));
                    return;
                }
                index_opt = self.step_remove(index, a, b, Ghost(s0), Ghost(p0), Ghost(q), Ghost(d));
                proof {
                    q = q + 1;
                }
                continue;
            }
            if a > old.start && b < old.end {
                self.finish_split(index, a, b, value, Ghost(s0), Ghost(p0), Ghost(q), Ghost(d));
                return;
            }
            if a <= old.start && b > old.start {
                self.finish_cut_start(index, a, b, value, Ghost(s0), Ghost(p0), Ghost(q), Ghost(d));
                return;
            }
            if b == old.end {
                self.finish_cut_end(index, a, b, value, Ghost(s0), Ghost(p0), Ghost(q), Ghost(d));
                return;
            }
            index_opt = self.step_cut_end(index, a, b, Ghost(s0), Ghost(p0), Ghost(q), Ghost(d));
            proof {
                d = d + seq![(s0[q].0, a, s0[q].2)];
                q = q + 1;
            }
        }
    }

    /// Maps every point of `key` to `value`. What other entries had of
    /// `key` is cut away from them; an empty `key` changes nothing.
    pub fn insert(&mut self, key: Range<u64>, value: u64)
        requires
            old(self).wf(),
            key.start <= key.end,
            old(self).room() >= 2,
        ensures
            final(self).wf(),
            sorted_disjoint(final(self)@),
            final(self)@ == (if key.start == key.end {
                old(self)@
            } else {
                overwrite(old(self)@, key.start, key.end, value)
            }),
            final(self).room() + 2 >= old(self).room(),
    {
        if key.start == key.end {
            return;
        }
        let ghost s0 = self@;
        let ghost o = self.data.order();
        let ghost m = self.map@;
        let a = key.start;
        let b = key.end;
        match self.data.first_and_last_index() {
            Some((first_index, last_index)) => {
                proof {
                    lemma_index_of_unique(o, 0);
                    lemma_index_of_unique(o, o.len() - 1);
                }
                let last = self.data.get_key(last_index);
                if a >= last.end {
                    let index = self.data.insert_back(a, b, value);
                    self.map.insert(b, index);
                    proof {
                        assert forall|i: int| 0 <= i < s0.len() implies (#[trigger] s0[i]).1 <= a && s0[i].0
                            < s0[i].1 by {
                            if i < s0.len() - 1 {
                                assert(s0[i].1 <= s0[s0.len() - 1].0);
                            }
                        }
                        lemma_pieces_below_all(s0, a);
                        lemma_pieces_above_none(s0, b);
                        assert(s0.insert(s0.len() as int, (a, b, value)) =~= s0.push((a, b, value)));
                        assert(o.insert(o.len() as int, index.0) =~= o.push(index.0));
                        lemma_ends_insert(m, s0, o, s0.len() as int, (a, b, value), index.0);
                        assert(self@ =~= overwrite(s0, a, b, value));
                        lemma_overwrite_sorted(s0, a, b, value);
                    }
                    return;
                }
                let first = self.data.get_key(first_index);
                if b <= first.start {
                    let index = self.data.insert_front(a, b, value);
                    self.map.insert(b, index);
                    proof {
                        assert forall|i: int| 0 <= i < s0.len() implies (#[trigger] s0[i]).0 >= b && s0[i].0
                            < s0[i].1 by {
                            if i > 0 {
                                assert(s0[0].1 <= s0[i].0);
                            }
                        }
                        lemma_pieces_below_none(s0, a);
                        lemma_pieces_above_all(s0, b);
                        assert forall|i: int| 0 <= i < s0.len() implies (#[trigger] s0[i]).1 != b by {}
                        lemma_ends_insert(m, s0, o, 0, (a, b, value), index.0);
                        assert(self@ =~= overwrite(s0, a, b, value));
                        lemma_overwrite_sorted(s0, a, b, value);
                    }
                    return;
                }
                let index = self.find_starting_index(a);
                self.insert_at_starting_index(index, key, value);
            },
            None => {
                let index = self.data.insert_back(a, b, value);
                self.map.insert(b, index);
                proof {
                    lemma_pieces_below_none(s0, a);
                    lemma_pieces_above_none(s0, b);
                    assert(s0.insert(0, (a, b, value)) =~= seq![(a, b, value)]);
                    assert(o.insert(0, index.0) =~= o.push(index.0));
                    lemma_ends_insert(m, s0, o, 0, (a, b, value), index.0);
                    assert(self@ =~= overwrite(s0, a, b, value));
                    lemma_overwrite_sorted(s0, a, b, value);
                }
            },
        }
    }

    /// A map of the entries of `vec`, set one after the other, so that a
    /// later entry wins where two overlap.
    pub fn from_vec(vec: Vec<(Range<u64>, u64)>) -> (map: RangeMap)
        requires
            forall|i: int| 0 <= i < vec@.len() ==> (#[trigger] vec@[i]).0.start <= vec@[i].0.end,
            2 * vec@.len() <= counter_limit(),
        ensures
            map.wf(),
            map@ == build_from(vec@),
            map.room() + 2 * vec@.len() >= counter_limit(),
    {
        let mut map = RangeMap::new();
        map.data.reserve(vec.len());
        let mut i: usize = 0;
        while i < vec.len()
            invariant
                map.wf(),
                0 <= i <= vec@.len(),
                forall|j: int| 0 <= j < vec@.len() ==> (#[trigger] vec@[j]).0.start <= vec@[j].0.end,
                2 * vec@.len() <= counter_limit(),
                map@ == build_from(vec@.take(i as int)),
                map.room() + 2 * i >= counter_limit(),
            decreases vec@.len() - i,
        {
            let (key, value) = (vec[i].0.start..vec[i].0.end, vec[i].1);
            map.insert(key, value);
            proof {
                assert(vec@.take(i + 1).drop_last() =~= vec@.take(i as int));
            }
            i = i + 1;
        }
        proof {
            assert(vec@.take(vec@.len() as int) =~= vec@);
        }
        map
    }

    /// The values of the entries, in address order.
    pub fn values(&self) -> (values: Vec<u64>)
        requires
            self.wf(),
        ensures
            values@.len() == self@.len(),
            forall|i: int| 0 <= i < values@.len() ==> #[trigger] values@[i] == self@[i].2,
    {
        let ghost e = self.data.entries();
        let ghost o = self.data.order();
        let mut values: Vec<u64> = Vec::new();
        let mut index_opt = self.data.first_index();
        let ghost mut i: int = 0;
        while index_opt.is_some()
            invariant
                self.wf(),
                e == self.data.entries(),
                o == self.data.order(),
                0 <= i <= e.len(),
                values@.len() == i,
                index_opt == (if i < e.len() {
                    Some(Index(o[i]))
                } else {
                    None::<Index>
                }),
                forall|j: int| 0 <= j < i ==> #[trigger] values@[j] == e[j].2,
            decreases e.len() - i,
        {
            let index = index_opt.unwrap();
            proof {
                lemma_index_of_unique(o, i);
            }
            values.push(self.data.get_value(index));
            index_opt = self.data.next_index(index);
            proof {
                i = i + 1;
            }
        }
        values
    }
}

} // verus!
