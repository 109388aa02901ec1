//! Stable sorting of keyed entries, as the loader orders its allocations
//! and operations: each entry is a key and a value, and entries with equal
//! keys keep their order.

use vstd::prelude::*;
use rayon::slice::ParallelSliceMut;

verus! {

/// How many of the entries have a key no greater than `key`.
pub open spec fn count_keys_le(s: Seq<(u64, u64)>, key: u64) -> nat
    decreases s.len(),
{
    if s.len() == 0 {
        0
    } else {
        count_keys_le(s.drop_last(), key) + if s.last().0 <= key {
            1nat
        } else {
            0nat
        }
    }
}

/// The entries sorted by key, those with equal keys in the order they
/// came in: each entry is put after those sorted before it whose key is no
/// greater.
pub open spec fn stably_sorted(s: Seq<(u64, u64)>) -> Seq<(u64, u64)>
    decreases s.len(),
{
    if s.len() == 0 {
        s
    } else {
        let t = stably_sorted(s.drop_last());
        t.insert(count_keys_le(t, s.last().0) as int, s.last())
    }
}

/// The keys never go down.
pub open spec fn keys_ascending(s: Seq<(u64, u64)>) -> bool {
    forall|i: int, j: int| 0 <= i < j < s.len() ==> (#[trigger] s[i]).0 <= (#[trigger] s[j]).0
}

proof fn lemma_ascending_drop_last(s: Seq<(u64, u64)>)
    requires
        keys_ascending(s),
        s.len() > 0,
    ensures
        keys_ascending(s.drop_last()),
{
    let t = s.drop_last();
    assert forall|i: int, j: int| 0 <= i < j < t.len() implies (#[trigger] t[i]).0 <= (#[trigger] t[j]).0 by {
        assert(t[i] == s[i] && t[j] == s[j]);
    }
}

/// In entries with ascending keys, those with a key no greater than `key`
/// are a prefix.
proof fn lemma_count_keys_le(s: Seq<(u64, u64)>, key: u64)
    requires
        keys_ascending(s),
    ensures
        count_keys_le(s, key) <= s.len(),
        forall|i: int| 0 <= i < count_keys_le(s, key) ==> (#[trigger] s[i]).0 <= key,
        forall|i: int| count_keys_le(s, key) <= i < s.len() ==> (#[trigger] s[i]).0 > key,
    decreases s.len(),
{
    if s.len() > 0 {
        let t = s.drop_last();
        lemma_ascending_drop_last(s);
        lemma_count_keys_le(t, key);
        let n = s.len() - 1;
        assert(s.last() == s[n]);
        if s[n].0 <= key {
            assert forall|i: int| 0 <= i < count_keys_le(s, key) implies (#[trigger] s[i]).0 <= key by {
                if i < n {
                    assert(s[i].0 <= s[n].0);
                }
            }
            assert(count_keys_le(t, key) == t.len()) by {
                if count_keys_le(t, key) < t.len() {
                    let i = count_keys_le(t, key) as int;
                    assert(t[i] == s[i]);
                    assert(s[i].0 <= s[n].0);
                }
            }
        } else {
            assert forall|i: int| 0 <= i < count_keys_le(s, key) implies (#[trigger] s[i]).0 <= key by {
                assert(t[i] == s[i]);
            }
            assert forall|i: int| count_keys_le(s, key) <= i < s.len() implies (#[trigger] s[i]).0 > key by {
                if i < n {
                    assert(t[i] == s[i]);
                }
            }
        }
    }
}

proof fn lemma_insert_ascending(t: Seq<(u64, u64)>, x: (u64, u64))
    requires
        keys_ascending(t),
    ensures
        keys_ascending(t.insert(count_keys_le(t, x.0) as int, x)),
{
    lemma_count_keys_le(t, x.0);
    let c = count_keys_le(t, x.0) as int;
    let u = t.insert(c, x);
    t.insert_ensures(c, x);
    assert forall|i: int, j: int| 0 <= i < j < u.len() implies (#[trigger] u[i]).0 <= (#[trigger] u[j]).0 by {
        if j < c {
            assert(u[i] == t[i] && u[j] == t[j]);
        } else if j == c {
            assert(u[i] == t[i]);
        } else if i > c {
            assert(u[i] == t[i - 1] && u[j] == t[j - 1]);
        } else if i == c {
            assert(u[j] == t[j - 1]);
        } else {
            assert(u[i] == t[i] && u[j] == t[j - 1]);
        }
    }
}

/// A stable sort gives ascending keys, keeps the number of entries and
/// keeps the entries themselves.
pub proof fn lemma_stably_sorted(s: Seq<(u64, u64)>)
    ensures
        keys_ascending(stably_sorted(s)),
        stably_sorted(s).len() == s.len(),
        stably_sorted(s).to_multiset() == s.to_multiset(),
    decreases s.len(),
{
    if s.len() > 0 {
        let t = stably_sorted(s.drop_last());
        lemma_stably_sorted(s.drop_last());
        lemma_count_keys_le(t, s.last().0);
        lemma_insert_ascending(t, s.last());
        let c = count_keys_le(t, s.last().0) as int;
        t.insert_ensures(c, s.last());
        vstd::seq_lib::lemma_seq_union_to_multiset_commutative(t.take(c), t.skip(c));
        assert(t.insert(c, s.last()) =~= t.take(c) + seq![s.last()] + t.skip(c));
        assert(t =~= t.take(c) + t.skip(c));
        vstd::seq_lib::lemma_multiset_commutative(t.take(c) + seq![s.last()], t.skip(c));
        vstd::seq_lib::lemma_multiset_commutative(t.take(c), seq![s.last()]);
        vstd::seq_lib::lemma_multiset_commutative(t.take(c), t.skip(c));
        vstd::seq_lib::lemma_multiset_commutative(s.drop_last(), seq![s.last()]);
        assert(s =~= s.drop_last() + seq![s.last()]);
    }
}

/// A stable sort keeps the entries themselves: each sorted entry is one of
/// the entries and each entry is among the sorted ones; entries that were
/// all different stay all different.
pub proof fn lemma_stably_sorted_members(s: Seq<(u64, u64)>)
    ensures
        stably_sorted(s).len() == s.len(),
        forall|i: int| 0 <= i < s.len() ==> s.contains(#[trigger] stably_sorted(s)[i]),
        forall|i: int| 0 <= i < s.len() ==> stably_sorted(s).contains(#[trigger] s[i]),
        s.no_duplicates() ==> stably_sorted(s).no_duplicates(),
{
    let t = stably_sorted(s);
    lemma_stably_sorted(s);
    s.to_multiset_ensures();
    t.to_multiset_ensures();
    assert forall|i: int| 0 <= i < s.len() implies s.contains(#[trigger] t[i]) by {
        assert(t.contains(t[i]));
        assert(t.to_multiset().count(t[i]) > 0);
    }
    assert forall|i: int| 0 <= i < s.len() implies t.contains(#[trigger] s[i]) by {
        assert(s.contains(s[i]));
        assert(s.to_multiset().count(s[i]) > 0);
    }
    if s.no_duplicates() {
        s.lemma_multiset_has_no_duplicates();
        t.lemma_multiset_has_no_duplicates_conv();
    }
}

/// Whether the values grow strictly along the entries.
pub open spec fn values_ascending(s: Seq<(u64, u64)>) -> bool {
    forall|i: int, j: int| 0 <= i < j < s.len() ==> (#[trigger] s[i]).1 < (#[trigger] s[j]).1
}

/// Whether the entries grow strictly, by key and then by value.
pub open spec fn strictly_ascending(s: Seq<(u64, u64)>) -> bool {
    forall|i: int, j: int|
        0 <= i < j < s.len() ==> (#[trigger] s[i]).0 < (#[trigger] s[j]).0 || (s[i].0 == s[j].0 && s[i].1 < s[j].1)
}

/// The sort is stable: entries that came in with growing values leave
/// ordered by key, and those with equal keys by value.
pub proof fn lemma_stably_sorted_stable(s: Seq<(u64, u64)>)
    requires
        values_ascending(s),
    ensures
        strictly_ascending(stably_sorted(s)),
    decreases s.len(),
{
    if s.len() > 0 {
        let d = s.drop_last();
        let x = s.last();
        assert forall|i: int, j: int| 0 <= i < j < d.len() implies (#[trigger] d[i]).1 < (#[trigger] d[j]).1 by {
            assert(d[i] == s[i] && d[j] == s[j]);
        }
        lemma_stably_sorted_stable(d);
        let t = stably_sorted(d);
        lemma_stably_sorted(d);
        lemma_stably_sorted_members(d);
        lemma_count_keys_le(t, x.0);
        let c = count_keys_le(t, x.0) as int;
        let u = t.insert(c, x);
        t.insert_ensures(c, x);
        assert forall|k: int| 0 <= k < t.len() implies (#[trigger] t[k]).1 < x.1 by {
            assert(d.contains(t[k]));
            let m = choose|m: int| 0 <= m < d.len() && d[m] == t[k];
            assert(d[m] == s[m]);
            assert(s[m].1 < s[s.len() - 1].1);
        }
        assert forall|i: int, j: int| 0 <= i < j < u.len() implies (#[trigger] u[i]).0 < (#[trigger] u[j]).0 || (
        u[i].0 == u[j].0 && u[i].1 < u[j].1) by {
            if j < c {
                assert(u[i] == t[i] && u[j] == t[j]);
            } else if j == c {
                assert(u[i] == t[i]);
            } else if i > c {
                assert(u[i] == t[i - 1] && u[j] == t[j - 1]);
            } else if i == c {
                assert(u[j] == t[j - 1]);
            } else {
                assert(u[i] == t[i] && u[j] == t[j - 1]);
            }
        }
    }
}

/// `ParallelSliceMut::par_sort_by_key` with the entry's key: sorts the
/// entries by key in parallel, keeping the order of entries with equal
/// keys.
#[verifier::external_body]
pub fn sort_by_key(entries: &mut Vec<(u64, u64)>)
    ensures
        final(entries)@ == stably_sorted(old(entries)@),
{
    entries.par_sort_by_key(|entry: &(u64, u64)| entry.0);
}

} // verus!
