//! Lists of lists kept in two flat vectors: an index of where each inner
//! list starts and how long it is, and one storage of all their items.

use vstd::prelude::*;
use crate::sorting::{
    stably_sorted, sort_by_key, lemma_stably_sorted, lemma_stably_sorted_members, lemma_stably_sorted_stable,
    strictly_ascending,
};

verus! {

/// Keyed lists of items, in the order they were inserted or sorted into.
pub struct VecVec<K, T> {
    index: Vec<(K, u32, u32)>,
    storage: Vec<T>,
}

/// The items of one entry of the index.
pub open spec fn items_of<K, T>(storage: Seq<T>, entry: (K, u32, u32)) -> Seq<T> {
    storage.subrange(entry.1 as int, entry.1 + entry.2)
}

/// The entries of the index, each with its key first and then a value.
pub open spec fn keyed_positions(keys: Seq<u64>) -> Seq<(u64, u64)> {
    Seq::new(keys.len(), |i: int| (keys[i], i as u64))
}

/// The positions of the entries once stably sorted by `keys`.
pub open spec fn key_order(keys: Seq<u64>) -> Seq<(u64, u64)> {
    stably_sorted(keyed_positions(keys))
}

impl<K, T> VecVec<K, T> {
    /// The keyed lists.
    pub closed spec fn view(&self) -> Seq<(K, Seq<T>)> {
        self.index@.map_values(|entry: (K, u32, u32)| (entry.0, items_of(self.storage@, entry)))
    }

    /// Each entry of the index lies within the storage.
    pub closed spec fn wf(&self) -> bool {
        &&& forall|i: int| 0 <= i < self.index@.len() ==> #[trigger] self.index@[i].1 + self.index@[i].2 <= self.storage@.len()
        &&& self.storage@.len() <= u32::MAX
    }

    /// How many items all the lists hold together.
    pub closed spec fn stored(&self) -> nat {
        self.storage@.len()
    }

    pub fn new() -> (v: VecVec<K, T>)
        ensures
            v.wf(),
            v.view() == Seq::<(K, Seq<T>)>::empty(),
            v.stored() == 0,
    {
        let v = VecVec { index: Vec::new(), storage: Vec::new() };
        proof {
            assert(v.view() =~= Seq::<(K, Seq<T>)>::empty());
        }
        v
    }

    /// Adds a list under `key`, after the others.
    pub fn insert(&mut self, key: K, items: Vec<T>)
        requires
            old(self).wf(),
            old(self).stored() + items@.len() <= u32::MAX,
        ensures
            final(self).wf(),
            final(self).view() == old(self).view().push((key, items@)),
            final(self).stored() == old(self).stored() + items@.len(),
    {
        let ghost before = self.view();
        let ghost old_storage = self.storage@;
        let ghost added = items@;
        let offset = self.storage.len();
        let mut items = items;
        self.storage.append(&mut items);
        let length = self.storage.len() - offset;
        self.index.push((key, offset as u32, length as u32));
        proof {
            assert(self.storage@ == old_storage + added);
            assert forall|i: int| 0 <= i < self.index@.len() - 1 implies #[trigger] items_of(self.storage@, self.index@[i])
                == items_of(old_storage, self.index@[i]) by {
                assert(items_of(self.storage@, self.index@[i]) =~= items_of(old_storage, self.index@[i]));
            }
            assert(items_of(self.storage@, self.index@.last()) =~= added);
            assert(self.view() =~= before.push((key, added)));
        }
    }

    /// The number of lists.
    pub fn len(&self) -> (n: usize)
        ensures
            n == self.view().len(),
    {
        self.index.len()
    }

    /// The key and the items of the list at `index`.
    pub fn get(&self, index: usize) -> (entry: (&K, &[T]))
        requires
            self.wf(),
            index < self.view().len(),
        ensures
            *entry.0 == self.view()[index as int].0,
            entry.1@ == self.view()[index as int].1,
    {
        let (ref key, offset, length) = self.index[index];
        let items = vstd::slice::slice_subrange(self.storage.as_slice(), offset as usize, offset as usize + length as usize);
        (key, items)
    }

    /// Turns the order of the lists around.
    pub fn reverse(&mut self)
        requires
            old(self).wf(),
        ensures
            final(self).wf(),
            final(self).view() == old(self).view().reverse(),
            final(self).stored() == old(self).stored(),
    {
        let ghost before = self.index@;
        let mut reversed: Vec<(K, u32, u32)> = Vec::new();
        while self.index.len() > 0
            invariant
                before == old(self).index@,
                self.storage@ == old(self).storage@,
                self.index@ == before.subrange(0, self.index@.len() as int),
                self.index@.len() + reversed@.len() == before.len(),
                forall|i: int| 0 <= i < reversed@.len() ==> #[trigger] reversed@[i] == before[before.len() - 1 - i],
            decreases self.index@.len(),
        {
            let entry = self.index.pop().unwrap();
            reversed.push(entry);
        }
        self.index = reversed;
        proof {
            assert forall|i: int| 0 <= i < self.index@.len() implies #[trigger] self.index@[i].1 + self.index@[i].2
                <= self.storage@.len() by {
                assert(self.index@[i] == before[before.len() - 1 - i]);
            }
            assert(self.view() =~= old(self).view().reverse());
        }
    }

    /// Sorts the lists by the key given for each, stably: `keys` holds the
    /// key of each list, in their present order.
    pub fn par_sort_by_key(&mut self, keys: &Vec<u64>)
        requires
            old(self).wf(),
            keys@.len() == old(self).view().len(),
        ensures
            final(self).wf(),
            final(self).stored() == old(self).stored(),
            final(self).view() == Seq::new(
                old(self).view().len(),
                |j: int| old(self).view()[key_order(keys@)[j].1 as int],
            ),
    {
        let n = self.index.len();
        let mut order: Vec<(u64, u64)> = Vec::new();
        let mut i: usize = 0;
        while i < n
            invariant
                n == keys@.len(),
                0 <= i <= n,
                order@ == keyed_positions(keys@).take(i as int),
            decreases n - i,
        {
            order.push((keys[i], i as u64));
            i = i + 1;
            proof {
                assert(order@ =~= keyed_positions(keys@).take(i as int));
            }
        }
        proof {
            assert(order@ =~= keyed_positions(keys@));
        }
        let ghost unsorted = order@;
        proof {
            assert forall|a: int, b: int| 0 <= a < b < unsorted.len() implies unsorted[a] != unsorted[b] by {
                assert(unsorted[a].1 == a as u64);
                assert(unsorted[b].1 == b as u64);
            }
            assert(unsorted.no_duplicates());
        }
        sort_by_key(&mut order);
        proof {
            lemma_stably_sorted(unsorted);
            lemma_stably_sorted_members(unsorted);
        }
        let ghost sorted = order@;
        let ghost before = self.index@;
        let mut slots: Vec<Option<(K, u32, u32)>> = Vec::new();
        let mut taken: Vec<(K, u32, u32)> = Vec::new();
        while self.index.len() > 0
            invariant
                before == old(self).index@,
                self.storage@ == old(self).storage@,
                self.index@ == before.subrange(0, self.index@.len() as int),
                self.index@.len() + taken@.len() == before.len(),
                forall|k: int| 0 <= k < taken@.len() ==> #[trigger] taken@[k] == before[before.len() - 1 - k],
            decreases self.index@.len(),
        {
            let entry = self.index.pop().unwrap();
            taken.push(entry);
        }
        while taken.len() > 0
            invariant
                taken@.len() + slots@.len() == before.len(),
                forall|k: int| 0 <= k < taken@.len() ==> #[trigger] taken@[k] == before[before.len() - 1 - k],
                forall|k: int| 0 <= k < slots@.len() ==> #[trigger] slots@[k] == Some(before[k]),
            decreases taken@.len(),
        {
            let entry = taken.pop().unwrap();
            slots.push(Some(entry));
        }
        let mut sorted_index: Vec<(K, u32, u32)> = Vec::new();
        let mut j: usize = 0;
        proof {
            assert(n as u64 == n);
        }
        while j < n
            invariant
                before == old(self).index@,
                self.storage@ == old(self).storage@,
                old(self).wf(),
                n <= u64::MAX,
                unsorted.len() == n,
                n == before.len(),
                n == sorted.len(),
                order@ == sorted,
                sorted == stably_sorted(unsorted),
                unsorted == keyed_positions(keys@),
                sorted.no_duplicates(),
                forall|a: int| 0 <= a < n ==> unsorted.contains(#[trigger] sorted[a]),
                slots@.len() == n,
                0 <= j <= n,
                sorted_index@.len() == j,
                forall|a: int| #![trigger sorted_index@[a]] 0 <= a < j ==> sorted_index@[a] == before[sorted[a].1 as int],
                forall|k: int|
                    #![trigger slots@[k]]
                    0 <= k < n ==> (slots@[k] == Some(before[k]) || (slots@[k] is None && exists|a: int|
                        0 <= a < j && sorted[a].1 == k)),
                forall|k: int| 0 <= k < n && (exists|a: int| 0 <= a < j && sorted[a].1 == k) ==> #[trigger] slots@[k]
                    is None,
            decreases n - j,
        {
            let position = order[j].1;
            proof {
                assert(unsorted.contains(sorted[j as int]));
                let m = choose|m: int| 0 <= m < unsorted.len() && unsorted[m] == sorted[j as int];
                assert(unsorted[m].1 == m as u64);
                assert forall|a: int| 0 <= a < j implies sorted[a].1 != position by {
                    assert(unsorted.contains(sorted[a]));
                    let ma = choose|ma: int| 0 <= ma < unsorted.len() && unsorted[ma] == sorted[a];
                    assert(unsorted[ma].1 == ma as u64);
                    if sorted[a].1 == position {
                        assert(ma == m);
                        assert(sorted[a] == sorted[j as int]);
                    }
                }
                assert(slots@[position as int] == Some(before[position as int]));
            }
            let count = slots.len();
            proof {
                assert(position < count);
            }
            let place = position as usize;
            let slot = slots[place].take();
            let entry = slot.unwrap();
            sorted_index.push(entry);
            j = j + 1;
        }
        self.index = sorted_index;
        proof {
            assert forall|a: int| 0 <= a < n implies (#[trigger] sorted[a]).1 < n by {
                assert(unsorted.contains(sorted[a]));
            }
            assert forall|i: int| 0 <= i < self.index@.len() implies #[trigger] self.index@[i].1 + self.index@[i].2
                <= self.storage@.len() by {
                assert(self.index@[i] == before[sorted[i].1 as int]);
            }
            assert(self.view() =~= Seq::new(
                old(self).view().len(),
                |j: int| old(self).view()[key_order(keys@)[j].1 as int],
            ));
        }
    }
}

/// Lists of items, numbered in the order they were pushed.
pub struct DenseVecVec<T> {
    index: Vec<(u32, u32)>,
    storage: Vec<T>,
}

impl<T> DenseVecVec<T> {
    /// The lists, by number.
    pub closed spec fn view(&self) -> Seq<Seq<T>> {
        self.index@.map_values(|entry: (u32, u32)| self.storage@.subrange(entry.0 as int, entry.0 + entry.1))
    }

    /// Each entry of the index lies within the storage.
    pub closed spec fn wf(&self) -> bool {
        &&& forall|i: int| 0 <= i < self.index@.len() ==> #[trigger] self.index@[i].0 + self.index@[i].1 <= self.storage@.len()
        &&& self.storage@.len() <= u32::MAX
    }

    /// How many items all the lists hold together.
    pub closed spec fn stored(&self) -> nat {
        self.storage@.len()
    }

    pub fn new() -> (v: DenseVecVec<T>)
        ensures
            v.wf(),
            v.view() == Seq::<Seq<T>>::empty(),
            v.stored() == 0,
    {
        let v = DenseVecVec { index: Vec::new(), storage: Vec::new() };
        proof {
            assert(v.view() =~= Seq::<Seq<T>>::empty());
        }
        v
    }

    /// Adds a list after the others; gives its number.
    pub fn push(&mut self, items: Vec<T>) -> (number: usize)
        requires
            old(self).wf(),
            old(self).stored() + items@.len() <= u32::MAX,
        ensures
            final(self).wf(),
            final(self).view() == old(self).view().push(items@),
            final(self).stored() == old(self).stored() + items@.len(),
            number == old(self).view().len(),
    {
        let ghost before = self.view();
        let ghost old_storage = self.storage@;
        let ghost added = items@;
        let offset = self.storage.len();
        let mut items = items;
        self.storage.append(&mut items);
        let length = self.storage.len() - offset;
        let number = self.index.len();
        self.index.push((offset as u32, length as u32));
        proof {
            assert(self.storage@ == old_storage + added);
            assert(self.storage@.subrange(offset as int, offset + length) =~= added);
            assert forall|i: int| 0 <= i < self.index@.len() - 1 implies #[trigger] self.storage@.subrange(
                self.index@[i].0 as int,
                self.index@[i].0 + self.index@[i].1,
            ) == old_storage.subrange(self.index@[i].0 as int, self.index@[i].0 + self.index@[i].1) by {
                assert(self.storage@.subrange(self.index@[i].0 as int, self.index@[i].0 + self.index@[i].1)
                    =~= old_storage.subrange(self.index@[i].0 as int, self.index@[i].0 + self.index@[i].1));
            }
            assert(self.view() =~= before.push(added));
        }
        number
    }

    /// The list numbered `number`.
    pub fn get(&self, number: usize) -> (items: &[T])
        requires
            self.wf(),
            number < self.view().len(),
        ensures
            items@ == self.view()[number as int],
    {
        let (offset, length) = self.index[number];
        vstd::slice::slice_subrange(self.storage.as_slice(), offset as usize, offset as usize + length as usize)
    }
}

/// Sorting lists by keys puts them in ascending order of their keys, lists
/// with equal keys in the order they had; each list comes once.
pub proof fn lemma_key_order(keys: Seq<u64>)
    requires
        keys.len() <= u64::MAX,
    ensures
        key_order(keys).len() == keys.len(),
        forall|j: int| #![trigger key_order(keys)[j]] 0 <= j < keys.len() ==> key_order(keys)[j].1 < keys.len()
            && key_order(keys)[j].0 == keys[key_order(keys)[j].1 as int],
        strictly_ascending(key_order(keys)),
{
    let unsorted = keyed_positions(keys);
    assert forall|i: int, j: int| 0 <= i < j < unsorted.len() implies (#[trigger] unsorted[i]).1 < (#[trigger] unsorted[j]).1 by {
    }
    lemma_stably_sorted_stable(unsorted);
    lemma_stably_sorted_members(unsorted);
    assert forall|j: int| #![trigger key_order(keys)[j]] 0 <= j < keys.len() implies key_order(keys)[j].1 < keys.len()
        && key_order(keys)[j].0 == keys[key_order(keys)[j].1 as int] by {
        assert(unsorted.contains(key_order(keys)[j]));
    }
}

} // verus!
