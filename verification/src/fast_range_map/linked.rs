use vstd::prelude::*;
use core::ops::Range;
use super::table::{
    Node, NodeTable, table_nodes, table_new, table_len, table_get, table_insert, table_replace,
    table_remove, table_reserve, table_clone,
};

verus! {

/// The 64-bit folded product of two integers: the low half of their full
/// 128-bit product XORed with the high half.
pub open spec fn folded_product(s: u64, by: u64) -> u64 {
    let product = s as int * by as int;
    ((product % 0x1_0000_0000_0000_0000) as u64) ^ ((product / 0x1_0000_0000_0000_0000) as u64)
}

/// Multiplies two integers into 128 bits and folds the halves of the
/// product together, which mixes all the bits of both inputs.
pub fn folded_multiply(s: u64, by: u64) -> (r: u64)
    ensures
        r == folded_product(s, by),
{
    assert(s as int * by as int <= 0xffff_ffff_ffff_ffff * 0xffff_ffff_ffff_ffff) by (nonlinear_arith)
        requires
            s <= 0xffff_ffff_ffff_ffff,
            by <= 0xffff_ffff_ffff_ffff,
    ;
    let result: u128 = (s as u128) * (by as u128);
    assert(result & 0xffff_ffff_ffff_ffff == result % 0x1_0000_0000_0000_0000) by (bit_vector);
    assert(result >> 64u128 == result / 0x1_0000_0000_0000_0000) by (bit_vector);
    ((result & 0xffff_ffff_ffff_ffff) as u64) ^ ((result >> 64u128) as u64)
}

proof fn lemma_seq_insert(s: Seq<u64>, pos: int, x: u64)
    requires
        0 <= pos <= s.len(),
        s.no_duplicates(),
        !s.contains(x),
    ensures
        s.insert(pos, x).to_set() == s.to_set().insert(x),
        s.insert(pos, x).no_duplicates(),
        s.insert(pos, x).len() == s.len() + 1,
        forall|i: int| 0 <= i < pos ==> #[trigger] s.insert(pos, x)[i] == s[i],
        forall|i: int| pos < i <= s.len() ==> #[trigger] s.insert(pos, x)[i] == s[i - 1],
        s.insert(pos, x)[pos] == x,
{
    s.insert_ensures(pos, x);
    let t = s.insert(pos, x);
    assert forall|i: int| pos < i <= s.len() implies #[trigger] t[i] == s[i - 1] by {
        assert(t[(i - 1) + 1] == s[i - 1]);
    }
    assert forall|k: u64| t.to_set().contains(k) <==> s.to_set().insert(x).contains(k) by {
        if s.contains(k) {
            let j = choose|j: int| 0 <= j < s.len() && s[j] == k;
            if j < pos {
                assert(t[j] == k);
            } else {
                assert(t[j + 1] == k);
            }
        }
        if k == x {
            assert(t[pos] == x);
        }
        if t.contains(k) {
            let j = choose|j: int| 0 <= j < t.len() && t[j] == k;
            if j < pos {
                assert(s[j] == k);
            } else if j > pos {
                assert(s[j - 1] == k);
            }
        }
    }
    assert(t.to_set() =~= s.to_set().insert(x));
    assert forall|i: int, j: int| 0 <= i < t.len() && 0 <= j < t.len() && i != j implies t[i] != t[j] by {
        if i != pos && j != pos {
            let si = if i < pos { i } else { i - 1 };
            let sj = if j < pos { j } else { j - 1 };
            assert(t[i] == s[si]);
            assert(t[j] == s[sj]);
        } else if i == pos {
            let sj = if j < pos { j } else { j - 1 };
            assert(t[j] == s[sj]);
        } else {
            let si = if i < pos { i } else { i - 1 };
            assert(t[i] == s[si]);
        }
    }
}

proof fn lemma_seq_remove(s: Seq<u64>, pos: int)
    requires
        0 <= pos < s.len(),
        s.no_duplicates(),
    ensures
        s.remove(pos).to_set() == s.to_set().remove(s[pos]),
        s.remove(pos).no_duplicates(),
        s.remove(pos).len() == s.len() - 1,
        forall|i: int| 0 <= i < pos ==> #[trigger] s.remove(pos)[i] == s[i],
        forall|i: int| pos <= i < s.len() - 1 ==> #[trigger] s.remove(pos)[i] == s[i + 1],
{
    s.remove_ensures(pos);
    let t = s.remove(pos);
    assert forall|k: u64| t.to_set().contains(k) <==> s.to_set().remove(s[pos]).contains(k) by {
        if s.contains(k) && k != s[pos] {
            let j = choose|j: int| 0 <= j < s.len() && s[j] == k;
            if j < pos {
                assert(t[j] == k);
            } else {
                assert(t[j - 1] == k);
            }
        }
        if t.contains(k) {
            let j = choose|j: int| 0 <= j < t.len() && t[j] == k;
            if j < pos {
                assert(s[j] == k);
            } else {
                assert(s[j + 1] == k);
            }
        }
    }
    assert(t.to_set() =~= s.to_set().remove(s[pos]));
    assert forall|i: int, j: int| 0 <= i < t.len() && 0 <= j < t.len() && i != j implies t[i] != t[j] by {
        let si = if i < pos { i } else { i + 1 };
        let sj = if j < pos { j } else { j + 1 };
        assert(t[i] == s[si]);
        assert(t[j] == s[sj]);
    }
}

/// With no duplicates, the position of an element is where it stands.
pub proof fn lemma_index_of_unique(s: Seq<u64>, i: int)
    requires
        s.no_duplicates(),
        0 <= i < s.len(),
    ensures
        s.index_of(s[i]) == i,
        s.contains(s[i]),
{
    assert(s[i] == s[i]);
    let j = s.index_of(s[i]);
    assert(0 <= j < s.len() && s[j] == s[i]);
}

/// A handle of an entry of a `LinkedHashMap`.
#[derive(Copy, Clone, PartialEq, Eq, PartialOrd, Ord, Hash, Debug, Structural)]
pub struct Index(pub u64);

impl Index {
    pub fn new(value: u64) -> (index: Index)
        ensures
            index.0 == value,
    {
        Index(value)
    }

    pub fn get(self) -> (value: u64)
        ensures
            value == self.0,
    {
        self.0
    }
}

/// The limit of the counter from which handles are made: each handle
/// holds the counter's value in its upper 32 bits.
pub open spec fn counter_limit() -> nat {
    0xffff_ffff
}

/// A hash map whose entries, ranges with a value, also form a doubly
/// linked list, so that they can be walked, and added at any place, in a
/// chosen order.
pub struct LinkedHashMap {
    nodes: NodeTable,
    counter: u64,
    first_and_last: Option<(Index, Index)>,
    order: Ghost<Seq<u64>>,
}

impl LinkedHashMap {
    /// The handles of the entries, in list order.
    pub closed spec fn order(&self) -> Seq<u64> {
        self.order@
    }

    pub closed spec fn nodes(&self) -> Map<u64, Node> {
        table_nodes(self.nodes)
    }

    /// How many handles have been made so far.
    pub closed spec fn counter(&self) -> nat {
        self.counter as nat
    }

    /// The range and value of each entry, in list order.
    pub closed spec fn entries(&self) -> Seq<(u64, u64, u64)> {
        Seq::new(
            self.order@.len(),
            |i: int|
                {
                    let node = table_nodes(self.nodes)[self.order@[i]];
                    (node.start, node.end, node.value)
                },
        )
    }

    /// The position of the entry with handle `index` in list order.
    pub open spec fn position(&self, index: u64) -> int {
        self.order().index_of(index)
    }

    pub open spec fn contains(&self, index: u64) -> bool {
        self.order().contains(index)
    }

    spec fn links_at(&self, i: int) -> bool {
        let o = self.order@;
        let node = table_nodes(self.nodes)[o[i]];
        &&& node.prev == (if i == 0 {
            None::<u64>
        } else {
            Some(o[i - 1])
        })
        &&& node.next == (if i == o.len() - 1 {
            None::<u64>
        } else {
            Some(o[i + 1])
        })
    }

    spec fn inv(&self) -> bool {
        let o = self.order@;
        let m = table_nodes(self.nodes);
        &&& m.dom().finite()
        &&& o.no_duplicates()
        &&& m.dom() == o.to_set()
        &&& forall|k: u64| #[trigger]
            m.contains_key(k) ==> m[k].index == k && 1 <= (k >> 32u64) <= self.counter
        &&& self.counter <= counter_limit()
        &&& (o.len() == 0 <==> self.first_and_last is None)
        &&& o.len() > 0 ==> self.first_and_last == Some((Index(o[0]), Index(o[o.len() - 1])))
        &&& forall|i: int| 0 <= i < o.len() ==> #[trigger] self.links_at(i)
    }

    /// The map's invariant, with what its users rely on: the handles are
    /// all distinct and there is one per entry.
    pub open spec fn wf(&self) -> bool {
        &&& self.inv_holds()
        &&& self.order().no_duplicates()
        &&& self.entries().len() == self.order().len()
        &&& self.counter() <= counter_limit()
    }

    pub closed spec fn inv_holds(&self) -> bool {
        self.inv()
    }

    pub fn new() -> (map: LinkedHashMap)
        ensures
            map.wf(),
            map.order() == Seq::<u64>::empty(),
            map.entries() == Seq::<(u64, u64, u64)>::empty(),
            map.counter() == 0,
    {
        let map = LinkedHashMap {
            nodes: table_new(),
            counter: 0,
            first_and_last: None,
            order: Ghost(Seq::empty()),
        };
        proof {
            assert(map.nodes().dom() =~= map.order().to_set());
            assert(map.entries() =~= Seq::<(u64, u64, u64)>::empty());
        }
        map
    }

    pub fn is_empty(&self) -> (r: bool)
        requires
            self.wf(),
        ensures
            r == (self.entries().len() == 0),
    {
        self.len() == 0
    }

    pub fn len(&self) -> (len: usize)
        requires
            self.wf(),
        ensures
            len == self.entries().len(),
    {
        proof {
            self.order@.unique_seq_to_set();
        }
        table_len(&self.nodes)
    }


    /// Makes a handle that no entry has yet: its upper half is the new
    /// value of the counter, its lower half a hash of it.
    fn generate_index(&mut self) -> (index: Index)
        requires
            old(self).inv(),
            old(self).counter < counter_limit(),
        ensures
            final(self).inv(),
            final(self).counter == old(self).counter + 1,
            final(self).nodes == old(self).nodes,
            final(self).order == old(self).order,
            final(self).first_and_last == old(self).first_and_last,
            index.0 >> 32u64 == final(self).counter,
            !table_nodes(final(self).nodes).contains_key(index.0),
            !final(self).order@.contains(index.0),
    {
        self.counter = self.counter + 1;
        let counter = self.counter;
        let hash = folded_multiply(counter, 6364136223846793005);
        let raw = (hash >> 32u64) | (counter << 32u64);
        assert(((hash >> 32u64) | (counter << 32u64)) >> 32u64 == counter) by (bit_vector)
            requires
                counter <= 0xffff_ffffu64,
        ;
        proof {
            assert forall|i: int| 0 <= i < self.order@.len() implies #[trigger] self.links_at(i) by {
                assert(old(self).links_at(i));
            }
            if table_nodes(self.nodes).contains_key(raw) {
                assert(1 <= (raw >> 32u64) <= self.counter - 1);
            }
            assert(table_nodes(self.nodes).dom().contains(raw) == self.order@.to_set().contains(raw));
        }
        Index::new(raw)
    }

    /// Adds an entry at the end of the list.
    pub fn insert_back(&mut self, start: u64, end: u64, value: u64) -> (index: Index)
        requires
            old(self).wf(),
            old(self).counter() < counter_limit(),
        ensures
            final(self).wf(),
            !old(self).order().contains(index.0),
            final(self).order() == old(self).order().push(index.0),
            final(self).entries() == old(self).entries().push((start, end, value)),
            final(self).counter() == old(self).counter() + 1,
    {
        let ghost old_self = *self;
        let index = self.generate_index();
        let prev;
        match self.first_and_last {
            Some((first, last)) => {
                prev = Some(last.get());
                proof {
                    assert(self.order@.contains(last.0)) by {
                        assert(self.order@[self.order@.len() - 1] == last.0);
                    }
                    assert(table_nodes(self.nodes).dom().contains(last.0) == self.order@.to_set().contains(last.0));
                }
                let mut last_node = table_get(&self.nodes, last.get()).unwrap();
                last_node.next = Some(index.get());
                table_replace(&mut self.nodes, last_node);
                self.first_and_last = Some((first, index));
            },
            None => {
                prev = None;
                self.first_and_last = Some((index, index));
            },
        }
        proof {
            assert(table_nodes(self.nodes).dom() =~= table_nodes(old_self.nodes).dom());
            assert(!table_nodes(self.nodes).contains_key(index.0));
        }
        table_insert(
            &mut self.nodes,
            Node { index: index.get(), start, end, value, prev, next: None },
        );
        proof {
            lemma_seq_insert(self.order@, self.order@.len() as int, index.0);
            assert(self.order@.insert(self.order@.len() as int, index.0) =~= self.order@.push(index.0));
        }
        self.order = Ghost(self.order@.push(index.0));
        proof {
            let o = self.order@;
            let oo = old_self.order@;
            let m = table_nodes(self.nodes);
            assert(m.dom() =~= o.to_set());
            assert forall|i: int| 0 <= i < o.len() implies #[trigger] self.links_at(i) by {
                if i < oo.len() {
                    assert(old_self.links_at(i));
                }
            }
            assert forall|k: u64| #[trigger] m.contains_key(k) implies m[k].index == k && 1 <= (k >> 32u64) <= self.counter by {
                if k != index.0 {
                    assert(table_nodes(old_self.nodes).contains_key(k));
                }
            }
            assert(self.entries() =~= old_self.entries().push((start, end, value)));
        }
        index
    }

    proof fn lemma_has_node(&self, index: u64)
        requires
            self.inv(),
            self.order@.contains(index),
        ensures
            table_nodes(self.nodes).contains_key(index),
            0 <= self.order@.index_of(index) < self.order@.len(),
            self.order@[self.order@.index_of(index)] == index,
            self.links_at(self.order@.index_of(index)),
    {
        assert(table_nodes(self.nodes).dom().contains(index) == self.order@.to_set().contains(index));
        let i = self.order@.index_of(index);
    }

    /// Adds an entry at the start of the list.
    pub fn insert_front(&mut self, start: u64, end: u64, value: u64) -> (index: Index)
        requires
            old(self).wf(),
            old(self).counter() < counter_limit(),
        ensures
            final(self).wf(),
            !old(self).order().contains(index.0),
            final(self).order() == old(self).order().insert(0, index.0),
            final(self).entries() == old(self).entries().insert(0, (start, end, value)),
            final(self).counter() == old(self).counter() + 1,
    {
        let ghost old_self = *self;
        let index = self.generate_index();
        let next;
        match self.first_and_last {
            Some((first, last)) => {
                next = Some(first.get());
                proof {
                    assert(self.order@[0] == first.0);
                    self.lemma_has_node(first.0);
                }
                let mut first_node = table_get(&self.nodes, first.get()).unwrap();
                first_node.prev = Some(index.get());
                table_replace(&mut self.nodes, first_node);
                self.first_and_last = Some((index, last));
            },
            None => {
                next = None;
                self.first_and_last = Some((index, index));
            },
        }
        proof {
            assert(table_nodes(self.nodes).dom() =~= table_nodes(old_self.nodes).dom());
        }
        table_insert(
            &mut self.nodes,
            Node { index: index.get(), start, end, value, prev: None, next },
        );
        proof {
            lemma_seq_insert(self.order@, 0, index.0);
        }
        self.order = Ghost(self.order@.insert(0, index.0));
        proof {
            let o = self.order@;
            let oo = old_self.order@;
            let m = table_nodes(self.nodes);
            assert(m.dom() =~= o.to_set());
            assert forall|i: int| 0 <= i < o.len() implies #[trigger] self.links_at(i) by {
                if i > 0 {
                    assert(old_self.links_at(i - 1));
                }
            }
            assert forall|k: u64| #[trigger] m.contains_key(k) implies m[k].index == k && 1 <= (k >> 32u64) <= self.counter by {
                if k != index.0 {
                    assert(table_nodes(old_self.nodes).contains_key(k));
                }
            }
            assert(self.entries() =~= old_self.entries().insert(0, (start, end, value)));
        }
        index
    }

    /// Adds an entry right before the entry with handle `next_index`.
    pub fn insert_before(&mut self, next_index: Index, start: u64, end: u64, value: u64) -> (index: Index)
        requires
            old(self).wf(),
            old(self).contains(next_index.0),
            old(self).counter() < counter_limit(),
        ensures
            final(self).wf(),
            !old(self).order().contains(index.0),
            final(self).order() == old(self).order().insert(old(self).position(next_index.0), index.0),
            final(self).entries() == old(self).entries().insert(
                old(self).position(next_index.0),
                (start, end, value),
            ),
            final(self).counter() == old(self).counter() + 1,
    {
        let ghost old_self = *self;
        let ghost pos = self.order@.index_of(next_index.0);
        proof {
            self.lemma_has_node(next_index.0);
        }
        let next_node = table_get(&self.nodes, next_index.get()).unwrap();
        match next_node.prev {
            Some(prev_index) => {
                let index = self.generate_index();
                proof {
                    assert(pos > 0);
                    assert(self.order@[pos - 1] == prev_index);
                    lemma_index_of_unique(self.order@, pos - 1);
                    self.lemma_has_node(prev_index);
                }
                table_insert(
                    &mut self.nodes,
                    Node {
                        index: index.get(),
                        start,
                        end,
                        value,
                        prev: Some(prev_index),
                        next: Some(next_index.get()),
                    },
                );
                let mut prev_node = table_get(&self.nodes, prev_index).unwrap();
                prev_node.next = Some(index.get());
                table_replace(&mut self.nodes, prev_node);
                let mut next_node = table_get(&self.nodes, next_index.get()).unwrap();
                next_node.prev = Some(index.get());
                table_replace(&mut self.nodes, next_node);
                proof {
                    lemma_seq_insert(self.order@, pos, index.0);
                }
                self.order = Ghost(self.order@.insert(pos, index.0));
                proof {
                    let o = self.order@;
                    let oo = old_self.order@;
                    let m = table_nodes(self.nodes);
                    assert(m.dom() =~= o.to_set());
                    assert forall|i: int| 0 <= i < o.len() implies #[trigger] self.links_at(i) by {
                        if i < pos {
                            assert(old_self.links_at(i));
                        } else if i > pos {
                            assert(old_self.links_at(i - 1));
                        }
                    }
                    assert forall|k: u64| #[trigger] m.contains_key(k) implies m[k].index == k && 1 <= (k >> 32u64) <= self.counter by {
                        if k != index.0 {
                            assert(table_nodes(old_self.nodes).contains_key(k));
                        }
                    }
                    assert(self.entries() =~= old_self.entries().insert(pos, (start, end, value)));
                }
                index
            },
            None => {
                proof {
                    assert(pos == 0);
                }
                self.insert_front(start, end, value)
            },
        }
    }

    /// Adds an entry right after the entry with handle `prev_index`.
    pub fn insert_after(&mut self, prev_index: Index, start: u64, end: u64, value: u64) -> (index: Index)
        requires
            old(self).wf(),
            old(self).contains(prev_index.0),
            old(self).counter() < counter_limit(),
        ensures
            final(self).wf(),
            !old(self).order().contains(index.0),
            final(self).order() == old(self).order().insert(old(self).position(prev_index.0) + 1, index.0),
            final(self).entries() == old(self).entries().insert(
                old(self).position(prev_index.0) + 1,
                (start, end, value),
            ),
            final(self).counter() == old(self).counter() + 1,
    {
        let ghost old_self = *self;
        let ghost pos = self.order@.index_of(prev_index.0);
        proof {
            self.lemma_has_node(prev_index.0);
        }
        let prev_node = table_get(&self.nodes, prev_index.get()).unwrap();
        match prev_node.next {
            Some(next_index) => {
                let index = self.generate_index();
                proof {
                    assert(pos < self.order@.len() - 1);
                    assert(self.order@[pos + 1] == next_index);
                    lemma_index_of_unique(self.order@, pos + 1);
                    self.lemma_has_node(next_index);
                }
                table_insert(
                    &mut self.nodes,
                    Node {
                        index: index.get(),
                        start,
                        end,
                        value,
                        prev: Some(prev_index.get()),
                        next: Some(next_index),
                    },
                );
                let mut prev_node = table_get(&self.nodes, prev_index.get()).unwrap();
                prev_node.next = Some(index.get());
                table_replace(&mut self.nodes, prev_node);
                let mut next_node = table_get(&self.nodes, next_index).unwrap();
                next_node.prev = Some(index.get());
                table_replace(&mut self.nodes, next_node);
                proof {
                    lemma_seq_insert(self.order@, pos + 1, index.0);
                }
                self.order = Ghost(self.order@.insert(pos + 1, index.0));
                proof {
                    let o = self.order@;
                    let oo = old_self.order@;
                    let m = table_nodes(self.nodes);
                    assert(m.dom() =~= o.to_set());
                    assert forall|i: int| 0 <= i < o.len() implies #[trigger] self.links_at(i) by {
                        if i < pos + 1 {
                            assert(old_self.links_at(i));
                        } else if i > pos + 1 {
                            assert(old_self.links_at(i - 1));
                        }
                    }
                    assert forall|k: u64| #[trigger] m.contains_key(k) implies m[k].index == k && 1 <= (k >> 32u64) <= self.counter by {
                        if k != index.0 {
                            assert(table_nodes(old_self.nodes).contains_key(k));
                        }
                    }
                    assert(self.entries() =~= old_self.entries().insert(pos + 1, (start, end, value)));
                }
                index
            },
            None => {
                proof {
                    assert(pos == self.order@.len() - 1);
                    assert(self.order@.insert(pos + 1, prev_index.0) =~= self.order@.push(prev_index.0));
                }
                let index = self.insert_back(start, end, value);
                proof {
                    assert(self.order() =~= old_self.order().insert(pos + 1, index.0));
                    assert(self.entries() =~= old_self.entries().insert(pos + 1, (start, end, value)));
                }
                index
            },
        }
    }

    /// Removes the entry with handle `index`, and gives the handle of the
    /// entry that followed it, if any.
    pub fn remove_and_get_next_index(&mut self, index: Index) -> (next: Option<Index>)
        requires
            old(self).wf(),
            old(self).contains(index.0),
        ensures
            final(self).wf(),
            final(self).order() == old(self).order().remove(old(self).position(index.0)),
            final(self).entries() == old(self).entries().remove(old(self).position(index.0)),
            final(self).counter() == old(self).counter(),
            next == (if old(self).position(index.0) + 1 < old(self).order().len() {
                Some(Index(old(self).order()[old(self).position(index.0) + 1]))
            } else {
                None::<Index>
            }),
    {
        let ghost old_self = *self;
        let ghost pos = self.order@.index_of(index.0);
        let ghost len = self.order@.len();
        proof {
            self.lemma_has_node(index.0);
            if pos > 0 {
                lemma_index_of_unique(self.order@, pos - 1);
                self.lemma_has_node(self.order@[pos - 1]);
            }
            if pos + 1 < len {
                lemma_index_of_unique(self.order@, pos + 1);
                self.lemma_has_node(self.order@[pos + 1]);
            }
        }
        let node = table_remove(&mut self.nodes, index.get()).unwrap();
        let result;
        match (node.prev, node.next) {
            (Some(prev_index), Some(next_index)) => {
                let mut prev_node = table_get(&self.nodes, prev_index).unwrap();
                prev_node.next = Some(next_index);
                table_replace(&mut self.nodes, prev_node);
                let mut next_node = table_get(&self.nodes, next_index).unwrap();
                next_node.prev = Some(prev_index);
                table_replace(&mut self.nodes, next_node);
                result = Some(Index(next_index));
            },
            (None, None) => {
                self.first_and_last = None;
                result = None;
            },
            (Some(prev_index), None) => {
                let mut prev_node = table_get(&self.nodes, prev_index).unwrap();
                prev_node.next = None;
                table_replace(&mut self.nodes, prev_node);
                match self.first_and_last {
                    Some((first, _)) => {
                        self.first_and_last = Some((first, Index(prev_index)));
                    },
                    None => {},
                }
                result = None;
            },
            (None, Some(next_index)) => {
                let mut next_node = table_get(&self.nodes, next_index).unwrap();
                next_node.prev = None;
                table_replace(&mut self.nodes, next_node);
                match self.first_and_last {
                    Some((_, last)) => {
                        self.first_and_last = Some((Index(next_index), last));
                    },
                    None => {},
                }
                result = Some(Index(next_index));
            },
        }
        proof {
            lemma_seq_remove(self.order@, pos);
        }
        self.order = Ghost(self.order@.remove(pos));
        proof {
            let o = self.order@;
            let oo = old_self.order@;
            let m = table_nodes(self.nodes);
            assert(m.dom() =~= o.to_set());
            assert forall|i: int| 0 <= i < o.len() implies #[trigger] self.links_at(i) by {
                if i < pos {
                    assert(old_self.links_at(i));
                } else {
                    assert(old_self.links_at(i + 1));
                }
            }
            assert forall|k: u64| #[trigger] m.contains_key(k) implies m[k].index == k && 1 <= (k >> 32u64) <= self.counter by {
                assert(table_nodes(old_self.nodes).contains_key(k));
            }
            assert(self.entries() =~= old_self.entries().remove(pos));
        }
        result
    }

    /// The handle of the entry that follows the entry with handle `index`.
    pub fn next_index(&self, index: Index) -> (next: Option<Index>)
        requires
            self.wf(),
            self.contains(index.0),
        ensures
            next == (if self.position(index.0) + 1 < self.order().len() {
                Some(Index(self.order()[self.position(index.0) + 1]))
            } else {
                None::<Index>
            }),
    {
        proof {
            self.lemma_has_node(index.0);
        }
        match table_get(&self.nodes, index.get()).unwrap().next {
            Some(next) => Some(Index(next)),
            None => None,
        }
    }

    pub fn first_index(&self) -> (first: Option<Index>)
        requires
            self.wf(),
        ensures
            first == (if self.order().len() > 0 {
                Some(Index(self.order()[0]))
            } else {
                None::<Index>
            }),
    {
        match self.first_and_last {
            Some((first, _)) => Some(first),
            None => None,
        }
    }

    pub fn first_and_last_index(&self) -> (ends: Option<(Index, Index)>)
        requires
            self.wf(),
        ensures
            ends == (if self.order().len() > 0 {
                Some((Index(self.order()[0]), Index(self.order()[self.order().len() - 1])))
            } else {
                None::<(Index, Index)>
            }),
    {
        self.first_and_last
    }

    /// The range of the entry with handle `index`.
    pub fn get_key(&self, index: Index) -> (key: Range<u64>)
        requires
            self.wf(),
            self.contains(index.0),
        ensures
            key.start == self.entries()[self.position(index.0)].0,
            key.end == self.entries()[self.position(index.0)].1,
    {
        proof {
            self.lemma_has_node(index.0);
        }
        let node = table_get(&self.nodes, index.get()).unwrap();
        node.start..node.end
    }

    /// The value of the entry with handle `index`.
    pub fn get_value(&self, index: Index) -> (value: u64)
        requires
            self.wf(),
            self.contains(index.0),
        ensures
            value == self.entries()[self.position(index.0)].2,
    {
        proof {
            self.lemma_has_node(index.0);
        }
        table_get(&self.nodes, index.get()).unwrap().value
    }

    proof fn lemma_update_keeps_inv(&self, old_self: LinkedHashMap, index: u64, node: Node)
        requires
            old_self.inv(),
            old_self.order@.contains(index),
            self.order == old_self.order,
            self.counter == old_self.counter,
            self.first_and_last == old_self.first_and_last,
            node.index == index,
            node.prev == table_nodes(old_self.nodes)[index].prev,
            node.next == table_nodes(old_self.nodes)[index].next,
            table_nodes(self.nodes) == table_nodes(old_self.nodes).insert(index, node),
        ensures
            self.inv(),
            self.entries() == old_self.entries().update(
                old_self.order@.index_of(index),
                (node.start, node.end, node.value),
            ),
    {
        old_self.lemma_has_node(index);
        let o = self.order@;
        let m = table_nodes(self.nodes);
        assert(m.dom() =~= o.to_set());
        assert forall|i: int| 0 <= i < o.len() implies #[trigger] self.links_at(i) by {
            assert(old_self.links_at(i));
        }
        assert forall|k: u64| #[trigger] m.contains_key(k) implies m[k].index == k && 1 <= (k >> 32u64) <= self.counter by {
            assert(table_nodes(old_self.nodes).contains_key(k));
        }
        let pos = old_self.order@.index_of(index);
        assert forall|i: int| 0 <= i < o.len() && i != pos implies o[i] != index by {}
        assert(self.entries() =~= old_self.entries().update(pos, (node.start, node.end, node.value)));
    }

    /// Replaces the range of the entry with handle `index`.
    pub fn set_key(&mut self, index: Index, start: u64, end: u64)
        requires
            old(self).wf(),
            old(self).contains(index.0),
        ensures
            final(self).wf(),
            final(self).order() == old(self).order(),
            final(self).counter() == old(self).counter(),
            final(self).entries() == old(self).entries().update(
                old(self).position(index.0),
                (start, end, old(self).entries()[old(self).position(index.0)].2),
            ),
    {
        let ghost old_self = *self;
        proof {
            self.lemma_has_node(index.0);
        }
        let mut node = table_get(&self.nodes, index.get()).unwrap();
        node.start = start;
        node.end = end;
        table_replace(&mut self.nodes, node);
        proof {
            self.lemma_update_keeps_inv(old_self, index.0, node);
        }
    }

    /// Replaces the value of the entry with handle `index`.
    pub fn set_value(&mut self, index: Index, value: u64)
        requires
            old(self).wf(),
            old(self).contains(index.0),
        ensures
            final(self).wf(),
            final(self).order() == old(self).order(),
            final(self).counter() == old(self).counter(),
            final(self).entries() == old(self).entries().update(
                old(self).position(index.0),
                (
                    old(self).entries()[old(self).position(index.0)].0,
                    old(self).entries()[old(self).position(index.0)].1,
                    value,
                ),
            ),
    {
        let ghost old_self = *self;
        proof {
            self.lemma_has_node(index.0);
        }
        let mut node = table_get(&self.nodes, index.get()).unwrap();
        node.value = value;
        table_replace(&mut self.nodes, node);
        proof {
            self.lemma_update_keeps_inv(old_self, index.0, node);
        }
    }

    /// Makes room for `additional` more entries.
    pub fn reserve(&mut self, additional: usize)
        requires
            old(self).wf(),
        ensures
            final(self).wf(),
            final(self).order() == old(self).order(),
            final(self).entries() == old(self).entries(),
            final(self).counter() == old(self).counter(),
    {
        let ghost old_self = *self;
        table_reserve(&mut self.nodes, additional);
        proof {
            assert forall|i: int| 0 <= i < self.order@.len() implies #[trigger] self.links_at(i) by {
                assert(old_self.links_at(i));
            }
            assert(self.entries() =~= old_self.entries());
        }
    }

    pub fn clone(&self) -> (copy: LinkedHashMap)
        requires
            self.wf(),
        ensures
            copy.wf(),
            copy.order() == self.order(),
            copy.entries() == self.entries(),
            copy.counter() == self.counter(),
    {
        let copy = LinkedHashMap {
            nodes: table_clone(&self.nodes),
            counter: self.counter,
            first_and_last: self.first_and_last,
            order: Ghost(self.order@),
        };
        proof {
            assert forall|i: int| 0 <= i < copy.order@.len() implies #[trigger] copy.links_at(i) by {
                assert(self.links_at(i));
            }
            assert(copy.entries() =~= self.entries());
        }
        copy
    }

    /// The entries, as ranges with their values, in list order.
    pub fn into_vec(self) -> (entries: Vec<(Range<u64>, u64)>)
        requires
            self.wf(),
        ensures
            entries@.len() == self.entries().len(),
            forall|i: int|
                0 <= i < entries@.len() ==> #[trigger] entries@[i].0.start == self.entries()[i].0
                    && entries@[i].0.end == self.entries()[i].1 && entries@[i].1
                    == self.entries()[i].2,
    {
        let mut this = self;
        let ghost o = self.order@;
        let ghost m0 = table_nodes(self.nodes);
        let mut output: Vec<(Range<u64>, u64)> = Vec::new();
        let mut index_opt = this.first_index();
        let ghost mut i: int = 0;
        while index_opt.is_some()
            invariant
                0 <= i <= o.len(),
                o == self.order@,
                m0 == table_nodes(self.nodes),
                self.inv(),
                output@.len() == i,
                index_opt == (if i < o.len() {
                    Some(Index(o[i]))
                } else {
                    None::<Index>
                }),
                forall|k: u64|
                    #[trigger] table_nodes(this.nodes).contains_key(k) <==> exists|j: int|
                        i <= j < o.len() && o[j] == k,
                forall|k: u64|
                    table_nodes(this.nodes).contains_key(k) ==> #[trigger] table_nodes(this.nodes)[k]
                        == m0[k],
                forall|j: int|
                    0 <= j < i ==> #[trigger] output@[j].0.start == self.entries()[j].0
                        && output@[j].0.end == self.entries()[j].1 && output@[j].1
                        == self.entries()[j].2,
            decreases o.len() - i,
        {
            let index = index_opt.unwrap();
            proof {
                assert(table_nodes(this.nodes).contains_key(o[i]));
                assert(self.links_at(i));
            }
            let node = table_remove(&mut this.nodes, index.get()).unwrap();
            output.push((node.start..node.end, node.value));
            index_opt = match node.next {
                Some(next) => Some(Index(next)),
                None => None,
            };
            proof {
                assert forall|k: u64| #[trigger] table_nodes(this.nodes).contains_key(k) <==> exists|j: int|
                    i + 1 <= j < o.len() && o[j] == k by {
                    if exists|j: int| i + 1 <= j < o.len() && o[j] == k {
                        let j = choose|j: int| i + 1 <= j < o.len() && o[j] == k;
                        assert(o[j] != o[i]);
                    }
                    if table_nodes(this.nodes).contains_key(k) {
                        let j = choose|j: int| i <= j < o.len() && o[j] == k;
                        assert(j != i);
                    }
                }
                i = i + 1;
            }
        }
        output
    }
}

} // verus!
