//! A tree of backtraces: each node stands for the frames from the outermost
//! one down to it, and holds the totals of the allocations whose backtraces
//! pass through it.

use vstd::prelude::*;
use std::collections::HashMap;
use crate::timestamp::Timestamp;
use crate::ids::{AllocationId, CodePointer};
use crate::data::SourceKey;
use crate::frame::Frame;
use crate::data::Allocation;
use crate::loader::{earlier, later, earlier_of, later_of};
use crate::loaded::{Data, backtrace_frames, non_inline_path};

verus! {

/// The position of a node in the tree.
pub type NodeId = u64;

/// The parent of the root: no node.
pub const NO_PARENT: NodeId = 0xffff_ffff_ffff_ffff;

/// A key under which a node is found among its siblings.
pub trait TreeKey: Copy {
    fn same(&self, other: &Self) -> (r: bool)
        ensures
            r == (*self == *other),
    ;
}

impl TreeKey for CodePointer {
    fn same(&self, other: &Self) -> (r: bool) {
        self.0 == other.0
    }
}

impl TreeKey for SourceKey {
    fn same(&self, other: &Self) -> (r: bool) {
        match (self, other) {
            (SourceKey::Address(a), SourceKey::Address(b)) => a.0 == b.0,
            (SourceKey::Location(s, l), SourceKey::Location(t, m)) => s.0 == t.0 && *l == *m,
            (SourceKey::Function(f), SourceKey::Function(g)) => f.0 == g.0,
            _ => false,
        }
    }
}

impl TreeKey for usize {
    fn same(&self, other: &Self) -> (r: bool) {
        *self == *other
    }
}

/// A node of the tree; the root has no key and no value.
pub struct Node<K, V> {
    pub key: Option<K>,
    pub value: Option<V>,
    pub total_size: u64,
    pub total_count: u64,
    pub total_first_timestamp: Timestamp,
    pub total_last_timestamp: Timestamp,
    pub self_size: u64,
    pub self_count: u64,
    pub self_allocations: Vec<AllocationId>,
    pub children: Vec<(K, NodeId)>,
    pub parent: NodeId,
}

impl<K, V> Node<K, V> {
    /// The node's value; the root has none.
    pub fn value(&self) -> (r: Option<&V>)
        ensures
            r is Some <==> self.value is Some,
            r is Some ==> *r.unwrap() == self.value.unwrap(),
    {
        match &self.value {
            Some(value) => Some(value),
            None => None,
        }
    }

    pub fn is_root(&self) -> (r: bool)
        ensures
            r == (self.parent == NO_PARENT),
    {
        self.parent == NO_PARENT
    }
}

/// The keys on the way from the root down to node `n`.
pub open spec fn label<K, V>(nodes: Seq<Node<K, V>>, n: int) -> Seq<K>
    decreases n,
{
    if n <= 0 || n >= nodes.len() || nodes[n].parent >= n || nodes[n].key is None {
        Seq::empty()
    } else {
        label(nodes, nodes[n].parent as int).push(nodes[n].key.unwrap())
    }
}

/// Whether `a` is where `b` starts.
pub open spec fn prefix_of<K>(a: Seq<K>, b: Seq<K>) -> bool {
    a.len() <= b.len() && a == b.take(a.len() as int)
}

/// The child of node `n` under `key`: an entry of its list of children.
pub open spec fn listed_child<K, V>(nodes: Seq<Node<K, V>>, n: int, c: int) -> bool {
    exists|i: int| 0 <= i < nodes[n].children@.len() && #[trigger] nodes[n].children@[i].1 == c
}

/// The shape of a tree: the root comes first; every other node comes after
/// its parent, has a key and a value, and is listed among its parent's
/// children under its key; the keys of a node's children differ; and no
/// node's totals exceed the root's.
pub open spec fn tree_wf<K, V>(nodes: Seq<Node<K, V>>) -> bool {
    &&& nodes.len() >= 1
    &&& nodes[0].parent == NO_PARENT
    &&& nodes[0].key is None
    &&& nodes[0].value is None
    &&& forall|n: int| #![trigger nodes[n]] 1 <= n < nodes.len() ==> {
        &&& nodes[n].parent < n
        &&& nodes[n].key is Some
        &&& nodes[n].value is Some
        &&& listed_child(nodes, nodes[n].parent as int, n)
    }
    &&& forall|n: int, i: int| #![trigger nodes[n].children@[i]]
        0 <= n < nodes.len() && 0 <= i < nodes[n].children@.len() ==> {
            let c = nodes[n].children@[i].1;
            &&& n < c < nodes.len()
            &&& nodes[c as int].parent == n
            &&& nodes[c as int].key == Some(nodes[n].children@[i].0)
        }
    &&& forall|n: int, i: int, j: int| #![trigger nodes[n].children@[i], nodes[n].children@[j]]
        0 <= n < nodes.len() && 0 <= i < j < nodes[n].children@.len()
            ==> nodes[n].children@[i].0 != nodes[n].children@[j].0
    &&& forall|n: int| #![trigger nodes[n]] 0 <= n < nodes.len() ==> {
        &&& nodes[n].self_size <= nodes[n].total_size <= nodes[0].total_size
        &&& nodes[n].self_count <= nodes[n].total_count <= nodes[0].total_count
    }
}

/// Labels depend on nothing but the parents and keys of the nodes.
proof fn lemma_label_same<K, V>(a: Seq<Node<K, V>>, b: Seq<Node<K, V>>, n: int, m: int)
    requires
        0 <= n < m <= a.len(),
        m <= b.len(),
        forall|k: int| 0 <= k < m ==> #[trigger] a[k].parent == b[k].parent && a[k].key == b[k].key,
    ensures
        label(a, n) == label(b, n),
    decreases n,
{
    if n > 0 && a[n].parent < n {
        lemma_label_same(a, b, a[n].parent as int, m);
    }
}

/// The label of a node other than the root is that of its parent and its key.
proof fn lemma_label_step<K, V>(nodes: Seq<Node<K, V>>, n: int)
    requires
        tree_wf(nodes),
        1 <= n < nodes.len(),
    ensures
        label(nodes, n) == label(nodes, nodes[n].parent as int).push(nodes[n].key.unwrap()),
        label(nodes, n).len() == label(nodes, nodes[n].parent as int).len() + 1,
{
    assert(nodes[n].parent < n);
}

/// No two nodes have the same label.
proof fn lemma_label_unique<K, V>(nodes: Seq<Node<K, V>>, a: int, b: int)
    requires
        tree_wf(nodes),
        0 <= a < nodes.len(),
        0 <= b < nodes.len(),
        label(nodes, a) == label(nodes, b),
    ensures
        a == b,
    decreases a + b,
{
    if a == 0 && b == 0 {
    } else if a == 0 {
        lemma_label_step(nodes, b);
    } else if b == 0 {
        lemma_label_step(nodes, a);
    } else {
        lemma_label_step(nodes, a);
        lemma_label_step(nodes, b);
        let pa = nodes[a].parent as int;
        let pb = nodes[b].parent as int;
        let la = label(nodes, a);
        let lb = label(nodes, b);
        assert(label(nodes, pa) == la.drop_last());
        assert(label(nodes, pb) == lb.drop_last());
        lemma_label_unique(nodes, pa, pb);
        assert(nodes[a].key == nodes[b].key) by {
            assert(la.last() == nodes[a].key.unwrap());
            assert(lb.last() == nodes[b].key.unwrap());
        }
        let i = choose|i: int| 0 <= i < nodes[pa].children@.len() && #[trigger] nodes[pa].children@[i].1 == a;
        let j = choose|j: int| 0 <= j < nodes[pa].children@.len() && #[trigger] nodes[pa].children@[j].1 == b;
        assert(listed_child(nodes, pa, a));
        assert(listed_child(nodes, pb, b));
        if i < j {
            assert(nodes[pa].children@[i].0 != nodes[pa].children@[j].0);
        } else if j < i {
            assert(nodes[pa].children@[j].0 != nodes[pa].children@[i].0);
        }
    }
}

/// The keys of a backtrace's frames, outermost first.
pub open spec fn keys_of<K, V>(backtrace: Seq<(K, V)>) -> Seq<K> {
    backtrace.map_values(|e: (K, V)| e.0)
}

/// Node `n` of `after` holds the totals of node `n` of `before` (none, for
/// a node that `before` lacks) and, where its label is where `keys` start,
/// an allocation of `size` bytes made at `ts`.
pub open spec fn totals_counted<K, V>(
    before: Seq<Node<K, V>>,
    after: Seq<Node<K, V>>,
    n: int,
    keys: Seq<K>,
    size: u64,
    ts: Timestamp,
) -> bool {
    let on_path = prefix_of(label(after, n), keys);
    let was = n < before.len();
    &&& after[n].total_size == (if was { before[n].total_size as int } else { 0 }) + (if on_path { size as int } else { 0 })
    &&& after[n].total_count == (if was { before[n].total_count as int } else { 0 }) + (if on_path { 1int } else { 0 })
    &&& after[n].total_first_timestamp == (if !on_path {
        before[n].total_first_timestamp
    } else if was {
        earlier(before[n].total_first_timestamp, ts)
    } else {
        ts
    })
    &&& after[n].total_last_timestamp == (if !on_path {
        before[n].total_last_timestamp
    } else if was {
        later(before[n].total_last_timestamp, ts)
    } else {
        ts
    })
}

/// Node `n` of `after` holds the allocations of node `n` of `before` as its
/// own (none, for a node that `before` lacks) and, where its label is
/// `keys`, allocation `id` of `size` bytes too.
pub open spec fn own_counted<K, V>(
    before: Seq<Node<K, V>>,
    after: Seq<Node<K, V>>,
    n: int,
    keys: Seq<K>,
    size: u64,
    id: AllocationId,
) -> bool {
    let here = label(after, n) == keys;
    let was = n < before.len();
    &&& after[n].self_size == (if was { before[n].self_size as int } else { 0 }) + (if here { size as int } else { 0 })
    &&& after[n].self_count == (if was { before[n].self_count as int } else { 0 }) + (if here { 1int } else { 0 })
    &&& after[n].self_allocations@ == {
        let own = if was { before[n].self_allocations@ } else { Seq::empty() };
        if here { own.push(id) } else { own }
    }
}

/// `after` keeps the parents, keys and values of the nodes of `before`, and
/// each node that it adds lies on the way down `backtrace`, with the value
/// of its frame.
pub open spec fn grown<K, V>(before: Seq<Node<K, V>>, after: Seq<Node<K, V>>, backtrace: Seq<(K, V)>, depth: int) -> bool {
    &&& before.len() <= after.len()
    &&& forall|n: int| #![trigger after[n]] 0 <= n < before.len() ==> {
        &&& after[n].parent == before[n].parent
        &&& after[n].key == before[n].key
        &&& after[n].value == before[n].value
    }
    &&& forall|n: int| #![trigger after[n]] before.len() <= n < after.len() ==> {
        let l = label(after, n);
        &&& 1 <= l.len() <= depth
        &&& prefix_of(l, keys_of(backtrace))
        &&& after[n].value == Some(backtrace[l.len() - 1].1)
    }
}

/// The place of `key` among `children`, if it is there.
fn find_child<K: TreeKey>(children: &Vec<(K, NodeId)>, key: &K) -> (r: Option<usize>)
    ensures
        match r {
            Some(i) => i < children@.len() && children@[i as int].0 == *key,
            None => forall|i: int| 0 <= i < children@.len() ==> children@[i].0 != *key,
        },
{
    let mut i: usize = 0;
    while i < children.len()
        invariant
            i <= children@.len(),
            forall|j: int| 0 <= j < i ==> children@[j].0 != *key,
        decreases children@.len() - i,
    {
        if children[i].0.same(key) {
            return Some(i);
        }
        i = i + 1;
    }
    None
}

/// Counts an allocation of `size` bytes made at `ts` in a node's totals.
fn count_in<K, V>(node: &mut Node<K, V>, size: u64, ts: Timestamp)
    requires
        old(node).total_size + size <= u64::MAX,
        old(node).total_count < u64::MAX,
    ensures
        *final(node) == (Node {
            total_size: (old(node).total_size + size) as u64,
            total_count: (old(node).total_count + 1) as u64,
            total_first_timestamp: earlier(old(node).total_first_timestamp, ts),
            total_last_timestamp: later(old(node).total_last_timestamp, ts),
            ..*old(node)
        }),
{
    node.total_size = node.total_size + size;
    node.total_count = node.total_count + 1;
    node.total_first_timestamp = earlier_of(node.total_first_timestamp, ts);
    node.total_last_timestamp = later_of(node.total_last_timestamp, ts);
}

/// The nodes' parents and keys are those of `before`, for the nodes that
/// `before` has.
pub open spec fn same_shape<K, V>(before: Seq<Node<K, V>>, after: Seq<Node<K, V>>) -> bool {
    &&& before.len() <= after.len()
    &&& forall|n: int| #![trigger after[n]] 0 <= n < before.len() ==> {
        &&& after[n].parent == before[n].parent
        &&& after[n].key == before[n].key
        &&& after[n].value == before[n].value
    }
}

proof fn lemma_labels_kept<K, V>(before: Seq<Node<K, V>>, after: Seq<Node<K, V>>)
    requires
        same_shape(before, after),
    ensures
        forall|n: int| 0 <= n < before.len() ==> #[trigger] label(after, n) == label(before, n),
{
    assert forall|n: int| 0 <= n < before.len() implies #[trigger] label(after, n) == label(before, n) by {
        assert forall|k: int| 0 <= k < before.len() implies #[trigger] before[k].parent == after[k].parent
            && before[k].key == after[k].key by {
            assert(after[k].parent == before[k].parent);
        }
        lemma_label_same(before, after, n, before.len() as int);
    }
}

/// Where `l` is not the first `i + 1` keys, it is where those start just
/// when it is where the first `i` keys start.
proof fn lemma_prefix_step<K>(l: Seq<K>, keys: Seq<K>, i: int)
    requires
        0 <= i < keys.len(),
        l != keys.take(i + 1),
    ensures
        prefix_of(l, keys.take(i + 1)) == prefix_of(l, keys.take(i)),
{
    if prefix_of(l, keys.take(i + 1)) {
        if l.len() == i + 1 {
            assert(keys.take(i + 1).take(i + 1) =~= keys.take(i + 1));
        }
        assert(keys.take(i).take(l.len() as int) =~= keys.take(i + 1).take(l.len() as int));
    }
    if prefix_of(l, keys.take(i)) {
        assert(keys.take(i).take(l.len() as int) =~= keys.take(i + 1).take(l.len() as int));
    }
}

/// Node `n` of `after` holds the allocations of node `n` of `before` as its
/// own (none, for a node that `before` lacks).
pub open spec fn own_kept<K, V>(before: Seq<Node<K, V>>, after: Seq<Node<K, V>>, n: int) -> bool {
    let was = n < before.len();
    &&& after[n].self_size == (if was { before[n].self_size } else { 0 })
    &&& after[n].self_count == (if was { before[n].self_count } else { 0 })
    &&& after[n].self_allocations@ == (if was { before[n].self_allocations@ } else { Seq::empty() })
}

/// Some node of `nodes` has the label `l`.
pub open spec fn has_node<K, V>(nodes: Seq<Node<K, V>>, l: Seq<K>) -> bool {
    exists|n: int| 0 <= n < nodes.len() && #[trigger] label(nodes, n) == l
}

/// Halfway through counting an allocation of `size` bytes at `ts` under the
/// keys of `backtrace` in the tree `before`: the nodes down the first
/// `depth` keys are there and counted.
pub open spec fn counting<K, V>(
    before: Seq<Node<K, V>>,
    nodes: Seq<Node<K, V>>,
    backtrace: Seq<(K, V)>,
    depth: int,
    size: u64,
    ts: Timestamp,
) -> bool {
    &&& tree_wf(nodes)
    &&& grown(before, nodes, backtrace, depth)
    &&& nodes.len() <= before.len() + depth
    &&& forall|n: int| 0 <= n < nodes.len() ==> #[trigger] totals_counted(
        before, nodes, n, keys_of(backtrace).take(depth), size, ts)
    &&& forall|n: int| 0 <= n < nodes.len() ==> #[trigger] own_kept(before, nodes, n)
}

/// The nodes that a step down leaves as they were, and the one that it adds.
pub open spec fn stepped<K, V>(
    start: Seq<Node<K, V>>,
    mid: Seq<Node<K, V>>,
    child: int,
    backtrace: Seq<(K, V)>,
    i: int,
    ts: Timestamp,
) -> bool {
    &&& tree_wf(mid)
    &&& same_shape(start, mid)
    &&& start.len() <= mid.len() <= start.len() + 1
    &&& 0 < child < mid.len()
    &&& label(mid, child) == keys_of(backtrace).take(i + 1)
    &&& forall|n: int| #![trigger mid[n]] 0 <= n < start.len() ==> {
        &&& mid[n].total_size == start[n].total_size
        &&& mid[n].total_count == start[n].total_count
        &&& mid[n].total_first_timestamp == start[n].total_first_timestamp
        &&& mid[n].total_last_timestamp == start[n].total_last_timestamp
        &&& mid[n].self_size == start[n].self_size
        &&& mid[n].self_count == start[n].self_count
        &&& mid[n].self_allocations == start[n].self_allocations
    }
    &&& mid.len() > start.len() ==> {
        &&& child == start.len()
        &&& mid[child].total_size == 0
        &&& mid[child].total_count == 0
        &&& mid[child].total_first_timestamp == ts
        &&& mid[child].total_last_timestamp == ts
        &&& mid[child].self_size == 0
        &&& mid[child].self_count == 0
        &&& mid[child].self_allocations@.len() == 0
        &&& mid[child].value == Some(backtrace[i].1)
    }
}

/// The child reached by a step down has room for the allocation: it was
/// not counted yet, and the root already was.
proof fn lemma_room_in_child<K, V>(
    o: Seq<Node<K, V>>,
    start: Seq<Node<K, V>>,
    mid: Seq<Node<K, V>>,
    child: int,
    backtrace: Seq<(K, V)>,
    i: int,
    size: u64,
    ts: Timestamp,
)
    requires
        tree_wf(o),
        o[0].total_size + size <= u64::MAX,
        o[0].total_count < u64::MAX,
        0 <= i < backtrace.len(),
        counting(o, start, backtrace, i, size, ts),
        stepped(start, mid, child, backtrace, i, ts),
    ensures
        mid[0].total_size == o[0].total_size + size,
        mid[0].total_count == o[0].total_count + 1,
        mid[child].total_size + size <= mid[0].total_size,
        mid[child].total_count + 1 <= mid[0].total_count,
{
    let keys = keys_of(backtrace);
    lemma_labels_kept(start, mid);
    assert(prefix_of(label(start, 0), keys.take(i))) by {
        assert(keys.take(i).take(0) =~= label(start, 0));
    }
    assert(totals_counted(o, start, 0, keys.take(i), size, ts));
    assert(mid[0].total_size == start[0].total_size);
    if child < start.len() {
        assert(totals_counted(o, start, child, keys.take(i), size, ts));
        assert(!prefix_of(label(start, child), keys.take(i)));
        if child >= o.len() {
            assert(label(start, child).len() <= i);
        }
        assert(child < o.len());
        assert(o[child].total_size <= o[0].total_size);
        assert(o[child].total_count <= o[0].total_count);
        assert(mid[child].total_size == start[child].total_size);
    }
}

/// Counting the allocation in the child reached by a step down carries the
/// count one key further.
proof fn lemma_counted_step<K, V>(
    o: Seq<Node<K, V>>,
    start: Seq<Node<K, V>>,
    mid: Seq<Node<K, V>>,
    after: Seq<Node<K, V>>,
    child: int,
    backtrace: Seq<(K, V)>,
    i: int,
    size: u64,
    ts: Timestamp,
)
    requires
        tree_wf(o),
        0 <= i < backtrace.len(),
        counting(o, start, backtrace, i, size, ts),
        stepped(start, mid, child, backtrace, i, ts),
        tree_wf(after),
        after.len() == mid.len(),
        forall|n: int| #![trigger after[n]] 0 <= n < after.len() && n != child ==> after[n] == mid[n],
        after[child].parent == mid[child].parent,
        after[child].key == mid[child].key,
        after[child].value == mid[child].value,
        after[child].self_size == mid[child].self_size,
        after[child].self_count == mid[child].self_count,
        after[child].self_allocations == mid[child].self_allocations,
        after[child].total_size == mid[child].total_size + size,
        after[child].total_count == mid[child].total_count + 1,
        after[child].total_first_timestamp == earlier(mid[child].total_first_timestamp, ts),
        after[child].total_last_timestamp == later(mid[child].total_last_timestamp, ts),
    ensures
        counting(o, after, backtrace, i + 1, size, ts),
        same_shape(start, after),
        label(after, child) == keys_of(backtrace).take(i + 1),
{
    let keys = keys_of(backtrace);
    lemma_labels_kept(start, mid);
    assert(same_shape(mid, after));
    lemma_labels_kept(mid, after);
    assert(same_shape(o, after));
    assert(label(after, child) == keys.take(i + 1));
    assert forall|n: int| 0 <= n < after.len() implies #[trigger] totals_counted(
        o, after, n, keys.take(i + 1), size, ts) by {
        if n != child {
            if label(after, n) == keys.take(i + 1) {
                lemma_label_unique(after, n, child);
            }
            lemma_prefix_step(label(after, n), keys, i);
            assert(n < start.len());
            assert(totals_counted(o, start, n, keys.take(i), size, ts));
        } else {
            assert(prefix_of(label(after, n), keys.take(i + 1))) by {
                assert(keys.take(i + 1).take(i + 1) =~= keys.take(i + 1));
            }
            if child < start.len() {
                assert(totals_counted(o, start, child, keys.take(i), size, ts));
                assert(!prefix_of(label(start, child), keys.take(i)));
                if child >= o.len() {
                    assert(label(start, child).len() <= i);
                }
            }
        }
    }
    assert forall|n: int| 0 <= n < after.len() implies #[trigger] own_kept(o, after, n) by {
        if n < start.len() {
            assert(own_kept(o, start, n));
        } else {
            assert(after[n].self_allocations@ =~= Seq::<AllocationId>::empty());
        }
    }
    assert forall|n: int| #![trigger after[n]] o.len() <= n < after.len() implies {
        let l = label(after, n);
        &&& 1 <= l.len() <= i + 1
        &&& prefix_of(l, keys_of(backtrace))
        &&& after[n].value == Some(backtrace[l.len() - 1].1)
    } by {
        if n < start.len() {
            assert(label(after, n) == label(start, n));
        } else {
            assert(keys.take(i + 1) =~= keys.take(keys.take(i + 1).len() as int));
        }
    }
    assert(grown(o, after, backtrace, i + 1));
}

/// Counting an allocation in the totals of node `c` keeps the shape of the
/// tree, as long as no node's totals come to exceed the root's.
proof fn lemma_count_wf<K, V>(before: Seq<Node<K, V>>, after: Seq<Node<K, V>>, c: int, size: u64)
    requires
        tree_wf(before),
        0 <= c < before.len(),
        after.len() == before.len(),
        forall|n: int| #![trigger after[n]] 0 <= n < after.len() && n != c ==> after[n] == before[n],
        after[c].parent == before[c].parent,
        after[c].key == before[c].key,
        after[c].value == before[c].value,
        after[c].children == before[c].children,
        after[c].self_size == before[c].self_size,
        after[c].self_count == before[c].self_count,
        after[c].total_size == before[c].total_size + size,
        after[c].total_count == before[c].total_count + 1,
        c == 0 || (after[c].total_size <= after[0].total_size && after[c].total_count <= after[0].total_count),
    ensures
        tree_wf(after),
{
    assert forall|n: int| #![trigger after[n]] 1 <= n < after.len() implies {
        &&& after[n].parent < n
        &&& after[n].key is Some
        &&& after[n].value is Some
        &&& listed_child(after, after[n].parent as int, n)
    } by {
        assert(before[n].parent < n);
        let p = before[n].parent as int;
        assert(listed_child(before, p, n));
        let i = choose|i: int| 0 <= i < before[p].children@.len() && #[trigger] before[p].children@[i].1 == n;
        assert(after[p].children@[i].1 == n);
    }
    assert forall|n: int, i: int| #![trigger after[n].children@[i]]
        0 <= n < after.len() && 0 <= i < after[n].children@.len() implies {
            let ch = after[n].children@[i].1;
            &&& n < ch < after.len()
            &&& after[ch as int].parent == n
            &&& after[ch as int].key == Some(after[n].children@[i].0)
        } by {
        assert(before[n].children@[i] == after[n].children@[i]);
    }
    assert forall|n: int, i: int, j: int| #![trigger after[n].children@[i], after[n].children@[j]]
        0 <= n < after.len() && 0 <= i < j < after[n].children@.len()
            implies after[n].children@[i].0 != after[n].children@[j].0 by {
        assert(before[n].children@[i] == after[n].children@[i]);
        assert(before[n].children@[j] == after[n].children@[j]);
    }
    assert forall|n: int| #![trigger after[n]] 0 <= n < after.len() implies {
        &&& after[n].self_size <= after[n].total_size <= after[0].total_size
        &&& after[n].self_count <= after[n].total_count <= after[0].total_count
    } by {
        assert(before[n].self_size <= before[n].total_size <= before[0].total_size);
        assert(before[n].self_count <= before[n].total_count <= before[0].total_count);
    }
}

impl<K: TreeKey, V: Copy> Tree<K, V> {
    /// Adds a node under `parent` with `key` and `value`, holding nothing
    /// yet, first seen and last seen at `ts`.
    fn add_child(&mut self, parent: usize, key: K, value: V, ts: Timestamp) -> (c: usize)
        requires
            tree_wf(old(self).nodes@),
            parent < old(self).nodes@.len(),
            old(self).nodes@.len() < usize::MAX,
            forall|i: int| 0 <= i < old(self).nodes@[parent as int].children@.len()
                ==> old(self).nodes@[parent as int].children@[i].0 != key,
        ensures
            tree_wf(final(self).nodes@),
            c == old(self).nodes@.len(),
            final(self).nodes@.len() == c + 1,
            final(self).allocations == old(self).allocations,
            same_shape(old(self).nodes@, final(self).nodes@),
            forall|n: int| #![trigger final(self).nodes@[n]] 0 <= n < c && n != parent ==> final(self).nodes@[n] == old(self).nodes@[n],
            final(self).nodes@[parent as int].children@ == old(self).nodes@[parent as int].children@.push((key, c as u64)),
            final(self).nodes@[parent as int].total_size == old(self).nodes@[parent as int].total_size,
            final(self).nodes@[parent as int].total_count == old(self).nodes@[parent as int].total_count,
            final(self).nodes@[parent as int].total_first_timestamp == old(self).nodes@[parent as int].total_first_timestamp,
            final(self).nodes@[parent as int].total_last_timestamp == old(self).nodes@[parent as int].total_last_timestamp,
            final(self).nodes@[parent as int].self_size == old(self).nodes@[parent as int].self_size,
            final(self).nodes@[parent as int].self_count == old(self).nodes@[parent as int].self_count,
            final(self).nodes@[parent as int].self_allocations == old(self).nodes@[parent as int].self_allocations,
            final(self).nodes@[c as int].key == Some(key),
            final(self).nodes@[c as int].value == Some(value),
            final(self).nodes@[c as int].parent == parent,
            final(self).nodes@[c as int].total_size == 0,
            final(self).nodes@[c as int].total_count == 0,
            final(self).nodes@[c as int].total_first_timestamp == ts,
            final(self).nodes@[c as int].total_last_timestamp == ts,
            final(self).nodes@[c as int].self_size == 0,
            final(self).nodes@[c as int].self_count == 0,
            final(self).nodes@[c as int].self_allocations@.len() == 0,
            label(final(self).nodes@, c as int) == label(old(self).nodes@, parent as int).push(key),
    {
        let ghost before = self.nodes@;
        let c = self.nodes.len();
        let node = Node {
            key: Some(key),
            value: Some(value),
            total_size: 0,
            total_count: 0,
            total_first_timestamp: ts,
            total_last_timestamp: ts,
            self_size: 0,
            self_count: 0,
            self_allocations: Vec::new(),
            children: Vec::new(),
            parent: parent as u64,
        };
        self.nodes.push(node);
        self.nodes[parent].children.push((key, c as u64));
        let ghost after = self.nodes@;
        proof {
            assert(same_shape(before, after));
            lemma_labels_kept(before, after);
            assert forall|n: int| #![trigger after[n]] 1 <= n < after.len() implies {
                &&& after[n].parent < n
                &&& after[n].key is Some
                &&& after[n].value is Some
                &&& listed_child(after, after[n].parent as int, n)
            } by {
                if n == c {
                    assert(after[parent as int].children@[before[parent as int].children@.len() as int].1 == n);
                } else {
                    assert(before[n].parent < n);
                    assert(listed_child(before, before[n].parent as int, n));
                    let p = before[n].parent as int;
                    let i = choose|i: int| 0 <= i < before[p].children@.len() && #[trigger] before[p].children@[i].1 == n;
                    assert(after[p].children@[i].1 == n);
                }
            }
            assert forall|n: int, i: int| #![trigger after[n].children@[i]]
                0 <= n < after.len() && 0 <= i < after[n].children@.len() implies {
                    let ch = after[n].children@[i].1;
                    &&& n < ch < after.len()
                    &&& after[ch as int].parent == n
                    &&& after[ch as int].key == Some(after[n].children@[i].0)
                } by {
                if n == c {
                } else if n == parent && i == before[parent as int].children@.len() {
                } else {
                    assert(before[n].children@[i] == after[n].children@[i]);
                }
            }
            assert forall|n: int, i: int, j: int| #![trigger after[n].children@[i], after[n].children@[j]]
                0 <= n < after.len() && 0 <= i < j < after[n].children@.len()
                    implies after[n].children@[i].0 != after[n].children@[j].0 by {
                if n == c {
                } else if n == parent && j == before[parent as int].children@.len() {
                    assert(after[n].children@[i] == before[n].children@[i]);
                } else {
                    assert(before[n].children@[i] == after[n].children@[i]);
                    assert(before[n].children@[j] == after[n].children@[j]);
                }
            }
            assert forall|n: int| #![trigger after[n]] 0 <= n < after.len() implies {
                &&& after[n].self_size <= after[n].total_size <= after[0].total_size
                &&& after[n].self_count <= after[n].total_count <= after[0].total_count
            } by {
                assert(after[0].total_size == before[0].total_size);
                if n < c {
                    assert(before[n].self_size <= before[n].total_size <= before[0].total_size);
                    assert(before[n].self_count <= before[n].total_count <= before[0].total_count);
                }
            }
            lemma_label_step(after, c as int);
        }
        c
    }
}

/// What a tree of allocations is made from: the allocations, the keys of
/// each one's backtrace, outermost first, and which of them it counts.
pub struct Census<K> {
    pub allocations: Seq<Allocation>,
    pub path: spec_fn(int) -> Seq<K>,
    pub counted: spec_fn(int) -> bool,
}

/// Backtrace `b` is stored, and names frames that are there.
pub open spec fn backtrace_stored(data: &Data, b: int) -> bool {
    &&& 0 <= b < data.backtraces@.len()
    &&& data.backtraces@[b].0 + data.backtraces@[b].1 <= data.backtraces_storage@.len()
    &&& forall|j: int| 0 <= j < backtrace_frames(data.backtraces@, data.backtraces_storage@, b).len()
        ==> #[trigger] backtrace_frames(data.backtraces@, data.backtraces_storage@, b)[j] < data.frames@.len()
}

/// Every allocation's backtrace is stored, and names frames that are there.
pub open spec fn backtraces_stored(data: &Data) -> bool {
    forall|i: int| 0 <= i < data.allocations@.len()
        ==> #[trigger] backtrace_stored(data, data.allocations@[i].backtrace.0 as int)
}

/// The addresses of the frames of an allocation's backtrace, outermost
/// first, each inlined frame left out.
pub open spec fn raw_keys(data: &Data, a: Allocation) -> Seq<CodePointer> {
    non_inline_path(data.frames@, backtrace_frames(data.backtraces@, data.backtraces_storage@, a.backtrace.0 as int).reverse())
        .map_values(|f: usize| data.frames@[f as int].address)
}

/// The census of the raw tree: the allocations not freed, under the
/// addresses of their frames without inlined ones.
pub open spec fn raw_census(data: &Data) -> Census<CodePointer> {
    Census {
        allocations: data.allocations@,
        path: |i: int| raw_keys(data, data.allocations@[i]),
        counted: |i: int| data.allocations@[i].deallocation is None,
    }
}

/// The raw tree of all the allocations of `data`; its nodes' values are
/// frames at the address of their key.
pub open spec fn raw_tree_of(data: &Data, nodes: Seq<Node<CodePointer, usize>>) -> bool {
    tree_of(raw_census(data), |f: usize| data.frames@[f as int].address, data.frames@.len(), nodes, data.allocations@.len() as int)
}

/// The key under which a frame is grouped by its place in the source: the
/// file and line where both are known, else the function, else the address.
pub open spec fn source_key(frame: Frame) -> SourceKey {
    let function = if frame.function is Some { frame.function } else { frame.raw_function };
    if frame.source is Some && frame.line is Some {
        SourceKey::Location(frame.source.unwrap(), frame.line.unwrap())
    } else if function is Some {
        SourceKey::Function(function.unwrap())
    } else {
        SourceKey::Address(frame.address)
    }
}

pub fn source_key_of(frame: &Frame) -> (key: SourceKey)
    ensures
        key == source_key(*frame),
{
    match (frame.source(), frame.line(), frame.any_function()) {
        (Some(source), Some(line), _) => SourceKey::Location(source, line),
        (_, _, Some(function)) => SourceKey::Function(function),
        _ => SourceKey::Address(frame.address()),
    }
}

/// The source keys of the frames of an allocation's backtrace, outermost
/// first.
pub open spec fn source_keys(data: &Data, a: Allocation) -> Seq<SourceKey> {
    backtrace_frames(data.backtraces@, data.backtraces_storage@, a.backtrace.0 as int).reverse()
        .map_values(|f: usize| source_key(data.frames@[f as int]))
}

/// The census of the tree by source: the allocations that `selected` marks,
/// under the source keys of all their frames.
pub open spec fn source_census(data: &Data, selected: Seq<bool>) -> Census<SourceKey> {
    Census {
        allocations: data.allocations@,
        path: |i: int| source_keys(data, data.allocations@[i]),
        counted: |i: int| selected[i],
    }
}

/// The tree by source of the allocations of `data` that `selected` marks;
/// its nodes' values are frames with the source key of their key.
pub open spec fn source_tree_of(data: &Data, selected: Seq<bool>, nodes: Seq<Node<SourceKey, usize>>) -> bool {
    tree_of(
        source_census(data, selected),
        |f: usize| source_key(data.frames@[f as int]),
        data.frames@.len(),
        nodes,
        data.allocations@.len() as int,
    )
}

/// The frames of an allocation's backtrace, outermost first.
pub open spec fn frame_ids(data: &Data, a: Allocation) -> Seq<usize> {
    backtrace_frames(data.backtraces@, data.backtraces_storage@, a.backtrace.0 as int).reverse()
}

/// The census of the tree of frames: the allocations that `selected`
/// marks, under all their frames.
pub open spec fn frame_census(data: &Data, selected: Seq<bool>) -> Census<usize> {
    Census {
        allocations: data.allocations@,
        path: |i: int| frame_ids(data, data.allocations@[i]),
        counted: |i: int| selected[i],
    }
}

/// The tree of the frames of the allocations of `data` that `selected`
/// marks; each node's key is its frame, and so is its value.
pub open spec fn frame_tree_of(data: &Data, selected: Seq<bool>, nodes: Seq<Node<usize, usize>>) -> bool {
    tree_of(frame_census(data, selected), |f: usize| f, data.frames@.len(), nodes, data.allocations@.len() as int)
}

/// Allocation `i` is counted and its keys start with `l`.
pub open spec fn under<K>(c: Census<K>, l: Seq<K>, i: int) -> bool {
    (c.counted)(i) && prefix_of(l, (c.path)(i))
}

/// Allocation `i` is counted and its keys are `l`.
pub open spec fn at<K>(c: Census<K>, l: Seq<K>, i: int) -> bool {
    (c.counted)(i) && (c.path)(i) == l
}

/// The bytes of the first `k` allocations counted whose keys start with `l`.
pub open spec fn size_under<K>(c: Census<K>, l: Seq<K>, k: int) -> int
    decreases k,
{
    if k <= 0 {
        0
    } else {
        size_under(c, l, k - 1) + if under(c, l, k - 1) { c.allocations[k - 1].size as int } else { 0 }
    }
}

/// How many of the first `k` allocations are counted and have keys that
/// start with `l`.
pub open spec fn count_under<K>(c: Census<K>, l: Seq<K>, k: int) -> int
    decreases k,
{
    if k <= 0 {
        0
    } else {
        count_under(c, l, k - 1) + if under(c, l, k - 1) { 1int } else { 0 }
    }
}

/// The earliest time at which one of the first `k` allocations counted
/// whose keys start with `l` was made (the latest time there is, where
/// there is none).
pub open spec fn first_under<K>(c: Census<K>, l: Seq<K>, k: int) -> Timestamp
    decreases k,
{
    if k <= 0 {
        Timestamp(u64::MAX)
    } else {
        let before = first_under(c, l, k - 1);
        if under(c, l, k - 1) { earlier(before, c.allocations[k - 1].timestamp) } else { before }
    }
}

/// The latest time at which one of the first `k` allocations counted whose
/// keys start with `l` was made (time zero, where there is none).
pub open spec fn last_under<K>(c: Census<K>, l: Seq<K>, k: int) -> Timestamp
    decreases k,
{
    if k <= 0 {
        Timestamp(0)
    } else {
        let before = last_under(c, l, k - 1);
        if under(c, l, k - 1) { later(before, c.allocations[k - 1].timestamp) } else { before }
    }
}

/// The bytes of the first `k` allocations counted whose keys are `l`.
pub open spec fn size_at<K>(c: Census<K>, l: Seq<K>, k: int) -> int
    decreases k,
{
    if k <= 0 {
        0
    } else {
        size_at(c, l, k - 1) + if at(c, l, k - 1) { c.allocations[k - 1].size as int } else { 0 }
    }
}

/// Those of the first `k` allocations counted whose keys are `l`, in order.
pub open spec fn ids_at<K>(c: Census<K>, l: Seq<K>, k: int) -> Seq<AllocationId>
    decreases k,
{
    if k <= 0 {
        Seq::empty()
    } else {
        let before = ids_at(c, l, k - 1);
        if at(c, l, k - 1) { before.push(AllocationId((k - 1) as u64)) } else { before }
    }
}

/// How many keys the first `k` allocations counted have, together.
pub open spec fn depth<K>(c: Census<K>, k: int) -> int
    decreases k,
{
    if k <= 0 {
        0
    } else {
        depth(c, k - 1) + if (c.counted)(k - 1) { (c.path)(k - 1).len() as int } else { 0 }
    }
}

/// Node `n` of the tree of the first `k` allocations of a census holds the
/// totals and the own allocations of its label.
pub open spec fn node_counted<K, V>(c: Census<K>, nodes: Seq<Node<K, V>>, n: int, k: int) -> bool {
    let l = label(nodes, n);
    &&& nodes[n].total_size == size_under(c, l, k)
    &&& nodes[n].total_count == count_under(c, l, k)
    &&& nodes[n].total_first_timestamp == first_under(c, l, k)
    &&& nodes[n].total_last_timestamp == last_under(c, l, k)
    &&& nodes[n].self_size == size_at(c, l, k)
    &&& nodes[n].self_count == ids_at(c, l, k).len()
    &&& nodes[n].self_allocations@ == ids_at(c, l, k)
}

/// The tree of the first `k` allocations of a census: each node holds what
/// its label says; each node's value is a frame whose key is the label's
/// last; and the keys of every allocation counted have all their nodes.
pub open spec fn tree_of<K>(
    c: Census<K>,
    frame_key: spec_fn(usize) -> K,
    frame_count: nat,
    nodes: Seq<Node<K, usize>>,
    k: int,
) -> bool {
    &&& tree_wf(nodes)
    &&& forall|n: int| 0 <= n < nodes.len() ==> #[trigger] node_counted(c, nodes, n, k)
    &&& forall|n: int| #![trigger nodes[n]] 1 <= n < nodes.len() ==> {
        &&& nodes[n].value.unwrap() < frame_count
        &&& frame_key(nodes[n].value.unwrap()) == label(nodes, n).last()
    }
    &&& forall|i: int, d: int| 0 <= i < k && (c.counted)(i) && 0 <= d <= (c.path)(i).len()
        ==> has_node(nodes, #[trigger] (c.path)(i).take(d))
}

/// Where no node has the label `l`, none of the first `k` allocations
/// counted has keys that start with `l`.
proof fn lemma_nothing_under<K, V>(c: Census<K>, nodes: Seq<Node<K, V>>, l: Seq<K>, k: int)
    requires
        0 <= k,
        !has_node(nodes, l),
        forall|i: int, d: int| 0 <= i < k && (c.counted)(i) && 0 <= d <= (c.path)(i).len()
            ==> has_node(nodes, #[trigger] (c.path)(i).take(d)),
    ensures
        size_under(c, l, k) == 0,
        count_under(c, l, k) == 0,
        first_under(c, l, k) == Timestamp(u64::MAX),
        last_under(c, l, k) == Timestamp(0),
        size_at(c, l, k) == 0,
        ids_at(c, l, k) == Seq::<AllocationId>::empty(),
    decreases k,
{
    if k > 0 {
        lemma_nothing_under(c, nodes, l, k - 1);
        let keys = (c.path)(k - 1);
        if under(c, l, k - 1) {
            assert(has_node(nodes, keys.take(l.len() as int)));
        }
        if at(c, l, k - 1) {
            assert(keys.take(keys.len() as int) =~= keys);
            assert(has_node(nodes, keys.take(keys.len() as int)));
        }
    }
}

/// Counting more allocations never lowers a total.
proof fn lemma_size_grows<K>(c: Census<K>, l: Seq<K>, k: int, m: int)
    requires
        0 <= k <= m,
    ensures
        size_under(c, l, k) <= size_under(c, l, m),
        count_under(c, l, k) <= k,
        depth(c, k) <= depth(c, m),
    decreases m,
{
    if k < m {
        lemma_size_grows(c, l, k, m - 1);
    } else if k > 0 {
        lemma_size_grows(c, l, k - 1, k - 1);
    }
}

/// An allocation that a census does not count changes nothing in its tree.
proof fn lemma_skip<K>(c: Census<K>, frame_key: spec_fn(usize) -> K, frame_count: nat, nodes: Seq<Node<K, usize>>, k: int)
    requires
        0 <= k,
        !(c.counted)(k),
        tree_of(c, frame_key, frame_count, nodes, k),
    ensures
        tree_of(c, frame_key, frame_count, nodes, k + 1),
{
    assert forall|n: int| 0 <= n < nodes.len() implies #[trigger] node_counted(c, nodes, n, k + 1) by {
        assert(node_counted(c, nodes, n, k));
    }
}

/// What adding allocation `k` of a census, which it counts, makes of one
/// node of the tree of the allocations before it.
proof fn lemma_node_step<K>(
    c: Census<K>,
    frame_key: spec_fn(usize) -> K,
    frame_count: nat,
    o: Seq<Node<K, usize>>,
    f: Seq<Node<K, usize>>,
    backtrace: Seq<(K, usize)>,
    k: int,
    n: int,
)
    requires
        0 <= k < c.allocations.len(),
        (c.counted)(k),
        tree_of(c, frame_key, frame_count, o, k),
        keys_of(backtrace) == (c.path)(k),
        forall|t: int| 0 <= t < backtrace.len() ==> #[trigger] backtrace[t].1 < frame_count
            && frame_key(backtrace[t].1) == backtrace[t].0,
        tree_wf(f),
        grown(o, f, backtrace, backtrace.len() as int),
        totals_counted(o, f, n, keys_of(backtrace), c.allocations[k].size, c.allocations[k].timestamp),
        own_counted(o, f, n, keys_of(backtrace), c.allocations[k].size, AllocationId(k as u64)),
        0 <= n < f.len(),
    ensures
        node_counted(c, f, n, k + 1),
        1 <= n ==> f[n].value.unwrap() < frame_count && frame_key(f[n].value.unwrap()) == label(f, n).last(),
{
    let keys = keys_of(backtrace);
    assert(same_shape(o, f));
    lemma_labels_kept(o, f);
    let l = label(f, n);
    assert(under(c, l, k) == prefix_of(l, keys));
    assert(at(c, l, k) == (l == keys));
    if n < o.len() {
        assert(node_counted(c, o, n, k));
        assert(o[n].value == f[n].value);
        if n >= 1 {
            assert(o[n].value.unwrap() < frame_count);
        }
    } else {
        if has_node(o, l) {
            let m = choose|m: int| 0 <= m < o.len() && #[trigger] label(o, m) == l;
            lemma_label_unique(f, m, n);
        }
        lemma_nothing_under(c, o, l, k);
        if l == keys {
            assert(ids_at(c, l, k + 1) =~= Seq::<AllocationId>::empty().push(AllocationId(k as u64)));
        }
        assert(1 <= l.len() <= backtrace.len());
        assert(prefix_of(l, keys));
        let t = l.len() - 1;
        assert(f[n].value == Some(backtrace[t].1));
        assert(l.last() == keys[t]);
    }
}

/// Adding allocation `k` of a census, which it counts, to the tree of the
/// allocations before it makes the tree of those up to it.
proof fn lemma_step<K>(
    c: Census<K>,
    frame_key: spec_fn(usize) -> K,
    frame_count: nat,
    o: Seq<Node<K, usize>>,
    f: Seq<Node<K, usize>>,
    backtrace: Seq<(K, usize)>,
    k: int,
)
    requires
        0 <= k < c.allocations.len(),
        (c.counted)(k),
        tree_of(c, frame_key, frame_count, o, k),
        keys_of(backtrace) == (c.path)(k),
        forall|t: int| 0 <= t < backtrace.len() ==> #[trigger] backtrace[t].1 < frame_count
            && frame_key(backtrace[t].1) == backtrace[t].0,
        tree_wf(f),
        grown(o, f, backtrace, backtrace.len() as int),
        forall|j: int| 0 <= j <= backtrace.len() ==> has_node(f, #[trigger] keys_of(backtrace).take(j)),
        forall|n: int| 0 <= n < f.len() ==> #[trigger] totals_counted(
            o, f, n, keys_of(backtrace), c.allocations[k].size, c.allocations[k].timestamp),
        forall|n: int| 0 <= n < f.len() ==> #[trigger] own_counted(
            o, f, n, keys_of(backtrace), c.allocations[k].size, AllocationId(k as u64)),
    ensures
        tree_of(c, frame_key, frame_count, f, k + 1),
{
    let keys = keys_of(backtrace);
    assert(same_shape(o, f));
    lemma_labels_kept(o, f);
    assert forall|n: int| 0 <= n < f.len() implies #[trigger] node_counted(c, f, n, k + 1) by {
        lemma_node_step(c, frame_key, frame_count, o, f, backtrace, k, n);
    }
    assert forall|n: int| #![trigger f[n]] 1 <= n < f.len() implies {
        &&& f[n].value.unwrap() < frame_count
        &&& frame_key(f[n].value.unwrap()) == label(f, n).last()
    } by {
        lemma_node_step(c, frame_key, frame_count, o, f, backtrace, k, n);
    }
    assert forall|i: int, d: int| 0 <= i < k + 1 && (c.counted)(i) && 0 <= d <= (c.path)(i).len()
        implies has_node(f, #[trigger] (c.path)(i).take(d)) by {
        let x = (c.path)(i).take(d);
        if i < k {
            assert(has_node(o, x));
            let m = choose|m: int| 0 <= m < o.len() && #[trigger] label(o, m) == x;
            assert(label(f, m) == x);
        } else {
            assert(keys.len() == backtrace.len());
            assert(has_node(f, keys.take(d)));
        }
    }
}

/// The totals of the nodes that `children` lists.
pub open spec fn children_size<K, V>(nodes: Seq<Node<K, V>>, children: Seq<(K, NodeId)>) -> int
    decreases children.len(),
{
    if children.len() == 0 {
        0
    } else {
        children_size(nodes, children.drop_last()) + nodes[children.last().1 as int].total_size
    }
}

/// How many allocations the nodes that `children` lists count.
pub open spec fn children_count<K, V>(nodes: Seq<Node<K, V>>, children: Seq<(K, NodeId)>) -> int
    decreases children.len(),
{
    if children.len() == 0 {
        0
    } else {
        children_count(nodes, children.drop_last()) + nodes[children.last().1 as int].total_count
    }
}

/// Each node's totals are those of its own allocations together with
/// those of its children.
#[verifier::opaque]
pub open spec fn totals_add_up<K, V>(nodes: Seq<Node<K, V>>) -> bool {
    forall|n: int| #![trigger nodes[n]] 0 <= n < nodes.len() ==> {
        &&& nodes[n].total_size == nodes[n].self_size + children_size(nodes, nodes[n].children@)
        &&& nodes[n].total_count == nodes[n].self_count + children_count(nodes, nodes[n].children@)
    }
}

/// The children that each node of `before` lists are still listed first
/// in `after`, and those listed after them are nodes that `before` lacks.
#[verifier::opaque]
pub open spec fn children_kept<K, V>(before: Seq<Node<K, V>>, after: Seq<Node<K, V>>) -> bool {
    &&& before.len() <= after.len()
    &&& forall|n: int| #![trigger after[n]] 0 <= n < before.len() ==> {
        &&& before[n].children@.len() <= after[n].children@.len()
        &&& after[n].children@.take(before[n].children@.len() as int) == before[n].children@
        &&& forall|i: int| before[n].children@.len() <= i < after[n].children@.len()
            ==> #[trigger] after[n].children@[i].1 >= before.len()
    }
}

/// Nodes whose lists of children are as they were keep their children.
proof fn lemma_children_same<K, V>(before: Seq<Node<K, V>>, after: Seq<Node<K, V>>)
    requires
        before.len() <= after.len(),
        forall|n: int| 0 <= n < before.len() ==> #[trigger] after[n].children == before[n].children,
    ensures
        children_kept(before, after),
{
    reveal(children_kept);
    assert forall|n: int| #![trigger after[n]] 0 <= n < before.len() implies {
        &&& before[n].children@.len() <= after[n].children@.len()
        &&& after[n].children@.take(before[n].children@.len() as int) == before[n].children@
        &&& forall|j: int| before[n].children@.len() <= j < after[n].children@.len()
            ==> #[trigger] after[n].children@[j].1 >= before.len()
    } by {
        assert(after[n].children == before[n].children);
        assert(after[n].children@.take(before[n].children@.len() as int) =~= before[n].children@);
    }
}

/// Where each node lists the children it had, and at most one more that
/// is new, the children are kept.
proof fn lemma_children_grown<K, V>(before: Seq<Node<K, V>>, after: Seq<Node<K, V>>)
    requires
        before.len() <= after.len(),
        before.len() <= u64::MAX,
        forall|n: int| #![trigger after[n]] 0 <= n < before.len() ==> {
            ||| after[n].children == before[n].children
            ||| after[n].children@ == before[n].children@.push((after[n].children@.last().0, before.len() as u64))
        },
    ensures
        children_kept(before, after),
{
    reveal(children_kept);
    assert forall|n: int| #![trigger after[n]] 0 <= n < before.len() implies {
        &&& before[n].children@.len() <= after[n].children@.len()
        &&& after[n].children@.take(before[n].children@.len() as int) == before[n].children@
        &&& forall|j: int| before[n].children@.len() <= j < after[n].children@.len()
            ==> #[trigger] after[n].children@[j].1 >= before.len()
    } by {
        let a = after[n];
        if a.children == before[n].children {
            assert(after[n].children@.take(before[n].children@.len() as int) =~= before[n].children@);
        } else {
            assert(a.children@ == before[n].children@.push((a.children@.last().0, before.len() as u64)));
            assert(after[n].children@.take(before[n].children@.len() as int) =~= before[n].children@);
            assert forall|j: int| before[n].children@.len() <= j < after[n].children@.len()
                implies #[trigger] after[n].children@[j].1 >= before.len() by {
                assert(j == before[n].children@.len());
            }
        }
    }
}

proof fn lemma_children_kept_trans<K, V>(a: Seq<Node<K, V>>, b: Seq<Node<K, V>>, c: Seq<Node<K, V>>)
    requires
        children_kept(a, b),
        children_kept(b, c),
    ensures
        children_kept(a, c),
{
    reveal(children_kept);
    assert forall|n: int| #![trigger c[n]] 0 <= n < a.len() implies {
        &&& a[n].children@.len() <= c[n].children@.len()
        &&& c[n].children@.take(a[n].children@.len() as int) == a[n].children@
        &&& forall|i: int| a[n].children@.len() <= i < c[n].children@.len()
            ==> #[trigger] c[n].children@[i].1 >= a.len()
    } by {
        assert(b[n].children@.take(a[n].children@.len() as int) == a[n].children@);
        assert(c[n].children@.take(b[n].children@.len() as int) == b[n].children@);
        assert(c[n].children@.take(a[n].children@.len() as int) =~= a[n].children@);
        assert forall|i: int| a[n].children@.len() <= i < c[n].children@.len() implies #[trigger] c[n].children@[i].1
            >= a.len() by {
            if i < b[n].children@.len() {
                assert(c[n].children@[i] == b[n].children@[i]);
            }
        }
    }
}

/// The bytes and the number of the children's totals that `before`
/// counted: none for a node that it lacks.
pub open spec fn children_before<K, V>(before: Seq<Node<K, V>>, children: Seq<(K, NodeId)>) -> (int, int)
    decreases children.len(),
{
    if children.len() == 0 {
        (0, 0)
    } else {
        let rest = children_before(before, children.drop_last());
        let c = children.last().1 as int;
        if c < before.len() {
            (rest.0 + before[c].total_size, rest.1 + before[c].total_count)
        } else {
            rest
        }
    }
}

/// How many of the children lie on the way down `keys`.
pub open spec fn children_on_path<K, V>(after: Seq<Node<K, V>>, children: Seq<(K, NodeId)>, keys: Seq<K>) -> int
    decreases children.len(),
{
    if children.len() == 0 {
        0
    } else {
        children_on_path(after, children.drop_last(), keys) + if prefix_of(
            label(after, children.last().1 as int),
            keys,
        ) {
            1int
        } else {
            0int
        }
    }
}

/// The children's totals after an allocation are those before it, and the
/// allocation once for each child on its way.
proof fn lemma_children_after_step<K, V>(
    before: Seq<Node<K, V>>,
    after: Seq<Node<K, V>>,
    children: Seq<(K, NodeId)>,
    keys: Seq<K>,
    size: u64,
    ts: Timestamp,
)
    requires
        forall|i: int| 0 <= i < children.len() ==> #[trigger] children[i].1 < after.len(),
        forall|n: int| 0 <= n < after.len() ==> #[trigger] totals_counted(before, after, n, keys, size, ts),
    ensures
        children_size(after, children) == children_before(before, children).0 + size * children_on_path(
            after,
            children,
            keys,
        ),
        children_count(after, children) == children_before(before, children).1 + children_on_path(
            after,
            children,
            keys,
        ),
    decreases children.len(),
{
    if children.len() > 0 {
        let rest = children.drop_last();
        assert forall|i: int| 0 <= i < rest.len() implies #[trigger] rest[i].1 < after.len() by {
            assert(rest[i] == children[i]);
        }
        lemma_children_after_step(before, after, rest, keys, size, ts);
        let c = children.last().1 as int;
        assert(children[children.len() - 1].1 < after.len());
        assert(totals_counted(before, after, c, keys, size, ts));
        assert(size * children_on_path(after, children, keys) == size * children_on_path(after, rest, keys) + (
        if prefix_of(label(after, c), keys) {
            size as int
        } else {
            0
        })) by (nonlinear_arith)
            requires
                children_on_path(after, children, keys) == children_on_path(after, rest, keys) + (if prefix_of(
                    label(after, c),
                    keys,
                ) {
                    1int
                } else {
                    0int
                }),
        ;
    }
}

/// What `before` counted of children listed after those it had is nothing.
proof fn lemma_children_before_kept<K, V>(
    before: Seq<Node<K, V>>,
    children: Seq<(K, NodeId)>,
    kept: nat,
)
    requires
        kept <= children.len(),
        forall|i: int| 0 <= i < kept ==> #[trigger] children[i].1 < before.len(),
        forall|i: int| kept <= i < children.len() ==> #[trigger] children[i].1 >= before.len(),
    ensures
        children_before(before, children) == (
            children_size(before, children.take(kept as int)),
            children_count(before, children.take(kept as int)),
        ),
    decreases children.len(),
{
    if children.len() > kept {
        let rest = children.drop_last();
        assert forall|i: int| 0 <= i < kept implies #[trigger] rest[i].1 < before.len() by {
            assert(rest[i] == children[i]);
        }
        assert forall|i: int| kept <= i < rest.len() implies #[trigger] rest[i].1 >= before.len() by {
            assert(rest[i] == children[i]);
        }
        lemma_children_before_kept(before, rest, kept);
        assert(rest.take(kept as int) =~= children.take(kept as int));
        assert(children[children.len() - 1].1 >= before.len());
    } else if children.len() > 0 {
        let rest = children.drop_last();
        assert(children.take(kept as int) =~= children);
        assert forall|i: int| 0 <= i < rest.len() implies #[trigger] rest[i].1 < before.len() by {
            assert(rest[i] == children[i]);
        }
        lemma_children_before_kept(before, rest, rest.len());
        assert(rest.take(rest.len() as int) =~= rest);
        assert(children[children.len() - 1].1 < before.len());
    } else {
        assert(children.take(kept as int) =~= children);
    }
}

/// A child on the way is listed among the children.
proof fn lemma_on_path_listed<K, V>(after: Seq<Node<K, V>>, children: Seq<(K, NodeId)>, keys: Seq<K>)
    ensures
        children_on_path(after, children, keys) >= 0,
        children_on_path(after, children, keys) > 0 ==> exists|i: int|
            0 <= i < children.len() && #[trigger] prefix_of(label(after, children[i].1 as int), keys),
    decreases children.len(),
{
    if children.len() > 0 {
        let rest = children.drop_last();
        lemma_on_path_listed(after, rest, keys);
        if children_on_path(after, rest, keys) > 0 {
            let i = choose|i: int| 0 <= i < rest.len() && #[trigger] prefix_of(label(after, rest[i].1 as int), keys);
            assert(children[i] == rest[i]);
        } else if children_on_path(after, children, keys) > 0 {
            assert(prefix_of(label(after, children[children.len() - 1].1 as int), keys));
        }
    }
}

/// At most one child of a node lies on the way down `keys`, since the
/// children's keys differ.
proof fn lemma_one_on_path<K, V>(after: Seq<Node<K, V>>, n: int, len: int, keys: Seq<K>)
    requires
        tree_wf(after),
        0 <= n < after.len(),
        0 <= len <= after[n].children@.len(),
    ensures
        children_on_path(after, after[n].children@.take(len), keys) <= 1,
    decreases len,
{
    let ch = after[n].children@;
    if len > 0 {
        lemma_one_on_path(after, n, len - 1, keys);
        let part = ch.take(len);
        assert(part.drop_last() =~= ch.take(len - 1));
        let last = ch[len - 1];
        if children_on_path(after, ch.take(len - 1), keys) > 0 && prefix_of(label(after, last.1 as int), keys) {
            lemma_on_path_listed(after, ch.take(len - 1), keys);
            let i = choose|i: int|
                0 <= i < ch.take(len - 1).len() && #[trigger] prefix_of(label(after, ch.take(len - 1)[i].1 as int), keys);
            let a = ch[i];
            assert(ch.take(len - 1)[i] == a);
            assert(a == after[n].children@[i]);
            assert(last == after[n].children@[len - 1]);
            lemma_label_step(after, a.1 as int);
            lemma_label_step(after, last.1 as int);
            let la = label(after, a.1 as int);
            let lb = label(after, last.1 as int);
            assert(la.len() == lb.len());
            assert(la == keys.take(la.len() as int));
            assert(lb == keys.take(lb.len() as int));
            assert(la.last() == a.0);
            assert(lb.last() == last.0);
            assert(a.0 == last.0);
            assert(after[n].children@[i].0 != after[n].children@[len - 1].0);
        }
        lemma_on_path_listed(after, ch.take(len - 1), keys);
    }
}

/// Exactly one child of a node on the way down `keys` lies on it, unless
/// the node is where the way ends; no child of a node off the way does.
proof fn lemma_path_children<K, V>(after: Seq<Node<K, V>>, n: int, keys: Seq<K>)
    requires
        tree_wf(after),
        0 <= n < after.len(),
        forall|j: int| 0 <= j <= keys.len() ==> has_node(after, #[trigger] keys.take(j)),
    ensures
        children_on_path(after, after[n].children@, keys) == (if prefix_of(label(after, n), keys) && label(after, n)
            != keys {
            1int
        } else {
            0int
        }),
{
    let ch = after[n].children@;
    let l = label(after, n);
    assert(ch.take(ch.len() as int) =~= ch);
    lemma_one_on_path(after, n, ch.len() as int, keys);
    lemma_on_path_listed(after, ch, keys);
    if children_on_path(after, ch, keys) > 0 {
        let i = choose|i: int| 0 <= i < ch.len() && #[trigger] prefix_of(label(after, ch[i].1 as int), keys);
        let c = ch[i].1 as int;
        assert(after[n].children@[i] == ch[i]);
        lemma_label_step(after, c);
        assert(label(after, c) == l.push(ch[i].0));
        assert(l =~= label(after, c).take(l.len() as int));
        assert(prefix_of(l, keys)) by {
            assert(keys.take(l.len() as int) =~= label(after, c).take(l.len() as int));
        }
        assert(l.len() < keys.len());
    }
    if prefix_of(l, keys) && l != keys {
        assert(l.len() < keys.len()) by {
            if l.len() == keys.len() {
                assert(l =~= keys);
            }
        }
        let next = keys.take(l.len() as int + 1);
        assert(has_node(after, next));
        let m = choose|m: int| 0 <= m < after.len() && #[trigger] label(after, m) == next;
        assert(m != 0) by {
            if m == 0 {
                assert(label(after, 0).len() == 0);
            }
        }
        lemma_label_step(after, m);
        let p = after[m].parent as int;
        assert(label(after, p) =~= l);
        lemma_label_unique(after, p, n);
        assert(listed_child(after, n, m));
        let k = choose|k: int| 0 <= k < ch.len() && #[trigger] after[n].children@[k].1 == m;
        assert(prefix_of(label(after, ch[k].1 as int), keys)) by {
            assert(keys.take(next.len() as int) =~= next);
        }
        if children_on_path(after, ch, keys) == 0 {
            lemma_zero_on_path(after, ch, keys, k);
        }
    }
}

proof fn lemma_zero_on_path<K, V>(after: Seq<Node<K, V>>, children: Seq<(K, NodeId)>, keys: Seq<K>, k: int)
    requires
        0 <= k < children.len(),
        prefix_of(label(after, children[k].1 as int), keys),
    ensures
        children_on_path(after, children, keys) > 0,
    decreases children.len(),
{
    let rest = children.drop_last();
    lemma_on_path_listed(after, rest, keys);
    if k < children.len() - 1 {
        assert(rest[k] == children[k]);
        lemma_zero_on_path(after, rest, keys, k);
    }
}

/// Adding an allocation keeps every node's totals those of its own
/// allocations together with its children's.
pub proof fn lemma_totals_kept<K, V>(
    before: Seq<Node<K, V>>,
    after: Seq<Node<K, V>>,
    keys: Seq<K>,
    size: u64,
    ts: Timestamp,
    id: AllocationId,
)
    requires
        tree_wf(before),
        tree_wf(after),
        totals_add_up(before),
        children_kept(before, after),
        forall|j: int| 0 <= j <= keys.len() ==> has_node(after, #[trigger] keys.take(j)),
        forall|n: int| 0 <= n < after.len() ==> #[trigger] totals_counted(before, after, n, keys, size, ts),
        forall|n: int| 0 <= n < after.len() ==> #[trigger] own_counted(before, after, n, keys, size, id),
    ensures
        totals_add_up(after),
{
    reveal(children_kept);
    reveal(totals_add_up);
    assert forall|n: int| #![trigger after[n]] 0 <= n < after.len() implies {
        &&& after[n].total_size == after[n].self_size + children_size(after, after[n].children@)
        &&& after[n].total_count == after[n].self_count + children_count(after, after[n].children@)
    } by {
        let ch = after[n].children@;
        assert forall|i: int| 0 <= i < ch.len() implies #[trigger] ch[i].1 < after.len() by {
            assert(after[n].children@[i].1 < after.len());
        }
        lemma_children_after_step(before, after, ch, keys, size, ts);
        lemma_path_children(after, n, keys);
        assert(totals_counted(before, after, n, keys, size, ts));
        assert(own_counted(before, after, n, keys, size, id));
        let here = label(after, n) == keys;
        let on_path = prefix_of(label(after, n), keys);
        assert(here ==> on_path) by {
            if here {
                assert(keys.take(keys.len() as int) =~= keys);
            }
        }
        if n < before.len() {
            let kept = before[n].children@.len();
            assert forall|i: int| 0 <= i < kept implies #[trigger] ch[i].1 < before.len() by {
                assert(ch.take(kept as int)[i] == before[n].children@[i]);
                assert(before[n].children@[i].1 < before.len());
            }
            assert forall|i: int| kept <= i < ch.len() implies #[trigger] ch[i].1 >= before.len() by {
                assert(after[n].children@[i].1 >= before.len());
            }
            lemma_children_before_kept(before, ch, kept);
            assert(before[n].total_size == before[n].self_size + children_size(before, before[n].children@));
        } else {
            assert forall|i: int| 0 <= i < ch.len() implies #[trigger] ch[i].1 >= before.len() by {
                assert(after[n].children@[i].1 > n);
            }
            lemma_children_before_kept(before, ch, 0);
            assert(ch.take(0) =~= Seq::<(K, NodeId)>::empty());
        }
    }
}

/// The bytes and the number of the first `k` allocations counted whose
/// keys start with `l` followed by the key of one of `children`.
pub open spec fn under_children<K>(c: Census<K>, l: Seq<K>, children: Seq<(K, NodeId)>, k: int) -> (int, int)
    decreases children.len(),
{
    if children.len() == 0 {
        (0, 0)
    } else {
        let rest = under_children(c, l, children.drop_last(), k);
        let x = l.push(children.last().0);
        (rest.0 + size_under(c, x, k), rest.1 + count_under(c, x, k))
    }
}

proof fn lemma_under_children_step<K>(c: Census<K>, l: Seq<K>, children: Seq<(K, NodeId)>, k: int)
    requires
        0 <= k,
        forall|i: int, j: int| 0 <= i < j < children.len() ==> #[trigger] children[i].0 != #[trigger] children[j].0,
    ensures
        ({
            let matched = exists|i: int| 0 <= i < children.len() && under(c, l.push(#[trigger] children[i].0), k);
            &&& under_children(c, l, children, k + 1).0
                == under_children(c, l, children, k).0 + if matched { c.allocations[k].size as int } else { 0 }
            &&& under_children(c, l, children, k + 1).1
                == under_children(c, l, children, k).1 + if matched { 1int } else { 0 }
        }),
    decreases children.len(),
{
    if children.len() > 0 {
        let rest = children.drop_last();
        assert forall|i: int, j: int| 0 <= i < j < rest.len() implies #[trigger] rest[i].0 != #[trigger] rest[j].0 by {
            assert(rest[i] == children[i] && rest[j] == children[j]);
        }
        lemma_under_children_step(c, l, rest, k);
        let key = children.last().0;
        let keys = (c.path)(k);
        if under(c, l.push(key), k) {
            assert forall|i: int| 0 <= i < rest.len() implies !under(c, l.push(#[trigger] rest[i].0), k) by {
                assert(rest[i] == children[i]);
                assert(children[i].0 != children[children.len() - 1].0);
                if under(c, l.push(rest[i].0), k) {
                    assert(l.push(rest[i].0)[l.len() as int] == keys.take(l.len() as int + 1)[l.len() as int]);
                    assert(l.push(key)[l.len() as int] == keys.take(l.len() as int + 1)[l.len() as int]);
                }
            }
            assert(under(c, l.push(children[children.len() - 1].0), k));
        } else {
            if exists|i: int| 0 <= i < children.len() && under(c, l.push(#[trigger] children[i].0), k) {
                let i = choose|i: int| 0 <= i < children.len() && under(c, l.push(#[trigger] children[i].0), k);
                assert(i < rest.len());
                assert(rest[i] == children[i]);
            }
            if exists|i: int| 0 <= i < rest.len() && under(c, l.push(#[trigger] rest[i].0), k) {
                let i = choose|i: int| 0 <= i < rest.len() && under(c, l.push(#[trigger] rest[i].0), k);
                assert(rest[i] == children[i]);
            }
        }
    }
}

proof fn lemma_under_children_zero<K>(c: Census<K>, l: Seq<K>, children: Seq<(K, NodeId)>)
    ensures
        under_children(c, l, children, 0) == (0int, 0int),
    decreases children.len(),
{
    if children.len() > 0 {
        lemma_under_children_zero(c, l, children.drop_last());
    }
}

/// Where every allocation counted that goes on past `l` goes on with the key
/// of one of `children`, whose keys differ, the allocations under `l` are
/// those at `l` and those under the children.
proof fn lemma_split_under<K>(c: Census<K>, l: Seq<K>, children: Seq<(K, NodeId)>, k: int)
    requires
        0 <= k,
        forall|i: int, j: int| 0 <= i < j < children.len() ==> #[trigger] children[i].0 != #[trigger] children[j].0,
        forall|i: int| 0 <= i < k && #[trigger] under(c, l, i) && (c.path)(i).len() > l.len()
            ==> exists|j: int| 0 <= j < children.len() && #[trigger] children[j].0 == (c.path)(i)[l.len() as int],
    ensures
        size_under(c, l, k) == size_at(c, l, k) + under_children(c, l, children, k).0,
        count_under(c, l, k) == ids_at(c, l, k).len() + under_children(c, l, children, k).1,
    decreases k,
{
    if k == 0 {
        lemma_under_children_zero(c, l, children);
    } else {
        lemma_split_under(c, l, children, k - 1);
        lemma_under_children_step(c, l, children, k - 1);
        let keys = (c.path)(k - 1);
        let matched = exists|i: int| 0 <= i < children.len() && under(c, l.push(#[trigger] children[i].0), k - 1);
        if under(c, l, k - 1) {
            if keys.len() > l.len() {
                let j = choose|j: int| 0 <= j < children.len() && #[trigger] children[j].0 == keys[l.len() as int];
                assert(l =~= keys.take(l.len() as int));
                assert(l.push(children[j].0) =~= keys.take(l.len() as int + 1));
                assert(under(c, l.push(children[j].0), k - 1));
                assert(matched);
                assert(!at(c, l, k - 1));
            } else {
                assert(keys =~= l);
                assert(at(c, l, k - 1));
                assert(!matched);
            }
        } else {
            if at(c, l, k - 1) {
                assert(keys.take(l.len() as int) =~= keys);
            }
            assert(!at(c, l, k - 1));
            if matched {
                let i = choose|i: int| 0 <= i < children.len() && under(c, l.push(#[trigger] children[i].0), k - 1);
                assert(l.push(children[i].0).take(l.len() as int) =~= l);
                assert(keys.take(l.len() as int + 1).take(l.len() as int) =~= keys.take(l.len() as int));
                assert(under(c, l, k - 1));
            }
            assert(!matched);
        }
    }
}

/// The totals of the nodes that `children` lists are those of their labels.
proof fn lemma_children_totals<K, V>(c: Census<K>, nodes: Seq<Node<K, V>>, l: Seq<K>, children: Seq<(K, NodeId)>, k: int)
    requires
        forall|i: int| 0 <= i < children.len() ==> {
            &&& 0 <= #[trigger] children[i].1 < nodes.len()
            &&& label(nodes, children[i].1 as int) == l.push(children[i].0)
            &&& node_counted(c, nodes, children[i].1 as int, k)
        },
    ensures
        children_size(nodes, children) == under_children(c, l, children, k).0,
        children_count(nodes, children) == under_children(c, l, children, k).1,
    decreases children.len(),
{
    if children.len() > 0 {
        let rest = children.drop_last();
        assert forall|i: int| 0 <= i < rest.len() implies {
            &&& 0 <= #[trigger] rest[i].1 < nodes.len()
            &&& label(nodes, rest[i].1 as int) == l.push(rest[i].0)
            &&& node_counted(c, nodes, rest[i].1 as int, k)
        } by {
            assert(rest[i] == children[i]);
        }
        lemma_children_totals(c, nodes, l, rest, k);
        assert(node_counted(c, nodes, children[children.len() - 1].1 as int, k));
    }
}

/// In the tree of a census, the totals of a node are those of its own
/// allocations together with those of its children.
pub proof fn lemma_totals_add_up<K>(
    c: Census<K>,
    frame_key: spec_fn(usize) -> K,
    frame_count: nat,
    nodes: Seq<Node<K, usize>>,
    n: int,
)
    requires
        tree_of(c, frame_key, frame_count, nodes, c.allocations.len() as int),
        0 <= n < nodes.len(),
    ensures
        nodes[n].total_size == nodes[n].self_size + children_size(nodes, nodes[n].children@),
        nodes[n].total_count == nodes[n].self_count + children_count(nodes, nodes[n].children@),
{
    let k = c.allocations.len() as int;
    let l = label(nodes, n);
    let children = nodes[n].children@;
    assert forall|i: int| 0 <= i < children.len() implies {
        &&& 0 <= #[trigger] children[i].1 < nodes.len()
        &&& label(nodes, children[i].1 as int) == l.push(children[i].0)
        &&& node_counted(c, nodes, children[i].1 as int, k)
    } by {
        assert(nodes[n].children@[i] == children[i]);
        lemma_label_step(nodes, children[i].1 as int);
    }
    lemma_children_totals(c, nodes, l, children, k);
    assert forall|i: int, j: int| 0 <= i < j < children.len() implies #[trigger] children[i].0 != #[trigger] children[j].0 by {
        assert(nodes[n].children@[i] == children[i] && nodes[n].children@[j] == children[j]);
    }
    assert forall|i: int| 0 <= i < k && #[trigger] under(c, l, i) && (c.path)(i).len() > l.len()
        implies exists|j: int| 0 <= j < children.len() && #[trigger] children[j].0 == (c.path)(i)[l.len() as int] by {
        let keys = (c.path)(i);
        let d = l.len() as int + 1;
        assert(has_node(nodes, keys.take(d)));
        let m = choose|m: int| 0 <= m < nodes.len() && #[trigger] label(nodes, m) == keys.take(d);
        assert(m != 0) by {
            if m == 0 {
                assert(label(nodes, 0).len() == 0);
            }
        }
        lemma_label_step(nodes, m);
        let p = nodes[m].parent as int;
        assert(label(nodes, p) =~= l);
        lemma_label_unique(nodes, p, n);
        assert(listed_child(nodes, p, m));
        let j = choose|j: int| 0 <= j < nodes[p].children@.len() && #[trigger] nodes[p].children@[j].1 == m;
        assert(children[j].1 == m);
        assert(nodes[m].key == Some(children[j].0));
        assert(label(nodes, m).last() == keys[l.len() as int]);
    }
    lemma_split_under(c, l, children, k);
    assert(node_counted(c, nodes, n, k));
}

/// In the raw tree, the totals of a node are those of its own allocations
/// together with those of its children.
pub proof fn lemma_raw_tree_totals_add_up(data: &Data, nodes: Seq<Node<CodePointer, usize>>, n: int)
    requires
        raw_tree_of(data, nodes),
        0 <= n < nodes.len(),
    ensures
        nodes[n].total_size == nodes[n].self_size + children_size(nodes, nodes[n].children@),
        nodes[n].total_count == nodes[n].self_count + children_count(nodes, nodes[n].children@),
{
    lemma_totals_add_up(raw_census(data), |f: usize| data.frames@[f as int].address, data.frames@.len(), nodes, n);
}

/// In the tree of frames, the totals of a node are those of its own
/// allocations together with those of its children.
pub proof fn lemma_frame_tree_totals_add_up(
    data: &Data,
    selected: Seq<bool>,
    nodes: Seq<Node<usize, usize>>,
    n: int,
)
    requires
        frame_tree_of(data, selected, nodes),
        0 <= n < nodes.len(),
    ensures
        nodes[n].total_size == nodes[n].self_size + children_size(nodes, nodes[n].children@),
        nodes[n].total_count == nodes[n].self_count + children_count(nodes, nodes[n].children@),
{
    lemma_totals_add_up(frame_census(data, selected), |f: usize| f, data.frames@.len(), nodes, n);
}

/// A tree of the frames of the allocations' backtraces, outermost first.
pub struct Tree<K, V> {
    /// Where each allocation was counted: its node and its place among
    /// the node's own allocations.
    pub allocations: HashMap<u64, (NodeId, usize)>,
    pub nodes: Vec<Node<K, V>>,
}

impl<K: TreeKey, V: Copy> Tree<K, V> {
    pub open spec fn wf(&self) -> bool {
        tree_wf(self.nodes@)
    }

    /// A tree of nothing but its root.
    pub fn new() -> (tree: Self)
        ensures
            tree.wf(),
            tree.nodes@.len() == 1,
            tree.nodes@[0].total_size == 0,
            tree.nodes@[0].total_count == 0,
            tree.nodes@[0].total_first_timestamp == Timestamp(u64::MAX),
            tree.nodes@[0].total_last_timestamp == Timestamp(0),
            tree.nodes@[0].self_size == 0,
            tree.nodes@[0].self_count == 0,
            tree.nodes@[0].self_allocations@.len() == 0,
            tree.nodes@[0].children@.len() == 0,
            tree.allocations@.len() == 0,
            totals_add_up(tree.nodes@),
    {
        let root = Node {
            key: None,
            value: None,
            total_size: 0,
            total_count: 0,
            total_first_timestamp: Timestamp::max(),
            total_last_timestamp: Timestamp::min(),
            self_size: 0,
            self_count: 0,
            self_allocations: Vec::new(),
            children: Vec::new(),
            parent: NO_PARENT,
        };
        let mut nodes = Vec::new();
        nodes.push(root);
        proof {
            reveal(totals_add_up);
            assert(nodes@[0].children@ =~= Seq::<(K, NodeId)>::empty());
        }
        Tree { allocations: HashMap::new(), nodes }
    }

    /// One step down while counting an allocation: finds or adds the child
    /// of `node_id` under `key` and counts the allocation in it.
    fn descend(
        &mut self,
        node_id: usize,
        key: K,
        value: V,
        size: u64,
        timestamp: Timestamp,
        Ghost(o): Ghost<Seq<Node<K, V>>>,
        Ghost(backtrace): Ghost<Seq<(K, V)>>,
        Ghost(i): Ghost<int>,
    ) -> (child: usize)
        requires
            tree_wf(o),
            o[0].total_size + size <= u64::MAX,
            o[0].total_count < u64::MAX,
            o.len() + backtrace.len() < usize::MAX,
            0 <= i < backtrace.len(),
            key == backtrace[i].0,
            value == backtrace[i].1,
            counting(o, old(self).nodes@, backtrace, i, size, timestamp),
            node_id < old(self).nodes@.len(),
            label(old(self).nodes@, node_id as int) == keys_of(backtrace).take(i),
        ensures
            counting(o, final(self).nodes@, backtrace, i + 1, size, timestamp),
            same_shape(old(self).nodes@, final(self).nodes@),
            child < final(self).nodes@.len(),
            label(final(self).nodes@, child as int) == keys_of(backtrace).take(i + 1),
            final(self).allocations == old(self).allocations,
            children_kept(old(self).nodes@, final(self).nodes@),
    {
        let ghost keys = keys_of(backtrace);
        let ghost start = self.nodes@;
        proof {
            assert(keys[i] == key);
            assert(keys.take(i + 1) =~= keys.take(i).push(key));
        }
        let found = find_child(&self.nodes[node_id].children, &key);
        let child: usize = match found {
            Some(k) => {
                let c = self.nodes[node_id].children[k].1;
                proof {
                    assert(node_id < c < start.len());
                    lemma_label_step(start, c as int);
                }
                c as usize
            },
            None => {
                let c = self.add_child(node_id, key, value, timestamp);
                c
            },
        };
        let ghost mid = self.nodes@;
        proof {
            lemma_labels_kept(start, mid);
            lemma_room_in_child(o, start, mid, child as int, backtrace, i, size, timestamp);
        }
        proof {
            assert(start.len() <= u64::MAX);
            lemma_children_grown(start, mid);
        }
        count_in(&mut self.nodes[child], size, timestamp);
        proof {
            lemma_count_wf(mid, self.nodes@, child as int, size);
            lemma_counted_step(o, start, mid, self.nodes@, child as int, backtrace, i, size, timestamp);
            let fin = self.nodes@;
            assert forall|n: int| 0 <= n < mid.len() implies #[trigger] fin[n].children == mid[n].children by {
                if n != child {
                    assert(fin[n] == mid[n]);
                }
            }
            lemma_children_same(mid, fin);
            lemma_children_kept_trans(start, mid, fin);
        }
        child
    }

    /// Counts `allocation` in the totals of every node on the way down the
    /// keys of `backtrace`, outermost first, adding the nodes that are
    /// missing with the values of their frames, and counts it as an
    /// allocation of its own in the last node.
    #[verifier::rlimit(80)]
    pub fn add_allocation(&mut self, allocation: &Allocation, allocation_id: AllocationId, backtrace: &Vec<(K, V)>)
        requires
            old(self).wf(),
            old(self).nodes@[0].total_size + allocation.size <= u64::MAX,
            old(self).nodes@[0].total_count < u64::MAX,
            old(self).nodes@.len() + backtrace@.len() < usize::MAX,
        ensures
            final(self).wf(),
            grown(old(self).nodes@, final(self).nodes@, backtrace@, backtrace@.len() as int),
            final(self).nodes@.len() <= old(self).nodes@.len() + backtrace@.len(),
            final(self).nodes@[0].total_size == old(self).nodes@[0].total_size + allocation.size,
            final(self).nodes@[0].total_count == old(self).nodes@[0].total_count + 1,
            forall|j: int| 0 <= j <= backtrace@.len()
                ==> has_node(final(self).nodes@, #[trigger] keys_of(backtrace@).take(j)),
            forall|n: int| 0 <= n < final(self).nodes@.len() ==> #[trigger] totals_counted(
                old(self).nodes@, final(self).nodes@, n, keys_of(backtrace@), allocation.size, allocation.timestamp),
            forall|n: int| 0 <= n < final(self).nodes@.len() ==> #[trigger] own_counted(
                old(self).nodes@, final(self).nodes@, n, keys_of(backtrace@), allocation.size, allocation_id),
            final(self).allocations@ == old(self).allocations@.insert(
                allocation.pointer, final(self).allocations@[allocation.pointer]),
            final(self).allocations@[allocation.pointer].0 < final(self).nodes@.len(),
            label(final(self).nodes@, final(self).allocations@[allocation.pointer].0 as int) == keys_of(backtrace@),
            final(self).allocations@[allocation.pointer].1 + 1 == final(self).nodes@[
                final(self).allocations@[allocation.pointer].0 as int].self_allocations@.len(),
            children_kept(old(self).nodes@, final(self).nodes@),
            totals_add_up(old(self).nodes@) ==> totals_add_up(final(self).nodes@),
    {
        let ghost o = self.nodes@;
        let ghost keys = keys_of(backtrace@);
        let timestamp = allocation.timestamp;
        let size = allocation.size;
        count_in(&mut self.nodes[0], size, timestamp);
        proof {
            lemma_count_wf(o, self.nodes@, 0, size);
            assert(same_shape(o, self.nodes@));
            lemma_labels_kept(o, self.nodes@);
            assert forall|n: int| 0 <= n < self.nodes@.len() implies #[trigger] totals_counted(
                o, self.nodes@, n, keys.take(0), size, timestamp) by {
                if n > 0 {
                    lemma_label_step(o, n);
                    assert(!prefix_of(label(self.nodes@, n), keys.take(0)));
                } else {
                    assert(keys.take(0).take(0) =~= label(self.nodes@, 0));
                }
            }
            assert(label(self.nodes@, 0) =~= keys.take(0));
            assert(counting(o, self.nodes@, backtrace@, 0, size, timestamp));
            let first = self.nodes@;
            assert forall|n: int| 0 <= n < o.len() implies #[trigger] first[n].children == o[n].children by {
                if n != 0 {
                    assert(first[n] == o[n]);
                }
            }
            lemma_children_same(o, first);
        }
        let mut node_id: usize = 0;
        let ghost mut path: Seq<int> = seq![0];
        let mut i: usize = 0;
        while i < backtrace.len()
            invariant
                tree_wf(o),
                keys == keys_of(backtrace@),
                size == allocation.size,
                timestamp == allocation.timestamp,
                o[0].total_size + size <= u64::MAX,
                o[0].total_count < u64::MAX,
                o.len() + backtrace@.len() < usize::MAX,
                0 <= i <= backtrace@.len(),
                counting(o, self.nodes@, backtrace@, i as int, size, timestamp),
                self.allocations == old(self).allocations,
                children_kept(o, self.nodes@),
                path.len() == i + 1,
                node_id == path[i as int],
                forall|j: int| #![trigger path[j]] 0 <= j <= i ==> 0 <= path[j] < self.nodes@.len()
                    && label(self.nodes@, path[j]) == keys.take(j),
            decreases backtrace@.len() - i,
        {
            let key = backtrace[i].0;
            let value = backtrace[i].1;
            let ghost start = self.nodes@;
            let child = self.descend(node_id, key, value, size, timestamp, Ghost(o), Ghost(backtrace@), Ghost(i as int));
            proof {
                lemma_labels_kept(start, self.nodes@);
                lemma_children_kept_trans(o, start, self.nodes@);
                path = path.push(child as int);
            }
            node_id = child;
            i = i + 1;
        }
        let ghost last = self.nodes@;
        proof {
            assert(keys.take(i as int) =~= keys);
            assert(label(last, node_id as int) == keys);
            assert(own_kept(o, last, node_id as int));
            if node_id < o.len() {
                assert(o[node_id as int].self_size <= o[node_id as int].total_size);
                assert(o[node_id as int].self_count <= o[node_id as int].total_count);
            }
            assert(totals_counted(o, last, node_id as int, keys, size, timestamp));
            assert(prefix_of(label(last, node_id as int), keys)) by {
                assert(keys.take(keys.len() as int) =~= keys);
            }
        }
        self.own_in(node_id, size, allocation_id);
        let index = self.nodes[node_id].self_allocations.len() - 1;
        self.allocations.insert(allocation.pointer, (node_id as u64, index));
        proof {
            let fin = self.nodes@;
            lemma_labels_kept(last, fin);
            assert forall|j: int| 0 <= j <= backtrace@.len() implies has_node(fin, #[trigger] keys_of(backtrace@).take(j)) by {
                assert(label(fin, path[j]) == keys.take(j));
            }
            assert forall|n: int| 0 <= n < fin.len() implies #[trigger] totals_counted(
                o, fin, n, keys, size, timestamp) by {
                assert(totals_counted(o, last, n, keys.take(i as int), size, timestamp));
            }
            assert(totals_counted(o, fin, 0, keys, size, timestamp));
            assert(prefix_of(label(fin, 0), keys)) by {
                assert(keys.take(0) =~= label(fin, 0));
            }
            assert forall|n: int| 0 <= n < fin.len() implies #[trigger] own_counted(
                o, fin, n, keys, size, allocation_id) by {
                assert(own_kept(o, last, n));
                if n != node_id {
                    if label(fin, n) == keys {
                        lemma_label_unique(fin, n, node_id as int);
                    }
                }
            }
            assert forall|n: int| 0 <= n < last.len() implies #[trigger] fin[n].children == last[n].children by {
                if n != node_id {
                    assert(fin[n] == last[n]);
                }
            }
            lemma_children_same(last, fin);
            lemma_children_kept_trans(o, last, fin);
            if totals_add_up(o) {
                lemma_totals_kept(o, fin, keys, size, timestamp, allocation_id);
            }
        }
    }

    /// Counts an allocation of `size` bytes as one of node `n`'s own.
    fn own_in(&mut self, n: usize, size: u64, id: AllocationId)
        requires
            tree_wf(old(self).nodes@),
            n < old(self).nodes@.len(),
            old(self).nodes@[n as int].self_size + size <= old(self).nodes@[n as int].total_size,
            old(self).nodes@[n as int].self_count < old(self).nodes@[n as int].total_count,
        ensures
            tree_wf(final(self).nodes@),
            final(self).allocations == old(self).allocations,
            final(self).nodes@.len() == old(self).nodes@.len(),
            same_shape(old(self).nodes@, final(self).nodes@),
            forall|m: int| #![trigger final(self).nodes@[m]] 0 <= m < final(self).nodes@.len() && m != n
                ==> final(self).nodes@[m] == old(self).nodes@[m],
            final(self).nodes@[n as int].total_size == old(self).nodes@[n as int].total_size,
            final(self).nodes@[n as int].total_count == old(self).nodes@[n as int].total_count,
            final(self).nodes@[n as int].total_first_timestamp == old(self).nodes@[n as int].total_first_timestamp,
            final(self).nodes@[n as int].total_last_timestamp == old(self).nodes@[n as int].total_last_timestamp,
            final(self).nodes@[n as int].self_size == old(self).nodes@[n as int].self_size + size,
            final(self).nodes@[n as int].self_count == old(self).nodes@[n as int].self_count + 1,
            final(self).nodes@[n as int].self_allocations@ == old(self).nodes@[n as int].self_allocations@.push(id),
            final(self).nodes@[n as int].children == old(self).nodes@[n as int].children,
    {
        let ghost last = self.nodes@;
        self.nodes[n].self_size = self.nodes[n].self_size + size;
        self.nodes[n].self_count = self.nodes[n].self_count + 1;
        self.nodes[n].self_allocations.push(id);
        proof {
            let fin = self.nodes@;
            assert forall|m: int| #![trigger fin[m]] 1 <= m < fin.len() implies {
                &&& fin[m].parent < m
                &&& fin[m].key is Some
                &&& fin[m].value is Some
                &&& listed_child(fin, fin[m].parent as int, m)
            } by {
                assert(last[m].parent < m);
                let p = last[m].parent as int;
                assert(listed_child(last, p, m));
                let k = choose|k: int| 0 <= k < last[p].children@.len() && #[trigger] last[p].children@[k].1 == m;
                assert(fin[p].children@[k].1 == m);
            }
            assert forall|m: int, k: int| #![trigger fin[m].children@[k]]
                0 <= m < fin.len() && 0 <= k < fin[m].children@.len() implies {
                    let ch = fin[m].children@[k].1;
                    &&& m < ch < fin.len()
                    &&& fin[ch as int].parent == m
                    &&& fin[ch as int].key == Some(fin[m].children@[k].0)
                } by {
                assert(last[m].children@[k] == fin[m].children@[k]);
            }
            assert forall|m: int, k: int, j: int| #![trigger fin[m].children@[k], fin[m].children@[j]]
                0 <= m < fin.len() && 0 <= k < j < fin[m].children@.len()
                    implies fin[m].children@[k].0 != fin[m].children@[j].0 by {
                assert(last[m].children@[k] == fin[m].children@[k]);
                assert(last[m].children@[j] == fin[m].children@[j]);
            }
            assert forall|m: int| #![trigger fin[m]] 0 <= m < fin.len() implies {
                &&& fin[m].self_size <= fin[m].total_size <= fin[0].total_size
                &&& fin[m].self_count <= fin[m].total_count <= fin[0].total_count
            } by {
                assert(last[m].self_size <= last[m].total_size <= last[0].total_size);
                assert(last[m].self_count <= last[m].total_count <= last[0].total_count);
            }
        }
    }

    /// The bytes that the tree counts in all.
    pub fn currently_allocated(&self) -> (size: u64)
        requires
            self.wf(),
        ensures
            size == self.nodes@[0].total_size,
    {
        self.nodes[0].total_size
    }

    /// The number of allocations that the tree counts.
    pub fn currently_allocated_count(&self) -> (count: u64)
        requires
            self.wf(),
        ensures
            count == self.nodes@[0].total_count,
    {
        self.nodes[0].total_count
    }

    pub fn get_node(&self, id: NodeId) -> (node: &Node<K, V>)
        requires
            id < self.nodes@.len(),
        ensures
            *node == self.nodes@[id as int],
    {
        let n = self.nodes.len();
        assert(id < n);
        &self.nodes[id as usize]
    }
}

impl Data {
    /// The tree of the frames of the backtraces of the allocations that were
    /// not freed, keyed by the frames' addresses, each inlined frame left
    /// out; each node holds the totals of the allocations under it.
    pub fn raw_tree(&self) -> (tree: Tree<CodePointer, usize>)
        requires
            backtraces_stored(self),
            size_under(raw_census(self), Seq::empty(), self.allocations@.len() as int) <= u64::MAX,
            depth(raw_census(self), self.allocations@.len() as int) + 1 < usize::MAX,
        ensures
            tree.wf(),
            raw_tree_of(self, tree.nodes@),
    {
        let ghost c = raw_census(self);
        let ghost frame_key = |f: usize| self.frames@[f as int].address;
        let ghost frame_count = self.frames@.len();
        let mut tree = Tree::new();
        proof {
            assert forall|n: int| 0 <= n < tree.nodes@.len() implies #[trigger] node_counted(c, tree.nodes@, n, 0) by {
                assert(tree.nodes@[0].self_allocations@ =~= Seq::<AllocationId>::empty());
            }
        }
        let mut k: usize = 0;
        while k < self.allocations.len()
            invariant
                c == raw_census(self),
                frame_key == (|f: usize| self.frames@[f as int].address),
                frame_count == self.frames@.len(),
                backtraces_stored(self),
                size_under(c, Seq::empty(), self.allocations@.len() as int) <= u64::MAX,
                depth(c, self.allocations@.len() as int) + 1 < usize::MAX,
                0 <= k <= self.allocations@.len(),
                tree_of(c, frame_key, frame_count, tree.nodes@, k as int),
                tree.nodes@.len() <= 1 + depth(c, k as int),
            decreases self.allocations@.len() - k,
        {
            let allocation = &self.allocations[k];
            if allocation.deallocation.is_none() {
                proof {
                    assert(backtrace_stored(self, self.allocations@[k as int].backtrace.0 as int));
                }
                let ids = self.get_non_inline_backtrace(allocation.backtrace);
                let mut backtrace: Vec<(CodePointer, usize)> = Vec::new();
                let mut j: usize = 0;
                while j < ids.len()
                    invariant
                        0 <= j <= ids@.len(),
                        forall|t: int| 0 <= t < ids@.len() ==> #[trigger] ids@[t] < self.frames@.len(),
                        backtrace@.len() == j,
                        forall|t: int| 0 <= t < j ==> #[trigger] backtrace@[t] == (self.frames@[ids@[t] as int].address, ids@[t]),
                    decreases ids@.len() - j,
                {
                    let id = ids[j];
                    backtrace.push((self.frames[id].address, id));
                    j = j + 1;
                }
                let ghost before = tree.nodes@;
                proof {
                    assert(keys_of(backtrace@) =~= (c.path)(k as int));
                    assert(node_counted(c, before, 0, k as int));
                    assert(label(before, 0) == Seq::<CodePointer>::empty());
                    lemma_size_grows(c, Seq::empty(), k as int + 1, self.allocations@.len() as int);
                    lemma_size_grows(c, Seq::empty(), k as int + 1, k as int + 1);
                    assert(prefix_of(Seq::<CodePointer>::empty(), (c.path)(k as int))) by {
                        assert((c.path)(k as int).take(0) =~= Seq::<CodePointer>::empty());
                    }
                }
                tree.add_allocation(allocation, AllocationId::new(k as u64), &backtrace);
                proof {
                    lemma_step(c, frame_key, frame_count, before, tree.nodes@, backtrace@, k as int);
                }
            } else {
                proof {
                    lemma_skip(c, frame_key, frame_count, tree.nodes@, k as int);
                }
            }
            k = k + 1;
        }
        tree
    }
}

impl Data {
    /// The tree of the frames of the backtraces of the allocations that
    /// `selected` marks, keyed by the frames' places in the source; each
    /// node holds the totals of the allocations under it.
    pub fn source_tree(&self, selected: &Vec<bool>) -> (tree: Tree<SourceKey, usize>)
        requires
            backtraces_stored(self),
            selected@.len() == self.allocations@.len(),
            size_under(source_census(self, selected@), Seq::empty(), self.allocations@.len() as int) <= u64::MAX,
            depth(source_census(self, selected@), self.allocations@.len() as int) + 1 < usize::MAX,
        ensures
            tree.wf(),
            source_tree_of(self, selected@, tree.nodes@),
    {
        let ghost c = source_census(self, selected@);
        let ghost frame_key = |f: usize| source_key(self.frames@[f as int]);
        let ghost frame_count = self.frames@.len();
        let mut tree = Tree::new();
        proof {
            assert forall|n: int| 0 <= n < tree.nodes@.len() implies #[trigger] node_counted(c, tree.nodes@, n, 0) by {
                assert(tree.nodes@[0].self_allocations@ =~= Seq::<AllocationId>::empty());
            }
        }
        let mut k: usize = 0;
        while k < self.allocations.len()
            invariant
                c == source_census(self, selected@),
                frame_key == (|f: usize| source_key(self.frames@[f as int])),
                frame_count == self.frames@.len(),
                backtraces_stored(self),
                selected@.len() == self.allocations@.len(),
                size_under(c, Seq::empty(), self.allocations@.len() as int) <= u64::MAX,
                depth(c, self.allocations@.len() as int) + 1 < usize::MAX,
                0 <= k <= self.allocations@.len(),
                tree_of(c, frame_key, frame_count, tree.nodes@, k as int),
                tree.nodes@.len() <= 1 + depth(c, k as int),
            decreases self.allocations@.len() - k,
        {
            let allocation = &self.allocations[k];
            if selected[k] {
                proof {
                    assert(backtrace_stored(self, self.allocations@[k as int].backtrace.0 as int));
                }
                let ids = self.get_frame_ids(allocation.backtrace);
                let ghost path = ids@.reverse();
                let n = ids.len();
                let mut backtrace: Vec<(SourceKey, usize)> = Vec::new();
                let mut j: usize = 0;
                while j < n
                    invariant
                        n == ids@.len(),
                        path == ids@.reverse(),
                        0 <= j <= n,
                        forall|t: int| 0 <= t < n ==> #[trigger] ids@[t] < self.frames@.len(),
                        backtrace@.len() == j,
                        forall|t: int| 0 <= t < j ==> #[trigger] backtrace@[t] == (source_key(self.frames@[path[t] as int]), path[t]),
                    decreases n - j,
                {
                    let id = ids[n - 1 - j];
                    let key = source_key_of(&self.frames[id]);
                    backtrace.push((key, id));
                    j = j + 1;
                }
                let ghost before = tree.nodes@;
                proof {
                    assert(keys_of(backtrace@) =~= (c.path)(k as int));
                    assert forall|t: int| 0 <= t < backtrace@.len() implies #[trigger] backtrace@[t].1 < frame_count
                        && frame_key(backtrace@[t].1) == backtrace@[t].0 by {
                        assert(path[t] == ids@[n - 1 - t]);
                    }
                    assert(node_counted(c, before, 0, k as int));
                    assert(label(before, 0) == Seq::<SourceKey>::empty());
                    lemma_size_grows(c, Seq::empty(), k as int + 1, self.allocations@.len() as int);
                    lemma_size_grows(c, Seq::empty(), k as int + 1, k as int + 1);
                    assert(prefix_of(Seq::<SourceKey>::empty(), (c.path)(k as int))) by {
                        assert((c.path)(k as int).take(0) =~= Seq::<SourceKey>::empty());
                    }
                }
                tree.add_allocation(allocation, AllocationId::new(k as u64), &backtrace);
                proof {
                    lemma_step(c, frame_key, frame_count, before, tree.nodes@, backtrace@, k as int);
                }
            } else {
                proof {
                    lemma_skip(c, frame_key, frame_count, tree.nodes@, k as int);
                }
            }
            k = k + 1;
        }
        tree
    }

    /// The tree by source of the allocations that `filter` picks.
    pub fn tree_by_source<F: Fn(AllocationId, &Allocation) -> bool>(&self, filter: F) -> (tree: Tree<SourceKey, usize>)
        requires
            backtraces_stored(self),
            forall|i: int| 0 <= i < self.allocations@.len()
                ==> filter.requires((AllocationId(i as u64), #[trigger] &self.allocations@[i])),
            forall|selected: Seq<bool>| selected.len() == self.allocations@.len() ==> {
                &&& size_under(#[trigger] source_census(self, selected), Seq::empty(), self.allocations@.len() as int) <= u64::MAX
                &&& depth(source_census(self, selected), self.allocations@.len() as int) + 1 < usize::MAX
            },
        ensures
            tree.wf(),
            exists|selected: Seq<bool>| {
                &&& selected.len() == self.allocations@.len()
                &&& forall|i: int| 0 <= i < self.allocations@.len()
                    ==> filter.ensures((AllocationId(i as u64), #[trigger] &self.allocations@[i]), selected[i])
                &&& source_tree_of(self, selected, tree.nodes@)
            },
    {
        let mut selected: Vec<bool> = Vec::new();
        let mut k: usize = 0;
        while k < self.allocations.len()
            invariant
                0 <= k <= self.allocations@.len(),
                selected@.len() == k,
                forall|i: int| 0 <= i < self.allocations@.len()
                    ==> filter.requires((AllocationId(i as u64), #[trigger] &self.allocations@[i])),
                forall|i: int| 0 <= i < k
                    ==> filter.ensures((AllocationId(i as u64), #[trigger] &self.allocations@[i]), selected@[i]),
            decreases self.allocations@.len() - k,
        {
            let id = AllocationId::new(k as u64);
            let picked = filter(id, &self.allocations[k]);
            selected.push(picked);
            k = k + 1;
        }
        proof {
            assert(source_census(self, selected@) == source_census(self, selected@));
        }
        self.source_tree(&selected)
    }
}

impl Data {
    /// The tree of the frames of the backtraces of the allocations that
    /// `selected` marks, keyed by the frames themselves; each node holds the
    /// totals of the allocations under it.
    pub fn frame_tree(&self, selected: &Vec<bool>) -> (tree: Tree<usize, usize>)
        requires
            backtraces_stored(self),
            selected@.len() == self.allocations@.len(),
            size_under(frame_census(self, selected@), Seq::empty(), self.allocations@.len() as int) <= u64::MAX,
            depth(frame_census(self, selected@), self.allocations@.len() as int) + 1 < usize::MAX,
        ensures
            tree.wf(),
            frame_tree_of(self, selected@, tree.nodes@),
    {
        let ghost c = frame_census(self, selected@);
        let ghost frame_key = |f: usize| f;
        let ghost frame_count = self.frames@.len();
        let mut tree = Tree::new();
        proof {
            assert forall|n: int| 0 <= n < tree.nodes@.len() implies #[trigger] node_counted(c, tree.nodes@, n, 0) by {
                assert(tree.nodes@[0].self_allocations@ =~= Seq::<AllocationId>::empty());
            }
        }
        let mut k: usize = 0;
        while k < self.allocations.len()
            invariant
                c == frame_census(self, selected@),
                frame_key == (|f: usize| f),
                frame_count == self.frames@.len(),
                backtraces_stored(self),
                selected@.len() == self.allocations@.len(),
                size_under(c, Seq::empty(), self.allocations@.len() as int) <= u64::MAX,
                depth(c, self.allocations@.len() as int) + 1 < usize::MAX,
                0 <= k <= self.allocations@.len(),
                tree_of(c, frame_key, frame_count, tree.nodes@, k as int),
                tree.nodes@.len() <= 1 + depth(c, k as int),
            decreases self.allocations@.len() - k,
        {
            let allocation = &self.allocations[k];
            if selected[k] {
                proof {
                    assert(backtrace_stored(self, self.allocations@[k as int].backtrace.0 as int));
                }
                let ids = self.get_frame_ids(allocation.backtrace);
                let ghost path = ids@.reverse();
                let n = ids.len();
                let mut backtrace: Vec<(usize, usize)> = Vec::new();
                let mut j: usize = 0;
                while j < n
                    invariant
                        n == ids@.len(),
                        path == ids@.reverse(),
                        0 <= j <= n,
                        forall|t: int| 0 <= t < n ==> #[trigger] ids@[t] < self.frames@.len(),
                        backtrace@.len() == j,
                        forall|t: int| 0 <= t < j ==> #[trigger] backtrace@[t] == (path[t], path[t]),
                    decreases n - j,
                {
                    let id = ids[n - 1 - j];
                    backtrace.push((id, id));
                    j = j + 1;
                }
                let ghost before = tree.nodes@;
                proof {
                    assert(keys_of(backtrace@) =~= (c.path)(k as int));
                    assert forall|t: int| 0 <= t < backtrace@.len() implies #[trigger] backtrace@[t].1 < frame_count
                        && frame_key(backtrace@[t].1) == backtrace@[t].0 by {
                        assert(path[t] == ids@[n - 1 - t]);
                    }
                    assert(node_counted(c, before, 0, k as int));
                    assert(label(before, 0) == Seq::<usize>::empty());
                    lemma_size_grows(c, Seq::empty(), k as int + 1, self.allocations@.len() as int);
                    lemma_size_grows(c, Seq::empty(), k as int + 1, k as int + 1);
                    assert(prefix_of(Seq::<usize>::empty(), (c.path)(k as int))) by {
                        assert((c.path)(k as int).take(0) =~= Seq::<usize>::empty());
                    }
                }
                tree.add_allocation(allocation, AllocationId::new(k as u64), &backtrace);
                proof {
                    lemma_step(c, frame_key, frame_count, before, tree.nodes@, backtrace@, k as int);
                }
            } else {
                proof {
                    lemma_skip(c, frame_key, frame_count, tree.nodes@, k as int);
                }
            }
            k = k + 1;
        }
        tree
    }
}

} // verus!
