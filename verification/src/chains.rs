//! Chains of reallocations: an allocation, what it was reallocated into,
//! what that was reallocated into, and so on.

use vstd::prelude::*;
use ahash::AHashMap;
use crate::ids::AllocationId;
use crate::data::{Allocation, AllocationChain};
use crate::index_maps::{chains_by_first, chains_by_first_new, chains_by_first_insert};

verus! {

/// The position of the allocation that `a` was reallocated from, or -1.
pub open spec fn previous(a: Allocation) -> int {
    match a.reallocated_from {
        Some(p) => p.0 as int,
        None => -1,
    }
}

/// Each reallocation comes after the allocation that it was made from, and
/// that allocation points forward at it.
pub open spec fn links_valid(allocs: Seq<Allocation>) -> bool {
    forall|i: int|
        #![trigger allocs[i]]
        0 <= i < allocs.len() ==> (allocs[i].reallocated_from matches Some(p) ==> {
            &&& p.0 < i
            &&& allocs[p.0 as int].reallocation == Some(AllocationId(i as u64))
        })
}

/// Whether `i` was reallocated from an allocation before it.
pub open spec fn has_previous(allocs: Seq<Allocation>, i: int) -> bool {
    0 <= i < allocs.len() && 0 <= previous(allocs[i]) < i
}

/// The allocation that the chain through `i` starts with.
pub open spec fn chain_root(allocs: Seq<Allocation>, i: int) -> int
    decreases i,
{
    if has_previous(allocs, i) {
        chain_root(allocs, previous(allocs[i]))
    } else {
        i
    }
}

/// How many reallocations lead from the start of the chain to `i`.
pub open spec fn chain_depth(allocs: Seq<Allocation>, i: int) -> nat
    decreases i,
{
    if has_previous(allocs, i) {
        chain_depth(allocs, previous(allocs[i])) + 1
    } else {
        0
    }
}

/// Whether `k` is `i` or one of the allocations that `i` was made from,
/// directly or through others.
pub open spec fn on_chain(allocs: Seq<Allocation>, k: int, i: int) -> bool
    decreases i,
{
    if k == i {
        true
    } else if has_previous(allocs, i) {
        on_chain(allocs, k, previous(allocs[i]))
    } else {
        false
    }
}

/// Whether `i` ends a chain: it was reallocated from something, and
/// nothing was reallocated from it.
pub open spec fn chain_end(allocs: Seq<Allocation>, i: int) -> bool {
    allocs[i].reallocation is None && allocs[i].reallocated_from is Some
}

/// Whether `k` lies on a chain that ends, among the first `limit`
/// allocations.
pub open spec fn ends_before(allocs: Seq<Allocation>, k: int, limit: int) -> bool {
    exists|i: int| 0 <= i < limit && #[trigger] chain_end(allocs, i) && on_chain(allocs, k, i)
}

/// Whether `k` lies on a chain that ends.
pub open spec fn in_finished_chain(allocs: Seq<Allocation>, k: int) -> bool {
    ends_before(allocs, k, allocs.len() as int)
}

/// `allocs[k]`, told where its chain starts and where in it it stands.
pub open spec fn placed(allocs: Seq<Allocation>, k: int) -> Allocation {
    Allocation {
        first_allocation_in_chain: Some(AllocationId(chain_root(allocs, k) as u64)),
        position_in_chain: chain_depth(allocs, k) as u32,
        ..allocs[k]
    }
}

/// The allocations, each one that lies on a chain that ends told where its
/// chain starts and where in it it stands.
pub open spec fn linked(allocs: Seq<Allocation>) -> Seq<Allocation> {
    Seq::new(
        allocs.len(),
        |k: int|
            if in_finished_chain(allocs, k) {
                placed(allocs, k)
            } else {
                allocs[k]
            },
    )
}

/// The chain that ends with `i`.
pub open spec fn chain_of(allocs: Seq<Allocation>, i: int) -> AllocationChain {
    AllocationChain {
        first: AllocationId(chain_root(allocs, i) as u64),
        last: AllocationId(i as u64),
        length: (chain_depth(allocs, i) + 1) as u32,
    }
}

/// Whether `chains` holds, by its first allocation, each chain that ends
/// among the first `limit` allocations, and nothing else.
pub open spec fn chains_up_to(chains: Map<u64, AllocationChain>, allocs: Seq<Allocation>, limit: int) -> bool {
    &&& forall|i: int|
        #![trigger chain_end(allocs, i)]
        0 <= i < limit && chain_end(allocs, i) ==> {
            &&& chains.contains_key(chain_root(allocs, i) as u64)
            &&& chains[chain_root(allocs, i) as u64] == chain_of(allocs, i)
        }
    &&& forall|f: u64|
        #![trigger chains.dom().contains(f)]
        chains.contains_key(f) ==> exists|i: int|
            0 <= i < limit && #[trigger] chain_end(allocs, i) && chain_root(allocs, i) == f
}

/// Whether every chain is short enough for its length to fit 32 bits.
pub open spec fn chains_fit(allocs: Seq<Allocation>) -> bool {
    forall|i: int| #![trigger allocs[i]] 0 <= i < allocs.len() ==> chain_depth(allocs, i) < u32::MAX
}

/// Only the chain bookkeeping of the allocations differs.
pub open spec fn same_links(a: Seq<Allocation>, b: Seq<Allocation>) -> bool {
    &&& a.len() == b.len()
    &&& forall|k: int|
        #![trigger a[k]]
        #![trigger b[k]]
        0 <= k < a.len() ==> a[k].reallocated_from == b[k].reallocated_from && a[k].reallocation
            == b[k].reallocation
}

proof fn lemma_on_chain_le(allocs: Seq<Allocation>, k: int, i: int)
    requires
        on_chain(allocs, k, i),
    ensures
        k <= i,
    decreases i,
{
    if k != i {
        lemma_on_chain_le(allocs, k, previous(allocs[i]));
    }
}

proof fn lemma_root_on_chain(allocs: Seq<Allocation>, i: int)
    ensures
        on_chain(allocs, chain_root(allocs, i), i),
        !has_previous(allocs, chain_root(allocs, i)),
    decreases i,
{
    if has_previous(allocs, i) {
        lemma_root_on_chain(allocs, previous(allocs[i]));
    }
}

proof fn lemma_root_nonnegative(allocs: Seq<Allocation>, i: int)
    requires
        0 <= i,
    ensures
        0 <= chain_root(allocs, i) <= i,
    decreases i,
{
    if has_previous(allocs, i) {
        lemma_root_nonnegative(allocs, previous(allocs[i]));
    }
}

/// The allocation that comes after `k` on the chain to `x`.
proof fn lemma_successor(allocs: Seq<Allocation>, k: int, x: int) -> (m: int)
    requires
        on_chain(allocs, k, x),
        k != x,
    ensures
        on_chain(allocs, m, x),
        has_previous(allocs, m),
        previous(allocs[m]) == k,
    decreases x,
{
    let p = previous(allocs[x]);
    if p == k {
        x
    } else {
        let m = lemma_successor(allocs, k, p);
        m
    }
}

proof fn lemma_on_chain_extend(allocs: Seq<Allocation>, k: int, x: int, y: int)
    requires
        on_chain(allocs, k, x),
        on_chain(allocs, x, y),
    ensures
        on_chain(allocs, k, y),
    decreases y,
{
    if x != y {
        lemma_on_chain_extend(allocs, k, x, previous(allocs[y]));
    }
}

/// Two allocations whose chains go through the same allocation lie on one
/// chain, one before the other.
proof fn lemma_comparable(allocs: Seq<Allocation>, r: int, x: int, y: int)
    requires
        links_valid(allocs),
        allocs.len() <= u64::MAX,
        0 <= r,
        on_chain(allocs, r, x),
        on_chain(allocs, r, y),
    ensures
        on_chain(allocs, x, y) || on_chain(allocs, y, x),
    decreases x + y,
{
    lemma_on_chain_le(allocs, r, x);
    lemma_on_chain_le(allocs, r, y);
    if x == y {
    } else if x < y {
        lemma_on_chain_le(allocs, r, x);
        let py = previous(allocs[y]);
        assert(has_previous(allocs, y));
        assert(on_chain(allocs, r, py));
        lemma_comparable(allocs, r, x, py);
        if on_chain(allocs, x, py) {
            assert(on_chain(allocs, py, py));
            assert(on_chain(allocs, py, y));
            lemma_on_chain_extend(allocs, x, py, y);
        } else if py == x {
            assert(on_chain(allocs, x, y));
        } else {
            let m = lemma_successor(allocs, py, x);
            lemma_on_chain_le(allocs, m, x);
            assert(allocs[y].reallocated_from matches Some(p) && p.0 == py);
            assert(allocs[py].reallocation == Some(AllocationId(y as u64)));
            assert(allocs[m].reallocated_from matches Some(p) && p.0 == py);
            assert(allocs[py].reallocation == Some(AllocationId(m as u64)));
            assert(false);
        }
    } else {
        lemma_on_chain_le(allocs, r, y);
        let px = previous(allocs[x]);
        assert(has_previous(allocs, x));
        assert(on_chain(allocs, r, px));
        lemma_comparable(allocs, r, px, y);
        if on_chain(allocs, y, px) {
            assert(on_chain(allocs, px, px));
            assert(on_chain(allocs, px, x));
            lemma_on_chain_extend(allocs, y, px, x);
        } else if px == y {
            assert(on_chain(allocs, y, x));
        } else {
            let m = lemma_successor(allocs, px, y);
            lemma_on_chain_le(allocs, m, y);
            assert(allocs[x].reallocated_from matches Some(p) && p.0 == px);
            assert(allocs[px].reallocation == Some(AllocationId(x as u64)));
            assert(allocs[m].reallocated_from matches Some(p) && p.0 == px);
            assert(allocs[px].reallocation == Some(AllocationId(m as u64)));
            assert(false);
        }
    }
}

/// No two chains that end start with the same allocation.
proof fn lemma_one_end_per_root(allocs: Seq<Allocation>, i: int, j: int)
    requires
        links_valid(allocs),
        allocs.len() <= u64::MAX,
        0 <= i < allocs.len(),
        0 <= j < allocs.len(),
        chain_end(allocs, i),
        chain_end(allocs, j),
        chain_root(allocs, i) == chain_root(allocs, j),
    ensures
        i == j,
{
    let r = chain_root(allocs, i);
    lemma_root_nonnegative(allocs, i);
    lemma_root_on_chain(allocs, i);
    lemma_root_on_chain(allocs, j);
    lemma_comparable(allocs, r, i, j);
    if i != j {
        if on_chain(allocs, i, j) {
            let m = lemma_successor(allocs, i, j);
            assert(allocs[m].reallocated_from matches Some(p) && p.0 == i);
            assert(allocs[i].reallocation == Some(AllocationId(m as u64)));
        } else {
            let m = lemma_successor(allocs, j, i);
            assert(allocs[m].reallocated_from matches Some(p) && p.0 == j);
            assert(allocs[j].reallocation == Some(AllocationId(m as u64)));
        }
    }
}

proof fn lemma_same_links_chain(a: Seq<Allocation>, b: Seq<Allocation>, k: int, i: int)
    requires
        same_links(a, b),
    ensures
        has_previous(a, i) == has_previous(b, i),
        chain_root(a, i) == chain_root(b, i),
        chain_depth(a, i) == chain_depth(b, i),
        on_chain(a, k, i) == on_chain(b, k, i),
    decreases i,
{
    if 0 <= i < a.len() {
        assert(a[i].reallocated_from == b[i].reallocated_from);
        if has_previous(a, i) {
            lemma_same_links_chain(a, b, k, previous(a[i]));
        }
    }
}

/// The positions from `last` back to the start of its chain, `last` first.
fn chain_path(allocations: &Vec<Allocation>, Ghost(orig): Ghost<Seq<Allocation>>, last: usize) -> (path: Vec<usize>)
    requires
        same_links(allocations@, orig),
        links_valid(orig),
        orig.len() <= u64::MAX,
        last < allocations@.len(),
    ensures
        path@.len() == chain_depth(orig, last as int) + 1,
        forall|j: int|
            #![trigger path@[j]]
            0 <= j < path@.len() ==> {
                &&& path@[j] < orig.len()
                &&& on_chain(orig, path@[j] as int, last as int)
                &&& chain_depth(orig, path@[j] as int) + j == chain_depth(orig, last as int)
                &&& chain_root(orig, path@[j] as int) == chain_root(orig, last as int)
            },
        forall|k: int| on_chain(orig, k, last as int) ==> exists|j: int| 0 <= j < path@.len() && #[trigger] path@[j] == k,
{
    let mut path: Vec<usize> = Vec::new();
    path.push(last);
    let mut current = last;
    proof {
        assert(path@[0] == last);
    }
    while allocations[current].reallocated_from.is_some()
        invariant
            same_links(allocations@, orig),
            links_valid(orig),
            orig.len() <= u64::MAX,
            current < allocations@.len(),
            last < allocations@.len(),
            path@.len() >= 1,
            path@[path@.len() - 1] == current,
            on_chain(orig, current as int, last as int),
            chain_depth(orig, current as int) + path@.len() - 1 == chain_depth(orig, last as int),
            chain_root(orig, current as int) == chain_root(orig, last as int),
            forall|j: int|
                #![trigger path@[j]]
                0 <= j < path@.len() ==> {
                    &&& path@[j] < orig.len()
                    &&& on_chain(orig, path@[j] as int, last as int)
                    &&& chain_depth(orig, path@[j] as int) + j == chain_depth(orig, last as int)
                    &&& chain_root(orig, path@[j] as int) == chain_root(orig, last as int)
                },
            forall|k: int|
                on_chain(orig, k, last as int) ==> (exists|j: int| 0 <= j < path@.len() && #[trigger] path@[j] == k)
                    || on_chain(orig, k, current as int),
        decreases current,
    {
        let ghost c = current as int;
        proof {
            assert(allocations@[c].reallocated_from == orig[c].reallocated_from);
            assert(has_previous(orig, c));
        }
        let previous_id = allocations[current].reallocated_from.unwrap();
        let ghost old_path = path@;
        current = previous_id.0 as usize;
        path.push(current);
        proof {
            let p = current as int;
            assert(p == previous(orig[c]));
            assert(on_chain(orig, p, p));
            assert(on_chain(orig, p, c));
            lemma_on_chain_extend(orig, p, c, last as int);
            assert(path@[path@.len() - 1] == current);
            assert forall|k: int|
                on_chain(orig, k, last as int) implies (exists|j: int| 0 <= j < path@.len() && #[trigger] path@[j] == k)
                    || on_chain(orig, k, p) by {
                if exists|j: int| 0 <= j < old_path.len() && #[trigger] old_path[j] == k {
                    let j = choose|j: int| 0 <= j < old_path.len() && #[trigger] old_path[j] == k;
                    assert(path@[j] == k);
                } else {
                    assert(on_chain(orig, k, c));
                    if k == c {
                        assert(path@[path@.len() - 2] == k);
                    } else {
                        assert(on_chain(orig, k, p));
                    }
                }
            }
        }
    }
    proof {
        let c = current as int;
        assert(allocations@[c].reallocated_from == orig[c].reallocated_from);
        assert(!has_previous(orig, c));
        assert forall|k: int| on_chain(orig, k, last as int) implies exists|j: int| 0 <= j < path@.len() && #[trigger] path@[j] == k by {
            if on_chain(orig, k, c) {
                assert(k == c);
                assert(path@[path@.len() - 1] == k);
            }
        }
    }
    path
}

/// Whether `path` holds the allocations of the chain that ends with
/// `last`, from `last` back to its start.
pub open spec fn is_chain_path(orig: Seq<Allocation>, path: Seq<usize>, last: int) -> bool {
    &&& path.len() == chain_depth(orig, last) + 1
    &&& forall|t: int|
        #![trigger path[t]]
        0 <= t < path.len() ==> {
            &&& path[t] < orig.len()
            &&& on_chain(orig, path[t] as int, last)
            &&& chain_depth(orig, path[t] as int) + t == chain_depth(orig, last)
            &&& chain_root(orig, path[t] as int) == chain_root(orig, last)
        }
    &&& forall|k: int| on_chain(orig, k, last) ==> exists|t: int| 0 <= t < path.len() && #[trigger] path[t] == k
}

/// Whether each allocation that lies on a chain that ends before `index`,
/// or on `path` before `j`, is placed, and the others are as they were.
pub open spec fn placed_so_far(
    current: Seq<Allocation>,
    orig: Seq<Allocation>,
    index: int,
    path: Seq<usize>,
    j: int,
) -> bool {
    forall|k: int|
        #![trigger current[k]]
        0 <= k < orig.len() ==> current[k] == (if ends_before(orig, k, index) || (exists|t: int|
            0 <= t < j && #[trigger] path[t] == k) {
            placed(orig, k)
        } else {
            orig[k]
        })
}

/// Places every allocation on `path`, the chain that ends with `index`.
fn place_path(
    allocations: &mut Vec<Allocation>,
    Ghost(orig): Ghost<Seq<Allocation>>,
    index: usize,
    path: &Vec<usize>,
)
    requires
        old(allocations)@.len() == orig.len(),
        index < orig.len(),
        links_valid(orig),
        chains_fit(orig),
        orig.len() <= u64::MAX,
        chain_end(orig, index as int),
        is_chain_path(orig, path@, index as int),
        same_links(old(allocations)@, orig),
        placed_so_far(old(allocations)@, orig, index as int, path@, 0),
    ensures
        final(allocations)@.len() == orig.len(),
        same_links(final(allocations)@, orig),
        placed_so_far(final(allocations)@, orig, index as int, path@, path@.len() as int),
{
    let length = path.len();
    let first = path[length - 1];
    proof {
        assert(chain_depth(orig, path@[length - 1] as int) + (length - 1) == chain_depth(orig, index as int));
        lemma_root_on_chain(orig, first as int);
        assert(chain_root(orig, first as int) == first);
        assert(chain_depth(orig, index as int) < u32::MAX) by {
            assert(orig[index as int] == orig[index as int]);
        }
    }
    let n = allocations.len();
    let mut j: usize = 0;
    while j < length
        invariant
            n == orig.len(),
            allocations@.len() == n,
            index < n,
            0 <= j <= length,
            length == path@.len(),
            first == path@[length - 1],
            links_valid(orig),
            chains_fit(orig),
            n <= u64::MAX,
            chain_root(orig, index as int) == first,
            length == chain_depth(orig, index as int) + 1,
            chain_depth(orig, index as int) < u32::MAX,
            is_chain_path(orig, path@, index as int),
            same_links(allocations@, orig),
            placed_so_far(allocations@, orig, index as int, path@, j as int),
        decreases length - j,
    {
        let k = path[j];
        let mut a = allocations[k];
        a.first_allocation_in_chain = Some(AllocationId::new(first as u64));
        a.position_in_chain = (length - 1 - j) as u32;
        proof {
            assert(path@[j as int] == k);
            assert(chain_depth(orig, k as int) + j == chain_depth(orig, index as int));
            assert(chain_root(orig, k as int) == first);
            assert(allocations@[k as int] == (if ends_before(orig, k as int, index as int) || (exists|t: int|
                0 <= t < j && #[trigger] path@[t] == k as int) {
                placed(orig, k as int)
            } else {
                orig[k as int]
            }));
            assert(a == placed(orig, k as int));
        }
        let ghost prior = allocations@;
        allocations.set(k, a);
        j = j + 1;
        proof {
            assert forall|q: int|
                #![trigger allocations@[q]]
                0 <= q < n implies allocations@[q] == (if ends_before(orig, q, index as int) || (exists|t: int|
                    0 <= t < j && #[trigger] path@[t] == q) {
                    placed(orig, q)
                } else {
                    orig[q]
                }) by {
                if q == k as int {
                    assert(path@[j - 1] == q);
                } else {
                    assert(allocations@[q] == prior[q]);
                    if exists|t: int| 0 <= t < j && #[trigger] path@[t] == q {
                        let t = choose|t: int| 0 <= t < j && #[trigger] path@[t] == q;
                        assert(t != j - 1);
                        assert(0 <= t < j - 1 && path@[t] == q);
                    }
                }
            }
            assert forall|q: int|
                #![trigger allocations@[q]]
                0 <= q < n implies allocations@[q].reallocated_from == orig[q].reallocated_from
                    && allocations@[q].reallocation == orig[q].reallocation by {
                if q != k as int {
                    assert(allocations@[q] == prior[q]);
                }
            }
        }
    }
}

/// Once the chain that ends with `index` is placed, what is placed is what
/// lies on a chain that ends before `index + 1`.
proof fn lemma_placed_next(
    current: Seq<Allocation>,
    orig: Seq<Allocation>,
    index: int,
    path: Seq<usize>,
)
    requires
        0 <= index < orig.len(),
        placed_so_far(current, orig, index, path, path.len() as int),
        chain_end(orig, index) ==> is_chain_path(orig, path, index),
        !chain_end(orig, index) ==> path.len() == 0,
    ensures
        placed_so_far(current, orig, index + 1, path, 0),
{
    assert forall|k: int|
        #![trigger current[k]]
        0 <= k < orig.len() implies current[k] == (if ends_before(orig, k, index + 1) || (exists|t: int|
            0 <= t < 0 && #[trigger] path[t] == k) {
            placed(orig, k)
        } else {
            orig[k]
        }) by {
        let on_path = exists|t: int| 0 <= t < path.len() && #[trigger] path[t] == k;
        assert(current[k] == (if ends_before(orig, k, index) || on_path {
            placed(orig, k)
        } else {
            orig[k]
        }));
        if on_path {
            let t = choose|t: int| 0 <= t < path.len() && #[trigger] path[t] == k;
            assert(on_chain(orig, k, index));
            assert(ends_before(orig, k, index + 1));
        } else if ends_before(orig, k, index) {
            let i = choose|i: int| 0 <= i < index && #[trigger] chain_end(orig, i) && on_chain(orig, k, i);
            assert(ends_before(orig, k, index + 1));
        } else if ends_before(orig, k, index + 1) {
            let i = choose|i: int| 0 <= i < index + 1 && #[trigger] chain_end(orig, i) && on_chain(orig, k, i);
            assert(i == index);
            assert(on_chain(orig, k, index));
            assert(false);
        }
    }
}

/// Once the chain that ends with `index` is recorded under its first
/// allocation, the chains recorded are those that end before `index + 1`.
proof fn lemma_chains_next(
    before: Map<u64, AllocationChain>,
    after: Map<u64, AllocationChain>,
    orig: Seq<Allocation>,
    index: int,
)
    requires
        0 <= index < orig.len(),
        links_valid(orig),
        orig.len() <= u64::MAX,
        chains_up_to(before, orig, index),
        chain_end(orig, index) ==> after == before.insert(
            chain_root(orig, index) as u64,
            chain_of(orig, index),
        ),
        !chain_end(orig, index) ==> after == before,
    ensures
        chains_up_to(after, orig, index + 1),
{
    lemma_root_nonnegative(orig, index);
    assert forall|i: int|
        #![trigger chain_end(orig, i)]
        0 <= i < index + 1 && chain_end(orig, i) implies {
            &&& after.contains_key(chain_root(orig, i) as u64)
            &&& after[chain_root(orig, i) as u64] == chain_of(orig, i)
        } by {
        if i < index && chain_end(orig, index) {
            lemma_root_nonnegative(orig, i);
            if chain_root(orig, i) == chain_root(orig, index) {
                lemma_one_end_per_root(orig, i, index);
            }
        }
    }
    assert forall|f: u64|
        #![trigger after.dom().contains(f)]
        after.contains_key(f) implies exists|i: int|
            0 <= i < index + 1 && #[trigger] chain_end(orig, i) && chain_root(orig, i) == f by {
        if chain_end(orig, index) && f == chain_root(orig, index) as u64 {
            assert(chain_end(orig, index) && chain_root(orig, index) == f);
        } else {
            assert(before.contains_key(f) && before[f] == before[f]);
            assert(exists|i: int| 0 <= i < index && #[trigger] chain_end(orig, i) && chain_root(orig, i) == f);
            let i = choose|i: int| 0 <= i < index && #[trigger] chain_end(orig, i) && chain_root(orig, i) == f;
            assert(0 <= i < index);
            assert(chain_end(orig, i));
            assert(chain_root(orig, i) == f);
        }
    }
}

/// Tells every allocation on a chain that ends where its chain starts and
/// where in it it stands, and gives back the chains by their first
/// allocations.
pub fn link_chains(allocations: &mut Vec<Allocation>) -> (chains: AHashMap<u64, AllocationChain>)
    requires
        links_valid(old(allocations)@),
        chains_fit(old(allocations)@),
    ensures
        final(allocations)@ == linked(old(allocations)@),
        chains_up_to(chains_by_first(chains), old(allocations)@, old(allocations)@.len() as int),
{
    let ghost orig = allocations@;
    let mut chains = chains_by_first_new();
    let n = allocations.len();
    let mut index: usize = 0;
    proof {
        assert(same_links(allocations@, orig));
        assert(placed_so_far(allocations@, orig, 0, Seq::empty(), 0));
    }
    while index < n
        invariant
            n == orig.len(),
            allocations@.len() == n,
            index <= n,
            links_valid(orig),
            chains_fit(orig),
            n <= u64::MAX,
            same_links(allocations@, orig),
            placed_so_far(allocations@, orig, index as int, Seq::empty(), 0),
            chains_up_to(chains_by_first(chains), orig, index as int),
        decreases n - index,
    {
        let allocation = allocations[index];
        let ghost before_chains = chains_by_first(chains);
        proof {
            assert(allocation.reallocation == orig[index as int].reallocation);
            assert(allocation.reallocated_from == orig[index as int].reallocated_from);
        }
        if allocation.reallocation.is_none() && allocation.reallocated_from.is_some() {
            let path = chain_path(allocations, Ghost(orig), index);
            let length = path.len();
            let first = path[length - 1];
            proof {
                assert(chain_depth(orig, path@[length - 1] as int) + (length - 1) == chain_depth(orig, index as int));
                lemma_root_on_chain(orig, first as int);
                assert(chain_root(orig, first as int) == first);
                assert(chain_depth(orig, index as int) < u32::MAX) by {
                    assert(orig[index as int] == orig[index as int]);
                }
                assert(is_chain_path(orig, path@, index as int));
                assert(placed_so_far(allocations@, orig, index as int, path@, 0));
            }
            let chain = AllocationChain {
                first: AllocationId::new(first as u64),
                last: AllocationId::new(index as u64),
                length: length as u32,
            };
            chains_by_first_insert(&mut chains, first as u64, chain);
            place_path(allocations, Ghost(orig), index, &path);
            proof {
                lemma_placed_next(allocations@, orig, index as int, path@);
                lemma_chains_next(before_chains, chains_by_first(chains), orig, index as int);
            }
        } else {
            proof {
                assert(placed_so_far(allocations@, orig, index as int, Seq::empty(), 0));
                lemma_placed_next(allocations@, orig, index as int, Seq::empty());
                lemma_chains_next(before_chains, chains_by_first(chains), orig, index as int);
            }
        }
        index = index + 1;
    }
    proof {
        assert forall|k: int| 0 <= k < n implies #[trigger] allocations@[k] == linked(orig)[k] by {
            assert(allocations@[k] == (if ends_before(orig, k, n as int) || (exists|t: int|
                0 <= t < 0 && #[trigger] Seq::<usize>::empty()[t] == k) {
                placed(orig, k)
            } else {
                orig[k]
            }));
        }
        assert(allocations@ =~= linked(orig));
    }
    chains
}
/// Whether every chain is short enough for its length to fit 32 bits.
pub fn chains_fit_now(allocations: &Vec<Allocation>) -> (r: bool)
    requires
        links_valid(allocations@),
    ensures
        r == chains_fit(allocations@),
{
    let n = allocations.len();
    let mut depths: Vec<u64> = Vec::new();
    let mut i: usize = 0;
    while i < n
        invariant
            n == allocations@.len(),
            links_valid(allocations@),
            0 <= i <= n,
            depths@.len() == i,
            forall|k: int| #![trigger depths@[k]] 0 <= k < i ==> depths@[k] == chain_depth(allocations@, k) && depths@[k] <= k,
            forall|k: int| #![trigger allocations@[k]] 0 <= k < i ==> chain_depth(allocations@, k) < u32::MAX,
        decreases n - i,
    {
        let depth: u64 = match allocations[i].reallocated_from {
            Some(previous) => {
                proof {
                    assert(previous.0 < i);
                    assert(has_previous(allocations@, i as int));
                }
                depths[previous.0 as usize] + 1
            },
            None => 0,
        };
        if depth >= 0xFFFF_FFFF {
            proof {
                assert(allocations@[i as int] == allocations@[i as int]);
            }
            return false;
        }
        depths.push(depth);
        i = i + 1;
    }
    true
}

/// Along a chain that ends, an allocation stands one place after the one it
/// was reallocated from, and both know the same first allocation.
pub proof fn lemma_positions_follow_chain(allocs: Seq<Allocation>, k: int)
    requires
        links_valid(allocs),
        chains_fit(allocs),
        0 <= k < allocs.len(),
        in_finished_chain(allocs, k),
        allocs[k].reallocated_from is Some,
    ensures
        in_finished_chain(allocs, previous(allocs[k])),
        linked(allocs)[k].position_in_chain == linked(allocs)[previous(allocs[k])].position_in_chain + 1,
        linked(allocs)[k].first_allocation_in_chain == linked(allocs)[previous(allocs[k])].first_allocation_in_chain,
{
    let p = previous(allocs[k]);
    assert(allocs[k] == allocs[k]);
    assert(has_previous(allocs, k));
    let i = choose|i: int| 0 <= i < allocs.len() && #[trigger] chain_end(allocs, i) && on_chain(allocs, k, i);
    assert(on_chain(allocs, p, p));
    assert(on_chain(allocs, p, k));
    lemma_on_chain_extend(allocs, p, k, i);
    assert(chain_end(allocs, i) && on_chain(allocs, p, i));
    assert(in_finished_chain(allocs, p));
    assert(chain_depth(allocs, k) == chain_depth(allocs, p) + 1);
    assert(chain_depth(allocs, k) < u32::MAX) by {
        assert(allocs[k] == allocs[k]);
    }
}

} // verus!
