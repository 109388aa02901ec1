//! When each backtrace's allocations first held the most bytes at once:
//! the operations are walked in time order, and each backtrace's bytes in
//! use go up with its allocations and down with its deallocations.

use vstd::prelude::*;
use crate::timestamp::Timestamp;
use crate::data::Allocation;
use crate::ids::{operation_kind_of, operation_target_of};
use crate::loaded::Data;

verus! {

/// An allocation's size with the space it can use beyond it.
pub open spec fn usable_bytes(a: Allocation) -> int {
    a.size + a.extra_usable_space
}

/// How operation `k` changes the bytes in use of its allocation's
/// backtrace: an allocation adds its bytes, a deallocation takes them
/// away, a reallocation adds the new bytes and takes the old ones away;
/// `None` where an allocation it names is not there, or its bytes do not
/// fit a signed 64-bit number.
pub open spec fn usage_change(data: &Data, k: int) -> Option<int> {
    let op = data.operations@[k].0;
    let i = operation_target_of(op) as int;
    let kind = operation_kind_of(op);
    if i >= data.allocations@.len() {
        None
    } else {
        let a = data.allocations@[i];
        if usable_bytes(a) > i64::MAX {
            None
        } else if kind == 0 {
            Some(usable_bytes(a))
        } else if kind == 1 {
            Some(-usable_bytes(a))
        } else if kind == 2 {
            match a.reallocated_from {
                Some(p) => if p.0 < data.allocations@.len() && usable_bytes(data.allocations@[p.0 as int]) <= i64::MAX {
                    Some(usable_bytes(a) - usable_bytes(data.allocations@[p.0 as int]))
                } else {
                    None
                },
                None => None,
            }
        } else {
            Some(0)
        }
    }
}

/// Each backtrace's bytes in use, the most of them, and when that most was
/// first reached, after the first `k` operations; `None` where an
/// operation cannot be read, or the bytes in use leave the range of a
/// signed 64-bit number.
pub open spec fn usage_scan(data: &Data, k: nat) -> Option<Seq<(int, int, Timestamp)>>
    decreases k,
{
    if k == 0 {
        Some(Seq::new(data.group_stats@.len(), |b: int| (0int, 0int, data.initial_timestamp)))
    } else {
        match usage_scan(data, (k - 1) as nat) {
            Some(s) => {
                let a = data.allocations@[operation_target_of(data.operations@[k - 1].0) as int];
                let b = a.backtrace.0 as int;
                match usage_change(data, k - 1) {
                    Some(change) => if b >= s.len() || s[b].0 + change < i64::MIN || s[b].0 + change > i64::MAX {
                        None
                    } else {
                        let now = s[b].0 + change;
                        Some(s.update(b, if now > s[b].1 { (now, now, a.timestamp) } else { (now, s[b].1, s[b].2) }))
                    },
                    None => None,
                }
            },
            None => None,
        }
    }
}

/// When each backtrace's bytes in use first reached their most, by
/// backtrace: the start where they never rose above nothing.
pub open spec fn peak_times(data: &Data) -> Option<Seq<Timestamp>> {
    match usage_scan(data, data.operations@.len()) {
        Some(s) => Some(s.map_values(|e: (int, int, Timestamp)| e.2)),
        None => None,
    }
}

/// The scan holds one entry for each backtrace's statistics.
proof fn lemma_scan_len(data: &Data, k: nat)
    ensures
        usage_scan(data, k) matches Some(s) ==> s.len() == data.group_stats@.len(),
    decreases k,
{
    if k > 0 {
        lemma_scan_len(data, (k - 1) as nat);
    }
}

/// There is a time for each backtrace's statistics.
pub proof fn lemma_peak_times_len(data: &Data)
    ensures
        peak_times(data) matches Some(p) ==> p.len() == data.group_stats@.len(),
{
    lemma_scan_len(data, data.operations@.len());
}

/// Once the scan fails, it fails to the end.
proof fn lemma_scan_fails_on(data: &Data, k: nat)
    requires
        k <= data.operations@.len(),
        usage_scan(data, k) is None,
    ensures
        peak_times(data) is None,
    decreases data.operations@.len() - k,
{
    if k < data.operations@.len() {
        lemma_scan_fails_on(data, k + 1);
    }
}

fn usable_now(a: &Allocation) -> (r: Option<i64>)
    ensures
        match r {
            Some(v) => v == usable_bytes(*a),
            None => usable_bytes(*a) > i64::MAX,
        },
{
    if a.size > i64::MAX as u64 || a.extra_usable_space as u64 > i64::MAX as u64 - a.size {
        None
    } else {
        Some((a.size + a.extra_usable_space as u64) as i64)
    }
}

/// When each backtrace's bytes in use first reached their most.
pub fn usage_peaks(data: &Data) -> (peaks: Option<Vec<Timestamp>>)
    ensures
        match peaks {
            Some(p) => peak_times(data) == Some(p@),
            None => peak_times(data) is None,
        },
{
    let n = data.group_stats.len();
    let mut state: Vec<(i64, i64, Timestamp)> = Vec::new();
    let mut b: usize = 0;
    while b < n
        invariant
            n == data.group_stats@.len(),
            0 <= b <= n,
            state@.len() == b,
            forall|j: int| 0 <= j < b ==> #[trigger] state@[j] == (0i64, 0i64, data.initial_timestamp),
        decreases n - b,
    {
        state.push((0, 0, data.initial_timestamp));
        b = b + 1;
    }
    proof {
        assert(state@.map_values(|e: (i64, i64, Timestamp)| (e.0 as int, e.1 as int, e.2)) =~= usage_scan(data, 0).unwrap());
    }
    let count = data.allocations.len();
    let mut k: usize = 0;
    while k < data.operations.len()
        invariant
            0 <= k <= data.operations@.len(),
            count == data.allocations@.len(),
            usage_scan(data, k as nat) == Some(state@.map_values(|e: (i64, i64, Timestamp)| (e.0 as int, e.1 as int, e.2))),
        decreases data.operations@.len() - k,
    {
        let ghost before = state@.map_values(|e: (i64, i64, Timestamp)| (e.0 as int, e.1 as int, e.2));
        let op = data.operations[k];
        let id = op.id();
        if id.0 >= count as u64 {
            proof {
                assert(usage_change(data, k as int) is None);
            }
            {
                proof {
                    lemma_scan_fails_on(data, (k + 1) as nat);
                }
                return None;
            }
        }
        let a = &data.allocations[id.0 as usize];
        let usable = match usable_now(a) {
            Some(v) => v,
            None => {
                proof {
                    lemma_scan_fails_on(data, (k + 1) as nat);
                }
                return None;
            },
        };
        let change: i64 = if op.is_allocation() {
            usable
        } else if op.is_deallocation() {
            -usable
        } else if op.is_reallocation() {
            match a.reallocated_from {
                Some(p) => {
                    if p.0 >= count as u64 {
                        {
                proof {
                    lemma_scan_fails_on(data, (k + 1) as nat);
                }
                return None;
            }
                    }
                    match usable_now(&data.allocations[p.0 as usize]) {
                        Some(previous) => usable - previous,
                        None => {
                proof {
                    lemma_scan_fails_on(data, (k + 1) as nat);
                }
                return None;
            },
                    }
                },
                None => {
                proof {
                    lemma_scan_fails_on(data, (k + 1) as nat);
                }
                return None;
            },
            }
        } else {
            0
        };
        proof {
            assert(usage_change(data, k as int) == Some(change as int));
        }
        let index = a.backtrace.0 as usize;
        if index >= state.len() {
            {
                proof {
                    lemma_scan_fails_on(data, (k + 1) as nat);
                }
                return None;
            }
        }
        let entry = state[index];
        let now = match entry.0.checked_add(change) {
            Some(v) => v,
            None => {
                proof {
                    lemma_scan_fails_on(data, (k + 1) as nat);
                }
                return None;
            },
        };
        if now > entry.1 {
            state.set(index, (now, now, a.timestamp));
        } else {
            state.set(index, (now, entry.1, entry.2));
        }
        k = k + 1;
        proof {
            assert(state@.map_values(|e: (i64, i64, Timestamp)| (e.0 as int, e.1 as int, e.2)) =~= usage_scan(
                data,
                k as nat,
            ).unwrap());
        }
    }
    let mut peaks: Vec<Timestamp> = Vec::new();
    let mut j: usize = 0;
    while j < state.len()
        invariant
            0 <= j <= state@.len(),
            peaks@ == state@.take(j as int).map_values(|e: (i64, i64, Timestamp)| e.2),
        decreases state@.len() - j,
    {
        peaks.push(state[j].2);
        j = j + 1;
        proof {
            assert(peaks@ =~= state@.take(j as int).map_values(|e: (i64, i64, Timestamp)| e.2));
        }
    }
    proof {
        assert(state@.take(state@.len() as int) =~= state@);
        assert(peaks@ =~= usage_scan(data, data.operations@.len()).unwrap().map_values(|e: (int, int, Timestamp)| e.2));
    }
    Some(peaks)
}

} // verus!
