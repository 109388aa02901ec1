//! Export of the loaded data in the text format of the heaptrack profiler:
//! a header, then for each allocation and deallocation that is picked, the
//! lines that define the strings, instruction pointers, trace nodes and
//! allocation kinds it needs, each once, then a line that counts it. Numbers
//! are written in lower-case hexadecimal.

use vstd::prelude::*;
use std::collections::HashMap;
use crate::timestamp::Timestamp;
use crate::ids::{BacktraceId, StringId};
use crate::frame::Frame;
use crate::data::Allocation;
use crate::loaded::Data;
use crate::filter::string_text;
use crate::exporter_replay::{
    target, target_index, replaced, replaced_index, is_allocation, is_reallocation, frames_of, backtrace_usable, backtrace_usable_now,
};
use crate::exporter_flamegraph::texts_of;

verus! {

/// The lower-case hexadecimal digit of `d`.
pub open spec fn lower_hex_char(d: nat) -> char {
    if d < 10 {
        (('0' as nat) + d) as char
    } else {
        (('a' as nat) + d - 10) as char
    }
}

/// `n` in lower-case hexadecimal, without leading zeros.
pub open spec fn lower_hex(n: nat) -> Seq<char>
    decreases n,
{
    if n < 16 {
        seq![lower_hex_char(n)]
    } else {
        lower_hex(n / 16).push(lower_hex_char(n % 16))
    }
}

/// A line made of a tag and numbers, each after a space.
pub open spec fn numbered(tag: char, numbers: Seq<nat>) -> Seq<char>
    decreases numbers.len(),
{
    if numbers.len() == 0 {
        seq![tag]
    } else {
        numbered(tag, numbers.drop_last()) + seq![' '] + lower_hex(numbers.last())
    }
}

/// What the export has written and what it has defined so far.
pub struct Heaptrack {
    pub lines: Seq<Seq<char>>,
    /// Each allocation kind, a size and a trace node, at its index.
    pub infos: Seq<(u64, u64)>,
    /// The trace node of each backtrace that has one.
    pub traces: Map<u64, u64>,
    /// The index of each instruction pointer defined, from one.
    pub ips: Map<u64, u64>,
    pub ip_count: u64,
    /// The index of each string defined, from one.
    pub strings: Map<u64, u64>,
    pub string_count: u64,
    /// The children of each trace node: an instruction pointer and a node.
    pub tree: Seq<Seq<(u64, u64)>>,
    /// The time of the last line of time, in microseconds since the start.
    pub last_elapsed: u64,
    /// Whether a deallocation had no allocation kind, a size or a count
    /// outgrew 64 bits, or a time came before the start.
    pub failed: bool,
}

/// The header of the export.
pub open spec fn heaptrack_header(executable: Seq<char>) -> Seq<Seq<char>> {
    seq![seq!['v', ' ', '1', '0', '1', '0', '0', ' ', '2'], seq!['X', ' '] + executable]
}

/// The state before anything is exported.
pub open spec fn heaptrack_start() -> Heaptrack {
    Heaptrack {
        lines: Seq::empty(),
        infos: Seq::empty(),
        traces: Map::empty(),
        ips: Map::empty(),
        ip_count: 0,
        strings: Map::empty(),
        string_count: 0,
        tree: seq![Seq::empty()],
        last_elapsed: 0,
        failed: false,
    }
}

/// The state failed.
pub open spec fn failing(s: Heaptrack) -> Heaptrack {
    Heaptrack { failed: true, ..s }
}

/// The index of string `id`, defining it where it is new.
pub open spec fn with_string(data: &Data, s: Heaptrack, id: StringId) -> (Heaptrack, u64) {
    if s.failed {
        (s, 0)
    } else if s.strings.contains_key(id.0 as u64) {
        (s, s.strings[id.0 as u64])
    } else if s.string_count == u64::MAX {
        (failing(s), 0)
    } else {
        let index = (s.string_count + 1) as u64;
        let text = match string_text(data, Some(id)) {
            Some(t) => t,
            None => Seq::empty(),
        };
        (
            Heaptrack {
                lines: s.lines.push(seq!['s', ' '] + text),
                strings: s.strings.insert(id.0 as u64, index),
                string_count: index,
                ..s
            },
            index,
        )
    }
}

/// The line that defines an instruction pointer: its address, its module,
/// and, where the function is known, the function, and where the source
/// file and line are known too, those.
pub open spec fn ip_line(address: u64, module: u64, function: Option<u64>, source: Option<(u64, u32)>) -> Seq<char> {
    match function {
        Some(f) => match source {
            Some((file, line)) => numbered('i', seq![address as nat, module as nat, f as nat, file as nat, line as nat]),
            None => numbered('i', seq![address as nat, module as nat, f as nat]),
        },
        None => numbered('i', seq![address as nat, module as nat]),
    }
}

/// The index of the instruction pointer of a frame, defining it, and the
/// strings it names, where it is new.
pub open spec fn with_ip(data: &Data, s: Heaptrack, frame: Frame) -> (Heaptrack, u64) {
    let address = frame.address.0;
    if s.failed {
        (s, 0)
    } else if s.ips.contains_key(address) {
        (s, s.ips[address])
    } else {
        let (s1, module) = match frame.library {
            Some(id) => with_string(data, s, id),
            None => (s, 0u64),
        };
        let named = if frame.function is Some {
            frame.function
        } else {
            frame.raw_function
        };
        let (s2, function) = match named {
            Some(id) => {
                let (t, i) = with_string(data, s1, id);
                (t, Some(i))
            },
            None => (s1, None),
        };
        let (s3, source) = match (frame.source, frame.line) {
            (Some(id), Some(line)) => {
                let (t, i) = with_string(data, s2, id);
                (t, Some((i, line)))
            },
            _ => (s2, None),
        };
        if s3.failed {
            (s3, 0)
        } else if s3.ip_count == u64::MAX {
            (failing(s3), 0)
        } else {
            let index = (s3.ip_count + 1) as u64;
            (
                Heaptrack {
                    lines: s3.lines.push(ip_line(address, module, function, source)),
                    ips: s3.ips.insert(address, index),
                    ip_count: index,
                    ..s3
                },
                index,
            )
        }
    }
}

/// The node of the first child listed under an instruction pointer.
pub open spec fn child_under(children: Seq<(u64, u64)>, ip: u64) -> Option<u64>
    decreases children.len(),
{
    if children.len() == 0 {
        None
    } else if children[0].0 == ip {
        Some(children[0].1)
    } else {
        child_under(children.drop_first(), ip)
    }
}

/// The trace node reached from `parent` by the frames of a backtrace from
/// its `i`th, innermost first, down to its second: inlined frames are
/// passed over, and a node is added, with its line, where a frame's
/// instruction pointer has none under the node before it.
pub open spec fn walked(data: &Data, s: Heaptrack, frames: Seq<usize>, i: int, parent: u64) -> (Heaptrack, u64)
    decreases i,
{
    if i <= 0 || s.failed {
        (s, parent)
    } else {
        let frame = data.frames@[frames[i] as int];
        if frame.is_inline {
            walked(data, s, frames, i - 1, parent)
        } else {
            let (s1, ip) = with_ip(data, s, frame);
            if s1.failed {
                (s1, parent)
            } else {
                match child_under(s1.tree[parent as int], ip) {
                    Some(node) => walked(data, s1, frames, i - 1, node),
                    None => {
                        let node = s1.tree.len() as u64;
                        let s2 = Heaptrack {
                            lines: s1.lines.push(numbered('t', seq![ip as nat, parent as nat])),
                            tree: s1.tree.update(parent as int, s1.tree[parent as int].push((ip, node))).push(
                                Seq::empty(),
                            ),
                            ..s1
                        };
                        walked(data, s2, frames, i - 1, node)
                    },
                }
            }
        }
    }
}

/// The trace node of a backtrace, adding what it needs where it is new; a
/// backtrace of no frames is the root's, and is not kept.
pub open spec fn with_backtrace(data: &Data, s: Heaptrack, b: BacktraceId) -> (Heaptrack, u64) {
    let frames = frames_of(data, b);
    if s.failed {
        (s, 0)
    } else if s.traces.contains_key(b.0 as u64) {
        (s, s.traces[b.0 as u64])
    } else if frames.len() == 0 {
        (s, 0)
    } else {
        let (t, node) = walked(data, s, frames, frames.len() - 1, 0);
        if t.failed {
            (t, 0)
        } else {
            (Heaptrack { traces: t.traces.insert(b.0 as u64, node), ..t }, node)
        }
    }
}

/// A line of time where the time since the start has changed, in
/// milliseconds.
pub open spec fn with_time(data: &Data, s: Heaptrack, t: Timestamp) -> Heaptrack {
    if s.failed {
        s
    } else if t.0 < data.initial_timestamp.0 {
        failing(s)
    } else {
        let elapsed = (t.0 - data.initial_timestamp.0) as u64;
        if elapsed == s.last_elapsed {
            s
        } else {
            Heaptrack {
                lines: s.lines.push(numbered('c', seq![(elapsed / 1000) as nat])),
                last_elapsed: elapsed,
                ..s
            }
        }
    }
}

/// The index of the first allocation kind that is `info`.
pub open spec fn info_index(infos: Seq<(u64, u64)>, info: (u64, u64)) -> Option<nat>
    decreases infos.len(),
{
    if infos.len() == 0 {
        None
    } else {
        match info_index(infos.drop_last(), info) {
            Some(i) => Some(i),
            None => if infos.last() == info {
                Some((infos.len() - 1) as nat)
            } else {
                None
            },
        }
    }
}

/// An allocation's size with the space it can use beyond it, where that
/// fits in 64 bits.
pub open spec fn usable_size(a: Allocation) -> Option<u64> {
    if a.size + a.extra_usable_space <= u64::MAX {
        Some((a.size + a.extra_usable_space) as u64)
    } else {
        None
    }
}

/// An allocation, defining its kind where it is new, then counted.
pub open spec fn with_allocation(data: &Data, s: Heaptrack, a: Allocation) -> Heaptrack {
    if s.failed {
        s
    } else if usable_size(a) is None {
        failing(s)
    } else {
        let size = usable_size(a).unwrap();
        let (s1, trace) = with_backtrace(data, s, a.backtrace);
        let s2 = with_time(data, s1, a.timestamp);
        if s2.failed {
            s2
        } else {
            match info_index(s2.infos, (size, trace)) {
                Some(i) => Heaptrack { lines: s2.lines.push(numbered('+', seq![i])), ..s2 },
                None => Heaptrack {
                    lines: s2.lines.push(numbered('a', seq![size as nat, trace as nat])).push(
                        numbered('+', seq![s2.infos.len()]),
                    ),
                    infos: s2.infos.push((size, trace)),
                    ..s2
                },
            }
        }
    }
}

/// A deallocation, counted against the kind of its allocation; it fails
/// where there is no such kind.
pub open spec fn with_deallocation(data: &Data, s: Heaptrack, a: Allocation) -> Heaptrack {
    if s.failed {
        s
    } else if usable_size(a) is None {
        failing(s)
    } else {
        let size = usable_size(a).unwrap();
        let (s1, trace) = with_backtrace(data, s, a.backtrace);
        let s2 = with_time(data, s1, a.timestamp);
        if s2.failed {
            s2
        } else {
            match info_index(s2.infos, (size, trace)) {
                Some(i) => Heaptrack { lines: s2.lines.push(numbered('-', seq![i])), ..s2 },
                None => failing(s2),
            }
        }
    }
}

/// Operation `k`, where the allocations it is about are picked: an
/// allocation is counted; a deallocation is counted against its
/// allocation; a reallocation counts the old one freed, then the new one.
pub open spec fn with_operation(data: &Data, selected: Seq<bool>, s: Heaptrack, k: int) -> Heaptrack {
    let a = target(data, k);
    let picked = selected[target_index(data, k)];
    if is_allocation(data, k) {
        if picked { with_allocation(data, s, a) } else { s }
    } else if is_reallocation(data, k) {
        let s1 = if selected[replaced_index(data, k)] {
            with_deallocation(data, s, replaced(data, k))
        } else {
            s
        };
        if picked { with_allocation(data, s1, a) } else { s1 }
    } else {
        if picked { with_deallocation(data, s, a) } else { s }
    }
}

/// How many of the lines start with `tag`.
pub open spec fn tagged(lines: Seq<Seq<char>>, tag: char) -> nat
    decreases lines.len(),
{
    if lines.len() == 0 {
        0
    } else {
        tagged(lines.drop_last(), tag) + if lines.last().len() > 0 && lines.last()[0] == tag {
            1nat
        } else {
            0nat
        }
    }
}

/// Whether `t` has as many allocation and deallocation lines as `s`.
pub open spec fn same_counts(s: Heaptrack, t: Heaptrack) -> bool {
    &&& tagged(t.lines, '+') == tagged(s.lines, '+')
    &&& tagged(t.lines, '-') == tagged(s.lines, '-')
}

proof fn lemma_tagged_push(lines: Seq<Seq<char>>, line: Seq<char>, tag: char)
    ensures
        tagged(lines.push(line), tag) == tagged(lines, tag) + if line.len() > 0 && line[0] == tag {
            1nat
        } else {
            0nat
        },
{
    assert(lines.push(line).drop_last() =~= lines);
}

proof fn lemma_numbered_tag(tag: char, numbers: Seq<nat>)
    ensures
        numbered(tag, numbers).len() > 0,
        numbered(tag, numbers)[0] == tag,
    decreases numbers.len(),
{
    if numbers.len() > 0 {
        lemma_numbered_tag(tag, numbers.drop_last());
    }
}

/// Pushing a line that starts with neither `+` nor `-` keeps the counts.
proof fn lemma_quiet_push(lines: Seq<Seq<char>>, line: Seq<char>)
    requires
        line.len() > 0,
        line[0] != '+',
        line[0] != '-',
    ensures
        tagged(lines.push(line), '+') == tagged(lines, '+'),
        tagged(lines.push(line), '-') == tagged(lines, '-'),
{
    lemma_tagged_push(lines, line, '+');
    lemma_tagged_push(lines, line, '-');
}

proof fn lemma_string_quiet(data: &Data, s: Heaptrack, id: StringId)
    ensures
        same_counts(s, with_string(data, s, id).0),
{
    if !s.failed && !s.strings.contains_key(id.0 as u64) && s.string_count != u64::MAX {
        let text = match string_text(data, Some(id)) {
            Some(t) => t,
            None => Seq::empty(),
        };
        lemma_quiet_push(s.lines, seq!['s', ' '] + text);
    }
}

proof fn lemma_ip_quiet(data: &Data, s: Heaptrack, frame: Frame)
    ensures
        same_counts(s, with_ip(data, s, frame).0),
{
    let address = frame.address.0;
    if !s.failed && !s.ips.contains_key(address) {
        let (s1, module) = match frame.library {
            Some(id) => with_string(data, s, id),
            None => (s, 0u64),
        };
        if let Some(id) = frame.library {
            lemma_string_quiet(data, s, id);
        }
        let named = if frame.function is Some {
            frame.function
        } else {
            frame.raw_function
        };
        let (s2, function) = match named {
            Some(id) => {
                let (t, i) = with_string(data, s1, id);
                (t, Some(i))
            },
            None => (s1, None),
        };
        if let Some(id) = named {
            lemma_string_quiet(data, s1, id);
        }
        let (s3, source) = match (frame.source, frame.line) {
            (Some(id), Some(line)) => {
                let (t, i) = with_string(data, s2, id);
                (t, Some((i, line)))
            },
            _ => (s2, None),
        };
        if let (Some(id), Some(_)) = (frame.source, frame.line) {
            lemma_string_quiet(data, s2, id);
        }
        if !s3.failed && s3.ip_count != u64::MAX {
            let line = ip_line(address, module, function, source);
            match function {
                Some(f) => match source {
                    Some((file, l)) => lemma_numbered_tag(
                        'i',
                        seq![address as nat, module as nat, f as nat, file as nat, l as nat],
                    ),
                    None => lemma_numbered_tag('i', seq![address as nat, module as nat, f as nat]),
                },
                None => lemma_numbered_tag('i', seq![address as nat, module as nat]),
            }
            lemma_quiet_push(s3.lines, line);
        }
    }
}

proof fn lemma_walk_quiet(data: &Data, s: Heaptrack, frames: Seq<usize>, i: int, parent: u64)
    ensures
        same_counts(s, walked(data, s, frames, i, parent).0),
    decreases i,
{
    if i > 0 && !s.failed {
        let frame = data.frames@[frames[i] as int];
        if frame.is_inline {
            lemma_walk_quiet(data, s, frames, i - 1, parent);
        } else {
            let (s1, ip) = with_ip(data, s, frame);
            lemma_ip_quiet(data, s, frame);
            if !s1.failed {
                match child_under(s1.tree[parent as int], ip) {
                    Some(node) => lemma_walk_quiet(data, s1, frames, i - 1, node),
                    None => {
                        let node = s1.tree.len() as u64;
                        let s2 = Heaptrack {
                            lines: s1.lines.push(numbered('t', seq![ip as nat, parent as nat])),
                            tree: s1.tree.update(parent as int, s1.tree[parent as int].push((ip, node))).push(
                                Seq::empty(),
                            ),
                            ..s1
                        };
                        lemma_numbered_tag('t', seq![ip as nat, parent as nat]);
                        lemma_quiet_push(s1.lines, numbered('t', seq![ip as nat, parent as nat]));
                        lemma_walk_quiet(data, s2, frames, i - 1, node);
                    },
                }
            }
        }
    }
}

proof fn lemma_backtrace_quiet(data: &Data, s: Heaptrack, b: BacktraceId)
    ensures
        same_counts(s, with_backtrace(data, s, b).0),
{
    let frames = frames_of(data, b);
    if !s.failed && !s.traces.contains_key(b.0 as u64) && frames.len() != 0 {
        lemma_walk_quiet(data, s, frames, frames.len() - 1, 0);
    }
}

proof fn lemma_time_quiet(data: &Data, s: Heaptrack, t: Timestamp)
    ensures
        same_counts(s, with_time(data, s, t)),
{
    if !s.failed && t.0 >= data.initial_timestamp.0 {
        let elapsed = (t.0 - data.initial_timestamp.0) as u64;
        if elapsed != s.last_elapsed {
            lemma_numbered_tag('c', seq![(elapsed / 1000) as nat]);
            lemma_quiet_push(s.lines, numbered('c', seq![(elapsed / 1000) as nat]));
        }
    }
}

/// An allocation that is written adds one `+` line and no `-` line.
proof fn lemma_allocation_lines(data: &Data, s: Heaptrack, a: Allocation)
    ensures
        s.failed ==> with_allocation(data, s, a) == s,
        !with_allocation(data, s, a).failed ==> {
            &&& tagged(with_allocation(data, s, a).lines, '+') == tagged(s.lines, '+') + 1
            &&& tagged(with_allocation(data, s, a).lines, '-') == tagged(s.lines, '-')
            &&& with_allocation(data, s, a).lines.len() > 0
            &&& with_allocation(data, s, a).lines.last().len() > 0
            &&& with_allocation(data, s, a).lines.last()[0] == '+'
        },
{
    if !s.failed && usable_size(a) is Some {
        let size = usable_size(a).unwrap();
        let (s1, trace) = with_backtrace(data, s, a.backtrace);
        lemma_backtrace_quiet(data, s, a.backtrace);
        let s2 = with_time(data, s1, a.timestamp);
        lemma_time_quiet(data, s1, a.timestamp);
        if !s2.failed {
            match info_index(s2.infos, (size, trace)) {
                Some(i) => {
                    lemma_numbered_tag('+', seq![i]);
                    lemma_tagged_push(s2.lines, numbered('+', seq![i]), '+');
                    lemma_tagged_push(s2.lines, numbered('+', seq![i]), '-');
                },
                None => {
                    let kind = numbered('a', seq![size as nat, trace as nat]);
                    let plus = numbered('+', seq![s2.infos.len()]);
                    lemma_numbered_tag('a', seq![size as nat, trace as nat]);
                    lemma_numbered_tag('+', seq![s2.infos.len()]);
                    lemma_quiet_push(s2.lines, kind);
                    lemma_tagged_push(s2.lines.push(kind), plus, '+');
                    lemma_tagged_push(s2.lines.push(kind), plus, '-');
                },
            }
        }
    }
}

/// A deallocation that is written adds one `-` line and no `+` line.
proof fn lemma_deallocation_lines(data: &Data, s: Heaptrack, a: Allocation)
    ensures
        s.failed ==> with_deallocation(data, s, a) == s,
        !with_deallocation(data, s, a).failed ==> {
            &&& tagged(with_deallocation(data, s, a).lines, '-') == tagged(s.lines, '-') + 1
            &&& tagged(with_deallocation(data, s, a).lines, '+') == tagged(s.lines, '+')
            &&& with_deallocation(data, s, a).lines.len() > 0
            &&& with_deallocation(data, s, a).lines.last().len() > 0
            &&& with_deallocation(data, s, a).lines.last()[0] == '-'
        },
{
    if !s.failed && usable_size(a) is Some {
        let size = usable_size(a).unwrap();
        let (s1, trace) = with_backtrace(data, s, a.backtrace);
        lemma_backtrace_quiet(data, s, a.backtrace);
        let s2 = with_time(data, s1, a.timestamp);
        lemma_time_quiet(data, s1, a.timestamp);
        if !s2.failed {
            if let Some(i) = info_index(s2.infos, (size, trace)) {
                lemma_numbered_tag('-', seq![i]);
                lemma_tagged_push(s2.lines, numbered('-', seq![i]), '+');
                lemma_tagged_push(s2.lines, numbered('-', seq![i]), '-');
            }
        }
    }
}

/// Each operation the export writes counts every picked allocation it is
/// about once: an allocation adds one `+` line; a deallocation adds one
/// `-` line; a reallocation adds a `-` line for the allocation it replaced
/// and a `+` line for the new one, each where that allocation is picked.
/// So every picked allocation that is freed or replaced gets a `-` line of
/// its own; where a reallocation writes both, the `-` line of the old
/// allocation comes first and the `+` line of the new one last.
pub proof fn lemma_operation_lines(data: &Data, selected: Seq<bool>, s: Heaptrack, k: int)
    requires
        !with_operation(data, selected, s, k).failed,
    ensures
        (is_allocation(data, k) || is_reallocation(data, k)) && selected[target_index(data, k)] ==> {
            &&& with_operation(data, selected, s, k).lines.len() > 0
            &&& with_operation(data, selected, s, k).lines.last().len() > 0
            &&& with_operation(data, selected, s, k).lines.last()[0] == '+'
        },
        !is_allocation(data, k) && !(is_reallocation(data, k) && selected[target_index(data, k)]) && tagged(
            with_operation(data, selected, s, k).lines,
            '-',
        ) > tagged(s.lines, '-') ==> {
            &&& with_operation(data, selected, s, k).lines.len() > 0
            &&& with_operation(data, selected, s, k).lines.last().len() > 0
            &&& with_operation(data, selected, s, k).lines.last()[0] == '-'
        },
        tagged(with_operation(data, selected, s, k).lines, '+') == tagged(s.lines, '+') + if !is_allocation(data, k)
            && !is_reallocation(data, k) || !selected[target_index(data, k)] {
            0nat
        } else {
            1nat
        },
        tagged(with_operation(data, selected, s, k).lines, '-') == tagged(s.lines, '-') + if is_allocation(data, k) {
            0nat
        } else if is_reallocation(data, k) {
            if selected[replaced_index(data, k)] {
                1nat
            } else {
                0nat
            }
        } else if selected[target_index(data, k)] {
            1nat
        } else {
            0nat
        },
{
    let a = target(data, k);
    if is_allocation(data, k) {
        lemma_allocation_lines(data, s, a);
    } else if is_reallocation(data, k) {
        let old = replaced(data, k);
        lemma_deallocation_lines(data, s, old);
        if selected[replaced_index(data, k)] {
            lemma_allocation_lines(data, with_deallocation(data, s, old), a);
        } else {
            lemma_allocation_lines(data, s, a);
        }
    } else {
        lemma_deallocation_lines(data, s, a);
    }
}

/// The state after the first `k` operations.
pub open spec fn heaptrack_after(data: &Data, selected: Seq<bool>, k: nat) -> Heaptrack
    decreases k,
{
    if k == 0 {
        heaptrack_start()
    } else {
        with_operation(data, selected, heaptrack_after(data, selected, (k - 1) as nat), k - 1)
    }
}

/// The state after all the operations.
pub open spec fn heaptrack_export(data: &Data, selected: Seq<bool>) -> Heaptrack {
    heaptrack_after(data, selected, data.operations@.len())
}

/// Whether operation `k` can be read: its allocation exists, a
/// reallocation replaced one that exists, and the backtrace of each picked
/// allocation it is about can be looked up.
pub open spec fn heaptrack_readable(data: &Data, selected: Seq<bool>, k: int) -> bool {
    &&& 0 <= target_index(data, k) < data.allocations@.len()
    &&& selected[target_index(data, k)] ==> backtrace_usable(data, target(data, k).backtrace)
    &&& is_reallocation(data, k) ==> {
        &&& target(data, k).reallocated_from is Some
        &&& 0 <= replaced_index(data, k) < data.allocations@.len()
        &&& selected[replaced_index(data, k)] ==> backtrace_usable(data, replaced(data, k).backtrace)
    }
}

/// Whether the data's operations can be exported with this selection.
pub open spec fn heaptrack_exportable(data: &Data, selected: Seq<bool>) -> bool {
    &&& selected.len() == data.allocations@.len()
    &&& forall|k: int| 0 <= k < data.operations@.len() ==> #[trigger] heaptrack_readable(data, selected, k)
}


fn push_lower_hex_digit(out: &mut String, d: u64)
    requires
        d < 16,
    ensures
        final(out)@ == old(out)@.push(lower_hex_char(d as nat)),
{
    proof {
        reveal_strlit("0");
        reveal_strlit("1");
        reveal_strlit("2");
        reveal_strlit("3");
        reveal_strlit("4");
        reveal_strlit("5");
        reveal_strlit("6");
        reveal_strlit("7");
        reveal_strlit("8");
        reveal_strlit("9");
        reveal_strlit("a");
        reveal_strlit("b");
        reveal_strlit("c");
        reveal_strlit("d");
        reveal_strlit("e");
        reveal_strlit("f");
    }
    match d {
        0 => out.append("0"),
        1 => out.append("1"),
        2 => out.append("2"),
        3 => out.append("3"),
        4 => out.append("4"),
        5 => out.append("5"),
        6 => out.append("6"),
        7 => out.append("7"),
        8 => out.append("8"),
        9 => out.append("9"),
        10 => out.append("a"),
        11 => out.append("b"),
        12 => out.append("c"),
        13 => out.append("d"),
        14 => out.append("e"),
        _ => out.append("f"),
    }
    proof {
        assert(out@ =~= old(out)@.push(lower_hex_char(d as nat)));
    }
}

fn push_lower_hex(out: &mut String, n: u64)
    ensures
        final(out)@ == old(out)@ + lower_hex(n as nat),
    decreases n,
{
    if n >= 16 {
        push_lower_hex(out, n / 16);
    }
    push_lower_hex_digit(out, n % 16);
    proof {
        assert(out@ =~= old(out)@ + lower_hex(n as nat));
    }
}

/// The numbers as they stand in a line.
pub open spec fn as_nats(numbers: Seq<u64>) -> Seq<nat> {
    numbers.map_values(|n: u64| n as nat)
}

/// A line of a tag and numbers.
fn numbered_line(tag: &str, numbers: &Vec<u64>) -> (line: String)
    requires
        tag@.len() == 1,
    ensures
        line@ == numbered(tag@[0], as_nats(numbers@)),
{
    let mut line = String::from_str(tag);
    let mut i: usize = 0;
    proof {
        assert(as_nats(numbers@).take(0) =~= Seq::<nat>::empty());
        assert(line@ =~= seq![tag@[0]]);
    }
    while i < numbers.len()
        invariant
            tag@.len() == 1,
            0 <= i <= numbers@.len(),
            line@ == numbered(tag@[0], as_nats(numbers@).take(i as int)),
        decreases numbers@.len() - i,
    {
        proof {
            reveal_strlit(" ");
        }
        line.append(" ");
        push_lower_hex(&mut line, numbers[i]);
        proof {
            let t = as_nats(numbers@).take(i + 1);
            assert(t.drop_last() =~= as_nats(numbers@).take(i as int));
            assert(t.last() == numbers@[i as int] as nat);
            assert(line@ =~= numbered(tag@[0], t));
        }
        i = i + 1;
    }
    proof {
        assert(as_nats(numbers@).take(numbers@.len() as int) =~= as_nats(numbers@));
    }
    line
}

/// The node of the first child listed under an instruction pointer.
fn child_under_now(children: &Vec<(u64, u64)>, ip: u64) -> (node: Option<u64>)
    ensures
        node == child_under(children@, ip),
{
    let mut i: usize = 0;
    proof {
        assert(children@.subrange(0, children@.len() as int) =~= children@);
    }
    while i < children.len()
        invariant
            0 <= i <= children@.len(),
            child_under(children@, ip) == child_under(children@.subrange(i as int, children@.len() as int), ip),
        decreases children@.len() - i,
    {
        proof {
            let rest = children@.subrange(i as int, children@.len() as int);
            assert(rest.drop_first() =~= children@.subrange(i + 1, children@.len() as int));
            assert(rest[0] == children@[i as int]);
        }
        if children[i].0 == ip {
            return Some(children[i].1);
        }
        i = i + 1;
    }
    proof {
        assert(children@.subrange(i as int, children@.len() as int) =~= Seq::<(u64, u64)>::empty());
    }
    None
}

/// The index of the first allocation kind that is `info`.
fn info_index_now(infos: &Vec<(u64, u64)>, info: (u64, u64)) -> (index: Option<u64>)
    ensures
        match info_index(infos@, info) {
            Some(i) => index == Some(i as u64),
            None => index is None,
        },
{
    proof {
        lemma_info_index_bound(infos@, info);
    }
    let mut i: usize = 0;
    proof {
        assert(infos@.take(0) =~= Seq::<(u64, u64)>::empty());
    }
    while i < infos.len()
        invariant
            0 <= i <= infos@.len(),
            info_index(infos@.take(i as int), info) is None,
        decreases infos@.len() - i,
    {
        proof {
            assert(infos@.take(i + 1).drop_last() =~= infos@.take(i as int));
        }
        if infos[i].0 == info.0 && infos[i].1 == info.1 {
            proof {
                lemma_info_index_found(infos@, info, i as int);
            }
            return Some(i as u64);
        }
        i = i + 1;
    }
    proof {
        assert(infos@.take(infos@.len() as int) =~= infos@);
    }
    None
}

/// The first kind that is `info` is one of the kinds.
proof fn lemma_info_index_bound(infos: Seq<(u64, u64)>, info: (u64, u64))
    ensures
        info_index(infos, info) matches Some(i) ==> i < infos.len(),
    decreases infos.len(),
{
    if infos.len() > 0 {
        lemma_info_index_bound(infos.drop_last(), info);
    }
}

/// Where no earlier kind is `info` and the `i`th is, it is the first.
proof fn lemma_info_index_found(infos: Seq<(u64, u64)>, info: (u64, u64), i: int)
    requires
        0 <= i < infos.len(),
        infos[i] == info,
        info_index(infos.take(i), info) is None,
    ensures
        info_index(infos, info) == Some(i as nat),
    decreases infos.len(),
{
    if i < infos.len() - 1 {
        assert(infos.drop_last().take(i) =~= infos.take(i));
        lemma_info_index_found(infos.drop_last(), info, i);
    } else {
        assert(infos.drop_last() =~= infos.take(i));
    }
}

/// What the export has written and defined.
struct HeaptrackWriter {
    lines: Vec<String>,
    infos: Vec<(u64, u64)>,
    traces: HashMap<u64, u64>,
    ips: HashMap<u64, u64>,
    ip_count: u64,
    strings: HashMap<u64, u64>,
    string_count: u64,
    tree: Vec<Vec<(u64, u64)>>,
    last_elapsed: u64,
}

impl HeaptrackWriter {
    spec fn state(&self) -> Heaptrack {
        Heaptrack {
            lines: texts_of(self.lines@),
            infos: self.infos@,
            traces: self.traces@,
            ips: self.ips@,
            ip_count: self.ip_count,
            strings: self.strings@,
            string_count: self.string_count,
            tree: self.tree@.map_values(|c: Vec<(u64, u64)>| c@),
            last_elapsed: self.last_elapsed,
            failed: false,
        }
    }

    /// The trace nodes that the tree refers to are in it.
    spec fn wf(&self) -> bool {
        &&& self.tree@.len() >= 1
        &&& forall|n: int, i: int|
            0 <= n < self.tree@.len() && 0 <= i < self.tree@[n]@.len() ==> #[trigger] self.tree@[n]@[i].1
                < self.tree@.len()
    }
}

proof fn lemma_texts_pushed(lines: Seq<String>, line: String)
    ensures
        texts_of(lines.push(line)) == texts_of(lines).push(line@),
{
    assert(texts_of(lines.push(line)) =~= texts_of(lines).push(line@));
}

impl HeaptrackWriter {
    fn new() -> (w: HeaptrackWriter)
        ensures
            w.wf(),
            w.state() == heaptrack_start(),
    {
        let mut tree: Vec<Vec<(u64, u64)>> = Vec::new();
        tree.push(Vec::new());
        let w = HeaptrackWriter {
            lines: Vec::new(),
            infos: Vec::new(),
            traces: HashMap::new(),
            ips: HashMap::new(),
            ip_count: 0,
            strings: HashMap::new(),
            string_count: 0,
            tree,
            last_elapsed: 0,
        };
        proof {
            assert(w.state().lines =~= Seq::<Seq<char>>::empty());
            assert(w.state().tree =~= seq![Seq::<(u64, u64)>::empty()]);
            assert(w.state() =~= heaptrack_start());
        }
        w
    }

    fn push_line(&mut self, line: String)
        ensures
            final(self).state() == (Heaptrack { lines: old(self).state().lines.push(line@), ..old(self).state() }),
            final(self).tree@ == old(self).tree@,
    {
        proof {
            lemma_texts_pushed(self.lines@, line);
        }
        self.lines.push(line);
    }

    /// The index of string `id`, defining it where it is new; `None` where
    /// the count of strings would outgrow 64 bits.
    fn string_index(&mut self, data: &Data, id: StringId) -> (r: Option<u64>)
        requires
            old(self).wf(),
        ensures
            final(self).wf(),
            match r {
                Some(x) => final(self).state() == with_string(data, old(self).state(), id).0 && x == with_string(
                    data,
                    old(self).state(),
                    id,
                ).1,
                None => with_string(data, old(self).state(), id).0.failed,
            },
    {
        let key = id.0 as u64;
        match self.strings.get(&key) {
            Some(index) => {
                return Some(*index);
            },
            None => {},
        }
        if self.string_count == u64::MAX {
            return None;
        }
        let index = self.string_count + 1;
        let text = data.resolve_string(id);
        proof {
            reveal_strlit("s ");
        }
        let mut line = String::from_str("s ");
        match text {
            Some(t) => line.append(t.as_str()),
            None => {},
        }
        proof {
            let expected = match string_text(data, Some(id)) {
                Some(t) => t,
                None => Seq::empty(),
            };
            assert(line@ =~= seq!['s', ' '] + expected);
        }
        self.push_line(line);
        self.strings.insert(key, index);
        self.string_count = index;
        Some(index)
    }

    /// The index of a frame's instruction pointer, defining it where it is
    /// new; `None` where the export fails.
    fn ip_index(&mut self, data: &Data, frame: &Frame) -> (r: Option<u64>)
        requires
            old(self).wf(),
        ensures
            final(self).wf(),
            match r {
                Some(x) => final(self).state() == with_ip(data, old(self).state(), *frame).0 && x == with_ip(
                    data,
                    old(self).state(),
                    *frame,
                ).1,
                None => with_ip(data, old(self).state(), *frame).0.failed,
            },
    {
        let address = frame.address.0;
        match self.ips.get(&address) {
            Some(index) => {
                return Some(*index);
            },
            None => {},
        }
        let module = match frame.library {
            Some(id) => match self.string_index(data, id) {
                Some(i) => i,
                None => {
                    return None;
                },
            },
            None => 0,
        };
        let named = if frame.function.is_some() {
            frame.function
        } else {
            frame.raw_function
        };
        let function = match named {
            Some(id) => match self.string_index(data, id) {
                Some(i) => Some(i),
                None => {
                    return None;
                },
            },
            None => None,
        };
        let source = match (frame.source, frame.line) {
            (Some(id), Some(line)) => match self.string_index(data, id) {
                Some(i) => Some((i, line)),
                None => {
                    return None;
                },
            },
            _ => None,
        };
        if self.ip_count == u64::MAX {
            return None;
        }
        let index = self.ip_count + 1;
        proof {
            reveal_strlit("i");
        }
        let numbers = match function {
            Some(f) => match source {
                Some((file, line)) => vec![address, module, f, file, line as u64],
                None => vec![address, module, f],
            },
            None => vec![address, module],
        };
        let line = numbered_line("i", &numbers);
        proof {
            match function {
                Some(f) => match source {
                    Some((file, line)) => {
                        assert(as_nats(numbers@) =~= seq![address as nat, module as nat, f as nat, file as nat, line as nat]);
                    },
                    None => {
                        assert(as_nats(numbers@) =~= seq![address as nat, module as nat, f as nat]);
                    },
                },
                None => {
                    assert(as_nats(numbers@) =~= seq![address as nat, module as nat]);
                },
            }
            assert(line@ == ip_line(address, module, function, source));
        }
        self.push_line(line);
        self.ips.insert(address, index);
        self.ip_count = index;
        Some(index)
    }
}

impl HeaptrackWriter {
    /// The trace node of a backtrace, adding what it needs where it is new;
    /// `None` where the export fails.
    fn trace_index(&mut self, data: &Data, b: BacktraceId) -> (r: Option<u64>)
        requires
            old(self).wf(),
            backtrace_usable(data, b),
        ensures
            final(self).wf(),
            match r {
                Some(x) => final(self).state() == with_backtrace(data, old(self).state(), b).0 && x
                    == with_backtrace(data, old(self).state(), b).1,
                None => with_backtrace(data, old(self).state(), b).0.failed,
            },
    {
        let key = b.0 as u64;
        match self.traces.get(&key) {
            Some(index) => {
                return Some(*index);
            },
            None => {},
        }
        let frames = data.get_frame_ids(b);
        let ghost start = self.state();
        let ghost all = frames@;
        proof {
            assert(!start.traces.contains_key(key));
            assert forall|j: int| 0 <= j < all.len() implies #[trigger] all[j] < data.frames@.len() by {
                assert(frames_of(data, b)[j] < data.frames@.len());
            }
        }
        if frames.len() == 0 {
            return Some(0);
        }
        let mut parent: u64 = 0;
        let mut i: usize = frames.len() - 1;
        while i > 0
            invariant
                all == frames@,
                all == frames_of(data, b),
                forall|j: int| 0 <= j < all.len() ==> #[trigger] all[j] < data.frames@.len(),
                0 <= i < all.len(),
                self.wf(),
                parent < self.tree@.len(),
                !self.traces@.contains_key(key),
                !start.failed,
                start == old(self).state(),
                !start.traces.contains_key(key),
                key == b.0 as u64,
                walked(data, start, all, all.len() - 1, 0) == walked(data, self.state(), all, i as int, parent),
            decreases i,
        {
            let f = frames[i];
            let frame = &data.frames[f];
            let ghost before = self.state();
            let ghost old_parent = parent;
            proof {
                assert(all[i as int] == f);
                assert(*frame == data.frames@[all[i as int] as int]);
            }
            i = i - 1;
            if !frame.is_inline {
                let ip = match self.ip_index(data, frame) {
                    Some(x) => x,
                    None => {
                        proof {
                            assert(walked(data, before, all, i + 1, old_parent).0.failed);
                            assert(walked(data, start, all, all.len() - 1, 0).0.failed);
                            assert(frames_of(data, b).len() != 0);
                            assert(with_backtrace(data, start, b).0.failed);
                        }
                        return None;
                    },
                };
                let total = self.tree.len();
                proof {
                    assert(parent < total);
                }
                let p = parent as usize;
                proof {
                    assert(p as int == parent as int);
                    assert(self.state().tree[p as int] == self.tree@[p as int]@);
                }
                match child_under_now(&self.tree[p], ip) {
                    Some(node) => {
                        proof {
                            lemma_child_in(self.tree@[p as int]@, ip);
                            let k = choose|k: int| 0 <= k < self.tree@[p as int]@.len() && #[trigger] self.tree@[p as int]@[k].1 == node;
                            assert(self.tree@[p as int]@[k].1 < self.tree@.len());
                        }
                        parent = node;
                        proof {
                            assert(walked(data, before, all, i + 1, old_parent) == walked(data, self.state(), all, i as int, parent));
                        }
                    },
                    None => {
                        let node = self.tree.len() as u64;
                        let ghost s1 = self.state();
                        let numbers = vec![ip, parent];
                        proof {
                            reveal_strlit("t");
                        }
                        let line = numbered_line("t", &numbers);
                        proof {
                            assert(as_nats(numbers@) =~= seq![ip as nat, parent as nat]);
                        }
                        self.push_line(line);
                        let mut children = Vec::new();
                        std::mem::swap(&mut children, &mut self.tree[p]);
                        children.push((ip, node));
                        self.tree.set(p, children);
                        self.tree.push(Vec::new());
                        proof {
                            assert(self.state().tree =~= s1.tree.update(p as int, s1.tree[p as int].push((ip, node))).push(
                                Seq::empty(),
                            ));
                            assert(self.state().lines == s1.lines.push(numbered('t', seq![ip as nat, parent as nat])));
                            assert forall|n: int, j: int|
                                0 <= n < self.tree@.len() && 0 <= j < self.tree@[n]@.len() implies #[trigger] self.tree@[n]@[j].1
                                    < self.tree@.len() by {
                                if n != p && n < self.tree@.len() - 1 {
                                    assert(self.tree@[n]@ == s1.tree[n]);
                                }
                            }
                        }
                        parent = node;
                        proof {
                            assert(walked(data, before, all, i + 1, old_parent) == walked(data, self.state(), all, i as int, parent));
                        }
                    },
                }
            } else {
                proof {
                    assert(walked(data, before, all, i + 1, old_parent) == walked(data, self.state(), all, i as int, parent));
                }
            }
        }
        self.traces.insert(key, parent);
        Some(parent)
    }
}

/// The child found under an instruction pointer is one of the children.
proof fn lemma_child_in(children: Seq<(u64, u64)>, ip: u64)
    ensures
        child_under(children, ip) matches Some(node) ==> exists|i: int|
            0 <= i < children.len() && #[trigger] children[i].1 == node,
    decreases children.len(),
{
    if children.len() > 0 && children[0].0 != ip {
        lemma_child_in(children.drop_first(), ip);
        if child_under(children, ip) is Some {
            let i = choose|i: int| 0 <= i < children.drop_first().len() && #[trigger] children.drop_first()[i].1
                == child_under(children, ip).unwrap();
            assert(children[i + 1].1 == child_under(children, ip).unwrap());
        }
    } else if children.len() > 0 {
        assert(children[0].1 == child_under(children, ip).unwrap());
    }
}

impl HeaptrackWriter {
    /// A line of time where the time since the start has changed; `false`
    /// where the time comes before the start.
    fn time(&mut self, data: &Data, t: Timestamp) -> (ok: bool)
        requires
            old(self).wf(),
        ensures
            final(self).wf(),
            ok ==> final(self).state() == with_time(data, old(self).state(), t),
            !ok ==> with_time(data, old(self).state(), t).failed,
    {
        if t.0 < data.initial_timestamp.0 {
            return false;
        }
        let elapsed = t.0 - data.initial_timestamp.0;
        if elapsed != self.last_elapsed {
            let numbers = vec![elapsed / 1000];
            proof {
                reveal_strlit("c");
            }
            let line = numbered_line("c", &numbers);
            proof {
                assert(as_nats(numbers@) =~= seq![(elapsed / 1000) as nat]);
            }
            self.push_line(line);
            self.last_elapsed = elapsed;
        }
        true
    }

    /// An allocation counted; `false` where the export fails.
    fn allocation(&mut self, data: &Data, a: &Allocation) -> (ok: bool)
        requires
            old(self).wf(),
            backtrace_usable(data, a.backtrace),
        ensures
            final(self).wf(),
            ok ==> final(self).state() == with_allocation(data, old(self).state(), *a),
            !ok ==> with_allocation(data, old(self).state(), *a).failed,
    {
        if a.size > u64::MAX - a.extra_usable_space as u64 {
            return false;
        }
        let size = a.size + a.extra_usable_space as u64;
        let ghost s0 = self.state();
        let trace = match self.trace_index(data, a.backtrace) {
            Some(x) => x,
            None => {
                return false;
            },
        };
        let ghost s1 = self.state();
        proof {
            assert(usable_size(*a) == Some(size));
            assert(with_backtrace(data, s0, a.backtrace) == (s1, trace));
        }
        if !self.time(data, a.timestamp) {
            return false;
        }
        let ghost s2 = self.state();
        proof {
            assert(with_time(data, s1, a.timestamp) == s2);
            lemma_info_index_bound(s2.infos, (size, trace));
        }
        let kinds = self.infos.len();
        proof {
            assert(s2.infos.len() == kinds);
        }
        match info_index_now(&self.infos, (size, trace)) {
            Some(i) => {
                let numbers = vec![i];
                proof {
                    reveal_strlit("+");
                }
                let line = numbered_line("+", &numbers);
                proof {
                    assert(as_nats(numbers@) =~= seq![i as nat]);
                    assert(info_index(s2.infos, (size, trace)) == Some(i as nat));
                }
                self.push_line(line);
                proof {
                    assert(self.state() =~= (Heaptrack { lines: s2.lines.push(numbered('+', seq![i as nat])), ..s2 }));
                }
            },
            None => {
                let index = self.infos.len() as u64;
                let kind = vec![size, trace];
                proof {
                    reveal_strlit("a");
                    reveal_strlit("+");
                }
                let line = numbered_line("a", &kind);
                proof {
                    assert(as_nats(kind@) =~= seq![size as nat, trace as nat]);
                }
                self.push_line(line);
                let numbers = vec![index];
                let counted = numbered_line("+", &numbers);
                proof {
                    assert(as_nats(numbers@) =~= seq![self.infos@.len()]);
                }
                self.push_line(counted);
                self.infos.push((size, trace));
                proof {
                    assert(self.state() =~= (Heaptrack {
                        lines: s2.lines.push(numbered('a', seq![size as nat, trace as nat])).push(
                            numbered('+', seq![s2.infos.len()]),
                        ),
                        infos: s2.infos.push((size, trace)),
                        ..s2
                    }));
                }
            },
        }
        true
    }

    /// A deallocation counted; `false` where the export fails.
    fn deallocation(&mut self, data: &Data, a: &Allocation) -> (ok: bool)
        requires
            old(self).wf(),
            backtrace_usable(data, a.backtrace),
        ensures
            final(self).wf(),
            ok ==> final(self).state() == with_deallocation(data, old(self).state(), *a),
            !ok ==> with_deallocation(data, old(self).state(), *a).failed,
    {
        if a.size > u64::MAX - a.extra_usable_space as u64 {
            return false;
        }
        let size = a.size + a.extra_usable_space as u64;
        let ghost s0 = self.state();
        let trace = match self.trace_index(data, a.backtrace) {
            Some(x) => x,
            None => {
                return false;
            },
        };
        let ghost s1 = self.state();
        proof {
            assert(usable_size(*a) == Some(size));
            assert(with_backtrace(data, s0, a.backtrace) == (s1, trace));
        }
        if !self.time(data, a.timestamp) {
            return false;
        }
        let ghost s2 = self.state();
        proof {
            assert(with_time(data, s1, a.timestamp) == s2);
            lemma_info_index_bound(s2.infos, (size, trace));
        }
        let kinds = self.infos.len();
        proof {
            assert(s2.infos.len() == kinds);
        }
        match info_index_now(&self.infos, (size, trace)) {
            Some(i) => {
                let numbers = vec![i];
                proof {
                    reveal_strlit("-");
                }
                let line = numbered_line("-", &numbers);
                proof {
                    assert(as_nats(numbers@) =~= seq![i as nat]);
                    assert(info_index(s2.infos, (size, trace)) == Some(i as nat));
                }
                self.push_line(line);
                proof {
                    assert(self.state() =~= (Heaptrack { lines: s2.lines.push(numbered('-', seq![i as nat])), ..s2 }));
                }
                true
            },
            None => false,
        }
    }
}

/// Once failed, the export stays failed.
proof fn lemma_failed_stays(data: &Data, selected: Seq<bool>, k: nat, n: nat)
    requires
        k <= n,
        heaptrack_after(data, selected, k).failed,
    ensures
        heaptrack_after(data, selected, n).failed,
    decreases n - k,
{
    if k < n {
        lemma_failed_stays(data, selected, k, (n - 1) as nat);
    }
}

/// The lines of the export of the allocations that `selected` picks: the
/// header, naming the executable, then the lines of each operation in
/// turn; `None` where a deallocation has no allocation kind, a size or a
/// count outgrows 64 bits, or a time comes before the start.
pub fn heaptrack_lines(data: &Data, selected: &Vec<bool>, executable: &str) -> (lines: Option<Vec<String>>)
    requires
        heaptrack_exportable(data, selected@),
    ensures
        lines is None <==> heaptrack_export(data, selected@).failed,
        lines matches Some(l) ==> texts_of(l@) == heaptrack_header(executable@) + heaptrack_export(data, selected@).lines,
{
    let mut writer = HeaptrackWriter::new();
    let n = data.operations.len();
    let mut k: usize = 0;
    while k < n
        invariant
            heaptrack_exportable(data, selected@),
            n == data.operations@.len(),
            0 <= k <= n,
            writer.wf(),
            writer.state() == heaptrack_after(data, selected@, k as nat),
        decreases n - k,
    {
        proof {
            assert(heaptrack_readable(data, selected@, k as int));
        }
        let op = data.operations[k];
        let id = op.id();
        let count = data.allocations.len();
        proof {
            assert(id.0 < count);
        }
        let index = id.0 as usize;
        let a = &data.allocations[index];
        let ok = if op.is_allocation() {
            if selected[index] {
                writer.allocation(data, a)
            } else {
                true
            }
        } else if op.is_reallocation() {
            let previous = a.reallocated_from.unwrap();
            proof {
                assert(previous.0 < count);
            }
            let old_index = previous.0 as usize;
            let freed = if selected[old_index] {
                writer.deallocation(data, &data.allocations[old_index])
            } else {
                true
            };
            if !freed {
                false
            } else if selected[index] {
                writer.allocation(data, a)
            } else {
                true
            }
        } else {
            if selected[index] {
                writer.deallocation(data, a)
            } else {
                true
            }
        };
        if !ok {
            proof {
                assert(heaptrack_after(data, selected@, (k + 1) as nat).failed);
                lemma_failed_stays(data, selected@, (k + 1) as nat, n as nat);
            }
            return None;
        }
        k = k + 1;
    }
    proof {
        reveal_strlit("v 10100 2");
        reveal_strlit("X ");
    }
    let mut header = String::from_str("X ");
    header.append(executable);
    let mut out = vec![String::from_str("v 10100 2"), header];
    let mut j: usize = 0;
    proof {
        assert(out@[0]@ =~= seq!['v', ' ', '1', '0', '1', '0', '0', ' ', '2']);
        assert(out@[1]@ =~= seq!['X', ' '] + executable@);
        assert(texts_of(out@) =~= heaptrack_header(executable@));
        assert(texts_of(out@) =~= heaptrack_header(executable@) + texts_of(writer.lines@).take(0));
    }
    while j < writer.lines.len()
        invariant
            0 <= j <= writer.lines@.len(),
            texts_of(out@) == heaptrack_header(executable@) + texts_of(writer.lines@).take(j as int),
        decreases writer.lines@.len() - j,
    {
        let line = writer.lines[j].clone();
        proof {
            lemma_texts_pushed(out@, line);
            assert(texts_of(writer.lines@).take(j + 1) =~= texts_of(writer.lines@).take(j as int).push(line@));
        }
        out.push(line);
        j = j + 1;
    }
    proof {
        assert(texts_of(writer.lines@).take(j as int) =~= texts_of(writer.lines@));
    }
    Some(out)
}

fn heaptrack_readable_now(data: &Data, selected: &Vec<bool>, k: usize) -> (r: bool)
    requires
        selected@.len() == data.allocations@.len(),
        k < data.operations@.len(),
    ensures
        r == heaptrack_readable(data, selected@, k as int),
{
    let op = data.operations[k];
    let id = op.id();
    let count = data.allocations.len();
    if id.0 >= count as u64 {
        return false;
    }
    let a = data.get_allocation(id);
    let index = id.0 as usize;
    if selected[index] && !backtrace_usable_now(data, a.backtrace) {
        return false;
    }
    if op.is_reallocation() {
        let previous = match a.reallocated_from {
            Some(p) => p,
            None => return false,
        };
        if previous.0 >= count as u64 {
            return false;
        }
        let old = data.get_allocation(previous);
        if selected[previous.0 as usize] && !backtrace_usable_now(data, old.backtrace) {
            return false;
        }
    }
    true
}

/// Whether the data's operations can be exported in the heaptrack format
/// with this selection.
pub fn can_export_heaptrack(data: &Data, selected: &Vec<bool>) -> (r: bool)
    ensures
        r == heaptrack_exportable(data, selected@),
{
    if selected.len() != data.allocations.len() {
        return false;
    }
    let n = data.operations.len();
    let mut k: usize = 0;
    while k < n
        invariant
            n == data.operations@.len(),
            selected@.len() == data.allocations@.len(),
            0 <= k <= n,
            forall|j: int| 0 <= j < k ==> #[trigger] heaptrack_readable(data, selected@, j),
        decreases n - k,
    {
        if !heaptrack_readable_now(data, selected, k) {
            return false;
        }
        k = k + 1;
    }
    true
}

} // verus!
