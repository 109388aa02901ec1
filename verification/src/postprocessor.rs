//! Rewriting a recording with its backtraces decoded: each backtrace is
//! replaced by the frames it adds and the list of its frames, and every
//! event that refers to a backtrace refers to the decoded one instead.

use vstd::prelude::*;
use crate::event::{Event, AllocBody, HeaderBody};
use crate::frame::Frame;
use crate::loader::{Loader, LoaderState, unknown_frame, lemma_backtrace_extends, initial_state, wall_clock_usecs};
use crate::loaded::backtrace_frames;

verus! {

/// A backtrace, full or partial.
pub open spec fn is_backtrace_event(event: Event) -> bool {
    event is Backtrace || event is PartialBacktrace || event is PartialBacktrace32
}

/// The contents of an executable in the ELF format.
pub open spec fn is_elf(contents: Seq<u8>) -> bool {
    contents.len() >= 4 && contents[0] == 0x7f && contents[1] == 0x45 && contents[2] == 0x4c && contents[3] == 0x46
}

/// The decoded backtrace that a raw backtrace identifier stands for, or
/// none (all ones).
pub open spec fn remapped(s: LoaderState, raw: u64) -> u64 {
    if s.backtrace_ids.contains_key(raw) {
        s.backtrace_of(raw) as u64
    } else {
        u64::MAX
    }
}

/// The event that describes a frame of which only the address is known:
/// no library, function, source, line or column (all ones).
pub open spec fn decoded_frame(frame: Frame) -> Event {
    Event::DecodedFrame {
        address: frame.address.0,
        library: 0xFFFF_FFFF,
        raw_function: 0xFFFF_FFFF,
        function: 0xFFFF_FFFF,
        source: 0xFFFF_FFFF,
        line: 0xFFFF_FFFF,
        column: 0xFFFF_FFFF,
        is_inline: false,
    }
}

/// What a backtrace event is replaced by: where it adds a backtrace, the
/// frames it adds and then the list of the new backtrace's frames; where it
/// repeats a known one, nothing.
pub open spec fn decoded(before: LoaderState, after: LoaderState, out: Seq<Event>) -> bool {
    if after.backtraces.len() > before.backtraces.len() {
        let fresh = after.frames.subrange(before.frames.len() as int, after.frames.len() as int);
        &&& out.len() == fresh.len() + 1
        &&& forall|i: int| 0 <= i < fresh.len() ==> out[i] == decoded_frame(#[trigger] fresh[i])
        &&& out.last() matches Event::DecodedBacktrace { frames } && frames@ == backtrace_frames(
            after.backtraces, after.backtraces_storage, before.backtraces.len() as int).map_values(|f: usize| f as u32)
    } else {
        out.len() == 0
    }
}

/// What an event is replaced by, with the loader's knowledge before and
/// after it.
pub open spec fn postprocessed(before: LoaderState, after: LoaderState, event: Event, out: Seq<Event>) -> bool {
    match event {
        Event::Backtrace { .. } => decoded(before, after, out),
        Event::PartialBacktrace { .. } => decoded(before, after, out),
        Event::PartialBacktrace32 { .. } => decoded(before, after, out),
        Event::Alloc { timestamp, allocation } => out == seq![
            Event::Alloc { timestamp, allocation: AllocBody { backtrace: remapped(before, allocation.backtrace), ..allocation } },
        ],
        Event::Realloc { timestamp, old_pointer, allocation } => out == seq![
            Event::Realloc {
                timestamp,
                old_pointer,
                allocation: AllocBody { backtrace: remapped(before, allocation.backtrace), ..allocation },
            },
        ],
        Event::Free { timestamp, pointer, backtrace, thread } => out == seq![
            Event::Free { timestamp, pointer, backtrace: remapped(before, backtrace), thread },
        ],
        Event::MemoryMap {
            timestamp,
            pointer,
            length,
            backtrace,
            requested_address,
            mmap_protection,
            mmap_flags,
            file_descriptor,
            thread,
            offset,
        } => out == seq![
            Event::MemoryMap {
                timestamp,
                pointer,
                length,
                backtrace: remapped(before, backtrace),
                requested_address,
                mmap_protection,
                mmap_flags,
                file_descriptor,
                thread,
                offset,
            },
        ],
        Event::MemoryUnmap { timestamp, pointer, length, backtrace, thread } => out == seq![
            Event::MemoryUnmap { timestamp, pointer, length, backtrace: remapped(before, backtrace), thread },
        ],
        Event::Mallopt { timestamp, backtrace, thread, param, value, result } => out == seq![
            Event::Mallopt { timestamp, backtrace: remapped(before, backtrace), thread, param, value, result },
        ],
        Event::GroupStatistics { backtrace, first_allocation, last_allocation, free_count, free_size, min_size, max_size } => out
            == seq![
            Event::GroupStatistics {
                backtrace: remapped(before, backtrace),
                first_allocation,
                last_allocation,
                free_count,
                free_size,
                min_size,
                max_size,
            },
        ],
        Event::File { contents, .. } => if is_elf(contents@) {
            out.len() == 0
        } else {
            out == seq![event]
        },
        _ => out == seq![event],
    }
}

/// Decodes the backtraces of a recording as its events pass.
pub struct Postprocessor {
    pub loader: Loader,
}

fn decoded_frame_of(frame: &Frame) -> (event: Event)
    requires
        *frame == unknown_frame(frame.address.0),
    ensures
        event == decoded_frame(*frame),
{
    Event::DecodedFrame {
        address: frame.address.0,
        library: 0xFFFF_FFFF,
        raw_function: 0xFFFF_FFFF,
        function: 0xFFFF_FFFF,
        source: 0xFFFF_FFFF,
        line: 0xFFFF_FFFF,
        column: 0xFFFF_FFFF,
        is_inline: false,
    }
}

fn single(event: Event) -> (out: Vec<Event>)
    ensures
        out@ == seq![event],
{
    let mut out = Vec::new();
    out.push(event);
    proof {
        assert(out@ =~= seq![event]);
    }
    out
}

impl Postprocessor {
    /// A postprocessor for the recording that `header` opens.
    pub fn new(header: HeaderBody) -> (p: Postprocessor)
        requires
            wall_clock_usecs(header.wall_clock_secs, header.wall_clock_nsecs) <= u64::MAX,
        ensures
            p.loader.wf(),
            p.loader@ == initial_state(header),
            p.loader.recording() == header,
    {
        Postprocessor { loader: Loader::new(header) }
    }

    /// Whether `event` can be taken in: a backtrace must fit in the loader.
    pub fn can_process(&self, event: &Event) -> (r: bool)
        requires
            self.loader.wf(),
        ensures
            r == (is_backtrace_event(*event) ==> self.loader@.accepts(self.loader.recording(), *event)),
    {
        match event {
            Event::Backtrace { .. } | Event::PartialBacktrace { .. } | Event::PartialBacktrace32 { .. } => {
                self.loader.can_process(event)
            },
            _ => true,
        }
    }

    /// The decoded backtrace that a raw backtrace identifier stands for, or
    /// all ones.
    fn remap(&self, raw: u64) -> (id: u64)
        requires
            self.loader.wf(),
        ensures
            id == remapped(self.loader@, raw),
    {
        match self.loader.lookup_backtrace(raw) {
            Some(target) => target.0 as u64,
            None => u64::MAX,
        }
    }

    /// Takes in a backtrace and gives what replaces it.
    fn decode_backtrace(&mut self, event: Event) -> (out: Vec<Event>)
        requires
            old(self).loader.wf(),
            is_backtrace_event(event),
            old(self).loader@.accepts(old(self).loader.recording(), event),
        ensures
            final(self).loader.wf(),
            final(self).loader.recording() == old(self).loader.recording(),
            final(self).loader@ == old(self).loader@.next(event),
            decoded(old(self).loader@, final(self).loader@, out@),
    {
        let ghost before = self.loader@;
        let frames_before = self.loader.frame_count();
        let backtraces_before = self.loader.backtrace_count();
        proof {
            match event {
                Event::Backtrace { id, ref addresses } => lemma_backtrace_extends(before, id, addresses@),
                Event::PartialBacktrace { id, thread, frames_invalidated, ref addresses } => lemma_backtrace_extends(
                    before, id, before.expanded_for(thread, frames_invalidated, addresses@)),
                Event::PartialBacktrace32 { id, thread, frames_invalidated, ref addresses } => lemma_backtrace_extends(
                    before, id, before.expanded_for(thread, frames_invalidated, crate::loader::widened(addresses@))),
                _ => {},
            }
        }
        self.loader.process(event);
        let ghost after = self.loader@;
        let mut out: Vec<Event> = Vec::new();
        let backtraces_after = self.loader.backtrace_count();
        if backtraces_after > backtraces_before {
            let frames_after = self.loader.frame_count();
            let mut f: usize = frames_before;
            while f < frames_after
                invariant
                    self.loader.wf(),
                    self.loader@ == after,
                    frames_before == before.frames.len(),
                    frames_after == after.frames.len(),
                    frames_before <= f <= frames_after,
                    forall|i: int| frames_before <= i < after.frames.len()
                        ==> #[trigger] after.frames[i] == unknown_frame(after.frames[i].address.0),
                    out@.len() == f - frames_before,
                    forall|i: int| 0 <= i < out@.len()
                        ==> out@[i] == decoded_frame(#[trigger] after.frames[frames_before + i]),
                decreases frames_after - f,
            {
                let frame = self.loader.get_frame(f);
                out.push(decoded_frame_of(frame));
                f = f + 1;
            }
            let ids = self.loader.stored_frames(backtraces_before);
            let mut frames: Vec<u32> = Vec::new();
            let mut j: usize = 0;
            while j < ids.len()
                invariant
                    0 <= j <= ids@.len(),
                    frames@ == ids@.take(j as int).map_values(|f: usize| f as u32),
                decreases ids@.len() - j,
            {
                frames.push(ids[j] as u32);
                proof {
                    assert(frames@ =~= ids@.take(j + 1).map_values(|f: usize| f as u32));
                }
                j = j + 1;
            }
            proof {
                assert(ids@.take(ids@.len() as int) =~= ids@);
            }
            let ghost listed = out@;
            out.push(Event::DecodedBacktrace { frames });
            proof {
                let fresh = after.frames.subrange(before.frames.len() as int, after.frames.len() as int);
                assert forall|i: int| 0 <= i < fresh.len() implies out@[i] == decoded_frame(#[trigger] fresh[i]) by {
                    assert(out@[i] == listed[i]);
                    assert(fresh[i] == after.frames[frames_before + i]);
                }
            }
        }
        out
    }

    /// Takes in one event and gives the events that replace it.
    pub fn process(&mut self, event: Event) -> (out: Vec<Event>)
        requires
            old(self).loader.wf(),
            is_backtrace_event(event) ==> old(self).loader@.accepts(old(self).loader.recording(), event),
        ensures
            final(self).loader.wf(),
            final(self).loader.recording() == old(self).loader.recording(),
            final(self).loader@ == (if is_backtrace_event(event) {
                old(self).loader@.next(event)
            } else {
                old(self).loader@
            }),
            postprocessed(old(self).loader@, final(self).loader@, event, out@),
    {
        match event {
            Event::Backtrace { .. } => self.decode_backtrace(event),
            Event::PartialBacktrace { .. } => self.decode_backtrace(event),
            Event::PartialBacktrace32 { .. } => self.decode_backtrace(event),
            Event::Alloc { timestamp, allocation } => {
                let backtrace = self.remap(allocation.backtrace);
                single(Event::Alloc { timestamp, allocation: AllocBody { backtrace, ..allocation } })
            },
            Event::Realloc { timestamp, old_pointer, allocation } => {
                let backtrace = self.remap(allocation.backtrace);
                single(Event::Realloc { timestamp, old_pointer, allocation: AllocBody { backtrace, ..allocation } })
            },
            Event::Free { timestamp, pointer, backtrace, thread } => {
                let backtrace = self.remap(backtrace);
                single(Event::Free { timestamp, pointer, backtrace, thread })
            },
            Event::MemoryMap {
                timestamp,
                pointer,
                length,
                backtrace,
                requested_address,
                mmap_protection,
                mmap_flags,
                file_descriptor,
                thread,
                offset,
            } => {
                let backtrace = self.remap(backtrace);
                single(
                    Event::MemoryMap {
                        timestamp,
                        pointer,
                        length,
                        backtrace,
                        requested_address,
                        mmap_protection,
                        mmap_flags,
                        file_descriptor,
                        thread,
                        offset,
                    },
                )
            },
            Event::MemoryUnmap { timestamp, pointer, length, backtrace, thread } => {
                let backtrace = self.remap(backtrace);
                single(Event::MemoryUnmap { timestamp, pointer, length, backtrace, thread })
            },
            Event::Mallopt { timestamp, backtrace, thread, param, value, result } => {
                let backtrace = self.remap(backtrace);
                single(Event::Mallopt { timestamp, backtrace, thread, param, value, result })
            },
            Event::GroupStatistics { backtrace, first_allocation, last_allocation, free_count, free_size, min_size, max_size } => {
                let backtrace = self.remap(backtrace);
                single(
                    Event::GroupStatistics {
                        backtrace,
                        first_allocation,
                        last_allocation,
                        free_count,
                        free_size,
                        min_size,
                        max_size,
                    },
                )
            },
            Event::File { timestamp, path, contents } => {
                let elf = contents.len() >= 4 && contents[0] == 0x7f && contents[1] == 0x45 && contents[2] == 0x4c
                    && contents[3] == 0x46;
                self.loader.process(Event::File { timestamp, path: path.clone(), contents: contents.clone() });
                if elf {
                    Vec::new()
                } else {
                    single(Event::File { timestamp, path, contents })
                }
            },
            _ => single(event),
        }
    }
}

} // verus!
