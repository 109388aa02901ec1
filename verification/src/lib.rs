//! Verified core of a memory profiler's analysis tooling: timestamps,
//! identifiers of allocations and backtraces, interval maps over address
//! ranges, allocation filters and the framing of the compressed data stream.

mod timestamp;

pub use crate::timestamp::Timestamp;
mod ids;
pub use crate::ids::{AllocationId, OperationId, CodePointer, BacktraceId, StringId, ProtectionFlags, MapFlags};
pub mod fast_range_map;
mod frame;
pub use crate::frame::{Frame, nonzero};
mod data;
pub use crate::data::{
    SourceKey, AllocationChain, Deallocation, Allocation, GroupStatistics, MalloptKind, Mallopt,
    MemoryMap, MemoryUnmap, MmapOperation, CountAndSize, has_flag, mallopt_raw,
    ALLOCATION_IS_PREV_IN_USE, ALLOCATION_IS_MMAPED, ALLOCATION_IN_NON_MAIN_ARENA,
    ALLOCATION_IS_JEMALLOC, ALLOCATION_IS_SHARED_PTR, ALLOCATION_IS_CALLOC,
};
mod search;
pub use crate::search::{binary_search_range, ascending, within_bounds, is_lower_bound, is_upper_bound};
pub mod range_map;
pub mod event;
pub mod request;
mod index_maps;
pub mod loader;
pub mod chains;
pub mod sorting;
pub mod loaded;
pub mod timeline;
pub mod util;
pub mod squeeze;
pub mod group_usage;
pub mod filter;
pub mod exporter_replay;
pub mod cmd_analyze_size;
pub mod squeeze_resolution;
pub mod script_virtual;
pub mod reader;
pub mod vecvec;
pub mod lz4_stream;
pub mod script;
pub mod tree;
pub mod tree_printer;
pub mod postprocessor;
pub mod strings;
pub mod pattern;
pub mod symbol;
pub mod exporter_flamegraph;
pub mod exporter_heaptrack;
