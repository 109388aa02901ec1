# bytehound analysis core, verified

The analysis side of a memory profiler: it loads a recording of
allocations, deallocations and backtraces, and filters, summarizes and
exports it. The library in `src/` is written in Verus; each public function
states in its contract what it computes, and Verus proves the code against
it. `app/` is the command line tool around the library: reading and writing
files, and the few steps that rest on floating point.

Layout of `src/`:

- `event.rs`, `reader.rs`, `lz4_stream.rs`: the events of a recording and
  the chunks of the stream that carries them.
- `loader.rs`, `loaded.rs`, `strings.rs`, `chains.rs`, `sorting.rs`: loading
  a recording into `Data`, with its string table and reallocation chains.
- `filter.rs`, `pattern.rs`, `group_usage.rs`: filters over allocations,
  with regular expressions over frames and bounds on backtrace groups.
- `squeeze.rs`, `squeeze_resolution.rs`: stripping short-lived allocations,
  and lowering the time resolution of freed ones to buckets.
- `postprocessor.rs`: rewriting a recording with its backtraces decoded.
- `tree.rs`, `tree_printer.rs`, `timeline.rs`, `cmd_analyze_size.rs`:
  trees of frames, timelines and size reports.
- `exporter_replay.rs`, `exporter_heaptrack.rs`, `exporter_flamegraph.rs`:
  the export formats.
- `range_map.rs`, `fast_range_map/`, `index_maps.rs`, `vecvec.rs`: the
  containers the rest uses; `index_maps.rs` holds the trusted contracts of
  the `ahash` maps.

Calls into outside crates (`ahash`, `hashbrown`, `lz4-compress`,
`rayon`, `regex`, `string-interner`) go through small trusted
functions whose contracts say what the crates' sources show; each is
marked `#[verifier::external_body]` and documented where it stands.
