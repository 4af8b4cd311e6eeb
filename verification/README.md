# trace_profile

A verified profiler for 68k trace recording. A CPU core notes what its trace
recorder does: backward branches to a trace head, recordings that failed or were
compiled, calls into the trace executor, guarded branch exits, re-recordings, and
executions through the decoded memory fast path. The profiler counts, captures
the counters in a snapshot, and formats a snapshot as a ranked report.

- `src/model.rs`: what a profile holds, and what each event does to it
- `src/profile.rs`: the profiler, and the capture of a snapshot
- `src/listing.rs`: how a snapshot lists a profile
- `src/report.rs`: the text of the report
- `src/rows.rs`, `src/cpu_type.rs`, `src/keys.rs`: rows, CPU models, table keys
- `src/ordered.rs`, `src/ranking.rs`, `src/text.rs`, `src/double.rs`,
  `src/sums.rs`, `src/hasher.rs`: ordered tables, ranked order, number texts,
  binary64 ratios, sums, and hashing
- `src/history.rs`, `src/laws.rs`, `src/precision.rs`: laws on sequences of
  events, snapshots and reports, and on the written ratios
- `app/`: the profiler of the current thread, which prints its report at thread
  exit when `M68K_TRACE_PROFILE` is set
