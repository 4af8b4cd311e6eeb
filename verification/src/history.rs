//! Laws on sequences of events: what the counters say about everything that
//! was noted.

use crate::cpu_type::CpuType;
use crate::keys::{CompiledShape, FailedShapeKey, HeadKey};
use crate::model;
use crate::model::{ProfileView, Row};
use crate::rows::{TraceBlocker, TraceShapeOp};
use vstd::prelude::*;

verus! {

/// Something that the profiler is told.
pub enum Event {
    /// A backward branch to a trace head.
    BackwardEdge { pc: u32, cpu_type: CpuType, rejected: bool },
    /// A recording attempt.
    Recording { pc: u32, cpu_type: CpuType },
    /// A recording that failed.
    Blocker { pc: u32, cpu_type: CpuType, prefix_ops: nat, blocker: TraceBlocker },
    /// A path that was compiled.
    Compiled { pc: u32, cpu_type: CpuType, ops: Seq<TraceShapeOp> },
    /// A call into the trace executor.
    NativeCall { pc: u32, cpu_type: CpuType, retired: u32 },
    /// An exit through a guarded branch.
    GuardedBranchExit { pc: u32, cpu_type: CpuType },
    /// A trace that was recorded anew.
    AdaptiveRerecord { pc: u32, cpu_type: CpuType },
    /// An execution through the decoded memory fast path.
    DecodedMem { pc: u32, opcode: u16 },
}

/// The profile after one more event.
#[verifier::opaque]
pub open spec fn after(p: ProfileView, event: Event) -> ProfileView {
    match event {
        Event::BackwardEdge { pc, cpu_type, rejected } => {
            p.after_backward_edge(pc, cpu_type, rejected)
        },
        Event::Recording { pc, cpu_type } => p.after_recording(pc, cpu_type),
        Event::Blocker { pc, cpu_type, prefix_ops, blocker } => {
            p.after_blocker(pc, cpu_type, prefix_ops, blocker)
        },
        Event::Compiled { pc, cpu_type, ops } => p.after_compiled(pc, cpu_type, ops),
        Event::NativeCall { pc, cpu_type, retired } => p.after_native_call(pc, cpu_type, retired),
        Event::GuardedBranchExit { pc, cpu_type } => p.after_guarded_branch_exit(pc, cpu_type),
        Event::AdaptiveRerecord { pc, cpu_type } => p.after_adaptive_rerecord(pc, cpu_type),
        Event::DecodedMem { pc, opcode } => p.after_decoded_mem(pc, opcode),
    }
}

/// The profile that events lead to, from a fresh or reset profiler.
pub open spec fn profile_after(events: Seq<Event>) -> ProfileView
    decreases events.len(),
{
    if events.len() == 0 {
        ProfileView::empty()
    } else {
        after(profile_after(events.drop_last()), events.last())
    }
}

/// How many of the events are of a kind.
pub open spec fn count(events: Seq<Event>, kind: spec_fn(Event) -> bool) -> nat
    decreases events.len(),
{
    if events.len() == 0 {
        0
    } else {
        count(events.drop_last(), kind) + if kind(events.last()) {
            1nat
        } else {
            0
        }
    }
}

/// The trace head that an event is about.
pub open spec fn head_of(event: Event) -> Option<HeadKey> {
    match event {
        Event::BackwardEdge { pc, cpu_type, .. } => Some(model::head(pc, cpu_type)),
        Event::Recording { pc, cpu_type } => Some(model::head(pc, cpu_type)),
        Event::Blocker { pc, cpu_type, .. } => Some(model::head(pc, cpu_type)),
        Event::Compiled { pc, cpu_type, .. } => Some(model::head(pc, cpu_type)),
        Event::NativeCall { pc, cpu_type, .. } => Some(model::head(pc, cpu_type)),
        Event::GuardedBranchExit { pc, cpu_type } => Some(model::head(pc, cpu_type)),
        Event::AdaptiveRerecord { pc, cpu_type } => Some(model::head(pc, cpu_type)),
        Event::DecodedMem { .. } => None,
    }
}

/// Events about a trace head.
pub open spec fn at(h: HeadKey) -> spec_fn(Event) -> bool {
    |event: Event| head_of(event) == Some(h)
}

/// Backward branches to a trace head.
pub open spec fn backward_edge(h: HeadKey) -> spec_fn(Event) -> bool {
    |event: Event| event is BackwardEdge && head_of(event) == Some(h)
}

/// Rejected entries at a trace head.
pub open spec fn rejected_edge(h: HeadKey) -> spec_fn(Event) -> bool {
    |event: Event|
        event is BackwardEdge && event->BackwardEdge_rejected && head_of(event) == Some(h)
}

/// Recording attempts at a trace head.
pub open spec fn recording(h: HeadKey) -> spec_fn(Event) -> bool {
    |event: Event| event is Recording && head_of(event) == Some(h)
}

/// Executor calls for a trace head.
pub open spec fn native_call(h: HeadKey) -> spec_fn(Event) -> bool {
    |event: Event| event is NativeCall && head_of(event) == Some(h)
}

/// Exits through guarded branches of a trace head.
pub open spec fn guarded_branch_exit(h: HeadKey) -> spec_fn(Event) -> bool {
    |event: Event| event is GuardedBranchExit && head_of(event) == Some(h)
}

/// Re-recordings at a trace head.
pub open spec fn adaptive_rerecord(h: HeadKey) -> spec_fn(Event) -> bool {
    |event: Event| event is AdaptiveRerecord && head_of(event) == Some(h)
}

/// Recordings that failed with a path.
pub open spec fn failed_with(f: FailedShapeKey) -> spec_fn(Event) -> bool {
    |event: Event|
        match event {
            Event::Blocker { pc, cpu_type, prefix_ops, blocker } => model::failed_shape(
                pc,
                cpu_type,
                prefix_ops,
                blocker,
            ) == f,
            _ => false,
        }
}

/// Compilations of a path.
pub open spec fn compiled_as(c: CompiledShape) -> spec_fn(Event) -> bool {
    |event: Event|
        match event {
            Event::Compiled { pc, cpu_type, ops } => model::compiled_shape(pc, cpu_type, ops) == c,
            _ => false,
        }
}

/// Executions of an opcode.
pub open spec fn executed(opcode: u16) -> spec_fn(Event) -> bool {
    |event: Event| event is DecodedMem && event->DecodedMem_opcode == opcode
}

/// Executions at a site.
pub open spec fn executed_at(site: (u32, u16)) -> spec_fn(Event) -> bool {
    |event: Event| event == (Event::DecodedMem { pc: site.0, opcode: site.1 })
}

/// Instructions that executor calls retired for a trace head.
pub open spec fn retired(events: Seq<Event>, h: HeadKey) -> nat
    decreases events.len(),
{
    if events.len() == 0 {
        0
    } else {
        retired(events.drop_last(), h) + if native_call(h)(events.last()) {
            events.last()->NativeCall_retired as nat
        } else {
            0
        }
    }
}

/// The longest prefix, in its lowest 32 bits, at which a recording of a trace
/// head failed.
pub open spec fn longest_prefix(events: Seq<Event>, h: HeadKey) -> u32
    decreases events.len(),
{
    if events.len() == 0 {
        0
    } else {
        let earlier = longest_prefix(events.drop_last(), h);
        match events.last() {
            Event::Blocker { prefix_ops, .. } => if head_of(events.last()) == Some(h)
                && model::low_32_bits(prefix_ops) > earlier {
                model::low_32_bits(prefix_ops)
            } else {
                earlier
            },
            _ => earlier,
        }
    }
}

/// The length, in its lowest 32 bits, of the path last compiled for a trace
/// head.
pub open spec fn latest_length(events: Seq<Event>, h: HeadKey) -> u32
    decreases events.len(),
{
    if events.len() == 0 {
        0
    } else {
        match events.last() {
            Event::Compiled { ops, .. } => if head_of(events.last()) == Some(h) {
                model::low_32_bits(ops.len())
            } else {
                latest_length(events.drop_last(), h)
            },
            _ => latest_length(events.drop_last(), h),
        }
    }
}

/// The counters of a trace head after an event about it.
pub open spec fn row_after(row: Row, event: Event) -> Row {
    match event {
        Event::BackwardEdge { rejected, .. } => Row {
            backward_hits: model::capped_add(row.backward_hits, 1),
            rejected_hits: if rejected {
                model::capped_add(row.rejected_hits, 1)
            } else {
                row.rejected_hits
            },
            ..row
        },
        Event::Recording { .. } => Row {
            recording_attempts: model::capped_add(row.recording_attempts, 1),
            ..row
        },
        Event::Blocker { prefix_ops, blocker, .. } => if model::low_32_bits(prefix_ops)
            >= row.prefix_ops {
            Row {
                prefix_ops: model::low_32_bits(prefix_ops),
                blocker_pc: Some(blocker.pc),
                blocker_opcode: Some(blocker.executed_opcode),
                ..row
            }
        } else {
            row
        },
        Event::Compiled { ops, .. } => Row { compiled_ops: model::low_32_bits(ops.len()), ..row },
        Event::NativeCall { retired, .. } => Row {
            native_calls: model::capped_add(row.native_calls, 1),
            jit_retired: model::capped_add(row.jit_retired, retired as u64),
            ..row
        },
        Event::GuardedBranchExit { .. } => Row {
            guarded_branch_exits: model::capped_add(row.guarded_branch_exits, 1),
            ..row
        },
        Event::AdaptiveRerecord { .. } => Row {
            adaptive_rerecords: model::capped_add(row.adaptive_rerecords, 1),
            ..row
        },
        Event::DecodedMem { .. } => row,
    }
}

/// An event changes the row of its own trace head alone.
pub proof fn law_event_leaves_other_heads(p: ProfileView, event: Event, h: HeadKey)
    requires
        head_of(event) != Some(h),
    ensures
        after(p, event).rows.contains_key(h) == p.rows.contains_key(h),
        after(p, event).row(h) == p.row(h),
{
    reveal(after);
}

/// What an event does to the counters of its own trace head.
pub proof fn lemma_event_changes_head(p: ProfileView, event: Event, h: HeadKey)
    requires
        head_of(event) == Some(h),
    ensures
        after(p, event).rows.contains_key(h),
        after(p, event).row(h) == row_after(p.row(h), event),
{
    reveal(after);
}

/// Every counter of a trace head is the number of events that it counts, capped
/// at the largest count; its prefix is the longest one that was noted, and its
/// compiled length that of the path compiled last. A trace head has a row once
/// an event was about it.
pub proof fn law_rows_count_events(events: Seq<Event>, h: HeadKey)
    ensures
        ({
            let p = profile_after(events);
            let row = p.row(h);
            &&& p.rows.contains_key(h) <==> count(events, at(h)) > 0
            &&& row.backward_hits == model::capped(count(events, backward_edge(h)))
            &&& row.rejected_hits == model::capped(count(events, rejected_edge(h)))
            &&& row.recording_attempts == model::capped(count(events, recording(h)))
            &&& row.native_calls == model::capped(count(events, native_call(h)))
            &&& row.jit_retired == model::capped(retired(events, h))
            &&& row.guarded_branch_exits == model::capped(count(events, guarded_branch_exit(h)))
            &&& row.adaptive_rerecords == model::capped(count(events, adaptive_rerecord(h)))
            &&& row.prefix_ops == longest_prefix(events, h)
            &&& row.compiled_ops == latest_length(events, h)
        }),
    decreases events.len(),
{
    if events.len() > 0 {
        let p = profile_after(events.drop_last());
        let event = events.last();
        law_rows_count_events(events.drop_last(), h);
        assert(profile_after(events) == after(p, event));
        if head_of(event) == Some(h) {
            lemma_event_changes_head(p, event, h);
        } else {
            law_event_leaves_other_heads(p, event, h);
        }
    }
}

/// A failed path is in the table once a recording failed with it, with the
/// number of those recordings.
pub proof fn law_failed_shapes_count_events(events: Seq<Event>, f: FailedShapeKey)
    ensures
        ({
            let p = profile_after(events);
            let n = count(events, failed_with(f));
            &&& p.failed_shapes.contains_key(f) <==> n > 0
            &&& n > 0 ==> p.failed_shapes[f] == model::capped(n)
        }),
    decreases events.len(),
{
    if events.len() > 0 {
        reveal(after);
        law_failed_shapes_count_events(events.drop_last(), f);
    }
}

/// A compiled path is in the table once it was compiled, with the number of
/// its compilations.
pub proof fn law_compiled_shapes_count_events(events: Seq<Event>, c: CompiledShape)
    ensures
        ({
            let p = profile_after(events);
            let n = count(events, compiled_as(c));
            &&& p.compiled_shapes.contains_key(c) <==> n > 0
            &&& n > 0 ==> p.compiled_shapes[c] == model::capped(n)
        }),
    decreases events.len(),
{
    if events.len() > 0 {
        reveal(after);
        law_compiled_shapes_count_events(events.drop_last(), c);
    }
}

/// The counts of an opcode and of a site are the numbers of their executions.
pub proof fn law_decoded_mem_counts_events(events: Seq<Event>, site: (u32, u16))
    ensures
        ({
            let p = profile_after(events);
            let n = count(events, executed_at(site));
            &&& p.decoded_mem_counts.len() == model::DECODE_TABLE_SIZE
            &&& p.decoded_mem_counts[site.1 as int] == model::capped(
                count(events, executed(site.1)),
            )
            &&& p.decoded_mem_sites.contains_key(site) <==> n > 0
            &&& n > 0 ==> p.decoded_mem_sites[site] == model::capped(n)
        }),
    decreases events.len(),
{
    if events.len() > 0 {
        reveal(after);
        law_decoded_mem_counts_events(events.drop_last(), site);
    }
}

/// Every event keeps a profile coherent.
pub proof fn law_event_keeps_coherence(p: ProfileView, event: Event)
    requires
        p.coherent(),
    ensures
        after(p, event).coherent(),
{
    reveal(after);
    match event {
        Event::Blocker { pc, cpu_type, prefix_ops, blocker } => {
            model::lemma_blocker_coherent(p, pc, cpu_type, prefix_ops, blocker);
        },
        Event::Compiled { pc, cpu_type, ops } => {
            model::lemma_compiled_coherent(p, pc, cpu_type, ops);
        },
        Event::DecodedMem { pc, opcode } => {
            model::lemma_decoded_mem_coherent(p, pc, opcode);
        },
        _ => {
            let h = head_of(event).unwrap();
            let row = after(p, event).rows[h];
            model::lemma_counters_coherent(p, h, row);
        },
    }
}

/// Every profile that events lead to is coherent.
pub proof fn law_history_coherent(events: Seq<Event>)
    ensures
        profile_after(events).coherent(),
    decreases events.len(),
{
    if events.len() == 0 {
        model::lemma_empty_coherent();
    } else {
        law_history_coherent(events.drop_last());
        law_event_keeps_coherence(profile_after(events.drop_last()), events.last());
    }
}

/// Instructions that executor calls retired, over all trace heads.
pub open spec fn all_retired(events: Seq<Event>) -> nat
    decreases events.len(),
{
    if events.len() == 0 {
        0
    } else {
        all_retired(events.drop_last()) + match events.last() {
            Event::NativeCall { retired, .. } => retired as nat,
            _ => 0,
        }
    }
}

/// There are no more events of a kind than events.
proof fn lemma_count_at_most(events: Seq<Event>, kind: spec_fn(Event) -> bool)
    ensures
        count(events, kind) <= events.len(),
    decreases events.len(),
{
    if events.len() > 0 {
        lemma_count_at_most(events.drop_last(), kind);
    }
}

/// A trace head retires no more instructions than all of them together.
proof fn lemma_retired_at_most(events: Seq<Event>, h: HeadKey)
    ensures
        retired(events, h) <= all_retired(events),
    decreases events.len(),
{
    if events.len() > 0 {
        lemma_retired_at_most(events.drop_last(), h);
    }
}

/// As long as no counter can have reached the largest count, the totals are
/// the numbers of events over all trace heads and opcodes.
pub proof fn law_totals_count_events(events: Seq<Event>)
    requires
        events.len() <= u64::MAX,
        all_retired(events) <= u64::MAX,
    ensures
        ({
            let p = profile_after(events);
            let totals = p.totals();
            &&& totals.backward_hits == count(events, |event: Event| event is BackwardEdge)
            &&& totals.rejected_hits == count(
                events,
                |event: Event| event is BackwardEdge && event->BackwardEdge_rejected,
            )
            &&& totals.native_calls == count(events, |event: Event| event is NativeCall)
            &&& totals.jit_retired == all_retired(events)
            &&& p.decoded_mem_total() == count(events, |event: Event| event is DecodedMem)
        }),
    decreases events.len(),
{
    let q = profile_after(events);
    if events.len() == 0 {
        model::lemma_empty_coherent();
    } else {
        let earlier = events.drop_last();
        let event = events.last();
        let p = profile_after(earlier);
        law_totals_count_events(earlier);
        law_history_coherent(earlier);
        match event {
            Event::DecodedMem { pc, opcode } => {
                reveal(after);
                law_decoded_mem_counts_events(earlier, (pc, opcode));
                lemma_count_at_most(earlier, executed(opcode));
                crate::sums::lemma_list_sum_update(
                    p.decoded_mem_counts,
                    |executions: u64| executions as nat,
                    opcode as int,
                    q.decoded_mem_counts[opcode as int],
                );
            },
            _ => {
                let h = head_of(event).unwrap();
                law_rows_count_events(earlier, h);
                lemma_count_at_most(earlier, backward_edge(h));
                lemma_count_at_most(earlier, rejected_edge(h));
                lemma_count_at_most(earlier, native_call(h));
                lemma_retired_at_most(earlier, h);
                lemma_event_changes_head(p, event, h);
                let row = q.rows[h];
                assert(q.rows == p.rows.insert(h, row) && q.decoded_mem_counts
                    == p.decoded_mem_counts) by {
                    reveal(after);
                }
                model::lemma_with_row_totals(p, h, row);
            },
        }
    }
}

/// Whether no counter of a row went down.
pub open spec fn row_grew(a: Row, b: Row) -> bool {
    &&& a.backward_hits <= b.backward_hits
    &&& a.rejected_hits <= b.rejected_hits
    &&& a.recording_attempts <= b.recording_attempts
    &&& a.prefix_ops <= b.prefix_ops
    &&& a.native_calls <= b.native_calls
    &&& a.jit_retired <= b.jit_retired
    &&& a.guarded_branch_exits <= b.guarded_branch_exits
    &&& a.adaptive_rerecords <= b.adaptive_rerecords
}

/// Whether no count of a table went down, and no entry went away.
pub open spec fn counts_grew<K>(a: Map<K, u64>, b: Map<K, u64>) -> bool {
    forall|k: K| #[trigger] a.contains_key(k) ==> b.contains_key(k) && a[k] <= b[k]
}

/// No event takes anything back: counters and counts only grow, and entries
/// stay.
pub proof fn law_events_only_add(p: ProfileView, event: Event)
    requires
        p.decoded_mem_counts.len() == model::DECODE_TABLE_SIZE,
    ensures
        ({
            let q = after(p, event);
            &&& forall|h: HeadKey| #[trigger]
                p.rows.contains_key(h) ==> q.rows.contains_key(h) && row_grew(
                    p.rows[h],
                    q.rows[h],
                )
            &&& counts_grew(p.failed_shapes, q.failed_shapes)
            &&& counts_grew(p.compiled_shapes, q.compiled_shapes)
            &&& counts_grew(p.decoded_mem_sites, q.decoded_mem_sites)
            &&& forall|opcode: u16|
                (#[trigger] p.decoded_mem_counts[opcode as int])
                    <= q.decoded_mem_counts[opcode as int]
        }),
{
    let q = after(p, event);
    assert forall|h: HeadKey| #[trigger] p.rows.contains_key(h) implies q.rows.contains_key(h)
        && row_grew(p.rows[h], q.rows[h]) by {
        if head_of(event) == Some(h) {
            lemma_event_changes_head(p, event, h);
        } else {
            law_event_leaves_other_heads(p, event, h);
        }
    }
    reveal(after);
}

} // verus!
