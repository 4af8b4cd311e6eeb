//! How a snapshot lists what a profile holds.

use crate::cpu_type;
use crate::keys;
use crate::keys::{CompiledShape, FailedShapeKey, HeadKey};
use crate::model;
use crate::model::{ProfileView, Row, Totals};
use crate::rows::{
    CompiledTraceShapeProfileRow, DecodedMemProfileRow, DecodedMemSiteProfileRow,
    FailedTraceShapeProfileRow, TraceProfileRow, TraceProfileSnapshot,
};
use crate::sums;
use vstd::prelude::*;

verus! {

/// The trace head of a listed row.
pub open spec fn listed_head(row: TraceProfileRow) -> HeadKey {
    model::head(row.start_pc, row.cpu_type)
}

/// The row that lists the counters of a trace head.
pub open spec fn listed_row(h: HeadKey, row: Row) -> TraceProfileRow {
    TraceProfileRow {
        start_pc: h.start_pc,
        cpu_type: cpu_type::cpu_of_repr(h.cpu_type),
        backward_hits: row.backward_hits,
        rejected_hits: row.rejected_hits,
        recording_attempts: row.recording_attempts,
        prefix_ops: row.prefix_ops,
        blocker_pc: row.blocker_pc,
        blocker_opcode: row.blocker_opcode,
        compiled_ops: row.compiled_ops,
        native_calls: row.native_calls,
        jit_retired: row.jit_retired,
        guarded_branch_exits: row.guarded_branch_exits,
        adaptive_rerecords: row.adaptive_rerecords,
    }
}

/// Whether `rows` lists every trace head once, by address and then by CPU
/// model, with its counters.
pub open spec fn lists_rows(p: ProfileView, rows: Seq<TraceProfileRow>) -> bool {
    &&& forall|i: int|
        0 <= i < rows.len() ==> {
            let h = listed_head(#[trigger] rows[i]);
            p.rows.contains_key(h) && rows[i] == listed_row(h, p.rows[h])
        }
    &&& forall|i: int, j: int|
        0 <= i < j < rows.len() ==> keys::head_before(
            listed_head(#[trigger] rows[i]),
            listed_head(#[trigger] rows[j]),
        )
    &&& forall|h: HeadKey| #[trigger]
        p.rows.contains_key(h) ==> exists|i: int|
            0 <= i < rows.len() && listed_head(#[trigger] rows[i]) == h
}

/// The failed path of a listed row.
pub open spec fn listed_failed(row: FailedTraceShapeProfileRow) -> FailedShapeKey {
    FailedShapeKey {
        start_pc: row.start_pc,
        cpu_type: cpu_type::cpu_repr(row.cpu_type),
        prefix_ops: row.prefix_ops,
        blocker_pc: row.blocker_pc,
        executed_opcode: row.executed_opcode,
        memory_opcode: row.memory_opcode,
        extension: row.extension,
        extension2: row.extension2,
        reason: row.reason,
    }
}

/// Whether `rows` lists every failed path once, in order, with the number of
/// its recordings.
pub open spec fn lists_failed_shapes(
    p: ProfileView,
    rows: Seq<FailedTraceShapeProfileRow>,
) -> bool {
    &&& forall|i: int|
        0 <= i < rows.len() ==> {
            let shape = listed_failed(#[trigger] rows[i]);
            p.failed_shapes.contains_key(shape) && rows[i].recordings == p.failed_shapes[shape]
        }
    &&& forall|i: int, j: int|
        0 <= i < j < rows.len() ==> keys::failed_before(
            listed_failed(#[trigger] rows[i]),
            listed_failed(#[trigger] rows[j]),
        )
    &&& forall|shape: FailedShapeKey| #[trigger]
        p.failed_shapes.contains_key(shape) ==> exists|i: int|
            0 <= i < rows.len() && listed_failed(#[trigger] rows[i]) == shape
}

/// The compiled path of a listed row.
pub open spec fn listed_compiled(row: CompiledTraceShapeProfileRow) -> CompiledShape {
    model::compiled_shape(row.start_pc, row.cpu_type, row.ops@)
}

/// Whether `rows` lists every compiled path once, in order, with the number of
/// its recordings.
pub open spec fn lists_compiled_shapes(
    p: ProfileView,
    rows: Seq<CompiledTraceShapeProfileRow>,
) -> bool {
    &&& forall|i: int|
        0 <= i < rows.len() ==> {
            let shape = listed_compiled(#[trigger] rows[i]);
            p.compiled_shapes.contains_key(shape) && rows[i].recordings == p.compiled_shapes[shape]
        }
    &&& forall|i: int, j: int|
        0 <= i < j < rows.len() ==> keys::compiled_before(
            listed_compiled(#[trigger] rows[i]),
            listed_compiled(#[trigger] rows[j]),
        )
    &&& forall|shape: CompiledShape| #[trigger]
        p.compiled_shapes.contains_key(shape) ==> exists|i: int|
            0 <= i < rows.len() && listed_compiled(#[trigger] rows[i]) == shape
}

/// Whether `rows` lists every opcode that was executed, in order, with its
/// count.
pub open spec fn lists_decoded_mem_ops(p: ProfileView, rows: Seq<DecodedMemProfileRow>) -> bool {
    &&& forall|i: int|
        0 <= i < rows.len() ==> {
            &&& (#[trigger] rows[i]).executions == p.decoded_mem_counts[rows[i].opcode as int]
            &&& rows[i].executions != 0
        }
    &&& forall|i: int, j: int|
        0 <= i < j < rows.len() ==> (#[trigger] rows[i]).opcode < (#[trigger] rows[j]).opcode
    &&& forall|opcode: u16|
        (#[trigger] p.decoded_mem_counts[opcode as int]) != 0 ==> exists|i: int|
            0 <= i < rows.len() && (#[trigger] rows[i]).opcode == opcode
}

/// The site of a listed row.
pub open spec fn listed_site(row: DecodedMemSiteProfileRow) -> (u32, u16) {
    (row.pc, row.opcode)
}

/// Whether `rows` lists every site once, in some order, with its count.
pub open spec fn lists_decoded_mem_sites(
    p: ProfileView,
    rows: Seq<DecodedMemSiteProfileRow>,
) -> bool {
    &&& forall|i: int|
        0 <= i < rows.len() ==> {
            let site = listed_site(#[trigger] rows[i]);
            p.decoded_mem_sites.contains_key(site) && rows[i].executions
                == p.decoded_mem_sites[site]
        }
    &&& forall|i: int, j: int|
        0 <= i < j < rows.len() ==> listed_site(#[trigger] rows[i]) != listed_site(
            #[trigger] rows[j],
        )
    &&& forall|site: (u32, u16)| #[trigger]
        p.decoded_mem_sites.contains_key(site) ==> exists|i: int|
            0 <= i < rows.len() && listed_site(#[trigger] rows[i]) == site
}

/// The totals that a snapshot gives.
pub open spec fn listed_totals(s: TraceProfileSnapshot) -> Totals {
    Totals {
        backward_hits: s.backward_hits as nat,
        rejected_hits: s.rejected_hits as nat,
        native_calls: s.native_calls as nat,
        jit_retired: s.jit_retired as nat,
    }
}

/// The sum of a column over listed rows.
pub open spec fn column_totals(rows: Seq<TraceProfileRow>) -> Totals {
    Totals {
        backward_hits: sums::list_sum(rows, |row: TraceProfileRow| row.backward_hits as nat),
        rejected_hits: sums::list_sum(rows, |row: TraceProfileRow| row.rejected_hits as nat),
        native_calls: sums::list_sum(rows, |row: TraceProfileRow| row.native_calls as nat),
        jit_retired: sums::list_sum(rows, |row: TraceProfileRow| row.jit_retired as nat),
    }
}

/// Executions over all listed opcodes.
pub open spec fn executions_total(rows: Seq<DecodedMemProfileRow>) -> nat {
    sums::list_sum(rows, |row: DecodedMemProfileRow| row.executions as nat)
}

/// Whether a snapshot lists what a profile holds, with its totals.
pub open spec fn lists_profile(p: ProfileView, s: TraceProfileSnapshot) -> bool {
    &&& lists_rows(p, s.rows@)
    &&& lists_failed_shapes(p, s.failed_shapes@)
    &&& lists_compiled_shapes(p, s.compiled_shapes@)
    &&& lists_decoded_mem_ops(p, s.decoded_mem_ops@)
    &&& lists_decoded_mem_sites(p, s.decoded_mem_sites@)
    &&& listed_totals(s) == p.totals()
    &&& listed_totals(s) == column_totals(s.rows@)
    &&& executions_total(s.decoded_mem_ops@) == p.decoded_mem_total()
}

} // verus!
