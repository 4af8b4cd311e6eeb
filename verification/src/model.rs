//! What the profiler holds, as a mathematical value, and what each event does
//! to it.

use crate::cpu_type;
use crate::cpu_type::CpuType;
use crate::keys::{CompiledShape, FailedShapeKey, HeadKey};
use crate::rows::{TraceBlocker, TraceDecodeFailureReason, TraceShapeOp};
use crate::sums;
use vstd::prelude::*;

verus! {

/// Counters of one trace head.
#[derive(Debug, Clone, Copy, PartialEq, Eq, Structural)]
pub struct Row {
    /// Backward branches observed at the trace head.
    pub backward_hits: u64,
    /// Trace-entry attempts rejected by an unsupported operation.
    pub rejected_hits: u64,
    /// Number of trace-recording attempts.
    pub recording_attempts: u64,
    /// Longest supported prefix before the recorded blocker.
    pub prefix_ops: u32,
    /// Guest PC of the operation that blocked trace construction.
    pub blocker_pc: Option<u32>,
    /// Opcode word that blocked trace construction.
    pub blocker_opcode: Option<u16>,
    /// Number of operations in the current trace.
    pub compiled_ops: u32,
    /// Number of calls into the trace executor.
    pub native_calls: u64,
    /// Total guest instructions retired by trace execution.
    pub jit_retired: u64,
    /// Exits caused by a guarded branch taking an unrecorded direction.
    pub guarded_branch_exits: u64,
    /// Trace re-recordings triggered by adaptive branch behavior.
    pub adaptive_rerecords: u64,
}

/// The counters of a trace head that nothing was noted of.
pub open spec fn fresh_row() -> Row {
    Row {
        backward_hits: 0,
        rejected_hits: 0,
        recording_attempts: 0,
        prefix_ops: 0,
        blocker_pc: None,
        blocker_opcode: None,
        compiled_ops: 0,
        native_calls: 0,
        jit_retired: 0,
        guarded_branch_exits: 0,
        adaptive_rerecords: 0,
    }
}

/// Addition that stays at the largest count.
pub open spec fn capped_add(a: u64, b: u64) -> u64 {
    capped((a + b) as nat)
}

/// `n`, or the largest count where `n` is larger.
pub open spec fn capped(n: nat) -> u64 {
    if n > u64::MAX {
        u64::MAX
    } else {
        n as u64
    }
}

/// The lowest 32 bits of a length.
pub open spec fn low_32_bits(n: nat) -> u32 {
    (n % 0x1_0000_0000) as u32
}

/// A table of counts in which `key` was counted once more.
pub open spec fn counted<K>(counts: Map<K, u64>, key: K) -> Map<K, u64> {
    counts.insert(
        key,
        capped_add(
            if counts.contains_key(key) {
                counts[key]
            } else {
                0
            },
            1,
        ),
    )
}

/// Why reconstruction failed at an instruction: the opcode could not be
/// reread, it was reread as another one, or it is not traceable.
pub open spec fn failure_reason(
    executed_opcode: u16,
    memory_opcode: Option<u16>,
) -> TraceDecodeFailureReason {
    match memory_opcode {
        None => TraceDecodeFailureReason::OpcodeReadFailed,
        Some(opcode) => if opcode != executed_opcode {
            TraceDecodeFailureReason::OpcodeChanged
        } else {
            TraceDecodeFailureReason::UnsupportedFormOrOperandRead
        },
    }
}

/// The key of a trace head.
pub open spec fn head(start_pc: u32, cpu_type: CpuType) -> HeadKey {
    HeadKey { start_pc, cpu_type: cpu_type::cpu_repr(cpu_type) }
}

/// The trace head of a failed path.
pub open spec fn head_of_failed(shape: FailedShapeKey) -> HeadKey {
    HeadKey { start_pc: shape.start_pc, cpu_type: shape.cpu_type }
}

/// The trace head of a compiled path.
pub open spec fn head_of_compiled(shape: CompiledShape) -> HeadKey {
    HeadKey { start_pc: shape.start_pc, cpu_type: shape.cpu_type }
}

/// The failed path that a blocker describes.
pub open spec fn failed_shape(
    start_pc: u32,
    cpu_type: CpuType,
    prefix_ops: nat,
    blocker: TraceBlocker,
) -> FailedShapeKey {
    FailedShapeKey {
        start_pc,
        cpu_type: cpu_type::cpu_repr(cpu_type),
        prefix_ops: low_32_bits(prefix_ops),
        blocker_pc: blocker.pc,
        executed_opcode: blocker.executed_opcode,
        memory_opcode: blocker.memory_opcode,
        extension: blocker.extension,
        extension2: blocker.extension2,
        reason: failure_reason(blocker.executed_opcode, blocker.memory_opcode),
    }
}

/// The compiled path of a trace head.
pub open spec fn compiled_shape(
    start_pc: u32,
    cpu_type: CpuType,
    ops: Seq<TraceShapeOp>,
) -> CompiledShape {
    CompiledShape { start_pc, cpu_type: cpu_type::cpu_repr(cpu_type), ops }
}

/// Whether the blocker columns of a row describe a failed path.
pub open spec fn describes_blocker(f: FailedShapeKey, h: HeadKey, row: Row) -> bool {
    &&& head_of_failed(f) == h
    &&& f.prefix_ops == row.prefix_ops
    &&& row.blocker_pc == Some(f.blocker_pc)
    &&& row.blocker_opcode == Some(f.executed_opcode)
}

/// Whether the compiled length of a row is that of a compiled path.
pub open spec fn has_compiled_length(c: CompiledShape, h: HeadKey, row: Row) -> bool {
    &&& head_of_compiled(c) == h
    &&& low_32_bits(c.ops.len()) == row.compiled_ops
}

/// Counter totals over all trace heads.
pub struct Totals {
    /// Backward branches.
    pub backward_hits: nat,
    /// Rejected trace entries.
    pub rejected_hits: nat,
    /// Calls into a trace executor.
    pub native_calls: nat,
    /// Instructions retired by trace executors.
    pub jit_retired: nat,
}

impl Totals {
    /// Whether every total is a count that can be reported.
    pub open spec fn fit(self) -> bool {
        &&& self.backward_hits <= u64::MAX
        &&& self.rejected_hits <= u64::MAX
        &&& self.native_calls <= u64::MAX
        &&& self.jit_retired <= u64::MAX
    }
}

/// Backward branches of a trace head.
pub open spec fn backward_weight() -> spec_fn(HeadKey, Row) -> nat {
    |head: HeadKey, row: Row| row.backward_hits as nat
}

/// Rejected entries of a trace head.
pub open spec fn rejected_weight() -> spec_fn(HeadKey, Row) -> nat {
    |head: HeadKey, row: Row| row.rejected_hits as nat
}

/// Executor calls of a trace head.
pub open spec fn calls_weight() -> spec_fn(HeadKey, Row) -> nat {
    |head: HeadKey, row: Row| row.native_calls as nat
}

/// Retired instructions of a trace head.
pub open spec fn retired_weight() -> spec_fn(HeadKey, Row) -> nat {
    |head: HeadKey, row: Row| row.jit_retired as nat
}

/// Executions at a site, for sites of one opcode.
pub open spec fn opcode_weight(opcode: u16) -> spec_fn((u32, u16), u64) -> nat {
    |site: (u32, u16), executions: u64|
        if site.1 == opcode {
            executions as nat
        } else {
            0
        }
}

/// Everything the profiler holds.
#[verifier::ext_equal]
pub struct ProfileView {
    /// Counters per trace head.
    pub rows: Map<HeadKey, Row>,
    /// How often each failed path was recorded.
    pub failed_shapes: Map<FailedShapeKey, u64>,
    /// How often each path was compiled.
    pub compiled_shapes: Map<CompiledShape, u64>,
    /// Executions per opcode, at the place of the opcode.
    pub decoded_mem_counts: Seq<u64>,
    /// Executions per site: guest PC and opcode.
    pub decoded_mem_sites: Map<(u32, u16), u64>,
}

/// Number of opcode words.
pub const DECODE_TABLE_SIZE: usize = 0x1_0000;

impl ProfileView {
    /// The profile of nothing.
    pub open spec fn empty() -> ProfileView {
        ProfileView {
            rows: Map::empty(),
            failed_shapes: Map::empty(),
            compiled_shapes: Map::empty(),
            decoded_mem_counts: Seq::new(DECODE_TABLE_SIZE as nat, |i: int| 0u64),
            decoded_mem_sites: Map::empty(),
        }
    }

    /// The counters of a trace head.
    pub open spec fn row(self, head: HeadKey) -> Row {
        if self.rows.contains_key(head) {
            self.rows[head]
        } else {
            fresh_row()
        }
    }

    /// The profile with other counters for one trace head.
    pub open spec fn with_row(self, head: HeadKey, row: Row) -> ProfileView {
        ProfileView { rows: self.rows.insert(head, row), ..self }
    }

    /// The profile after a backward branch to a trace head.
    pub open spec fn after_backward_edge(
        self,
        pc: u32,
        cpu_type: CpuType,
        rejected: bool,
    ) -> ProfileView {
        let row = self.row(head(pc, cpu_type));
        self.with_row(
            head(pc, cpu_type),
            Row {
                backward_hits: capped_add(row.backward_hits, 1),
                rejected_hits: if rejected {
                    capped_add(row.rejected_hits, 1)
                } else {
                    row.rejected_hits
                },
                ..row
            },
        )
    }

    /// The profile after a recording attempt.
    pub open spec fn after_recording(self, pc: u32, cpu_type: CpuType) -> ProfileView {
        let row = self.row(head(pc, cpu_type));
        self.with_row(
            head(pc, cpu_type),
            Row { recording_attempts: capped_add(row.recording_attempts, 1), ..row },
        )
    }

    /// The profile after a recording failed at a blocker behind `prefix_ops`
    /// operations. The row keeps the longest prefix, and of equal ones the
    /// latest.
    pub open spec fn after_blocker(
        self,
        start_pc: u32,
        cpu_type: CpuType,
        prefix_ops: nat,
        blocker: TraceBlocker,
    ) -> ProfileView {
        let row = self.row(head(start_pc, cpu_type));
        let prefix = low_32_bits(prefix_ops);
        ProfileView {
            failed_shapes: counted(
                self.failed_shapes,
                failed_shape(start_pc, cpu_type, prefix_ops, blocker),
            ),
            ..self.with_row(
                head(start_pc, cpu_type),
                if prefix >= row.prefix_ops {
                    Row {
                        prefix_ops: prefix,
                        blocker_pc: Some(blocker.pc),
                        blocker_opcode: Some(blocker.executed_opcode),
                        ..row
                    }
                } else {
                    row
                },
            )
        }
    }

    /// The profile after a path was compiled.
    pub open spec fn after_compiled(
        self,
        pc: u32,
        cpu_type: CpuType,
        ops: Seq<TraceShapeOp>,
    ) -> ProfileView {
        let row = self.row(head(pc, cpu_type));
        ProfileView {
            compiled_shapes: counted(self.compiled_shapes, compiled_shape(pc, cpu_type, ops)),
            ..self.with_row(
                head(pc, cpu_type),
                Row { compiled_ops: low_32_bits(ops.len()), ..row },
            )
        }
    }

    /// The profile after a call into the trace executor.
    pub open spec fn after_native_call(
        self,
        pc: u32,
        cpu_type: CpuType,
        retired: u32,
    ) -> ProfileView {
        let row = self.row(head(pc, cpu_type));
        self.with_row(
            head(pc, cpu_type),
            Row {
                native_calls: capped_add(row.native_calls, 1),
                jit_retired: capped_add(row.jit_retired, retired as u64),
                ..row
            },
        )
    }

    /// The profile after an exit through a guarded branch.
    pub open spec fn after_guarded_branch_exit(self, pc: u32, cpu_type: CpuType) -> ProfileView {
        let row = self.row(head(pc, cpu_type));
        self.with_row(
            head(pc, cpu_type),
            Row { guarded_branch_exits: capped_add(row.guarded_branch_exits, 1), ..row },
        )
    }

    /// The profile after a trace was recorded anew.
    pub open spec fn after_adaptive_rerecord(self, pc: u32, cpu_type: CpuType) -> ProfileView {
        let row = self.row(head(pc, cpu_type));
        self.with_row(
            head(pc, cpu_type),
            Row { adaptive_rerecords: capped_add(row.adaptive_rerecords, 1), ..row },
        )
    }

    /// The profile after an execution through the decoded memory fast path.
    pub open spec fn after_decoded_mem(self, pc: u32, opcode: u16) -> ProfileView {
        ProfileView {
            decoded_mem_counts: self.decoded_mem_counts.update(
                opcode as int,
                capped_add(self.decoded_mem_counts[opcode as int], 1),
            ),
            decoded_mem_sites: counted(self.decoded_mem_sites, (pc, opcode)),
            ..self
        }
    }

    /// Counter totals over all trace heads.
    pub open spec fn totals(self) -> Totals {
        Totals {
            backward_hits: sums::table_sum(self.rows, backward_weight()),
            rejected_hits: sums::table_sum(self.rows, rejected_weight()),
            native_calls: sums::table_sum(self.rows, calls_weight()),
            jit_retired: sums::table_sum(self.rows, retired_weight()),
        }
    }

    /// Executions through the decoded memory fast path over all opcodes.
    pub open spec fn decoded_mem_total(self) -> nat {
        sums::list_sum(self.decoded_mem_counts, |executions: u64| executions as nat)
    }

    /// Executions of an opcode over all sites.
    pub open spec fn site_total(self, opcode: u16) -> nat {
        sums::table_sum(self.decoded_mem_sites, opcode_weight(opcode))
    }

    /// All tables have finitely many entries.
    pub open spec fn finite(self) -> bool {
        &&& self.rows.dom().finite()
        &&& self.failed_shapes.dom().finite()
        &&& self.compiled_shapes.dom().finite()
        &&& self.decoded_mem_sites.dom().finite()
    }

    /// Every row belongs to a known CPU model, and was rejected no more often
    /// than it was branched to.
    pub open spec fn rows_coherent(self) -> bool {
        forall|h: HeadKey| #[trigger]
            self.rows.contains_key(h) ==> {
                &&& h.cpu_type <= 10
                &&& self.rows[h].rejected_hits <= self.rows[h].backward_hits
            }
    }

    /// The blocker columns of a row describe a longest failed path of its
    /// trace head, and are empty exactly while there is none.
    pub open spec fn blockers_coherent(self) -> bool {
        &&& forall|f: FailedShapeKey| #[trigger]
            self.failed_shapes.contains_key(f) ==> {
                &&& self.failed_shapes[f] >= 1
                &&& f.reason == failure_reason(f.executed_opcode, f.memory_opcode)
                &&& self.rows.contains_key(head_of_failed(f))
                &&& self.rows[head_of_failed(f)].blocker_pc is Some
                &&& f.prefix_ops <= self.rows[head_of_failed(f)].prefix_ops
            }
        &&& forall|h: HeadKey| #[trigger]
            self.rows.contains_key(h) ==> self.blocker_explained(h)
    }

    /// The blocker columns of one row come from a failed path.
    pub open spec fn blocker_explained(self, h: HeadKey) -> bool {
        let row = self.rows[h];
        ||| row.blocker_pc is None && row.blocker_opcode is None && row.prefix_ops == 0
        ||| exists|f: FailedShapeKey| #[trigger]
            self.failed_shapes.contains_key(f) && describes_blocker(f, h, row)
    }

    /// The compiled length of a row is that of a compiled path of its trace
    /// head, and zero while there is none.
    pub open spec fn compiled_coherent(self) -> bool {
        &&& forall|c: CompiledShape| #[trigger]
            self.compiled_shapes.contains_key(c) ==> {
                &&& self.compiled_shapes[c] >= 1
                &&& self.rows.contains_key(head_of_compiled(c))
            }
        &&& forall|h: HeadKey| #[trigger]
            self.rows.contains_key(h) ==> self.compiled_length_explained(h)
    }

    /// The compiled length of one row comes from a compiled path.
    pub open spec fn compiled_length_explained(self, h: HeadKey) -> bool {
        self.rows[h].compiled_ops != 0 ==> exists|c: CompiledShape| #[trigger]
            self.compiled_shapes.contains_key(c) && has_compiled_length(c, h, self.rows[h])
    }

    /// The count of each opcode is the capped sum over its sites.
    pub open spec fn decoded_mem_coherent(self) -> bool {
        &&& self.decoded_mem_counts.len() == DECODE_TABLE_SIZE
        &&& forall|site: (u32, u16)| #[trigger]
            self.decoded_mem_sites.contains_key(site) ==> self.decoded_mem_sites[site] >= 1
        &&& forall|opcode: u16|
            (#[trigger] self.decoded_mem_counts[opcode as int]) == capped(self.site_total(opcode))
    }

    /// What holds of every profile that events lead to.
    pub open spec fn coherent(self) -> bool {
        &&& self.finite()
        &&& self.rows_coherent()
        &&& self.blockers_coherent()
        &&& self.compiled_coherent()
        &&& self.decoded_mem_coherent()
    }
}

/// The profile of nothing is coherent, and its totals are zero.
pub proof fn lemma_empty_coherent()
    ensures
        ProfileView::empty().coherent(),
        ProfileView::empty().totals() == (Totals {
            backward_hits: 0,
            rejected_hits: 0,
            native_calls: 0,
            jit_retired: 0,
        }),
        ProfileView::empty().decoded_mem_total() == 0,
{
    let p = ProfileView::empty();
    sums::lemma_list_sum_zero(p.decoded_mem_counts, |executions: u64| executions as nat);
    sums::lemma_table_sum_empty(backward_weight());
    sums::lemma_table_sum_empty(rejected_weight());
    sums::lemma_table_sum_empty(calls_weight());
    sums::lemma_table_sum_empty(retired_weight());
    assert forall|opcode: u16|
        (#[trigger] p.decoded_mem_counts[opcode as int]) == capped(p.site_total(opcode)) by {
        sums::lemma_table_sum_empty(opcode_weight(opcode));
    }
}

/// A row whose blocker columns stay keeps its explanation while failed paths
/// are only added.
proof fn lemma_blocker_explained_stays(p: ProfileView, q: ProfileView, h: HeadKey)
    requires
        p.blocker_explained(h),
        q.rows[h].prefix_ops == p.rows[h].prefix_ops,
        q.rows[h].blocker_pc == p.rows[h].blocker_pc,
        q.rows[h].blocker_opcode == p.rows[h].blocker_opcode,
        forall|f: FailedShapeKey| #[trigger]
            p.failed_shapes.contains_key(f) ==> q.failed_shapes.contains_key(f),
    ensures
        q.blocker_explained(h),
{
    if !(p.rows[h].blocker_pc is None) {
        let f = choose|f: FailedShapeKey| #[trigger]
            p.failed_shapes.contains_key(f) && describes_blocker(f, h, p.rows[h]);
        assert(q.failed_shapes.contains_key(f) && describes_blocker(f, h, q.rows[h]));
    }
}

/// A row whose compiled length stays keeps its explanation while compiled
/// paths are only added.
proof fn lemma_compiled_length_explained_stays(p: ProfileView, q: ProfileView, h: HeadKey)
    requires
        p.compiled_length_explained(h),
        q.rows[h].compiled_ops == p.rows[h].compiled_ops,
        forall|c: CompiledShape| #[trigger]
            p.compiled_shapes.contains_key(c) ==> q.compiled_shapes.contains_key(c),
    ensures
        q.compiled_length_explained(h),
{
    if p.rows[h].compiled_ops != 0 {
        let c = choose|c: CompiledShape| #[trigger]
            p.compiled_shapes.contains_key(c) && has_compiled_length(c, h, p.rows[h]);
        assert(q.compiled_shapes.contains_key(c) && has_compiled_length(c, h, q.rows[h]));
    }
}

/// The decoded memory part of a profile is coherent by itself.
proof fn lemma_decoded_mem_stays(p: ProfileView, q: ProfileView)
    requires
        p.decoded_mem_coherent(),
        q.decoded_mem_counts == p.decoded_mem_counts,
        q.decoded_mem_sites == p.decoded_mem_sites,
    ensures
        q.decoded_mem_coherent(),
{
    assert forall|opcode: u16|
        (#[trigger] q.decoded_mem_counts[opcode as int]) == capped(q.site_total(opcode)) by {
        assert(p.decoded_mem_counts[opcode as int] == capped(p.site_total(opcode)));
    }
}

/// Changing counters of a trace head other than the blocker columns and the
/// compiled length keeps the profile coherent.
pub proof fn lemma_counters_coherent(p: ProfileView, h: HeadKey, row: Row)
    requires
        p.coherent(),
        h.cpu_type <= 10,
        row.rejected_hits <= row.backward_hits,
        row.prefix_ops == p.row(h).prefix_ops,
        row.blocker_pc == p.row(h).blocker_pc,
        row.blocker_opcode == p.row(h).blocker_opcode,
        row.compiled_ops == p.row(h).compiled_ops,
    ensures
        p.with_row(h, row).coherent(),
{
    let q = p.with_row(h, row);
    assert forall|x: HeadKey| #[trigger] q.rows.contains_key(x) implies q.blocker_explained(x)
        && q.compiled_length_explained(x) by {
        if p.rows.contains_key(x) {
            lemma_blocker_explained_stays(p, q, x);
            lemma_compiled_length_explained_stays(p, q, x);
        }
    }
    lemma_decoded_mem_stays(p, q);
}

/// A blocker keeps the profile coherent.
pub proof fn lemma_blocker_coherent(
    p: ProfileView,
    start_pc: u32,
    cpu_type: CpuType,
    prefix_ops: nat,
    blocker: TraceBlocker,
)
    requires
        p.coherent(),
    ensures
        p.after_blocker(start_pc, cpu_type, prefix_ops, blocker).coherent(),
{
    let q = p.after_blocker(start_pc, cpu_type, prefix_ops, blocker);
    let h = head(start_pc, cpu_type);
    let f = failed_shape(start_pc, cpu_type, prefix_ops, blocker);
    assert(q.failed_shapes.contains_key(f));
    assert(head_of_failed(f) == h);
    assert forall|x: HeadKey| #[trigger] q.rows.contains_key(x) implies q.blocker_explained(x)
        && q.compiled_length_explained(x) by {
        if x == h && f.prefix_ops >= p.row(h).prefix_ops {
            assert(describes_blocker(f, h, q.rows[h]));
        } else {
            assert(p.rows.contains_key(x));
            lemma_blocker_explained_stays(p, q, x);
        }
        if p.rows.contains_key(x) {
            lemma_compiled_length_explained_stays(p, q, x);
        }
    }
    if p.rows.contains_key(h) {
        assert(p.blocker_explained(h));
    }
    lemma_decoded_mem_stays(p, q);
}

/// A compiled path keeps the profile coherent.
pub proof fn lemma_compiled_coherent(
    p: ProfileView,
    pc: u32,
    cpu_type: CpuType,
    ops: Seq<TraceShapeOp>,
)
    requires
        p.coherent(),
    ensures
        p.after_compiled(pc, cpu_type, ops).coherent(),
{
    let q = p.after_compiled(pc, cpu_type, ops);
    let h = head(pc, cpu_type);
    let c = compiled_shape(pc, cpu_type, ops);
    assert(q.compiled_shapes.contains_key(c));
    assert(has_compiled_length(c, h, q.rows[h]));
    assert forall|x: HeadKey| #[trigger] q.rows.contains_key(x) implies q.blocker_explained(x)
        && q.compiled_length_explained(x) by {
        if p.rows.contains_key(x) {
            lemma_blocker_explained_stays(p, q, x);
            if x != h {
                lemma_compiled_length_explained_stays(p, q, x);
            }
        }
    }
    lemma_decoded_mem_stays(p, q);
}

/// An execution through the decoded memory fast path keeps the profile
/// coherent.
pub proof fn lemma_decoded_mem_coherent(p: ProfileView, pc: u32, opcode: u16)
    requires
        p.coherent(),
    ensures
        p.after_decoded_mem(pc, opcode).coherent(),
{
    let q = p.after_decoded_mem(pc, opcode);
    let site = (pc, opcode);
    let count = q.decoded_mem_sites[site];
    assert forall|x: HeadKey| #[trigger] q.rows.contains_key(x) implies q.blocker_explained(x)
        && q.compiled_length_explained(x) by {
        lemma_blocker_explained_stays(p, q, x);
        lemma_compiled_length_explained_stays(p, q, x);
    }
    assert forall|other: u16|
        (#[trigger] q.decoded_mem_counts[other as int]) == capped(q.site_total(other)) by {
        assert(p.decoded_mem_counts[other as int] == capped(p.site_total(other)));
        sums::lemma_table_sum_insert(p.decoded_mem_sites, opcode_weight(other), site, count);
        if p.decoded_mem_sites.contains_key(site) {
            sums::lemma_table_sum_remove(p.decoded_mem_sites, opcode_weight(other), site);
        }
    }
}

/// What changing the counters of a trace head does to the totals.
pub proof fn lemma_with_row_totals(p: ProfileView, h: HeadKey, row: Row)
    requires
        p.rows.dom().finite(),
    ensures
        ({
            let before = p.totals();
            let after = p.with_row(h, row).totals();
            let old_row = p.row(h);
            &&& after.backward_hits + old_row.backward_hits == before.backward_hits
                + row.backward_hits
            &&& after.rejected_hits + old_row.rejected_hits == before.rejected_hits
                + row.rejected_hits
            &&& after.native_calls + old_row.native_calls == before.native_calls + row.native_calls
            &&& after.jit_retired + old_row.jit_retired == before.jit_retired + row.jit_retired
        }),
{
    sums::lemma_table_sum_insert(p.rows, backward_weight(), h, row);
    sums::lemma_table_sum_insert(p.rows, rejected_weight(), h, row);
    sums::lemma_table_sum_insert(p.rows, calls_weight(), h, row);
    sums::lemma_table_sum_insert(p.rows, retired_weight(), h, row);
}

} // verus!
