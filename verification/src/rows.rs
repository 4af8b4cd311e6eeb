//! Rows of a profiling snapshot.

use crate::cpu_type::CpuType;
use vstd::prelude::*;

verus! {

/// Per-trace-head profiling counters.
#[derive(Debug, Clone, PartialEq, Eq)]
pub struct TraceProfileRow {
    /// Guest program counter at which the trace starts.
    pub start_pc: u32,
    /// CPU model active for this trace.
    pub cpu_type: CpuType,
    /// Backward branches observed at the trace head.
    pub backward_hits: u64,
    /// Trace-entry attempts rejected by an unsupported operation.
    pub rejected_hits: u64,
    /// Number of trace-recording attempts.
    pub recording_attempts: u64,
    /// Longest supported prefix before the recorded blocker.
    pub prefix_ops: u32,
    /// Guest PC of the operation that blocked trace construction.
    pub blocker_pc: Option<u32>,
    /// Opcode word that blocked trace construction.
    pub blocker_opcode: Option<u16>,
    /// Number of operations in the current compiled/portable trace.
    pub compiled_ops: u32,
    /// Number of calls into the trace executor.
    ///
    /// Portable trace calls are counted here as well.
    pub native_calls: u64,
    /// Total guest instructions retired by trace execution.
    pub jit_retired: u64,
    /// Exits caused by a guarded branch taking an unrecorded direction.
    pub guarded_branch_exits: u64,
    /// Trace re-recordings triggered by adaptive branch behavior.
    pub adaptive_rerecords: u64,
}

/// Why replay-time decoding could not append an executed instruction.
#[derive(Debug, Clone, Copy, PartialEq, Eq, PartialOrd, Ord, Structural)]
pub enum TraceDecodeFailureReason {
    /// The recorder could not read the opcode from guest memory.
    OpcodeReadFailed,
    /// The opcode executed by the CPU no longer matches guest memory.
    OpcodeChanged,
    /// Memory still contains the executed opcode, but its form is not
    /// traceable or an operand-extension read failed.
    UnsupportedFormOrOperandRead,
}

/// One instruction captured in a successfully compiled trace path.
#[derive(Debug, Clone, Copy, PartialEq, Eq, PartialOrd, Ord, Structural)]
pub struct TraceShapeOp {
    /// Guest address at which the instruction executed.
    pub pc: u32,
    /// Primary opcode word.
    pub opcode: u16,
    /// First extension word captured by the trace decoder, if any.
    pub extension: Option<u16>,
    /// Second extension word captured by the trace decoder, if any.
    pub extension2: Option<u16>,
}

/// The instruction at which a recording stopped.
#[derive(Debug, Clone, Copy, PartialEq, Eq, Structural)]
pub struct TraceBlocker {
    /// Guest address of the instruction.
    pub pc: u32,
    /// Opcode that the CPU executed.
    pub executed_opcode: u16,
    /// Opcode reread from guest memory, when readable.
    pub memory_opcode: Option<u16>,
    /// First word after the memory opcode, when readable.
    pub extension: Option<u16>,
    /// Second word after the memory opcode, when readable.
    pub extension2: Option<u16>,
}

/// One distinct failed recording path for a trace head.
#[derive(Debug, Clone, PartialEq, Eq)]
pub struct FailedTraceShapeProfileRow {
    /// Guest program counter at which recording began.
    pub start_pc: u32,
    /// CPU model active while recording.
    pub cpu_type: CpuType,
    /// Successfully reconstructed operations before the failure.
    pub prefix_ops: u32,
    /// Guest address of the instruction whose reconstruction failed.
    pub blocker_pc: u32,
    /// Opcode retained in the CPU's instruction register after execution.
    pub executed_opcode: u16,
    /// Opcode reread from guest memory while reconstructing the trace.
    pub memory_opcode: Option<u16>,
    /// First word after the memory opcode, when readable.
    pub extension: Option<u16>,
    /// Second word after the memory opcode, when readable.
    pub extension2: Option<u16>,
    /// Coarse classification of the reconstruction failure.
    pub reason: TraceDecodeFailureReason,
    /// Number of recording attempts with this exact shape.
    pub recordings: u64,
}

/// One distinct successfully compiled path for a trace head.
#[derive(Debug, Clone, PartialEq, Eq)]
pub struct CompiledTraceShapeProfileRow {
    /// Guest program counter at which recording began.
    pub start_pc: u32,
    /// CPU model active while recording.
    pub cpu_type: CpuType,
    /// Executed instructions in dynamic path order.
    pub ops: Vec<TraceShapeOp>,
    /// Number of times this exact path was compiled.
    pub recordings: u64,
}

/// Execution count aggregated by decoded memory-operation opcode.
#[derive(Debug, Clone, PartialEq, Eq)]
pub struct DecodedMemProfileRow {
    /// Guest opcode word.
    pub opcode: u16,
    /// Number of executions through the decoded memory fast path.
    pub executions: u64,
}

/// Execution count for one decoded memory-operation site.
#[derive(Debug, Clone, PartialEq, Eq)]
pub struct DecodedMemSiteProfileRow {
    /// Guest program counter of the operation.
    pub pc: u32,
    /// Guest opcode word.
    pub opcode: u16,
    /// Number of executions through the decoded memory fast path.
    pub executions: u64,
}

/// Snapshot of all trace and decoded-memory profiling counters.
#[derive(Debug, Clone, PartialEq, Eq)]
pub struct TraceProfileSnapshot {
    /// Per-trace-head counters.
    pub rows: Vec<TraceProfileRow>,
    /// Decoded memory counts aggregated by opcode.
    pub decoded_mem_ops: Vec<DecodedMemProfileRow>,
    /// Decoded memory counts split by guest PC and opcode.
    pub decoded_mem_sites: Vec<DecodedMemSiteProfileRow>,
    /// Failed paths kept separately from successful recordings at the same
    /// trace head. This prevents a historical blocker from being mistaken
    /// for the boundary of the currently compiled path.
    pub failed_shapes: Vec<FailedTraceShapeProfileRow>,
    /// Successfully compiled dynamic paths, with their exact executed
    /// guest instruction sequence.
    pub compiled_shapes: Vec<CompiledTraceShapeProfileRow>,
    /// Total observed backward branches.
    pub backward_hits: u64,
    /// Total rejected trace-entry opportunities.
    pub rejected_hits: u64,
    /// Total calls into a trace executor.
    pub native_calls: u64,
    /// Total instructions retired by trace executors.
    pub jit_retired: u64,
}

impl Default for TraceProfileSnapshot {
    /// A snapshot of nothing.
    fn default() -> (snapshot: Self)
        ensures
            snapshot.rows@.len() == 0,
            snapshot.decoded_mem_ops@.len() == 0,
            snapshot.decoded_mem_sites@.len() == 0,
            snapshot.failed_shapes@.len() == 0,
            snapshot.compiled_shapes@.len() == 0,
            snapshot.backward_hits == 0,
            snapshot.rejected_hits == 0,
            snapshot.native_calls == 0,
            snapshot.jit_retired == 0,
    {
        TraceProfileSnapshot {
            rows: Vec::new(),
            decoded_mem_ops: Vec::new(),
            decoded_mem_sites: Vec::new(),
            failed_shapes: Vec::new(),
            compiled_shapes: Vec::new(),
            backward_hits: 0,
            rejected_hits: 0,
            native_calls: 0,
            jit_retired: 0,
        }
    }
}

/// The dispatches stranded behind a blocker, capped at the largest count.
pub open spec fn stranded_dispatches(rejected_hits: u64, prefix_ops: u32) -> u64 {
    if rejected_hits * prefix_ops > u64::MAX {
        u64::MAX
    } else {
        (rejected_hits * prefix_ops) as u64
    }
}

impl TraceProfileRow {
    /// Approximate interpreter dispatches made eligible by supporting the
    /// blocker. This deliberately leaves out the blocker itself: some control-
    /// flow instructions should terminate a trace rather than execute in it.
    pub fn projected_dispatches(&self) -> (dispatches: u64)
        ensures
            dispatches == stranded_dispatches(self.rejected_hits, self.prefix_ops),
            self.rejected_hits * self.prefix_ops <= u64::MAX ==> dispatches == self.rejected_hits
                * self.prefix_ops,
            self.rejected_hits * self.prefix_ops > u64::MAX ==> dispatches == u64::MAX,
    {
        match self.rejected_hits.checked_mul(self.prefix_ops as u64) {
            Some(dispatches) => dispatches,
            None => u64::MAX,
        }
    }
}

} // verus!
