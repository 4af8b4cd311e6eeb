//! Opt-in trace and decoded-operation profiling.
//!
//! A [`Profile`] counts what a CPU core with a trace recorder notes about its
//! trace heads and about the decoded memory operations that it executes.
//! [`snapshot`] captures the counters, and
//! [`TraceProfileSnapshot::report`] ranks them in a readable report.

pub mod capture;
pub mod cpu_type;
pub mod double;
pub mod hasher;
pub mod history;
pub mod keys;
pub mod laws;
pub mod listing;
pub mod model;
pub mod nearest;
pub mod ordered;
pub mod page;
pub mod precision;
pub mod profile;
pub mod ranking;
pub mod reading;
pub mod report;
pub mod rows;
pub mod sums;
pub mod text;

pub use crate::cpu_type::{cpu_type_from_repr, CpuType};
pub use crate::hasher::IdentityHasher;
pub use crate::profile::{
    note_adaptive_rerecord, note_backward_edge, note_blocker, note_compiled, note_decoded_mem,
    note_guarded_branch_exit, note_native_call, note_recording, reset, snapshot, Profile,
};
pub use crate::rows::{
    CompiledTraceShapeProfileRow, DecodedMemProfileRow, DecodedMemSiteProfileRow,
    FailedTraceShapeProfileRow, TraceBlocker, TraceDecodeFailureReason, TraceProfileRow,
    TraceProfileSnapshot, TraceShapeOp,
};
