//! The profiler: counters, and the events that drive them.

use crate::capture;
use crate::cpu_type;
use crate::cpu_type::CpuType;
use crate::history;
use crate::history::Event;
use crate::keys::{CompiledShape, CompiledShapeKey, FailedShapeKey, HeadKey};
use crate::listing;
use crate::model;
use crate::model::{ProfileView, Row, Totals, DECODE_TABLE_SIZE};
use crate::ordered;
use crate::ordered::OrderedTable;
use crate::rows::{
    CompiledTraceShapeProfileRow, DecodedMemProfileRow, DecodedMemSiteProfileRow,
    FailedTraceShapeProfileRow, TraceBlocker, TraceDecodeFailureReason, TraceProfileRow,
    TraceProfileSnapshot, TraceShapeOp,
};
use crate::sums;
use std::collections::HashMap;
use vstd::prelude::*;

verus! {

broadcast use vstd::std_specs::hash::group_hash_axioms;

impl Default for Row {
    /// The counters of a trace head that nothing was noted of.
    fn default() -> (row: Self)
        ensures
            row == model::fresh_row(),
    {
        Row {
            backward_hits: 0,
            rejected_hits: 0,
            recording_attempts: 0,
            prefix_ops: 0,
            blocker_pc: None,
            blocker_opcode: None,
            compiled_ops: 0,
            native_calls: 0,
            jit_retired: 0,
            guarded_branch_exits: 0,
            adaptive_rerecords: 0,
        }
    }
}

/// A decoded memory site packed into one number.
pub open spec fn site_key(pc: u32, opcode: u16) -> u64 {
    (pc * 0x1_0000 + opcode) as u64
}

/// Counts by site, from counts by packed site.
pub open spec fn unpacked(counts: Map<u64, u64>) -> Map<(u32, u16), u64> {
    Map::new(
        |site: (u32, u16)| counts.contains_key(site_key(site.0, site.1)),
        |site: (u32, u16)| counts[site_key(site.0, site.1)],
    )
}

/// The profiler's counters.
pub struct Profile {
    rows: OrderedTable<HeadKey, Row>,
    failed_shapes: OrderedTable<FailedShapeKey, u64>,
    compiled_shapes: OrderedTable<CompiledShapeKey, u64>,
    decoded_mem_counts: Vec<u64>,
    decoded_mem_site_counts: HashMap<u64, u64>,
}

impl View for Profile {
    type V = ProfileView;

    closed spec fn view(&self) -> ProfileView {
        ProfileView {
            rows: self.rows@,
            failed_shapes: self.failed_shapes@,
            compiled_shapes: self.compiled_shapes@,
            decoded_mem_counts: self.decoded_mem_counts@,
            decoded_mem_sites: unpacked(self.decoded_mem_site_counts@),
        }
    }
}

impl Profile {
    /// The tables are in order, and every packed site is one.
    pub closed spec fn tables_wf(&self) -> bool {
        &&& self.rows.wf()
        &&& self.failed_shapes.wf()
        &&& self.compiled_shapes.wf()
        &&& forall|key: u64| #[trigger]
            self.decoded_mem_site_counts@.contains_key(key) ==> key < 0x1_0000_0000_0000
    }

    /// The tables are in order and agree with each other.
    pub open spec fn wf(&self) -> bool {
        &&& self.tables_wf()
        &&& self@.coherent()
    }
}

impl Default for Profile {
    /// A profile of nothing.
    fn default() -> (profile: Self)
        ensures
            profile.wf(),
            profile@ == ProfileView::empty(),
            profile@.totals() == (Totals {
                backward_hits: 0,
                rejected_hits: 0,
                native_calls: 0,
                jit_retired: 0,
            }),
            profile@.decoded_mem_total() == 0,
    {
        let profile = Profile {
            rows: OrderedTable::new(),
            failed_shapes: OrderedTable::new(),
            compiled_shapes: OrderedTable::new(),
            decoded_mem_counts: vec![0; DECODE_TABLE_SIZE],
            decoded_mem_site_counts: HashMap::new(),
        };
        proof {
            assert(profile@.decoded_mem_counts =~= ProfileView::empty().decoded_mem_counts);
            assert(profile@.decoded_mem_sites =~= ProfileView::empty().decoded_mem_sites);
            model::lemma_empty_coherent();
        }
        profile
    }
}

impl Profile {
    /// The counters of a trace head, for change in place; a trace head that
    /// nothing was noted of yet gets fresh ones.
    fn row(&mut self, pc: u32, cpu_type: CpuType) -> (row: &mut Row)
        requires
            old(self).tables_wf(),
        ensures
            *row == old(self)@.row(model::head(pc, cpu_type)),
            final(self).tables_wf(),
            final(self)@ == old(self)@.with_row(model::head(pc, cpu_type), *final(row)),
    {
        let key = HeadKey { start_pc: pc, cpu_type: cpu_type.repr() };
        self.rows.entry(key, Row::default())
    }
}

/// What a capped counter gains from `by` more.
pub open spec fn gain(count: u64, by: nat) -> nat {
    (model::capped(count as nat + by) - count) as nat
}

/// Counts a backward branch to a trace head, and whether trace entry was
/// rejected there.
pub fn note_backward_edge(profile: &mut Profile, pc: u32, cpu_type: CpuType, rejected: bool)
    requires
        old(profile).wf(),
    ensures
        final(profile).wf(),
        final(profile)@ == old(profile)@.after_backward_edge(pc, cpu_type, rejected),
        final(profile)@ == history::after(
            old(profile)@,
            Event::BackwardEdge { pc, cpu_type, rejected },
        ),
        ({
            let h = HeadKey { start_pc: pc, cpu_type: cpu_type::cpu_repr(cpu_type) };
            let was = old(profile)@.row(h);
            let now = final(profile)@.rows[h];
            &&& final(profile)@.rows == old(profile)@.rows.insert(h, now)
            &&& now.backward_hits == was.backward_hits + 1 || was.backward_hits == u64::MAX
                && now.backward_hits == u64::MAX
            &&& if rejected {
                now.rejected_hits == was.rejected_hits + 1 || was.rejected_hits == u64::MAX
                    && now.rejected_hits == u64::MAX
            } else {
                now.rejected_hits == was.rejected_hits
            }
            &&& now == (Row {
                backward_hits: now.backward_hits,
                rejected_hits: now.rejected_hits,
                ..was
            })
        }),
        final(profile)@.failed_shapes == old(profile)@.failed_shapes,
        final(profile)@.compiled_shapes == old(profile)@.compiled_shapes,
        final(profile)@.decoded_mem_counts == old(profile)@.decoded_mem_counts,
        final(profile)@.decoded_mem_sites == old(profile)@.decoded_mem_sites,
        final(profile)@.totals() == ({
            let row = old(profile)@.row(model::head(pc, cpu_type));
            let totals = old(profile)@.totals();
            Totals {
                backward_hits: totals.backward_hits + gain(row.backward_hits, 1),
                rejected_hits: totals.rejected_hits + if rejected {
                    gain(row.rejected_hits, 1)
                } else {
                    0
                },
                ..totals
            }
        }),
{
    let ghost p = profile@;
    let ghost h = model::head(pc, cpu_type);
    let row = profile.row(pc, cpu_type);
    row.backward_hits = row.backward_hits.saturating_add(1);
    if rejected {
        row.rejected_hits = row.rejected_hits.saturating_add(1);
    }
    proof {
        reveal(history::after);
        let row = profile@.rows[h];
        model::lemma_counters_coherent(p, h, row);
        model::lemma_with_row_totals(p, h, row);
    }
}

/// Counts a trace-recording attempt.
pub fn note_recording(profile: &mut Profile, pc: u32, cpu_type: CpuType)
    requires
        old(profile).wf(),
    ensures
        final(profile).wf(),
        final(profile)@ == old(profile)@.after_recording(pc, cpu_type),
        final(profile)@ == history::after(
            old(profile)@,
            Event::Recording { pc, cpu_type },
        ),
        ({
            let h = HeadKey { start_pc: pc, cpu_type: cpu_type::cpu_repr(cpu_type) };
            let was = old(profile)@.row(h);
            let now = final(profile)@.rows[h];
            &&& final(profile)@.rows == old(profile)@.rows.insert(h, now)
            &&& now.recording_attempts == was.recording_attempts + 1 || was.recording_attempts == u64::MAX
                && now.recording_attempts == u64::MAX
            &&& now == (Row { recording_attempts: now.recording_attempts, ..was })
        }),
        final(profile)@.failed_shapes == old(profile)@.failed_shapes,
        final(profile)@.compiled_shapes == old(profile)@.compiled_shapes,
        final(profile)@.decoded_mem_counts == old(profile)@.decoded_mem_counts,
        final(profile)@.decoded_mem_sites == old(profile)@.decoded_mem_sites,
        final(profile)@.totals() == old(profile)@.totals(),
{
    let ghost p = profile@;
    let ghost h = model::head(pc, cpu_type);
    let row = profile.row(pc, cpu_type);
    row.recording_attempts = row.recording_attempts.saturating_add(1);
    proof {
        reveal(history::after);
        let row = profile@.rows[h];
        model::lemma_counters_coherent(p, h, row);
        model::lemma_with_row_totals(p, h, row);
    }
}

/// Counts a call into the trace executor, and the guest instructions that it
/// retired.
pub fn note_native_call(profile: &mut Profile, pc: u32, cpu_type: CpuType, retired: u32)
    requires
        old(profile).wf(),
    ensures
        final(profile).wf(),
        final(profile)@ == old(profile)@.after_native_call(pc, cpu_type, retired),
        final(profile)@ == history::after(
            old(profile)@,
            Event::NativeCall { pc, cpu_type, retired },
        ),
        ({
            let h = HeadKey { start_pc: pc, cpu_type: cpu_type::cpu_repr(cpu_type) };
            let was = old(profile)@.row(h);
            let now = final(profile)@.rows[h];
            &&& final(profile)@.rows == old(profile)@.rows.insert(h, now)
            &&& now.native_calls == was.native_calls + 1 || was.native_calls == u64::MAX
                && now.native_calls == u64::MAX
            &&& if was.jit_retired + retired <= u64::MAX {
                now.jit_retired == was.jit_retired + retired
            } else {
                now.jit_retired == u64::MAX
            }
            &&& now == (Row {
                native_calls: now.native_calls,
                jit_retired: now.jit_retired,
                ..was
            })
        }),
        final(profile)@.failed_shapes == old(profile)@.failed_shapes,
        final(profile)@.compiled_shapes == old(profile)@.compiled_shapes,
        final(profile)@.decoded_mem_counts == old(profile)@.decoded_mem_counts,
        final(profile)@.decoded_mem_sites == old(profile)@.decoded_mem_sites,
        final(profile)@.totals() == ({
            let row = old(profile)@.row(model::head(pc, cpu_type));
            let totals = old(profile)@.totals();
            Totals {
                native_calls: totals.native_calls + gain(row.native_calls, 1),
                jit_retired: totals.jit_retired + gain(row.jit_retired, retired as nat),
                ..totals
            }
        }),
{
    let ghost p = profile@;
    let ghost h = model::head(pc, cpu_type);
    let row = profile.row(pc, cpu_type);
    row.native_calls = row.native_calls.saturating_add(1);
    row.jit_retired = row.jit_retired.saturating_add(retired as u64);
    proof {
        reveal(history::after);
        let row = profile@.rows[h];
        model::lemma_counters_coherent(p, h, row);
        model::lemma_with_row_totals(p, h, row);
    }
}

/// Counts an exit through a guarded branch.
pub fn note_guarded_branch_exit(profile: &mut Profile, pc: u32, cpu_type: CpuType)
    requires
        old(profile).wf(),
    ensures
        final(profile).wf(),
        final(profile)@ == old(profile)@.after_guarded_branch_exit(pc, cpu_type),
        final(profile)@ == history::after(
            old(profile)@,
            Event::GuardedBranchExit { pc, cpu_type },
        ),
        ({
            let h = HeadKey { start_pc: pc, cpu_type: cpu_type::cpu_repr(cpu_type) };
            let was = old(profile)@.row(h);
            let now = final(profile)@.rows[h];
            &&& final(profile)@.rows == old(profile)@.rows.insert(h, now)
            &&& now.guarded_branch_exits == was.guarded_branch_exits + 1 || was.guarded_branch_exits == u64::MAX
                && now.guarded_branch_exits == u64::MAX
            &&& now == (Row { guarded_branch_exits: now.guarded_branch_exits, ..was })
        }),
        final(profile)@.failed_shapes == old(profile)@.failed_shapes,
        final(profile)@.compiled_shapes == old(profile)@.compiled_shapes,
        final(profile)@.decoded_mem_counts == old(profile)@.decoded_mem_counts,
        final(profile)@.decoded_mem_sites == old(profile)@.decoded_mem_sites,
        final(profile)@.totals() == old(profile)@.totals(),
{
    let ghost p = profile@;
    let ghost h = model::head(pc, cpu_type);
    let row = profile.row(pc, cpu_type);
    row.guarded_branch_exits = row.guarded_branch_exits.saturating_add(1);
    proof {
        reveal(history::after);
        let row = profile@.rows[h];
        model::lemma_counters_coherent(p, h, row);
        model::lemma_with_row_totals(p, h, row);
    }
}

/// Counts a trace re-recording.
pub fn note_adaptive_rerecord(profile: &mut Profile, pc: u32, cpu_type: CpuType)
    requires
        old(profile).wf(),
    ensures
        final(profile).wf(),
        final(profile)@ == old(profile)@.after_adaptive_rerecord(pc, cpu_type),
        final(profile)@ == history::after(
            old(profile)@,
            Event::AdaptiveRerecord { pc, cpu_type },
        ),
        ({
            let h = HeadKey { start_pc: pc, cpu_type: cpu_type::cpu_repr(cpu_type) };
            let was = old(profile)@.row(h);
            let now = final(profile)@.rows[h];
            &&& final(profile)@.rows == old(profile)@.rows.insert(h, now)
            &&& now.adaptive_rerecords == was.adaptive_rerecords + 1 || was.adaptive_rerecords == u64::MAX
                && now.adaptive_rerecords == u64::MAX
            &&& now == (Row { adaptive_rerecords: now.adaptive_rerecords, ..was })
        }),
        final(profile)@.failed_shapes == old(profile)@.failed_shapes,
        final(profile)@.compiled_shapes == old(profile)@.compiled_shapes,
        final(profile)@.decoded_mem_counts == old(profile)@.decoded_mem_counts,
        final(profile)@.decoded_mem_sites == old(profile)@.decoded_mem_sites,
        final(profile)@.totals() == old(profile)@.totals(),
{
    let ghost p = profile@;
    let ghost h = model::head(pc, cpu_type);
    let row = profile.row(pc, cpu_type);
    row.adaptive_rerecords = row.adaptive_rerecords.saturating_add(1);
    proof {
        reveal(history::after);
        let row = profile@.rows[h];
        model::lemma_counters_coherent(p, h, row);
        model::lemma_with_row_totals(p, h, row);
    }
}

/// The lowest 32 bits of a length.
fn truncated(n: usize) -> (low: u32)
    ensures
        low == model::low_32_bits(n as nat),
        low == n as nat % 0x1_0000_0000,
        n <= u32::MAX ==> low == n,
{
    let wide: u64 = n as u64;
    assert(wide as u32 == wide % 0x1_0000_0000) by (bit_vector);
    #[verifier::truncate]
    (wide as u32)
}

/// Notes that a recording failed at `blocker`, behind `prefix_ops` operations
/// that could be reconstructed.
pub fn note_blocker(
    profile: &mut Profile,
    start_pc: u32,
    cpu_type: CpuType,
    prefix_ops: usize,
    blocker: TraceBlocker,
)
    requires
        old(profile).wf(),
    ensures
        final(profile).wf(),
        final(profile)@ == old(profile)@.after_blocker(
            start_pc,
            cpu_type,
            prefix_ops as nat,
            blocker,
        ),
        final(profile)@ == history::after(
            old(profile)@,
            Event::Blocker { pc: start_pc, cpu_type, prefix_ops: prefix_ops as nat, blocker },
        ),
        ({
            let h = HeadKey { start_pc: start_pc, cpu_type: cpu_type::cpu_repr(cpu_type) };
            let was = old(profile)@.row(h);
            let now = final(profile)@.rows[h];
            &&& final(profile)@.rows == old(profile)@.rows.insert(h, now)
            &&& if prefix_ops as nat % 0x1_0000_0000 >= was.prefix_ops {
                &&& capture::keeps_length(now.prefix_ops, prefix_ops as nat)
                &&& now.blocker_pc == Some(blocker.pc)
                &&& now.blocker_opcode == Some(blocker.executed_opcode)
            } else {
                &&& now.prefix_ops == was.prefix_ops
                &&& now.blocker_pc == was.blocker_pc
                &&& now.blocker_opcode == was.blocker_opcode
            }
            &&& now == (Row {
                prefix_ops: now.prefix_ops,
                blocker_pc: now.blocker_pc,
                blocker_opcode: now.blocker_opcode,
                ..was
            })
        }),
        exists|f: FailedShapeKey|
            {
                let now = final(profile)@.failed_shapes[f];
                &&& f.start_pc == start_pc
                &&& f.cpu_type == cpu_type::cpu_repr(cpu_type)
                &&& capture::keeps_length(f.prefix_ops, prefix_ops as nat)
                &&& f.blocker_pc == blocker.pc
                &&& f.executed_opcode == blocker.executed_opcode
                &&& f.memory_opcode == blocker.memory_opcode
                &&& f.extension == blocker.extension
                &&& f.extension2 == blocker.extension2
                &&& f.reason is OpcodeReadFailed <==> blocker.memory_opcode is None
                &&& f.reason is OpcodeChanged <==> (blocker.memory_opcode is Some
                    && blocker.memory_opcode != Some(blocker.executed_opcode))
                &&& f.reason is UnsupportedFormOrOperandRead <==> blocker.memory_opcode == Some(
                    blocker.executed_opcode,
                )
                &&& final(profile)@.failed_shapes == old(profile)@.failed_shapes.insert(f, now)
                &&& if #[trigger] old(profile)@.failed_shapes.contains_key(f) {
                    let was = old(profile)@.failed_shapes[f];
                    now == was + 1 || was == u64::MAX && now == u64::MAX
                } else {
                    now == 1
                }
            },
        final(profile)@.compiled_shapes == old(profile)@.compiled_shapes,
        final(profile)@.decoded_mem_counts == old(profile)@.decoded_mem_counts,
        final(profile)@.decoded_mem_sites == old(profile)@.decoded_mem_sites,
        final(profile)@.totals() == old(profile)@.totals(),
{
    let ghost p = profile@;
    let ghost h = model::head(start_pc, cpu_type);
    let prefix: u32 = truncated(prefix_ops);
    let row = profile.row(start_pc, cpu_type);
    // Keep the longest observed prefix for this trace head. It is the
    // conservative amount of already-supported work stranded behind the
    // blocker; path variation is visible through repeated recordings.
    if prefix >= row.prefix_ops {
        row.prefix_ops = prefix;
        row.blocker_pc = Some(blocker.pc);
        row.blocker_opcode = Some(blocker.executed_opcode);
    }
    let reason = match blocker.memory_opcode {
        None => TraceDecodeFailureReason::OpcodeReadFailed,
        Some(opcode) => if opcode != blocker.executed_opcode {
            TraceDecodeFailureReason::OpcodeChanged
        } else {
            TraceDecodeFailureReason::UnsupportedFormOrOperandRead
        },
    };
    let key = FailedShapeKey {
        start_pc,
        cpu_type: cpu_type.repr(),
        prefix_ops: prefix,
        blocker_pc: blocker.pc,
        executed_opcode: blocker.executed_opcode,
        memory_opcode: blocker.memory_opcode,
        extension: blocker.extension,
        extension2: blocker.extension2,
        reason,
    };
    let recordings = profile.failed_shapes.entry(key, 0);
    *recordings = recordings.saturating_add(1);
    proof {
        reveal(history::after);
        assert(profile@ =~= p.after_blocker(start_pc, cpu_type, prefix_ops as nat, blocker));
        model::lemma_blocker_coherent(p, start_pc, cpu_type, prefix_ops as nat, blocker);
        model::lemma_with_row_totals(p, h, profile@.rows[h]);
    }
}

/// Notes that a path was compiled for a trace head.
pub fn note_compiled(profile: &mut Profile, pc: u32, cpu_type: CpuType, ops: Vec<TraceShapeOp>)
    requires
        old(profile).wf(),
    ensures
        final(profile).wf(),
        final(profile)@ == old(profile)@.after_compiled(pc, cpu_type, ops@),
        final(profile)@ == history::after(
            old(profile)@,
            Event::Compiled { pc, cpu_type, ops: ops@ },
        ),
        ({
            let h = HeadKey { start_pc: pc, cpu_type: cpu_type::cpu_repr(cpu_type) };
            let was = old(profile)@.row(h);
            let now = final(profile)@.rows[h];
            &&& final(profile)@.rows == old(profile)@.rows.insert(h, now)
            &&& capture::keeps_length(now.compiled_ops, ops@.len())
            &&& now == (Row { compiled_ops: now.compiled_ops, ..was })
        }),
        ({
            let c = CompiledShape {
                start_pc: pc,
                cpu_type: cpu_type::cpu_repr(cpu_type),
                ops: ops@,
            };
            let now = final(profile)@.compiled_shapes[c];
            &&& final(profile)@.compiled_shapes == old(profile)@.compiled_shapes.insert(c, now)
            &&& if old(profile)@.compiled_shapes.contains_key(c) {
                let was = old(profile)@.compiled_shapes[c];
                now == was + 1 || was == u64::MAX && now == u64::MAX
            } else {
                now == 1
            }
        }),
        final(profile)@.failed_shapes == old(profile)@.failed_shapes,
        final(profile)@.decoded_mem_counts == old(profile)@.decoded_mem_counts,
        final(profile)@.decoded_mem_sites == old(profile)@.decoded_mem_sites,
        final(profile)@.totals() == old(profile)@.totals(),
{
    let ghost p = profile@;
    let ghost h = model::head(pc, cpu_type);
    let ghost path = ops@;
    let length: u32 = truncated(ops.len());
    let row = profile.row(pc, cpu_type);
    row.compiled_ops = length;
    let key = CompiledShapeKey { start_pc: pc, cpu_type: cpu_type.repr(), ops };
    let recordings = profile.compiled_shapes.entry(key, 0);
    *recordings = recordings.saturating_add(1);
    proof {
        reveal(history::after);
        assert(profile@ =~= p.after_compiled(pc, cpu_type, path));
        model::lemma_compiled_coherent(p, pc, cpu_type, path);
        model::lemma_with_row_totals(p, h, profile@.rows[h]);
    }
}

/// Different sites have different numbers.
proof fn lemma_site_key_injective(a: (u32, u16), b: (u32, u16))
    requires
        site_key(a.0, a.1) == site_key(b.0, b.1),
    ensures
        a == b,
{
}

/// Packs a decoded memory site.
fn pack_site(pc: u32, opcode: u16) -> (key: u64)
    ensures
        key == site_key(pc, opcode),
        key < 0x1_0000_0000_0000,
{
    assert((pc as u64) << 16 | (opcode as u64) == pc as u64 * 0x1_0000 + opcode as u64)
        by (bit_vector);
    (pc as u64) << 16 | opcode as u64
}

/// Counts an execution through the decoded memory fast path, by opcode and by
/// site.
pub fn note_decoded_mem(profile: &mut Profile, pc: u32, opcode: u16)
    requires
        old(profile).wf(),
    ensures
        final(profile).wf(),
        final(profile)@ == old(profile)@.after_decoded_mem(pc, opcode),
        final(profile)@ == history::after(old(profile)@, Event::DecodedMem { pc, opcode }),
        ({
            let was = old(profile)@.decoded_mem_counts[opcode as int];
            let now = final(profile)@.decoded_mem_counts[opcode as int];
            &&& final(profile)@.decoded_mem_counts == old(profile)@.decoded_mem_counts.update(
                opcode as int,
                now,
            )
            &&& now == was + 1 || was == u64::MAX && now == u64::MAX
        }),
        ({
            let site = (pc, opcode);
            let now = final(profile)@.decoded_mem_sites[site];
            &&& final(profile)@.decoded_mem_sites == old(profile)@.decoded_mem_sites.insert(
                site,
                now,
            )
            &&& if old(profile)@.decoded_mem_sites.contains_key(site) {
                let was = old(profile)@.decoded_mem_sites[site];
                now == was + 1 || was == u64::MAX && now == u64::MAX
            } else {
                now == 1
            }
        }),
        final(profile)@.rows == old(profile)@.rows,
        final(profile)@.failed_shapes == old(profile)@.failed_shapes,
        final(profile)@.compiled_shapes == old(profile)@.compiled_shapes,
        final(profile)@.totals() == old(profile)@.totals(),
        final(profile)@.decoded_mem_total() == old(profile)@.decoded_mem_total() + gain(
            old(profile)@.decoded_mem_counts[opcode as int],
            1,
        ),
{
    let ghost p = profile@;
    let ghost packed = profile.decoded_mem_site_counts@;
    let count: u64 = profile.decoded_mem_counts[opcode as usize];
    profile.decoded_mem_counts[opcode as usize] = count.saturating_add(1);
    let key: u64 = pack_site(pc, opcode);
    let site_count = profile.decoded_mem_site_counts.entry(key).or_insert(0);
    *site_count = site_count.saturating_add(1);
    proof {
        reveal(history::after);
        let q = p.after_decoded_mem(pc, opcode);
        assert(profile@.decoded_mem_sites =~= q.decoded_mem_sites) by {
            assert forall|site: (u32, u16)| #[trigger]
                profile@.decoded_mem_sites.contains_key(site) implies {
                &&& q.decoded_mem_sites.contains_key(site)
                &&& profile@.decoded_mem_sites[site] == q.decoded_mem_sites[site]
            } by {
                if site_key(site.0, site.1) == key {
                    lemma_site_key_injective(site, (pc, opcode));
                }
            }
        }
        assert(profile@ =~= q);
        model::lemma_decoded_mem_coherent(p, pc, opcode);
        sums::lemma_list_sum_update(
            p.decoded_mem_counts,
            |executions: u64| executions as nat,
            opcode as int,
            q.decoded_mem_counts[opcode as int],
        );
    }
}

/// Clears every counter.
pub fn reset(profile: &mut Profile)
    ensures
        final(profile).wf(),
        final(profile)@ == ProfileView::empty(),
        final(profile)@.totals() == (Totals {
            backward_hits: 0,
            rejected_hits: 0,
            native_calls: 0,
            jit_retired: 0,
        }),
        final(profile)@.decoded_mem_total() == 0,
{
    *profile = Profile::default();
}

/// Backward branches, rejected entries, executor calls and retired
/// instructions over all rows, if they can be counted.
fn column_sums(rows: &Vec<TraceProfileRow>) -> (sums: Option<(u64, u64, u64, u64)>)
    ensures
        sums is Some <==> listing::column_totals(rows@).fit(),
        match sums {
            Some(sums) => listing::column_totals(rows@) == (Totals {
                backward_hits: sums.0 as nat,
                rejected_hits: sums.1 as nat,
                native_calls: sums.2 as nat,
                jit_retired: sums.3 as nat,
            }),
            None => true,
        },
{
    let mut backward_hits: u64 = 0;
    let mut rejected_hits: u64 = 0;
    let mut native_calls: u64 = 0;
    let mut jit_retired: u64 = 0;
    let mut i: usize = 0;
    let ghost backward = |row: TraceProfileRow| row.backward_hits as nat;
    let ghost rejected = |row: TraceProfileRow| row.rejected_hits as nat;
    let ghost calls = |row: TraceProfileRow| row.native_calls as nat;
    let ghost retired = |row: TraceProfileRow| row.jit_retired as nat;
    assert(rows@.take(0) =~= Seq::<TraceProfileRow>::empty());
    while i < rows.len()
        invariant
            i <= rows.len(),
            backward == (|row: TraceProfileRow| row.backward_hits as nat),
            rejected == (|row: TraceProfileRow| row.rejected_hits as nat),
            calls == (|row: TraceProfileRow| row.native_calls as nat),
            retired == (|row: TraceProfileRow| row.jit_retired as nat),
            backward_hits == sums::list_sum(rows@.take(i as int), backward),
            rejected_hits == sums::list_sum(rows@.take(i as int), rejected),
            native_calls == sums::list_sum(rows@.take(i as int), calls),
            jit_retired == sums::list_sum(rows@.take(i as int), retired),
        decreases rows.len() - i,
    {
        proof {
            sums::lemma_list_sum_step(rows@, backward, i as int);
            sums::lemma_list_sum_step(rows@, rejected, i as int);
            sums::lemma_list_sum_step(rows@, calls, i as int);
            sums::lemma_list_sum_step(rows@, retired, i as int);
        }
        let row = &rows[i];
        match (
            backward_hits.checked_add(row.backward_hits),
            rejected_hits.checked_add(row.rejected_hits),
            native_calls.checked_add(row.native_calls),
            jit_retired.checked_add(row.jit_retired),
        ) {
            (Some(hits), Some(rejections), Some(entries), Some(instructions)) => {
                backward_hits = hits;
                rejected_hits = rejections;
                native_calls = entries;
                jit_retired = instructions;
            },
            _ => {
                return None;
            },
        }
        i = i + 1;
    }
    assert(rows@.take(i as int) =~= rows@);
    Some((backward_hits, rejected_hits, native_calls, jit_retired))
}

impl Profile {
    /// Lists the trace heads.
    fn list_rows(&self) -> (rows: Vec<TraceProfileRow>)
        requires
            self.wf(),
        ensures
            listing::lists_rows(self@, rows@),
            listing::column_totals(rows@) == self@.totals(),
    {
        let mut rows: Vec<TraceProfileRow> = Vec::new();
        let n: usize = self.rows.len();
        let ghost heads = self.rows.keys();
        let mut i: usize = 0;
        while i < n
            invariant
                self.wf(),
                heads == self.rows.keys(),
                n == heads.len(),
                rows.len() == i,
                i <= n,
                forall|j: int|
                    0 <= j < i ==> {
                        &&& #[trigger] rows@[j] == listing::listed_row(
                            heads[j],
                            self.rows.values()[j],
                        )
                        &&& listing::listed_head(rows@[j]) == heads[j]
                    },
            decreases n - i,
        {
            let key = self.rows.key(i);
            let row = self.rows.value(i);
            proof {
                ordered::lemma_paired_at::<HeadKey, Row>(heads, self.rows.values(), i as int);
                assert(self@.rows.contains_key(heads[i as int]));
            }
            rows.push(
                TraceProfileRow {
                    start_pc: key.start_pc,
                    cpu_type: cpu_type::cpu_type_from_repr(key.cpu_type),
                    backward_hits: row.backward_hits,
                    rejected_hits: row.rejected_hits,
                    recording_attempts: row.recording_attempts,
                    prefix_ops: row.prefix_ops,
                    blocker_pc: row.blocker_pc,
                    blocker_opcode: row.blocker_opcode,
                    compiled_ops: row.compiled_ops,
                    native_calls: row.native_calls,
                    jit_retired: row.jit_retired,
                    guarded_branch_exits: row.guarded_branch_exits,
                    adaptive_rerecords: row.adaptive_rerecords,
                },
            );
            i = i + 1;
        }
        proof {
            let values = self.rows.values();
            assert forall|j: int| 0 <= j < rows.len() implies {
                let h = listing::listed_head(#[trigger] rows@[j]);
                self@.rows.contains_key(h) && rows@[j] == listing::listed_row(h, self@.rows[h])
            } by {
                ordered::lemma_paired_at::<HeadKey, Row>(heads, values, j);
            }
            assert forall|h: HeadKey| #[trigger] self@.rows.contains_key(h) implies exists|j: int|
                0 <= j < rows.len() && listing::listed_head(#[trigger] rows@[j]) == h by {
                let j = heads.index_of(h);
                assert(heads[j] == h);
                assert(listing::listed_head(rows@[j]) == h);
            }
            sums::lemma_table_sum_paired::<HeadKey, Row, TraceProfileRow>(
                heads,
                values,
                model::backward_weight(),
                rows@,
                |row: TraceProfileRow| row.backward_hits as nat,
            );
            sums::lemma_table_sum_paired::<HeadKey, Row, TraceProfileRow>(
                heads,
                values,
                model::rejected_weight(),
                rows@,
                |row: TraceProfileRow| row.rejected_hits as nat,
            );
            sums::lemma_table_sum_paired::<HeadKey, Row, TraceProfileRow>(
                heads,
                values,
                model::calls_weight(),
                rows@,
                |row: TraceProfileRow| row.native_calls as nat,
            );
            sums::lemma_table_sum_paired::<HeadKey, Row, TraceProfileRow>(
                heads,
                values,
                model::retired_weight(),
                rows@,
                |row: TraceProfileRow| row.jit_retired as nat,
            );
        }
        rows
    }

    /// Lists the failed paths.
    fn list_failed_shapes(&self) -> (rows: Vec<FailedTraceShapeProfileRow>)
        requires
            self.wf(),
        ensures
            listing::lists_failed_shapes(self@, rows@),
    {
        let mut rows: Vec<FailedTraceShapeProfileRow> = Vec::new();
        let n: usize = self.failed_shapes.len();
        let ghost shapes = self.failed_shapes.keys();
        let mut i: usize = 0;
        while i < n
            invariant
                self.wf(),
                shapes == self.failed_shapes.keys(),
                n == shapes.len(),
                rows.len() == i,
                i <= n,
                forall|j: int|
                    0 <= j < i ==> {
                        &&& listing::listed_failed(#[trigger] rows@[j]) == shapes[j]
                        &&& rows@[j].recordings == self.failed_shapes.values()[j]
                    },
            decreases n - i,
        {
            let key = self.failed_shapes.key(i);
            proof {
                ordered::lemma_paired_at::<FailedShapeKey, u64>(
                    shapes,
                    self.failed_shapes.values(),
                    i as int,
                );
                assert(self@.failed_shapes.contains_key(shapes[i as int]));
                assert(self@.rows.contains_key(model::head_of_failed(shapes[i as int])));
            }
            rows.push(
                FailedTraceShapeProfileRow {
                    start_pc: key.start_pc,
                    cpu_type: cpu_type::cpu_type_from_repr(key.cpu_type),
                    prefix_ops: key.prefix_ops,
                    blocker_pc: key.blocker_pc,
                    executed_opcode: key.executed_opcode,
                    memory_opcode: key.memory_opcode,
                    extension: key.extension,
                    extension2: key.extension2,
                    reason: key.reason,
                    recordings: *self.failed_shapes.value(i),
                },
            );
            i = i + 1;
        }
        proof {
            let counts = self.failed_shapes.values();
            assert forall|j: int| 0 <= j < rows.len() implies {
                let shape = listing::listed_failed(#[trigger] rows@[j]);
                &&& self@.failed_shapes.contains_key(shape)
                &&& rows@[j].recordings == self@.failed_shapes[shape]
            } by {
                ordered::lemma_paired_at::<FailedShapeKey, u64>(shapes, counts, j);
            }
            assert forall|shape: FailedShapeKey| #[trigger]
                self@.failed_shapes.contains_key(shape) implies exists|j: int|
                0 <= j < rows.len() && listing::listed_failed(#[trigger] rows@[j]) == shape by {
                let j = shapes.index_of(shape);
                assert(shapes[j] == shape);
                assert(listing::listed_failed(rows@[j]) == shape);
            }
        }
        rows
    }

    /// Lists the compiled paths.
    fn list_compiled_shapes(&self) -> (rows: Vec<CompiledTraceShapeProfileRow>)
        requires
            self.wf(),
        ensures
            listing::lists_compiled_shapes(self@, rows@),
    {
        let mut rows: Vec<CompiledTraceShapeProfileRow> = Vec::new();
        let n: usize = self.compiled_shapes.len();
        let ghost shapes = self.compiled_shapes.keys();
        let mut i: usize = 0;
        while i < n
            invariant
                self.wf(),
                shapes == self.compiled_shapes.keys(),
                n == shapes.len(),
                rows.len() == i,
                i <= n,
                forall|j: int|
                    0 <= j < i ==> {
                        &&& listing::listed_compiled(#[trigger] rows@[j]) == shapes[j]
                        &&& rows@[j].recordings == self.compiled_shapes.values()[j]
                    },
            decreases n - i,
        {
            let key = self.compiled_shapes.key(i);
            proof {
                ordered::lemma_paired_at::<CompiledShapeKey, u64>(
                    shapes,
                    self.compiled_shapes.values(),
                    i as int,
                );
                assert(self@.compiled_shapes.contains_key(shapes[i as int]));
                assert(self@.rows.contains_key(model::head_of_compiled(shapes[i as int])));
            }
            let ops = key.ops.clone();
            assert(ops@ =~= key.ops@);
            rows.push(
                CompiledTraceShapeProfileRow {
                    start_pc: key.start_pc,
                    cpu_type: cpu_type::cpu_type_from_repr(key.cpu_type),
                    ops,
                    recordings: *self.compiled_shapes.value(i),
                },
            );
            i = i + 1;
        }
        proof {
            let counts = self.compiled_shapes.values();
            assert forall|j: int| 0 <= j < rows.len() implies {
                let shape = listing::listed_compiled(#[trigger] rows@[j]);
                &&& self@.compiled_shapes.contains_key(shape)
                &&& rows@[j].recordings == self@.compiled_shapes[shape]
            } by {
                ordered::lemma_paired_at::<CompiledShapeKey, u64>(shapes, counts, j);
            }
            assert forall|shape: CompiledShape| #[trigger]
                self@.compiled_shapes.contains_key(shape) implies exists|j: int|
                0 <= j < rows.len() && listing::listed_compiled(#[trigger] rows@[j]) == shape by {
                let j = shapes.index_of(shape);
                assert(shapes[j] == shape);
                assert(listing::listed_compiled(rows@[j]) == shape);
            }
        }
        rows
    }

    /// Lists the opcodes that were executed through the decoded memory fast
    /// path.
    fn list_decoded_mem_ops(&self) -> (rows: Vec<DecodedMemProfileRow>)
        requires
            self.wf(),
        ensures
            listing::lists_decoded_mem_ops(self@, rows@),
            listing::executions_total(rows@) == self@.decoded_mem_total(),
    {
        let mut rows: Vec<DecodedMemProfileRow> = Vec::new();
        let mut i: usize = 0;
        let ghost counts = self.decoded_mem_counts@;
        let ghost weight = |executions: u64| executions as nat;
        assert(counts.take(0) =~= Seq::<u64>::empty());
        while i < self.decoded_mem_counts.len()
            invariant
                self.wf(),
                self.decoded_mem_counts.len() == DECODE_TABLE_SIZE,
                i <= DECODE_TABLE_SIZE,
                counts == self.decoded_mem_counts@,
                weight == (|executions: u64| executions as nat),
                listing::executions_total(rows@) == sums::list_sum(counts.take(i as int), weight),
                forall|j: int|
                    0 <= j < rows.len() ==> {
                        &&& (#[trigger] rows@[j]).opcode < i
                        &&& rows@[j].executions == self@.decoded_mem_counts[rows@[j].opcode as int]
                        &&& rows@[j].executions != 0
                    },
                forall|j: int, k: int|
                    0 <= j < k < rows.len() ==> (#[trigger] rows@[j]).opcode < (
                    #[trigger] rows@[k]).opcode,
                forall|opcode: u16|
                    opcode < i && (#[trigger] self@.decoded_mem_counts[opcode as int]) != 0
                        ==> exists|j: int|
                        0 <= j < rows.len() && (#[trigger] rows@[j]).opcode == opcode,
            decreases DECODE_TABLE_SIZE - i,
        {
            let executions: u64 = self.decoded_mem_counts[i];
            let ghost listed = rows@;
            if executions != 0 {
                rows.push(DecodedMemProfileRow { opcode: i as u16, executions });
            }
            proof {
                sums::lemma_list_sum_step(counts, weight, i as int);
                if executions != 0 {
                    assert(rows@.drop_last() =~= listed);
                }
                assert forall|opcode: u16|
                    opcode < i + 1 && (#[trigger] self@.decoded_mem_counts[opcode as int])
                        != 0 implies exists|j: int|
                    0 <= j < rows.len() && (#[trigger] rows@[j]).opcode == opcode by {
                    if opcode < i {
                        let j = choose|j: int|
                            0 <= j < listed.len() && (#[trigger] listed[j]).opcode == opcode;
                        assert(rows@[j] == listed[j]);
                    } else {
                        assert(rows@[listed.len() as int].opcode == opcode);
                    }
                }
            }
            i = i + 1;
        }
        assert(counts.take(i as int) =~= counts);
        rows
    }

    /// Lists the sites that were executed through the decoded memory fast
    /// path.
    fn list_decoded_mem_sites(&self) -> (rows: Vec<DecodedMemSiteProfileRow>)
        requires
            self.wf(),
        ensures
            listing::lists_decoded_mem_sites(self@, rows@),
    {
        let mut rows: Vec<DecodedMemSiteProfileRow> = Vec::new();
        let counts = &self.decoded_mem_site_counts;
        let ghost entries = vstd::std_specs::iter::IteratorSpec::remaining(
            &vstd::std_specs::hash::spec_hash_map_iter(counts),
        );
        for (key, executions) in it: counts.iter()
            invariant
                self.wf(),
                counts == self.decoded_mem_site_counts,
                it.seq() == entries,
                entries.no_duplicates(),
                rows.len() == it.index(),
                forall|j: int|
                    0 <= j < rows.len() ==> {
                        &&& site_key((#[trigger] rows@[j]).pc, rows@[j].opcode) == *entries[j].0
                        &&& rows@[j].executions == *entries[j].1
                    },
        {
            let packed: u64 = *key;
            assert(counts@.contains_key(packed));
            let pc: u32 = #[verifier::truncate]
            ((packed >> 16) as u32);
            let opcode: u16 = #[verifier::truncate]
            (packed as u16);
            assert(packed < 0x1_0000_0000_0000 ==> (packed >> 16) as u32 * 0x1_0000
                + packed as u16 == packed) by (bit_vector);
            rows.push(DecodedMemSiteProfileRow { pc, opcode, executions: *executions });
        }
        proof {
            assert(rows.len() == entries.len());
            assert forall|j: int| 0 <= j < rows.len() implies {
                let site = listing::listed_site(#[trigger] rows@[j]);
                &&& self@.decoded_mem_sites.contains_key(site)
                &&& rows@[j].executions == self@.decoded_mem_sites[site]
            } by {
                assert(counts@.contains_key(*entries[j].0));
            }
            assert forall|j: int, k: int| 0 <= j < k < rows.len() implies listing::listed_site(
                #[trigger] rows@[j],
            ) != listing::listed_site(#[trigger] rows@[k]) by {
                assert(counts@.contains_key(*entries[j].0));
                assert(counts@.contains_key(*entries[k].0));
                assert(entries[j] != entries[k]);
            }
            assert forall|site: (u32, u16)| #[trigger]
                self@.decoded_mem_sites.contains_key(site) implies exists|j: int|
                0 <= j < rows.len() && listing::listed_site(#[trigger] rows@[j]) == site by {
                let key = site_key(site.0, site.1);
                assert(counts@.contains_key(key));
                let j = choose|j: int|
                    0 <= j < entries.len() && entries[j] == (&key, &counts@[key]);
                lemma_site_key_injective(listing::listed_site(rows@[j]), site);
            }
        }
        rows
    }

    /// Whether the totals over all trace heads can be counted.
    pub fn totals_fit(&self) -> (fit: bool)
        requires
            self.wf(),
        ensures
            fit == self@.totals().fit(),
            fit <==> {
                &&& self@.totals().backward_hits <= u64::MAX
                &&& self@.totals().rejected_hits <= u64::MAX
                &&& self@.totals().native_calls <= u64::MAX
                &&& self@.totals().jit_retired <= u64::MAX
            },
    {
        column_sums(&self.list_rows()).is_some()
    }

    /// Captures the counters.
    ///
    /// The totals over all trace heads have to be counts themselves.
    pub fn snapshot(&self) -> (snapshot: TraceProfileSnapshot)
        requires
            self.wf(),
            self@.totals().fit(),
        ensures
            listing::lists_profile(self@, snapshot),
    {
        let rows = self.list_rows();
        let totals = column_sums(&rows).unwrap();
        TraceProfileSnapshot {
            rows,
            decoded_mem_ops: self.list_decoded_mem_ops(),
            decoded_mem_sites: self.list_decoded_mem_sites(),
            failed_shapes: self.list_failed_shapes(),
            compiled_shapes: self.list_compiled_shapes(),
            backward_hits: totals.0,
            rejected_hits: totals.1,
            native_calls: totals.2,
            jit_retired: totals.3,
        }
    }
}

/// Captures the counters without resetting them.
pub fn snapshot(profile: &Profile) -> (snapshot: TraceProfileSnapshot)
    requires
        profile.wf(),
        profile@.totals().fit(),
    ensures
        listing::lists_profile(profile@, snapshot),
{
    profile.snapshot()
}

} // verus!
