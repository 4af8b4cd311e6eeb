//! What the events count, and what a snapshot lists.

use std::collections::HashMap;
use std::hash::{BuildHasherDefault, Hasher};
use trace_profile::ranking::{rank, RankKey};
use trace_profile::{
    cpu_type_from_repr, note_adaptive_rerecord, note_backward_edge, note_blocker, note_compiled,
    note_decoded_mem, note_guarded_branch_exit, note_native_call, note_recording, reset, snapshot,
    CpuType, IdentityHasher, Profile, TraceBlocker, TraceDecodeFailureReason, TraceProfileRow,
    TraceProfileSnapshot, TraceShapeOp,
};

const CPU_TYPES: [CpuType; 11] = [
    CpuType::Invalid,
    CpuType::M68000,
    CpuType::M68010,
    CpuType::M68EC020,
    CpuType::M68020,
    CpuType::M68EC030,
    CpuType::M68030,
    CpuType::M68EC040,
    CpuType::M68LC040,
    CpuType::M68040,
    CpuType::SCC68070,
];

fn fresh_row(start_pc: u32, cpu_type: CpuType) -> TraceProfileRow {
    TraceProfileRow {
        start_pc,
        cpu_type,
        backward_hits: 0,
        rejected_hits: 0,
        recording_attempts: 0,
        prefix_ops: 0,
        blocker_pc: None,
        blocker_opcode: None,
        compiled_ops: 0,
        native_calls: 0,
        jit_retired: 0,
        guarded_branch_exits: 0,
        adaptive_rerecords: 0,
    }
}

fn blocker(pc: u32, executed_opcode: u16, memory_opcode: Option<u16>) -> TraceBlocker {
    TraceBlocker { pc, executed_opcode, memory_opcode, extension: None, extension2: None }
}

fn op(pc: u32, opcode: u16) -> TraceShapeOp {
    TraceShapeOp { pc, opcode, extension: None, extension2: None }
}

#[test]
fn each_event_moves_its_own_counters() {
    let mut profile = Profile::default();
    let cpu = CpuType::M68030;
    let mut row = fresh_row(0x10, cpu);

    note_backward_edge(&mut profile, 0x10, cpu, false);
    row.backward_hits = 1;
    assert_eq!(snapshot(&profile).rows, vec![row.clone()]);

    note_backward_edge(&mut profile, 0x10, cpu, true);
    row.backward_hits = 2;
    row.rejected_hits = 1;
    assert_eq!(snapshot(&profile).rows, vec![row.clone()]);

    note_recording(&mut profile, 0x10, cpu);
    row.recording_attempts = 1;
    assert_eq!(snapshot(&profile).rows, vec![row.clone()]);

    note_native_call(&mut profile, 0x10, cpu, 12);
    note_native_call(&mut profile, 0x10, cpu, u32::MAX);
    row.native_calls = 2;
    row.jit_retired = 12 + u64::from(u32::MAX);
    assert_eq!(snapshot(&profile).rows, vec![row.clone()]);

    note_guarded_branch_exit(&mut profile, 0x10, cpu);
    row.guarded_branch_exits = 1;
    assert_eq!(snapshot(&profile).rows, vec![row.clone()]);

    note_adaptive_rerecord(&mut profile, 0x10, cpu);
    row.adaptive_rerecords = 1;
    assert_eq!(snapshot(&profile).rows, vec![row.clone()]);

    note_blocker(&mut profile, 0x10, cpu, 3, blocker(0x16, 0x4e72, Some(0x4e72)));
    row.prefix_ops = 3;
    row.blocker_pc = Some(0x16);
    row.blocker_opcode = Some(0x4e72);
    assert_eq!(snapshot(&profile).rows, vec![row.clone()]);

    note_compiled(&mut profile, 0x10, cpu, vec![op(0x10, 0x7000), op(0x12, 0x60fc)]);
    row.compiled_ops = 2;
    assert_eq!(snapshot(&profile).rows, vec![row.clone()]);

    note_decoded_mem(&mut profile, 0x10, 0x20d9);
    assert_eq!(snapshot(&profile).rows, vec![row]);
}

#[test]
fn events_leave_other_heads_alone() {
    let mut profile = Profile::default();
    note_backward_edge(&mut profile, 0x10, CpuType::M68000, true);
    note_native_call(&mut profile, 0x10, CpuType::M68000, 9);
    let before = snapshot(&profile).rows[0].clone();
    note_backward_edge(&mut profile, 0x10, CpuType::M68010, true);
    note_recording(&mut profile, 0x12, CpuType::M68000);
    note_compiled(&mut profile, 0x0e, CpuType::M68000, vec![op(0x0e, 1)]);
    let rows = snapshot(&profile).rows;
    assert_eq!(rows.len(), 4);
    assert_eq!(rows[1], before);
}

#[test]
fn heads_are_listed_by_address_and_model() {
    let mut profile = Profile::default();
    for (pc, cpu) in [
        (0x30, CpuType::M68040),
        (0x10, CpuType::SCC68070),
        (0x20, CpuType::M68000),
        (0x10, CpuType::M68000),
        (0x10, CpuType::Invalid),
        (0xffff_fffe, CpuType::M68000),
    ] {
        note_recording(&mut profile, pc, cpu);
    }
    let heads: Vec<(u32, CpuType)> =
        snapshot(&profile).rows.iter().map(|row| (row.start_pc, row.cpu_type)).collect();
    assert_eq!(
        heads,
        vec![
            (0x10, CpuType::Invalid),
            (0x10, CpuType::M68000),
            (0x10, CpuType::SCC68070),
            (0x20, CpuType::M68000),
            (0x30, CpuType::M68040),
            (0xffff_fffe, CpuType::M68000),
        ]
    );
}

#[test]
fn totals_are_the_sums_of_the_rows() {
    let mut profile = Profile::default();
    for pc in 0..20 {
        for hit in 0..pc {
            note_backward_edge(&mut profile, pc, CpuType::M68000, hit % 3 == 0);
            note_native_call(&mut profile, pc, CpuType::M68000, hit);
        }
    }
    assert!(profile.totals_fit());
    let snapshot = snapshot(&profile);
    assert_eq!(snapshot.backward_hits, 190);
    assert_eq!(snapshot.native_calls, 190);
    assert_eq!(snapshot.jit_retired, (0..20).map(|pc| pc * (pc.max(1) - 1) / 2).sum::<u64>());
    assert_eq!(snapshot.rejected_hits, snapshot.rows.iter().map(|row| row.rejected_hits).sum());
    assert!(snapshot.rows.iter().all(|row| row.rejected_hits <= row.backward_hits));
    assert!(snapshot.rejected_hits <= snapshot.backward_hits);
}

#[test]
fn reset_clears_every_counter() {
    let mut profile = Profile::default();
    note_backward_edge(&mut profile, 4, CpuType::M68000, true);
    note_blocker(&mut profile, 4, CpuType::M68000, 1, blocker(6, 1, None));
    note_compiled(&mut profile, 4, CpuType::M68000, vec![op(4, 1)]);
    note_decoded_mem(&mut profile, 4, 1);
    assert_ne!(snapshot(&profile), TraceProfileSnapshot::default());
    reset(&mut profile);
    assert_eq!(snapshot(&profile), TraceProfileSnapshot::default());
}

#[test]
fn snapshots_do_not_reset() {
    let mut profile = Profile::default();
    note_backward_edge(&mut profile, 4, CpuType::M68000, true);
    note_decoded_mem(&mut profile, 4, 1);
    assert_eq!(snapshot(&profile), snapshot(&profile));
    assert_eq!(snapshot(&profile), profile.snapshot());
    assert_eq!(snapshot(&profile).backward_hits, 1);
}

#[test]
fn the_longest_prefix_is_kept() {
    let mut profile = Profile::default();
    let cpu = CpuType::M68040;
    note_blocker(&mut profile, 0, cpu, 5, blocker(0x10, 0x1111, Some(0x1111)));
    note_blocker(&mut profile, 0, cpu, 2, blocker(0x20, 0x2222, Some(0x2222)));
    let row = snapshot(&profile).rows[0].clone();
    assert_eq!((row.prefix_ops, row.blocker_pc, row.blocker_opcode), (5, Some(0x10), Some(0x1111)));
    note_blocker(&mut profile, 0, cpu, 5, blocker(0x30, 0x3333, Some(0x3333)));
    let row = snapshot(&profile).rows[0].clone();
    assert_eq!((row.prefix_ops, row.blocker_pc, row.blocker_opcode), (5, Some(0x30), Some(0x3333)));
    assert_eq!(snapshot(&profile).failed_shapes.len(), 3);
}

#[test]
fn a_blocker_without_prefix_is_kept() {
    let mut profile = Profile::default();
    note_blocker(&mut profile, 0, CpuType::M68000, 0, blocker(0, 0x4e72, Some(0x4e72)));
    let row = snapshot(&profile).rows[0].clone();
    assert_eq!((row.prefix_ops, row.blocker_pc, row.blocker_opcode), (0, Some(0), Some(0x4e72)));
}

#[test]
fn prefix_lengths_keep_their_low_bits() {
    let mut profile = Profile::default();
    let huge = usize::MAX;
    note_blocker(&mut profile, 0, CpuType::M68000, huge, blocker(2, 1, Some(1)));
    assert_eq!(snapshot(&profile).rows[0].prefix_ops, huge as u32);
    let wrapped = (u64::from(u32::MAX) + 4) as usize;
    note_blocker(&mut profile, 4, CpuType::M68000, wrapped, blocker(2, 1, Some(1)));
    assert_eq!(snapshot(&profile).rows[1].prefix_ops, 3);
    assert_eq!(snapshot(&profile).failed_shapes[1].prefix_ops, 3);
}

#[test]
fn failures_are_classified() {
    let mut profile = Profile::default();
    let cpu = CpuType::M68000;
    note_blocker(&mut profile, 1, cpu, 0, blocker(0, 0x1234, None));
    note_blocker(&mut profile, 2, cpu, 0, blocker(0, 0x1234, Some(0x4321)));
    note_blocker(&mut profile, 3, cpu, 0, blocker(0, 0x1234, Some(0x1234)));
    let reasons: Vec<TraceDecodeFailureReason> =
        snapshot(&profile).failed_shapes.iter().map(|row| row.reason).collect();
    assert_eq!(
        reasons,
        vec![
            TraceDecodeFailureReason::OpcodeReadFailed,
            TraceDecodeFailureReason::OpcodeChanged,
            TraceDecodeFailureReason::UnsupportedFormOrOperandRead,
        ]
    );
    let report = snapshot(&profile).report();
    assert!(report.contains("1234 ---- ---- ---- opcode-read-failed\n"));
    assert!(report.contains("1234 4321 ---- ---- opcode-changed\n"));
    assert!(report.contains("1234 1234 ---- ---- unsupported-form-or-operand-read\n"));
}

#[test]
fn equal_failed_paths_are_counted_together() {
    let mut profile = Profile::default();
    let cpu = CpuType::M68000;
    let mut other = blocker(2, 3, Some(3));
    other.extension2 = Some(0);
    for _ in 0..4 {
        note_blocker(&mut profile, 0, cpu, 1, blocker(2, 3, Some(3)));
    }
    note_blocker(&mut profile, 0, cpu, 1, other);
    let shapes = snapshot(&profile).failed_shapes;
    assert_eq!(shapes.len(), 2);
    assert_eq!((shapes[0].extension2, shapes[0].recordings), (None, 4));
    assert_eq!((shapes[1].extension2, shapes[1].recordings), (Some(0), 1));
}

#[test]
fn equal_compiled_paths_are_counted_together() {
    let mut profile = Profile::default();
    let cpu = CpuType::M68000;
    let short = vec![op(0, 0x7000)];
    let long = vec![op(0, 0x7000), op(2, 0x60fc)];
    note_compiled(&mut profile, 0, cpu, long.clone());
    note_compiled(&mut profile, 0, cpu, short.clone());
    note_compiled(&mut profile, 0, cpu, long.clone());
    note_compiled(&mut profile, 0, cpu, vec![]);
    let snapshot = snapshot(&profile);
    assert_eq!(snapshot.rows[0].compiled_ops, 0);
    let shapes: Vec<(Vec<TraceShapeOp>, u64)> =
        snapshot.compiled_shapes.iter().map(|row| (row.ops.clone(), row.recordings)).collect();
    assert_eq!(shapes, vec![(vec![], 1), (short, 1), (long, 2)]);
}

#[test]
fn tables_are_in_the_order_of_their_keys() {
    let mut numbers: u64 = 5;
    let mut below = |limit: u64| {
        numbers = numbers.wrapping_mul(6364136223846793005).wrapping_add(1);
        (numbers >> 33) % limit
    };
    let mut profile = Profile::default();
    for _ in 0..2_000 {
        let head = below(3) as u32;
        let cpu = CPU_TYPES[below(2) as usize];
        let mut words = [None, None, None];
        for word in &mut words {
            if below(3) != 0 {
                *word = Some(below(2) as u16);
            }
        }
        let blocked = TraceBlocker {
            pc: below(2) as u32,
            executed_opcode: below(2) as u16,
            memory_opcode: words[0],
            extension: words[1],
            extension2: words[2],
        };
        note_blocker(&mut profile, head, cpu, below(2) as usize, blocked);
        let mut path = vec![];
        for _ in 0..below(3) {
            path.push(TraceShapeOp {
                pc: below(2) as u32,
                opcode: below(2) as u16,
                extension: words[1],
                extension2: words[2],
            });
        }
        note_compiled(&mut profile, head, cpu, path);
    }
    let snapshot = snapshot(&profile);
    let failed: Vec<_> = snapshot
        .failed_shapes
        .iter()
        .map(|row| {
            (
                (row.start_pc, row.cpu_type.repr(), row.prefix_ops, row.blocker_pc),
                (row.executed_opcode, row.memory_opcode, row.extension, row.extension2),
                row.reason,
            )
        })
        .collect();
    assert!(failed.len() > 100);
    assert!(failed.windows(2).all(|pair| pair[0] < pair[1]));
    assert_eq!(snapshot.failed_shapes.iter().map(|row| row.recordings).sum::<u64>(), 2_000);
    let compiled: Vec<_> = snapshot
        .compiled_shapes
        .iter()
        .map(|row| (row.start_pc, row.cpu_type.repr(), row.ops.clone()))
        .collect();
    assert!(compiled.len() > 100);
    assert!(compiled.windows(2).all(|pair| pair[0] < pair[1]));
    assert_eq!(snapshot.compiled_shapes.iter().map(|row| row.recordings).sum::<u64>(), 2_000);
}

#[test]
fn the_blocker_of_a_head_is_one_of_its_longest_failed_paths() {
    let mut profile = Profile::default();
    for prefix_ops in [3, 9, 4, 9, 1] {
        let opcode = 0x100 + prefix_ops as u16;
        note_blocker(&mut profile, 0, CpuType::M68000, prefix_ops, blocker(8, opcode, None));
    }
    let snapshot = snapshot(&profile);
    let row = &snapshot.rows[0];
    let longest = snapshot.failed_shapes.iter().map(|shape| shape.prefix_ops).max();
    assert_eq!(Some(row.prefix_ops), longest);
    assert!(snapshot.failed_shapes.iter().any(|shape| {
        shape.prefix_ops == row.prefix_ops
            && Some(shape.blocker_pc) == row.blocker_pc
            && Some(shape.executed_opcode) == row.blocker_opcode
    }));
}

#[test]
fn opcode_counts_are_the_sums_of_their_sites() {
    let mut profile = Profile::default();
    for step in 0..3_000u32 {
        let pc = (step * step) % 97;
        let opcode = (step % 7) as u16 * 0x2492;
        note_decoded_mem(&mut profile, pc, opcode);
    }
    let snapshot = snapshot(&profile);
    assert_eq!(snapshot.decoded_mem_total(), Some(3_000));
    assert!(snapshot.decoded_mem_ops.windows(2).all(|pair| pair[0].opcode < pair[1].opcode));
    for row in &snapshot.decoded_mem_ops {
        let sites: u64 = snapshot
            .decoded_mem_sites
            .iter()
            .filter(|site| site.opcode == row.opcode)
            .map(|site| site.executions)
            .sum();
        assert_eq!(row.executions, sites);
    }
}

#[test]
fn sites_keep_all_bits_of_address_and_opcode() {
    let mut profile = Profile::default();
    let sites = [(u32::MAX, u16::MAX), (u32::MAX, 0), (0, u16::MAX), (0, 0), (0x8000_0001, 0x8001)];
    for (pc, opcode) in sites {
        note_decoded_mem(&mut profile, pc, opcode);
    }
    let mut listed: Vec<(u32, u16)> =
        snapshot(&profile).decoded_mem_sites.iter().map(|row| (row.pc, row.opcode)).collect();
    listed.sort_unstable();
    let mut expected = sites.to_vec();
    expected.sort_unstable();
    assert_eq!(listed, expected);
}

#[test]
fn projected_dispatches_are_capped() {
    let mut row = fresh_row(0, CpuType::M68000);
    assert_eq!(row.projected_dispatches(), 0);
    row.rejected_hits = 39;
    row.prefix_ops = 7;
    assert_eq!(row.projected_dispatches(), 273);
    row.rejected_hits = u64::MAX;
    assert_eq!(row.projected_dispatches(), u64::MAX);
    row.prefix_ops = 1;
    assert_eq!(row.projected_dispatches(), u64::MAX);
    row.prefix_ops = 0;
    assert_eq!(row.projected_dispatches(), 0);
    row.rejected_hits = 1 << 32;
    row.prefix_ops = u32::MAX;
    assert_eq!(row.projected_dispatches(), u64::MAX - u64::from(u32::MAX));
}

#[test]
fn cpu_models_survive_their_number() {
    for (number, cpu_type) in CPU_TYPES.iter().enumerate() {
        assert_eq!(cpu_type.repr(), number as u32);
        assert_eq!(cpu_type_from_repr(number as u32), *cpu_type);
    }
    assert_eq!(cpu_type_from_repr(11), CpuType::Invalid);
    assert_eq!(cpu_type_from_repr(u32::MAX), CpuType::Invalid);
}

#[test]
fn identity_hasher_keeps_numbers() {
    let mut hasher = IdentityHasher::default();
    assert_eq!(hasher.finish(), 0);
    hasher.write_u64(0x1234_5678_9abc);
    assert_eq!(hasher.finish(), 0x1234_5678_9abc);
    hasher.write_u64(7);
    assert_eq!(hasher.finish(), 7);
}

#[test]
fn identity_hasher_hashes_bytes() {
    let mut hasher = IdentityHasher::default();
    hasher.write(b"");
    assert_eq!(hasher.finish(), 0xcbf2_9ce4_8422_2325);
    hasher.write(b"a");
    assert_eq!(hasher.finish(), 0xaf63_dc4c_8601_ec8c);
    hasher.write(b"foobar");
    assert_eq!(hasher.finish(), 0x8594_4171_f739_67e8);
}

#[test]
fn identity_hasher_serves_a_map_of_sites() {
    let mut counts: HashMap<u64, u64, BuildHasherDefault<IdentityHasher>> = HashMap::default();
    for site in 0..1_000u64 {
        *counts.entry((site % 100) << 16).or_default() += 1;
    }
    assert_eq!(counts.len(), 100);
    assert!(counts.values().all(|count| *count == 10));
}

#[test]
fn ranks_go_down_and_then_up() {
    let key = |first, second, third| RankKey { first, second, third };
    let keys = vec![key(1, 5, 0), key(9, 0, 7), key(1, 5, 0), key(9, 0, 3), key(1, 6, 9)];
    assert_eq!(rank(&keys), vec![3, 1, 4, 0, 2]);
    assert_eq!(rank(&vec![]), Vec::<usize>::new());
}
