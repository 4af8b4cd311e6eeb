//! The report, against expectations put together with the standard formatter.

use trace_profile::{
    note_adaptive_rerecord, note_backward_edge, note_blocker, note_compiled, note_decoded_mem,
    note_guarded_branch_exit, note_native_call, note_recording, reset, snapshot,
    CompiledTraceShapeProfileRow, CpuType, DecodedMemProfileRow, DecodedMemSiteProfileRow,
    FailedTraceShapeProfileRow, Profile, TraceBlocker, TraceDecodeFailureReason, TraceProfileRow,
    TraceProfileSnapshot, TraceShapeOp,
};

#[test]
fn report_ranks_stranded_dispatches_not_raw_hits() {
    let mut profile = Profile::default();
    reset(&mut profile);
    note_backward_edge(&mut profile, 0x100, CpuType::M68040, true);
    note_blocker(
        &mut profile,
        0x100,
        CpuType::M68040,
        2,
        TraceBlocker {
            pc: 0x104,
            executed_opcode: 0x4ead,
            memory_opcode: Some(0x4ead),
            extension: None,
            extension2: None,
        },
    );
    for _ in 0..3 {
        note_backward_edge(&mut profile, 0x200, CpuType::M68040, true);
    }
    note_blocker(
        &mut profile,
        0x200,
        CpuType::M68040,
        1,
        TraceBlocker {
            pc: 0x202,
            executed_opcode: 0x486d,
            memory_opcode: Some(0x486d),
            extension: None,
            extension2: None,
        },
    );

    let report = snapshot(&profile).report();
    assert!(report.find("00000200").unwrap() < report.find("00000100").unwrap());
}

#[test]
fn report_separates_failed_and_compiled_shapes_at_one_head() {
    let mut profile = Profile::default();
    reset(&mut profile);
    note_blocker(
        &mut profile,
        0x100,
        CpuType::M68040,
        20,
        TraceBlocker {
            pc: 0x140,
            executed_opcode: 0x4c01,
            memory_opcode: Some(0x4c01),
            extension: Some(0x0800),
            extension2: Some(0xee80),
        },
    );
    note_compiled(
        &mut profile,
        0x100,
        CpuType::M68040,
        vec![
            TraceShapeOp { pc: 0x100, opcode: 0x7000, extension: None, extension2: None },
            TraceShapeOp { pc: 0x102, opcode: 0x60fc, extension: None, extension2: None },
        ],
    );

    let snapshot = snapshot(&profile);
    assert_eq!(snapshot.failed_shapes.len(), 1);
    assert_eq!(snapshot.compiled_shapes.len(), 1);
    assert_eq!(snapshot.failed_shapes[0].prefix_ops, 20);
    assert_eq!(snapshot.compiled_shapes[0].ops.len(), 2);
    let report = snapshot.report();
    assert!(report.contains("failure and compiled columns may describe different"));
    assert!(report.contains("00000140 4C01 4C01 0800 EE80"));
    assert!(report.contains("path: 00000100:7000 00000102:60FC"));
}

#[test]
fn report_ranks_decoded_memory_opcodes_by_execution_count() {
    let mut profile = Profile::default();
    reset(&mut profile);
    note_decoded_mem(&mut profile, 0x1000, 0x20d9);
    note_decoded_mem(&mut profile, 0x1002, 0x10dc);
    note_decoded_mem(&mut profile, 0x1000, 0x20d9);

    let snapshot = snapshot(&profile);
    assert_eq!(snapshot.decoded_mem_ops.len(), 2);
    let report = snapshot.report();
    assert!(report.contains("decoded memory operations: total=3 distinct_opcodes=2"));
    assert!(report.find("20D9").unwrap() < report.find("10DC").unwrap());
    assert!(report.contains("00001000  20D9           2"));
}

fn word(value: Option<u16>) -> String {
    match value {
        Some(value) => format!("{value:04X}"),
        None => String::from("----"),
    }
}

/// The expected report of a snapshot.
fn expected_report(snapshot: &TraceProfileSnapshot) -> String {
    let mut text: Vec<String> = Vec::new();
    let average = if snapshot.native_calls == 0 {
        0.0
    } else {
        snapshot.jit_retired as f64 / snapshot.native_calls as f64
    };
    text.push(String::from("m68k trace opportunity profile"));
    text.push(format!(
        "totals: backward_hits={} rejected_hits={} native_calls={} jit_retired={} avg_ops_per_native_call={:.2}",
        snapshot.backward_hits,
        snapshot.rejected_hits,
        snapshot.native_calls,
        snapshot.jit_retired,
        average
    ));
    text.push(String::from("note: head rows aggregate the process lifetime; failure and compiled columns may describe different recording paths. See the shape tables below."));
    text.push(String::from("rank  start_pc  hits       rejected   attempts prefix projected   blocker_pc opcode  compiled calls      retired"));
    let mut heads: Vec<&TraceProfileRow> = snapshot.rows.iter().collect();
    heads.sort_by_key(|row| {
        let stranded = u128::from(row.rejected_hits) * u128::from(row.prefix_ops);
        let capped = stranded.min(u128::from(u64::MAX)) as u64;
        (u64::MAX - capped, u64::MAX - row.backward_hits, row.start_pc)
    });
    for (index, row) in heads.iter().take(40).enumerate() {
        let blocker_pc = match row.blocker_pc {
            Some(pc) => format!("{pc:08X}"),
            None => String::from("--------"),
        };
        text.push(format!(
            "{:>4}  {:08X}  {:>10}  {:>10}  {:>8} {:>6} {:>10}   {}  {}  {:>8} {:>10} {:>12}",
            index + 1,
            row.start_pc,
            row.backward_hits,
            row.rejected_hits,
            row.recording_attempts,
            row.prefix_ops,
            row.rejected_hits.saturating_mul(u64::from(row.prefix_ops)),
            blocker_pc,
            word(row.blocker_opcode),
            row.compiled_ops,
            row.native_calls,
            row.jit_retired
        ));
    }
    text.push(String::from("compiled traces by retired instructions"));
    text.push(String::from(
        "rank  start_pc  ops      calls      retired avg_ops guard_exits rerecords",
    ));
    let mut called: Vec<&TraceProfileRow> =
        snapshot.rows.iter().filter(|row| row.native_calls > 0).collect();
    called.sort_by_key(|row| {
        (u64::MAX - row.jit_retired, u64::MAX - row.native_calls, row.start_pc)
    });
    for (index, row) in called.iter().take(40).enumerate() {
        text.push(format!(
            "{:>4}  {:08X}  {:>3} {:>10} {:>12} {:>7.2} {:>11} {:>9}",
            index + 1,
            row.start_pc,
            row.compiled_ops,
            row.native_calls,
            row.jit_retired,
            row.jit_retired as f64 / row.native_calls as f64,
            row.guarded_branch_exits,
            row.adaptive_rerecords
        ));
    }
    text.push(String::from("failed recording shapes"));
    text.push(String::from(
        "rank  start_pc  records prefix blocker_pc ir   memory ext1 ext2 reason",
    ));
    let mut failed: Vec<&FailedTraceShapeProfileRow> = snapshot.failed_shapes.iter().collect();
    failed.sort_by_key(|row| {
        (u64::MAX - row.recordings, u32::MAX - row.prefix_ops, row.start_pc)
    });
    for (index, row) in failed.iter().take(40).enumerate() {
        let reason = match row.reason {
            TraceDecodeFailureReason::OpcodeReadFailed => "opcode-read-failed",
            TraceDecodeFailureReason::OpcodeChanged => "opcode-changed",
            TraceDecodeFailureReason::UnsupportedFormOrOperandRead => {
                "unsupported-form-or-operand-read"
            }
        };
        text.push(format!(
            "{:>4}  {:08X} {:>8} {:>6}   {:08X} {:04X} {} {} {} {}",
            index + 1,
            row.start_pc,
            row.recordings,
            row.prefix_ops,
            row.blocker_pc,
            row.executed_opcode,
            word(row.memory_opcode),
            word(row.extension),
            word(row.extension2),
            reason
        ));
    }
    text.push(String::from("compiled recording shapes"));
    let mut compiled: Vec<&CompiledTraceShapeProfileRow> =
        snapshot.compiled_shapes.iter().collect();
    compiled.sort_by_key(|row| {
        (u64::MAX - row.recordings, usize::MAX - row.ops.len(), row.start_pc)
    });
    for (index, row) in compiled.iter().take(40).enumerate() {
        text.push(format!(
            "{:>4}  {:08X} records={} ops={}",
            index + 1,
            row.start_pc,
            row.recordings,
            row.ops.len()
        ));
        let mut path = String::from("      path:");
        for op in &row.ops {
            path += &format!(" {:08X}:{:04X}", op.pc, op.opcode);
            for extension in [op.extension, op.extension2] {
                if extension.is_some() {
                    path += &format!("/{}", word(extension));
                }
            }
        }
        text.push(path);
    }
    let total: u64 = snapshot.decoded_mem_ops.iter().map(|row| row.executions).sum();
    text.push(format!(
        "decoded memory operations: total={} distinct_opcodes={}",
        total,
        snapshot.decoded_mem_ops.len()
    ));
    text.push(String::from("rank  opcode  executions percent"));
    let mut ops: Vec<&DecodedMemProfileRow> = snapshot.decoded_mem_ops.iter().collect();
    ops.sort_by_key(|row| (u64::MAX - row.executions, row.opcode));
    for (index, row) in ops.iter().take(40).enumerate() {
        let percent = if total == 0 {
            0.0
        } else {
            row.executions as f64 * 100.0 / total as f64
        };
        text.push(format!(
            "{:>4}  {:04X} {:>11} {:>6.2}%",
            index + 1,
            row.opcode,
            row.executions,
            percent
        ));
    }
    text.push(String::from("decoded memory sites by execution count"));
    text.push(String::from("rank  pc        opcode  executions"));
    let mut sites: Vec<&DecodedMemSiteProfileRow> = snapshot.decoded_mem_sites.iter().collect();
    sites.sort_by_key(|row| (u64::MAX - row.executions, row.pc, row.opcode));
    for (index, row) in sites.iter().take(60).enumerate() {
        text.push(format!(
            "{:>4}  {:08X}  {:04X} {:>11}",
            index + 1,
            row.pc,
            row.opcode,
            row.executions
        ));
    }
    text.join("\n") + "\n"
}

/// A sequence of numbers that look random, some of them small.
struct Numbers(u64);

impl Numbers {
    fn next(&mut self) -> u64 {
        self.0 = self.0.wrapping_mul(6364136223846793005).wrapping_add(1442695040888963407);
        let mixed = self.0 ^ (self.0 >> 29);
        mixed.wrapping_mul(0xBF58_476D_1CE4_E5B9)
    }

    fn below(&mut self, limit: u64) -> u64 {
        (self.next() >> 11) % limit
    }

    /// A number of a random size.
    fn sized(&mut self) -> u64 {
        let shift = self.below(64);
        self.next() >> shift
    }

    fn word(&mut self) -> Option<u16> {
        if self.below(3) == 0 {
            None
        } else {
            Some(self.next() as u16)
        }
    }
}

const CPU_TYPES: [CpuType; 11] = [
    CpuType::Invalid,
    CpuType::M68000,
    CpuType::M68010,
    CpuType::M68EC020,
    CpuType::M68020,
    CpuType::M68EC030,
    CpuType::M68030,
    CpuType::M68EC040,
    CpuType::M68LC040,
    CpuType::M68040,
    CpuType::SCC68070,
];

/// A snapshot with `size` rows in each table; `spread` bounds the counters.
fn random_snapshot(numbers: &mut Numbers, size: u64, spread: u64) -> TraceProfileSnapshot {
    let mut snapshot = TraceProfileSnapshot::default();
    let reasons = [
        TraceDecodeFailureReason::OpcodeReadFailed,
        TraceDecodeFailureReason::OpcodeChanged,
        TraceDecodeFailureReason::UnsupportedFormOrOperandRead,
    ];
    for _ in 0..size {
        let blocked = numbers.below(2) == 0;
        snapshot.rows.push(TraceProfileRow {
            start_pc: numbers.below(64) as u32,
            cpu_type: CPU_TYPES[numbers.below(11) as usize],
            backward_hits: numbers.sized() % spread,
            rejected_hits: numbers.sized() % spread,
            recording_attempts: numbers.sized() % spread,
            prefix_ops: (numbers.sized() % spread) as u32,
            blocker_pc: if blocked { Some(numbers.next() as u32) } else { None },
            blocker_opcode: if blocked { Some(numbers.next() as u16) } else { None },
            compiled_ops: (numbers.sized() % spread) as u32,
            native_calls: numbers.sized() % spread,
            jit_retired: numbers.sized() % spread,
            guarded_branch_exits: numbers.sized() % spread,
            adaptive_rerecords: numbers.sized() % spread,
        });
        snapshot.failed_shapes.push(FailedTraceShapeProfileRow {
            start_pc: numbers.below(8) as u32,
            cpu_type: CPU_TYPES[numbers.below(11) as usize],
            prefix_ops: numbers.below(4) as u32,
            blocker_pc: numbers.next() as u32,
            executed_opcode: numbers.next() as u16,
            memory_opcode: numbers.word(),
            extension: numbers.word(),
            extension2: numbers.word(),
            reason: reasons[numbers.below(3) as usize],
            recordings: numbers.sized() % spread,
        });
        let mut ops: Vec<TraceShapeOp> = Vec::new();
        for _ in 0..numbers.below(5) {
            ops.push(TraceShapeOp {
                pc: numbers.next() as u32,
                opcode: numbers.next() as u16,
                extension: numbers.word(),
                extension2: numbers.word(),
            });
        }
        snapshot.compiled_shapes.push(CompiledTraceShapeProfileRow {
            start_pc: numbers.below(8) as u32,
            cpu_type: CPU_TYPES[numbers.below(11) as usize],
            ops,
            recordings: numbers.sized() % spread,
        });
        snapshot.decoded_mem_ops.push(DecodedMemProfileRow {
            opcode: numbers.next() as u16,
            executions: (numbers.sized() % spread) / (size + 1),
        });
        snapshot.decoded_mem_sites.push(DecodedMemSiteProfileRow {
            pc: numbers.below(16) as u32,
            opcode: numbers.below(4) as u16,
            executions: numbers.sized() % spread,
        });
    }
    snapshot.backward_hits = numbers.sized();
    snapshot.rejected_hits = numbers.sized();
    snapshot.native_calls = numbers.sized() % spread;
    snapshot.jit_retired = numbers.sized();
    snapshot
}

#[test]
fn report_of_nothing() {
    let empty = TraceProfileSnapshot::default();
    assert_eq!(snapshot(&Profile::default()), empty);
    assert_eq!(
        empty.report(),
        "m68k trace opportunity profile\n\
         totals: backward_hits=0 rejected_hits=0 native_calls=0 jit_retired=0 avg_ops_per_native_call=0.00\n\
         note: head rows aggregate the process lifetime; failure and compiled columns may describe different recording paths. See the shape tables below.\n\
         rank  start_pc  hits       rejected   attempts prefix projected   blocker_pc opcode  compiled calls      retired\n\
         compiled traces by retired instructions\n\
         rank  start_pc  ops      calls      retired avg_ops guard_exits rerecords\n\
         failed recording shapes\n\
         rank  start_pc  records prefix blocker_pc ir   memory ext1 ext2 reason\n\
         compiled recording shapes\n\
         decoded memory operations: total=0 distinct_opcodes=0\n\
         rank  opcode  executions percent\n\
         decoded memory sites by execution count\n\
         rank  pc        opcode  executions\n"
    );
}

#[test]
fn report_with_every_table_filled() {
    let mut profile = Profile::default();
    note_backward_edge(&mut profile, 0x1000, CpuType::M68020, false);
    note_recording(&mut profile, 0x1000, CpuType::M68020);
    note_compiled(
        &mut profile,
        0x1000,
        CpuType::M68020,
        vec![
            TraceShapeOp {
                pc: 0x1000,
                opcode: 0x0c80,
                extension: Some(0),
                extension2: Some(3),
            },
            TraceShapeOp { pc: 0x1006, opcode: 0x51c8, extension: Some(0xfff8), extension2: None },
        ],
    );
    note_native_call(&mut profile, 0x1000, CpuType::M68020, 2);
    note_native_call(&mut profile, 0x1000, CpuType::M68020, 2);
    note_native_call(&mut profile, 0x1000, CpuType::M68020, 1);
    note_guarded_branch_exit(&mut profile, 0x1000, CpuType::M68020);
    note_adaptive_rerecord(&mut profile, 0x1000, CpuType::M68020);
    note_backward_edge(&mut profile, 0x2000, CpuType::M68020, true);
    note_blocker(
        &mut profile,
        0x2000,
        CpuType::M68020,
        7,
        TraceBlocker {
            pc: 0x200e,
            executed_opcode: 0x4e72,
            memory_opcode: None,
            extension: None,
            extension2: None,
        },
    );
    note_decoded_mem(&mut profile, 0xfff0_0000, 0x22d8);
    note_decoded_mem(&mut profile, 0xfff0_0000, 0x22d8);
    note_decoded_mem(&mut profile, 0x0000_0004, 0x10dc);
    assert_eq!(
        snapshot(&profile).report(),
        "m68k trace opportunity profile\n\
         totals: backward_hits=2 rejected_hits=1 native_calls=3 jit_retired=5 avg_ops_per_native_call=1.67\n\
         note: head rows aggregate the process lifetime; failure and compiled columns may describe different recording paths. See the shape tables below.\n\
         rank  start_pc  hits       rejected   attempts prefix projected   blocker_pc opcode  compiled calls      retired\n\
         \u{20}  1  00002000           1           1         0      7          7   0000200E  4E72         0          0            0\n\
         \u{20}  2  00001000           1           0         1      0          0   --------  ----         2          3            5\n\
         compiled traces by retired instructions\n\
         rank  start_pc  ops      calls      retired avg_ops guard_exits rerecords\n\
         \u{20}  1  00001000    2          3            5    1.67           1         1\n\
         failed recording shapes\n\
         rank  start_pc  records prefix blocker_pc ir   memory ext1 ext2 reason\n\
         \u{20}  1  00002000        1      7   0000200E 4E72 ---- ---- ---- opcode-read-failed\n\
         compiled recording shapes\n\
         \u{20}  1  00001000 records=1 ops=2\n\
         \u{20}     path: 00001000:0C80/0000/0003 00001006:51C8/FFF8\n\
         decoded memory operations: total=3 distinct_opcodes=2\n\
         rank  opcode  executions percent\n\
         \u{20}  1  22D8           2  66.67%\n\
         \u{20}  2  10DC           1  33.33%\n\
         decoded memory sites by execution count\n\
         rank  pc        opcode  executions\n\
         \u{20}  1  FFF00000  22D8           2\n\
         \u{20}  2  00000004  10DC           1\n"
    );
}

#[test]
fn report_matches_the_standard_formatter() {
    let mut numbers = Numbers(1);
    for round in 0..120 {
        let size = numbers.below(90);
        let spread = match round % 3 {
            0 => 3,
            1 => 5_000,
            _ => u64::MAX,
        };
        let snapshot = random_snapshot(&mut numbers, size, spread);
        assert_eq!(snapshot.report(), expected_report(&snapshot));
    }
}

#[test]
fn report_shows_forty_rows_and_sixty_sites() {
    let mut profile = Profile::default();
    for index in 0..100u32 {
        note_backward_edge(&mut profile, 0x1000 + index, CpuType::M68000, false);
        note_native_call(&mut profile, 0x1000 + index, CpuType::M68000, 1);
        note_decoded_mem(&mut profile, index, index as u16);
        let op = TraceShapeOp { pc: index, opcode: 0, extension: None, extension2: None };
        note_compiled(&mut profile, index, CpuType::M68000, vec![op]);
        note_blocker(
            &mut profile,
            index,
            CpuType::M68000,
            1,
            TraceBlocker {
                pc: index,
                executed_opcode: 1,
                memory_opcode: Some(2),
                extension: None,
                extension2: None,
            },
        );
    }
    let snapshot = snapshot(&profile);
    assert_eq!(snapshot.rows.len(), 200);
    let report = snapshot.report();
    assert_eq!(report, expected_report(&snapshot));
    let ranked = |rank: &str| report.lines().filter(|line| line.starts_with(rank)).count();
    assert_eq!(ranked("  40  "), 6);
    assert_eq!(ranked("  41  "), 1);
    assert_eq!(ranked("  60  "), 1);
    assert_eq!(ranked("  61  "), 0);
    assert!(report.contains("total=100 distinct_opcodes=100"));
}

#[test]
fn report_does_not_depend_on_the_order_of_sites() {
    let mut numbers = Numbers(7);
    let mut profile = Profile::default();
    for _ in 0..500 {
        let pc = numbers.below(90) as u32;
        note_decoded_mem(&mut profile, pc, 0x20d9);
    }
    let first = snapshot(&profile);
    let mut second = snapshot(&profile);
    second.decoded_mem_sites.reverse();
    assert_eq!(first.report(), second.report());
}

#[test]
fn rankings_break_ties() {
    let mut snapshot = TraceProfileSnapshot::default();
    for (pc, opcode, executions) in [(8, 1, 5), (4, 2, 5), (4, 1, 5), (9, 9, 6)] {
        snapshot.decoded_mem_sites.push(DecodedMemSiteProfileRow { pc, opcode, executions });
    }
    let report = snapshot.report();
    let tail: Vec<&str> = report.lines().rev().take(4).collect();
    assert_eq!(
        tail,
        vec![
            "   4  00000008  0001           5",
            "   3  00000004  0002           5",
            "   2  00000004  0001           5",
            "   1  00000009  0009           6",
        ]
    );
}

#[test]
fn decoded_memory_total_must_be_countable() {
    let mut snapshot = TraceProfileSnapshot::default();
    assert_eq!(snapshot.decoded_mem_total(), Some(0));
    snapshot.decoded_mem_ops.push(DecodedMemProfileRow { opcode: 1, executions: u64::MAX });
    assert_eq!(snapshot.decoded_mem_total(), Some(u64::MAX));
    assert!(snapshot.report().contains("   1  0001 18446744073709551615 100.00%\n"));
    snapshot.decoded_mem_ops.push(DecodedMemProfileRow { opcode: 2, executions: 1 });
    assert_eq!(snapshot.decoded_mem_total(), None);
}
