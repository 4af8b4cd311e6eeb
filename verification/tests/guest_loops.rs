//! Guest loops run on a small 68k interpreter with a trace recorder that notes
//! its events to a profile.

use std::collections::HashMap;
use trace_profile::{
    note_adaptive_rerecord, note_backward_edge, note_blocker, note_compiled, note_decoded_mem,
    note_guarded_branch_exit, note_native_call, note_recording, reset, snapshot, CpuType, Profile,
    TraceBlocker, TraceShapeOp,
};

/// Guard exits in a row, without a completed pass between them, after which a
/// trace head is recorded anew.
const RERECORD_AFTER: u32 = 64;

struct LinearMemoryBus {
    bytes: Vec<u8>,
}

impl LinearMemoryBus {
    fn new(size: usize) -> Self {
        LinearMemoryBus { bytes: vec![0; size] }
    }

    fn read_byte(&self, address: u32) -> u8 {
        self.bytes[address as usize]
    }

    fn write_byte(&mut self, address: u32, value: u8) {
        self.bytes[address as usize] = value;
    }

    fn read_word(&self, address: u32) -> u16 {
        u16::from_be_bytes([self.read_byte(address), self.read_byte(address + 1)])
    }

    fn write_word(&mut self, address: u32, value: u16) {
        let [high, low] = value.to_be_bytes();
        self.write_byte(address, high);
        self.write_byte(address + 1, low);
    }

    fn read_long(&self, address: u32) -> u32 {
        (u32::from(self.read_word(address)) << 16) | u32::from(self.read_word(address + 2))
    }

    fn write_long(&mut self, address: u32, value: u32) {
        self.write_word(address, (value >> 16) as u16);
        self.write_word(address + 2, value as u16);
    }
}

#[derive(Debug, Clone, Copy, PartialEq, Eq)]
enum BatchExit {
    BudgetExhausted,
    WatchedPc { pc: u32 },
    AlineTrap { opcode: u16 },
}

struct BatchResult {
    exit: BatchExit,
    instructions: u32,
}

#[derive(Debug, Clone, Copy, PartialEq, Eq)]
enum Flow {
    Straight,
    Branch,
    Guard,
    LoopCounter,
}

/// An executed instruction, and where control went after it.
#[derive(Debug, Clone, Copy)]
struct Step {
    op: TraceShapeOp,
    flow: Flow,
    traceable: bool,
    next: u32,
}

enum Head {
    Rejected,
    Compiled { steps: Vec<Step>, guard_exits: u32 },
    Stale,
}

struct Recording {
    head: u32,
    steps: Vec<Step>,
}

struct CpuCore {
    pc: u32,
    trace_recording: bool,
    profile: Profile,
    d: [u32; 8],
    a: [u32; 8],
    zero: bool,
    sr: u16,
    cpu_type: CpuType,
    heads: HashMap<u32, Head>,
    recording: Option<Recording>,
}

impl CpuCore {
    fn new() -> Self {
        let mut profile = Profile::default();
        reset(&mut profile);
        CpuCore {
            pc: 0,
            trace_recording: false,
            profile,
            d: [0; 8],
            a: [0; 8],
            zero: false,
            sr: 0,
            cpu_type: CpuType::M68000,
            heads: HashMap::new(),
            recording: None,
        }
    }

    fn set_cpu_type(&mut self, cpu_type: CpuType) {
        self.cpu_type = cpu_type;
    }

    fn set_sr(&mut self, sr: u16) {
        self.sr = sr;
        self.zero = sr & 4 != 0;
    }

    fn set_a(&mut self, index: usize, value: u32) {
        self.a[index] = value;
    }

    fn set_d(&mut self, index: usize, value: u32) {
        self.d[index] = value;
    }

    fn d(&self, index: usize) -> u32 {
        self.d[index]
    }

    fn set_low_word(&mut self, index: usize, value: u16) {
        self.d[index] = (self.d[index] & 0xFFFF_0000) | u32::from(value);
    }

    /// Executes the instruction at `pc`; an A-line opcode executes nothing.
    fn execute(&mut self, bus: &mut LinearMemoryBus) -> Result<Step, u16> {
        let pc = self.pc;
        let opcode = bus.read_word(pc);
        let mut words = 0;
        let mut flow = Flow::Straight;
        let mut traceable = true;
        let mut target = None;
        let short = pc.wrapping_add(2).wrapping_add(opcode as u8 as i8 as u32);
        match opcode {
            0x0C80 => {
                words = 2;
                self.zero = self.d[0] == bus.read_long(pc + 2);
            }
            0x10DC => {
                let value = bus.read_byte(self.a[4]);
                bus.write_byte(self.a[0], value);
                self.a[4] += 1;
                self.a[0] += 1;
                self.zero = value == 0;
            }
            0x2042 => self.a[0] = self.d[2],
            0x22D8 => {
                let value = bus.read_long(self.a[0]);
                bus.write_long(self.a[1], value);
                self.a[0] += 4;
                self.a[1] += 4;
                self.zero = value == 0;
            }
            0x2843 => self.a[4] = self.d[3],
            0x4600 => {
                let value = !(self.d[0] as u8);
                self.d[0] = (self.d[0] & 0xFFFF_FF00) | u32::from(value);
                self.zero = value == 0;
            }
            0x4AC0 => {
                traceable = false;
                self.zero = self.d[0] as u8 == 0;
                self.d[0] |= 0x80;
            }
            0x4C98 => {
                words = 1;
                let list = bus.read_word(pc + 2);
                for index in 0..8 {
                    if list & (1 << index) != 0 {
                        self.d[index] = bus.read_word(self.a[0]) as i16 as u32;
                        self.a[0] += 2;
                    }
                }
            }
            0x4E71 => {}
            0x51C8..=0x51CF => {
                words = 1;
                flow = Flow::LoopCounter;
                let index = usize::from(opcode & 7);
                let count = (self.d[index] as u16).wrapping_sub(1);
                self.set_low_word(index, count);
                if count != 0xFFFF {
                    let offset = bus.read_word(pc + 2) as i16 as u32;
                    target = Some(pc.wrapping_add(2).wrapping_add(offset));
                }
            }
            0x5280 | 0x5281 => {
                let index = usize::from(opcode & 7);
                self.d[index] = self.d[index].wrapping_add(1);
                self.zero = self.d[index] == 0;
            }
            0x5340 => {
                let value = (self.d[0] as u16).wrapping_sub(1);
                self.set_low_word(0, value);
                self.zero = value == 0;
            }
            0x5884 => {
                self.d[4] = self.d[4].wrapping_add(4);
                self.zero = self.d[4] == 0;
            }
            0x6001..=0x60FE => {
                flow = Flow::Branch;
                target = Some(short);
            }
            0x6601..=0x66FE => {
                flow = Flow::Guard;
                if !self.zero {
                    target = Some(short);
                }
            }
            0x7000..=0x70FF | 0x7E00..=0x7EFF => {
                let value = opcode as u8 as i8 as u32;
                self.d[usize::from((opcode >> 9) & 7)] = value;
                self.zero = value == 0;
            }
            0xA000..=0xAFFF => return Err(opcode),
            0xB210 => self.zero = bus.read_byte(self.a[0]) == self.d[1] as u8,
            _ => panic!("opcode {opcode:04X} at {pc:08X}"),
        }
        let extension = if words > 0 { Some(bus.read_word(pc + 2)) } else { None };
        let extension2 = if words > 1 { Some(bus.read_word(pc + 4)) } else { None };
        let next = target.unwrap_or(pc + 2 + 2 * words);
        self.pc = next;
        Ok(Step { op: TraceShapeOp { pc, opcode, extension, extension2 }, flow, traceable, next })
    }

    /// Runs the trace at `pc` once, where there is one that fits in the budget
    /// and stays clear of the watched addresses.
    fn run_trace(&mut self, bus: &mut LinearMemoryBus, budget: u32, watched: &[u32]) -> u32 {
        let head = self.pc;
        let steps = match self.heads.get(&head) {
            Some(Head::Compiled { steps, .. })
                if steps.len() as u32 <= budget
                    && steps.iter().all(|step| !watched.contains(&step.next)) =>
            {
                steps.clone()
            }
            _ => return 0,
        };
        let mut retired = 0;
        let mut left_at = None;
        for recorded in &steps {
            let step = self.execute(bus).expect("traces hold no traps");
            retired += 1;
            if step.next != recorded.next {
                left_at = Some(step.flow);
                break;
            }
        }
        note_native_call(&mut self.profile, head, self.cpu_type, retired);
        let mut stale = false;
        if let Some(Head::Compiled { guard_exits, .. }) = self.heads.get_mut(&head) {
            match left_at {
                None => *guard_exits = 0,
                Some(Flow::Guard) => {
                    *guard_exits += 1;
                    stale = *guard_exits == RERECORD_AFTER;
                }
                Some(_) => {}
            }
        }
        if left_at == Some(Flow::Guard) {
            note_guarded_branch_exit(&mut self.profile, head, self.cpu_type);
        }
        if stale {
            self.heads.insert(head, Head::Stale);
        }
        retired
    }

    /// Appends an interpreted instruction to the recording in progress.
    fn record(&mut self, bus: &LinearMemoryBus, step: Step) {
        let Some(mut recording) = self.recording.take() else {
            return;
        };
        let head = recording.head;
        if !step.traceable {
            let blocker = TraceBlocker {
                pc: step.op.pc,
                executed_opcode: step.op.opcode,
                memory_opcode: Some(bus.read_word(step.op.pc)),
                extension: Some(bus.read_word(step.op.pc + 2)),
                extension2: Some(bus.read_word(step.op.pc + 4)),
            };
            let prefix_ops = recording.steps.len();
            note_blocker(&mut self.profile, head, self.cpu_type, prefix_ops, blocker);
            self.heads.insert(head, Head::Rejected);
            return;
        }
        recording.steps.push(step);
        let leaves_loop = step.flow == Flow::LoopCounter && step.next > step.op.pc + 4;
        if step.next == head || leaves_loop {
            let steps = recording.steps;
            let ops = steps.iter().map(|step| step.op).collect();
            note_compiled(&mut self.profile, head, self.cpu_type, ops);
            self.heads.insert(head, Head::Compiled { steps, guard_exits: 0 });
        } else {
            self.recording = Some(recording);
        }
    }

    /// Notes a backward branch, and starts to record where there is no trace.
    fn backward_edge(&mut self, head: u32) {
        let rejected = matches!(self.heads.get(&head), Some(Head::Rejected));
        note_backward_edge(&mut self.profile, head, self.cpu_type, rejected);
        if self.recording.is_some() {
            return;
        }
        match self.heads.get(&head) {
            None => {}
            Some(Head::Stale) => {
                note_adaptive_rerecord(&mut self.profile, head, self.cpu_type);
            }
            Some(_) => return,
        }
        note_recording(&mut self.profile, head, self.cpu_type);
        self.recording = Some(Recording { head, steps: Vec::new() });
    }

    fn step_batch(
        &mut self,
        bus: &mut LinearMemoryBus,
        budget: u32,
        watched: &[u32],
    ) -> BatchResult {
        let mut instructions = 0;
        while instructions < budget {
            if self.recording.is_none() {
                let retired = self.run_trace(bus, budget - instructions, watched);
                if retired != 0 {
                    instructions += retired;
                    continue;
                }
            }
            let step = match self.execute(bus) {
                Ok(step) => step,
                Err(opcode) => {
                    return BatchResult { exit: BatchExit::AlineTrap { opcode }, instructions };
                }
            };
            instructions += 1;
            if matches!(step.op.opcode, 0x10DC | 0x22D8) {
                note_decoded_mem(&mut self.profile, step.op.pc, step.op.opcode);
            }
            self.record(bus, step);
            if step.flow != Flow::Straight && step.next <= step.op.pc {
                self.backward_edge(step.next);
            }
            if watched.contains(&self.pc) {
                return BatchResult { exit: BatchExit::WatchedPc { pc: self.pc }, instructions };
            }
        }
        BatchResult { exit: BatchExit::BudgetExhausted, instructions }
    }

    fn run_batch(
        &mut self,
        bus: &mut LinearMemoryBus,
        budget: u32,
        watched: &[u32],
    ) -> BatchResult {
        let result = self.step_batch(bus, budget, watched);
        self.recording = None;
        self.trace_recording = self.recording.is_some();
        result
    }
}

#[test]
fn rejected_trace_keeps_counting_dynamic_backward_edges() {
    let mut bus = LinearMemoryBus::new(0x1000);
    bus.write_word(0, 0x5280); // ADDQ.L #1,D0: traceable prefix
    bus.write_word(2, 0x4AC0); // TAS D0: untraceable blocker
    bus.write_word(4, 0x60FA); // BRA.S $0000

    let mut cpu = CpuCore::new();
    cpu.set_cpu_type(CpuType::M68040);
    cpu.pc = 0;
    let result = cpu.run_batch(&mut bus, 120, &[]);
    assert_eq!(result.instructions, 120);

    let snapshot = snapshot(&cpu.profile);
    let row = snapshot
        .rows
        .iter()
        .find(|row| row.start_pc == 0)
        .expect("loop head was profiled");
    assert_eq!(row.backward_hits, 40);
    assert_eq!(row.rejected_hits, 39);
    assert_eq!(row.recording_attempts, 1);
    assert_eq!(row.prefix_ops, 1);
    assert_eq!(row.blocker_pc, Some(2));
    assert_eq!(row.blocker_opcode, Some(0x4AC0));
    assert_eq!(row.projected_dispatches(), row.rejected_hits);
}

#[test]
fn two_op_self_loop_is_compiled_and_runs_natively() {
    let mut bus = LinearMemoryBus::new(0x4000);
    bus.write_word(0, 0x22D8); // MOVE.L (A0)+,(A1)+
    bus.write_word(2, 0x51C8); // DBRA D0,$0000
    bus.write_word(4, 0xFFFC);

    let mut cpu = CpuCore::new();
    cpu.set_cpu_type(CpuType::M68040);
    cpu.set_a(0, 0x1000);
    cpu.set_a(1, 0x2000);
    cpu.set_d(0, 1000);
    cpu.pc = 0;
    let result = cpu.run_batch(&mut bus, 120, &[]);
    assert_eq!(result.instructions, 120);

    let snapshot = snapshot(&cpu.profile);
    let row = snapshot
        .rows
        .iter()
        .find(|row| row.start_pc == 0)
        .expect("two-op loop head was profiled");
    assert_eq!(row.compiled_ops, 2);
    assert!(
        row.native_calls > 1,
        "two-op read/write loops retain the measured faster one-pass path"
    );
    assert!(row.native_calls > 0);
    assert!(row.jit_retired > 0);
}

#[test]
fn full_dispatch_instruction_can_complete_a_recorded_loop() {
    let mut bus = LinearMemoryBus::new(0x1000);
    bus.write_word(0, 0x4C98); // MOVEM.W (A0)+,D1 (full dispatcher)
    bus.write_word(2, 0x0002);
    bus.write_word(4, 0x60FA); // BRA.S $0000

    let mut cpu = CpuCore::new();
    cpu.set_cpu_type(CpuType::M68040);
    cpu.set_a(0, 0x0100);
    cpu.pc = 0;
    let result = cpu.run_batch(&mut bus, 120, &[]);
    assert_eq!(result.instructions, 120);

    let snapshot = snapshot(&cpu.profile);
    let row = snapshot
        .rows
        .iter()
        .find(|row| row.start_pc == 0)
        .expect("MOVEM loop head was profiled");
    assert_eq!(row.compiled_ops, 2);
    assert_eq!(row.blocker_pc, None);
    assert!(row.jit_retired > 0);
}

fn warm_full_dispatch_recording(cpu: &mut CpuCore, bus: &mut LinearMemoryBus) {
    bus.write_word(0, 0x4C98); // MOVEM.W (A0)+,D1 (full dispatcher)
    bus.write_word(2, 0x0002);
    bus.write_word(4, 0x60FA); // BRA.S $0000

    cpu.set_cpu_type(CpuType::M68040);
    cpu.set_a(0, 0x0100);
    cpu.pc = 0;
    let result = cpu.run_batch(bus, 4, &[]);
    assert_eq!(result.exit, BatchExit::BudgetExhausted);
    assert_eq!(result.instructions, 4);
    assert_eq!(cpu.pc, 0);
    assert!(!cpu.trace_recording);
}

#[test]
fn budget_exit_ends_recording_after_full_dispatch_instruction() {
    let mut bus = LinearMemoryBus::new(0x1000);
    let mut cpu = CpuCore::new();
    warm_full_dispatch_recording(&mut cpu, &mut bus);

    let result = cpu.run_batch(&mut bus, 1, &[]);

    assert_eq!(result.exit, BatchExit::BudgetExhausted);
    assert_eq!(result.instructions, 1);
    assert_eq!(cpu.pc, 4);
    assert!(!cpu.trace_recording);

    let snapshot = snapshot(&cpu.profile);
    assert_eq!(snapshot.rows.len(), 1);
    assert_eq!(snapshot.rows[0].recording_attempts, 1);
    assert_eq!(snapshot.backward_hits, 2);
}

#[test]
fn watched_exit_ends_recording_after_full_dispatch_instruction() {
    let mut bus = LinearMemoryBus::new(0x1000);
    let mut cpu = CpuCore::new();
    warm_full_dispatch_recording(&mut cpu, &mut bus);

    let result = cpu.run_batch(&mut bus, 10, &[4]);

    assert_eq!(result.exit, BatchExit::WatchedPc { pc: 4 });
    assert_eq!(result.instructions, 1);
    assert_eq!(cpu.pc, 4);
    assert!(!cpu.trace_recording);

    let snapshot = snapshot(&cpu.profile);
    assert_eq!(snapshot.rows.len(), 1);
    assert_eq!(snapshot.rows[0].recording_attempts, 1);
    assert_eq!(snapshot.native_calls, 0);
}

#[test]
fn surfaced_trap_ends_full_dispatch_recording() {
    let mut bus = LinearMemoryBus::new(0x1000);
    bus.write_word(0, 0x5280); // ADDQ.L #1,D0
    bus.write_word(2, 0x0C80); // CMPI.L #3,D0
    bus.write_word(4, 0x0000);
    bus.write_word(6, 0x0003);
    bus.write_word(8, 0x66F6); // BNE.S $0000 (taken twice)
    bus.write_word(10, 0xA123); // surfaced A-line trap

    let mut cpu = CpuCore::new();
    cpu.set_cpu_type(CpuType::M68040);
    cpu.pc = 0;
    let result = cpu.run_batch(&mut bus, 100, &[]);

    assert_eq!(result.exit, BatchExit::AlineTrap { opcode: 0xA123 });
    assert_eq!(cpu.d(0), 3);
    assert!(!cpu.trace_recording);

    let snapshot = snapshot(&cpu.profile);
    assert_eq!(snapshot.rows[0].backward_hits, 2);
    assert_eq!(snapshot.rows[0].guarded_branch_exits, 1);
    assert_eq!(snapshot.compiled_shapes[0].ops[1].extension, Some(0x0000));
    assert_eq!(snapshot.compiled_shapes[0].ops[1].extension2, Some(0x0003));
}

#[test]
fn cheap_self_loop_iterations_stay_in_one_native_call() {
    let mut bus = LinearMemoryBus::new(0x1000);
    bus.write_word(0, 0x5280); // ADDQ.L #1,D0
    bus.write_word(2, 0x60FC); // BRA.S $0000

    let mut cpu = CpuCore::new();
    cpu.set_cpu_type(CpuType::M68040);
    cpu.pc = 0;
    let result = cpu.run_batch(&mut bus, 120, &[]);
    assert_eq!(result.instructions, 120);

    let snapshot = snapshot(&cpu.profile);
    let row = snapshot
        .rows
        .iter()
        .find(|row| row.start_pc == 0)
        .expect("cheap loop head was profiled");
    assert_eq!(row.compiled_ops, 2);
    assert!(row.native_calls > 1);
    assert!(row.jit_retired > 0);
}

#[test]
fn dominant_guard_side_exit_is_rerecorded() {
    let head: u32 = 0x6000;
    let words = [
        0xB210, // CMP.B (A0),D1
        0x6606, // BNE.S outer
        0x10DC, // common: MOVE.B (A4)+,(A0)+
        0x51C8, 0xFFF8, // DBRA D0,head
        0x2042, // outer: MOVEA.L D2,A0
        0x2843, // MOVEA.L D3,A4
        0x707F, // MOVEQ #127,D0
        0x5884, // ADDQ.L #4,D4
        0x60EC, // BRA.S head
    ];
    let mut bus = LinearMemoryBus::new(0x1_0000);
    for (index, word) in words.iter().enumerate() {
        bus.write_word(head + index as u32 * 2, *word);
    }

    let mut cpu = CpuCore::new();
    cpu.set_cpu_type(CpuType::M68040);
    cpu.set_sr(0x2700);
    cpu.pc = head;
    cpu.set_a(0, 0x4000);
    cpu.set_a(4, 0x5000);
    cpu.set_d(0, 127);
    cpu.set_d(1, 1);
    cpu.set_d(2, 0x4000);
    cpu.set_d(3, 0x5000);

    // Record the uncommon seven-op BNE path, then make the four-op
    // fallthrough loop dominant long enough to trigger adaptation.
    assert_eq!(cpu.run_batch(&mut bus, 14, &[0]).instructions, 14);
    cpu.set_d(1, 0);
    assert_eq!(cpu.run_batch(&mut bus, 100_000, &[0]).instructions, 100_000);

    let snapshot = snapshot(&cpu.profile);
    let row = snapshot
        .rows
        .iter()
        .find(|row| row.start_pc == head)
        .expect("biased loop head was profiled");
    assert_eq!(row.recording_attempts, 2);
    assert_eq!(row.adaptive_rerecords, 1);
    assert_eq!(row.guarded_branch_exits, 64);
    assert_eq!(row.compiled_ops, 4);
    assert!(row.jit_retired > 90_000);
}

#[test]
fn alternating_guard_paths_are_not_rerecorded() {
    let head: u32 = 0x7000;
    let mut bus = LinearMemoryBus::new(0x1_0000);
    let words = [
        0x4600, // NOT.B D0: alternates Z every iteration
        0x6602, // BNE.S skip
        0x4E71, // opposite-path NOP
        0x5281, // skip: ADDQ.L #1,D1
        0x60F6, // BRA.S head
    ];
    for (index, word) in words.iter().enumerate() {
        bus.write_word(head + index as u32 * 2, *word);
    }

    let mut cpu = CpuCore::new();
    cpu.set_cpu_type(CpuType::M68040);
    cpu.set_sr(0x2700);
    cpu.pc = head;
    assert_eq!(cpu.run_batch(&mut bus, 100_000, &[0]).instructions, 100_000);

    let snapshot = snapshot(&cpu.profile);
    let row = snapshot
        .rows
        .iter()
        .find(|row| row.start_pc == head)
        .expect("alternating loop head was profiled");
    assert_eq!(row.recording_attempts, 1);
    assert_eq!(row.adaptive_rerecords, 0);
    assert_eq!(row.compiled_ops, 5);
    assert!(row.guarded_branch_exits > 1_000);
}

#[test]
fn rare_non_self_loop_guard_exit_is_not_rerecorded() {
    let head: u32 = 0x8000;
    let mut bus = LinearMemoryBus::new(0x1_0000);
    let words = [
        0x5340, // SUBQ.W #1,D0
        0x6602, // BNE.S common (taken about 99% of entries)
        0x7063, // rare: MOVEQ #99,D0
        0x5281, // common: ADDQ.L #1,D1
        0x51CF, 0x0004, // DBF D7,outer
        0x4E71, // unreachable padding
        0x4E71, // unreachable padding
        0x7E01, // outer: MOVEQ #1,D7
        0x60EC, // BRA.S head
    ];
    for (index, word) in words.iter().enumerate() {
        bus.write_word(head + index as u32 * 2, *word);
    }

    let mut cpu = CpuCore::new();
    cpu.set_cpu_type(CpuType::M68040);
    cpu.set_sr(0x2700);
    cpu.pc = head;
    cpu.set_d(0, 100);
    cpu.set_d(7, 1);
    assert_eq!(cpu.run_batch(&mut bus, 50_000, &[0]).instructions, 50_000);

    let snapshot = snapshot(&cpu.profile);
    let row = snapshot
        .rows
        .iter()
        .find(|row| row.start_pc == head)
        .expect("rare-exit loop head was profiled");
    assert_eq!(row.recording_attempts, 1);
    assert_eq!(row.adaptive_rerecords, 0);
    assert_eq!(row.compiled_ops, 4);
    assert!(row.guarded_branch_exits > 64);
}

#[test]
fn interpreted_memory_operations_are_counted_by_site() {
    let mut bus = LinearMemoryBus::new(0x4000);
    bus.write_word(0x10, 0x22D8); // MOVE.L (A0)+,(A1)+
    bus.write_word(0x12, 0x22D8); // MOVE.L (A0)+,(A1)+
    bus.write_word(0x14, 0xA000);

    let mut cpu = CpuCore::new();
    cpu.set_a(0, 0x1000);
    cpu.set_a(1, 0x2000);
    for _ in 0..3 {
        cpu.pc = 0x10;
        let result = cpu.run_batch(&mut bus, 100, &[]);
        assert_eq!(result.instructions, 2);
    }

    let mut snapshot = snapshot(&cpu.profile);
    assert!(snapshot.rows.is_empty());
    assert_eq!(snapshot.decoded_mem_ops.len(), 1);
    assert_eq!(snapshot.decoded_mem_ops[0].executions, 6);
    snapshot.decoded_mem_sites.sort_by_key(|site| site.pc);
    let sites: Vec<(u32, u64)> =
        snapshot.decoded_mem_sites.iter().map(|site| (site.pc, site.executions)).collect();
    assert_eq!(sites, vec![(0x10, 3), (0x12, 3)]);
}
