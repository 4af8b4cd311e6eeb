//! Keys of the profiler's tables, and their order.
//!
//! Keys are ordered field by field, in the order in which the fields are
//! declared.

use crate::ordered::{KeyOrder, OrderedKey};
use crate::rows::{TraceDecodeFailureReason, TraceShapeOp};
use vstd::prelude::*;

verus! {

/// A trace head: where a trace starts, and on which CPU model.
#[derive(Debug, Clone, Copy, PartialEq, Eq, Structural)]
pub struct HeadKey {
    /// Guest program counter at which the trace starts.
    pub start_pc: u32,
    /// Number of the CPU model.
    pub cpu_type: u32,
}

/// A failed recording path.
#[derive(Debug, Clone, Copy, PartialEq, Eq, Structural)]
pub struct FailedShapeKey {
    /// Guest program counter at which recording began.
    pub start_pc: u32,
    /// Number of the CPU model.
    pub cpu_type: u32,
    /// Successfully reconstructed operations before the failure.
    pub prefix_ops: u32,
    /// Guest address of the instruction whose reconstruction failed.
    pub blocker_pc: u32,
    /// Opcode that the CPU executed.
    pub executed_opcode: u16,
    /// Opcode reread from guest memory, when readable.
    pub memory_opcode: Option<u16>,
    /// First word after the memory opcode, when readable.
    pub extension: Option<u16>,
    /// Second word after the memory opcode, when readable.
    pub extension2: Option<u16>,
    /// Why the reconstruction failed.
    pub reason: TraceDecodeFailureReason,
}

/// A compiled path.
pub struct CompiledShapeKey {
    /// Guest program counter at which recording began.
    pub start_pc: u32,
    /// Number of the CPU model.
    pub cpu_type: u32,
    /// Executed instructions in dynamic path order.
    pub ops: Vec<TraceShapeOp>,
}

/// A compiled path, as a mathematical value.
#[verifier::ext_equal]
pub struct CompiledShape {
    /// Guest program counter at which recording began.
    pub start_pc: u32,
    /// Number of the CPU model.
    pub cpu_type: u32,
    /// Executed instructions in dynamic path order.
    pub ops: Seq<TraceShapeOp>,
}

impl View for HeadKey {
    type V = HeadKey;

    open spec fn view(&self) -> HeadKey {
        *self
    }
}

impl View for FailedShapeKey {
    type V = FailedShapeKey;

    open spec fn view(&self) -> FailedShapeKey {
        *self
    }
}

impl View for CompiledShapeKey {
    type V = CompiledShape;

    open spec fn view(&self) -> CompiledShape {
        CompiledShape { start_pc: self.start_pc, cpu_type: self.cpu_type, ops: self.ops@ }
    }
}

/// An absent word comes ahead of every word; words come by value.
pub open spec fn word_before(a: Option<u16>, b: Option<u16>) -> bool {
    match (a, b) {
        (None, Some(_)) => true,
        (Some(x), Some(y)) => x < y,
        _ => false,
    }
}

/// The place of a failure reason among the reasons.
pub open spec fn reason_place(reason: TraceDecodeFailureReason) -> int {
    match reason {
        TraceDecodeFailureReason::OpcodeReadFailed => 0,
        TraceDecodeFailureReason::OpcodeChanged => 1,
        TraceDecodeFailureReason::UnsupportedFormOrOperandRead => 2,
    }
}

/// The order of trace heads.
pub open spec fn head_before(a: HeadKey, b: HeadKey) -> bool {
    ||| a.start_pc < b.start_pc
    ||| a.start_pc == b.start_pc && a.cpu_type < b.cpu_type
}

/// The order of failed paths.
pub open spec fn failed_before(a: FailedShapeKey, b: FailedShapeKey) -> bool {
    if a.start_pc != b.start_pc {
        a.start_pc < b.start_pc
    } else if a.cpu_type != b.cpu_type {
        a.cpu_type < b.cpu_type
    } else if a.prefix_ops != b.prefix_ops {
        a.prefix_ops < b.prefix_ops
    } else if a.blocker_pc != b.blocker_pc {
        a.blocker_pc < b.blocker_pc
    } else if a.executed_opcode != b.executed_opcode {
        a.executed_opcode < b.executed_opcode
    } else if a.memory_opcode != b.memory_opcode {
        word_before(a.memory_opcode, b.memory_opcode)
    } else if a.extension != b.extension {
        word_before(a.extension, b.extension)
    } else if a.extension2 != b.extension2 {
        word_before(a.extension2, b.extension2)
    } else {
        reason_place(a.reason) < reason_place(b.reason)
    }
}

/// The order of instructions.
pub open spec fn op_before(a: TraceShapeOp, b: TraceShapeOp) -> bool {
    if a.pc != b.pc {
        a.pc < b.pc
    } else if a.opcode != b.opcode {
        a.opcode < b.opcode
    } else if a.extension != b.extension {
        word_before(a.extension, b.extension)
    } else {
        word_before(a.extension2, b.extension2)
    }
}

/// The order of instruction sequences: by their first difference, a sequence
/// ahead of those that continue it.
pub open spec fn path_before(a: Seq<TraceShapeOp>, b: Seq<TraceShapeOp>) -> bool
    decreases a.len(),
{
    if a.len() == 0 || b.len() == 0 {
        a.len() == 0 && b.len() > 0
    } else if a[0] != b[0] {
        op_before(a[0], b[0])
    } else {
        path_before(a.drop_first(), b.drop_first())
    }
}

/// The order of compiled paths.
pub open spec fn compiled_before(a: CompiledShape, b: CompiledShape) -> bool {
    if a.start_pc != b.start_pc {
        a.start_pc < b.start_pc
    } else if a.cpu_type != b.cpu_type {
        a.cpu_type < b.cpu_type
    } else {
        path_before(a.ops, b.ops)
    }
}

/// Two sequences are never each ahead of the other.
proof fn lemma_path_asymmetric(a: Seq<TraceShapeOp>, b: Seq<TraceShapeOp>)
    requires
        path_before(a, b),
    ensures
        !path_before(b, a),
    decreases a.len(),
{
    if a.len() > 0 && b.len() > 0 && a[0] == b[0] {
        lemma_path_asymmetric(a.drop_first(), b.drop_first());
    }
}

/// The order of sequences is transitive.
proof fn lemma_path_transitive(
    a: Seq<TraceShapeOp>,
    b: Seq<TraceShapeOp>,
    c: Seq<TraceShapeOp>,
)
    requires
        path_before(a, b),
        path_before(b, c),
    ensures
        path_before(a, c),
    decreases a.len(),
{
    if a.len() > 0 && b.len() > 0 && c.len() > 0 && a[0] == b[0] && b[0] == c[0] {
        lemma_path_transitive(a.drop_first(), b.drop_first(), c.drop_first());
    }
}

/// Compares two numbers.
fn compare_numbers(a: u32, b: u32) -> (order: KeyOrder)
    ensures
        match order {
            KeyOrder::Before => a < b,
            KeyOrder::Same => a == b,
            KeyOrder::After => b < a,
        },
{
    if a < b {
        KeyOrder::Before
    } else if a == b {
        KeyOrder::Same
    } else {
        KeyOrder::After
    }
}

/// Compares two optional words.
fn compare_words(a: Option<u16>, b: Option<u16>) -> (order: KeyOrder)
    ensures
        match order {
            KeyOrder::Before => word_before(a, b),
            KeyOrder::Same => a == b,
            KeyOrder::After => word_before(b, a),
        },
{
    match (a, b) {
        (None, None) => KeyOrder::Same,
        (None, Some(_)) => KeyOrder::Before,
        (Some(_), None) => KeyOrder::After,
        (Some(x), Some(y)) => compare_numbers(x as u32, y as u32),
    }
}

/// The place of a failure reason among the reasons.
fn place_of_reason(reason: TraceDecodeFailureReason) -> (place: u32)
    ensures
        place == reason_place(reason),
{
    match reason {
        TraceDecodeFailureReason::OpcodeReadFailed => 0,
        TraceDecodeFailureReason::OpcodeChanged => 1,
        TraceDecodeFailureReason::UnsupportedFormOrOperandRead => 2,
    }
}

/// The first order, unless it finds no difference.
fn first_difference(first: KeyOrder, rest: KeyOrder) -> (order: KeyOrder)
    ensures
        order == if first is Same {
            rest
        } else {
            first
        },
{
    match first {
        KeyOrder::Before => KeyOrder::Before,
        KeyOrder::Same => rest,
        KeyOrder::After => KeyOrder::After,
    }
}

/// Compares two instructions.
fn compare_ops(a: &TraceShapeOp, b: &TraceShapeOp) -> (order: KeyOrder)
    ensures
        match order {
            KeyOrder::Before => a != b && op_before(*a, *b),
            KeyOrder::Same => a == b,
            KeyOrder::After => a != b && op_before(*b, *a),
        },
{
    let words = first_difference(
        compare_words(a.extension, b.extension),
        compare_words(a.extension2, b.extension2),
    );
    let opcodes = first_difference(compare_numbers(a.opcode as u32, b.opcode as u32), words);
    first_difference(compare_numbers(a.pc, b.pc), opcodes)
}

/// Compares two instruction sequences.
fn compare_paths(a: &Vec<TraceShapeOp>, b: &Vec<TraceShapeOp>) -> (order: KeyOrder)
    ensures
        match order {
            KeyOrder::Before => path_before(a@, b@),
            KeyOrder::Same => a@ == b@,
            KeyOrder::After => path_before(b@, a@),
        },
{
    let mut i: usize = 0;
    proof {
        assert(a@.skip(0) =~= a@);
        assert(b@.skip(0) =~= b@);
    }
    while i < a.len() && i < b.len()
        invariant
            i <= a.len(),
            i <= b.len(),
            a@.take(i as int) == b@.take(i as int),
            path_before(a@, b@) == path_before(a@.skip(i as int), b@.skip(i as int)),
            path_before(b@, a@) == path_before(b@.skip(i as int), a@.skip(i as int)),
        decreases a.len() - i,
    {
        let ghost x = a@.skip(i as int);
        let ghost y = b@.skip(i as int);
        match compare_ops(&a[i], &b[i]) {
            KeyOrder::Before => {
                return KeyOrder::Before;
            },
            KeyOrder::Same => {},
            KeyOrder::After => {
                return KeyOrder::After;
            },
        }
        proof {
            assert(x.drop_first() =~= a@.skip(i + 1));
            assert(y.drop_first() =~= b@.skip(i + 1));
            assert(a@.take(i + 1) =~= a@.take(i as int).push(a@[i as int]));
            assert(b@.take(i + 1) =~= b@.take(i as int).push(b@[i as int]));
        }
        i = i + 1;
    }
    if i < b.len() {
        KeyOrder::Before
    } else if i < a.len() {
        KeyOrder::After
    } else {
        proof {
            assert(a@.take(i as int) =~= a@);
            assert(b@.take(i as int) =~= b@);
        }
        KeyOrder::Same
    }
}

impl OrderedKey for HeadKey {
    open spec fn before(a: HeadKey, b: HeadKey) -> bool {
        head_before(a, b)
    }

    proof fn before_asymmetric(a: HeadKey, b: HeadKey) {
    }

    proof fn before_transitive(a: HeadKey, b: HeadKey, c: HeadKey) {
    }

    fn compare(&self, other: &Self) -> (order: KeyOrder) {
        first_difference(
            compare_numbers(self.start_pc, other.start_pc),
            compare_numbers(self.cpu_type, other.cpu_type),
        )
    }
}

impl OrderedKey for FailedShapeKey {
    open spec fn before(a: FailedShapeKey, b: FailedShapeKey) -> bool {
        failed_before(a, b)
    }

    proof fn before_asymmetric(a: FailedShapeKey, b: FailedShapeKey) {
    }

    proof fn before_transitive(a: FailedShapeKey, b: FailedShapeKey, c: FailedShapeKey) {
    }

    fn compare(&self, other: &Self) -> (order: KeyOrder) {
        let reasons = compare_numbers(place_of_reason(self.reason), place_of_reason(other.reason));
        let second = first_difference(compare_words(self.extension2, other.extension2), reasons);
        let words = first_difference(compare_words(self.extension, other.extension), second);
        let memory = first_difference(
            compare_words(self.memory_opcode, other.memory_opcode),
            words,
        );
        let executed = first_difference(
            compare_numbers(self.executed_opcode as u32, other.executed_opcode as u32),
            memory,
        );
        let blockers = first_difference(
            compare_numbers(self.blocker_pc, other.blocker_pc),
            executed,
        );
        let prefixes = first_difference(
            compare_numbers(self.prefix_ops, other.prefix_ops),
            blockers,
        );
        let cpus = first_difference(compare_numbers(self.cpu_type, other.cpu_type), prefixes);
        first_difference(compare_numbers(self.start_pc, other.start_pc), cpus)
    }
}

impl OrderedKey for CompiledShapeKey {
    open spec fn before(a: CompiledShape, b: CompiledShape) -> bool {
        compiled_before(a, b)
    }

    proof fn before_asymmetric(a: CompiledShape, b: CompiledShape) {
        if a.start_pc == b.start_pc && a.cpu_type == b.cpu_type {
            lemma_path_asymmetric(a.ops, b.ops);
        }
    }

    proof fn before_transitive(a: CompiledShape, b: CompiledShape, c: CompiledShape) {
        if a.start_pc == b.start_pc && a.cpu_type == b.cpu_type && b.start_pc == c.start_pc
            && b.cpu_type == c.cpu_type {
            lemma_path_transitive(a.ops, b.ops, c.ops);
        }
    }

    fn compare(&self, other: &Self) -> (order: KeyOrder) {
        match compare_numbers(self.start_pc, other.start_pc) {
            KeyOrder::Before => KeyOrder::Before,
            KeyOrder::After => KeyOrder::After,
            KeyOrder::Same => first_difference(
                compare_numbers(self.cpu_type, other.cpu_type),
                compare_paths(&self.ops, &other.ops),
            ),
        }
    }
}

} // verus!
