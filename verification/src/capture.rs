//! What a snapshot says about the events that led to it, field by field.

use crate::cpu_type;
use crate::cpu_type::CpuType;
use crate::history;
use crate::history::Event;
use crate::keys;
use crate::keys::HeadKey;
use crate::listing;
use crate::model;
use crate::rows::{
    CompiledTraceShapeProfileRow, FailedTraceShapeProfileRow, TraceDecodeFailureReason,
    TraceProfileRow, TraceProfileSnapshot, TraceShapeOp,
};
use crate::sums;
use vstd::prelude::*;

verus! {

/// Whether an event is about the trace head at `pc` on a CPU model.
pub open spec fn is_about(event: Event, pc: u32, cpu: CpuType) -> bool {
    match event {
        Event::BackwardEdge { pc: at, cpu_type, .. } => at == pc && cpu_type == cpu,
        Event::Recording { pc: at, cpu_type } => at == pc && cpu_type == cpu,
        Event::Blocker { pc: at, cpu_type, .. } => at == pc && cpu_type == cpu,
        Event::Compiled { pc: at, cpu_type, .. } => at == pc && cpu_type == cpu,
        Event::NativeCall { pc: at, cpu_type, .. } => at == pc && cpu_type == cpu,
        Event::GuardedBranchExit { pc: at, cpu_type } => at == pc && cpu_type == cpu,
        Event::AdaptiveRerecord { pc: at, cpu_type } => at == pc && cpu_type == cpu,
        Event::DecodedMem { .. } => false,
    }
}

/// Whether a counter says `n`: as it is, or the largest count where it is more.
pub open spec fn says(counter: u64, n: nat) -> bool {
    if n <= u64::MAX {
        counter == n
    } else {
        counter == u64::MAX
    }
}

/// How many events are of a kind.
pub open spec fn how_many(events: Seq<Event>, kind: spec_fn(Event) -> bool) -> nat {
    events.filter(kind).len()
}

/// Instructions that the executor calls for a head retired.
pub open spec fn instructions(events: Seq<Event>, pc: u32, cpu: CpuType) -> nat {
    events.fold_left(
        0nat,
        |sum: nat, event: Event|
            if event is NativeCall && is_about(event, pc, cpu) {
                sum + event->NativeCall_retired as nat
            } else {
                sum
            },
    )
}

/// Whether a length is kept as `kept`: it is the same number, but for what does
/// not fit in 32 bits.
pub open spec fn keeps_length(kept: u32, n: nat) -> bool {
    &&& n <= u32::MAX ==> kept == n
    &&& kept == n % 0x1_0000_0000
}

/// Whether the event at `k` is a failed recording of a head.
pub open spec fn blocks(events: Seq<Event>, k: int, pc: u32, cpu: CpuType) -> bool {
    0 <= k < events.len() && events[k] is Blocker && is_about(events[k], pc, cpu)
}

/// Whether the event at `k` is a compilation for a head.
pub open spec fn compiles(events: Seq<Event>, k: int, pc: u32, cpu: CpuType) -> bool {
    0 <= k < events.len() && events[k] is Compiled && is_about(events[k], pc, cpu)
}

/// Whether the blocker columns of a row say which failed recording had the
/// longest prefix, and of those with equally long ones, which was the last;
/// whether they are empty where no recording failed.
pub open spec fn says_blocker(events: Seq<Event>, row: TraceProfileRow) -> bool {
    if exists|k: int| #[trigger] blocks(events, k, row.start_pc, row.cpu_type) {
        exists|k: int|
            {
                &&& #[trigger] blocks(events, k, row.start_pc, row.cpu_type)
                &&& keeps_length(row.prefix_ops, events[k]->Blocker_prefix_ops)
                &&& row.blocker_pc == Some(events[k]->Blocker_blocker.pc)
                &&& row.blocker_opcode == Some(events[k]->Blocker_blocker.executed_opcode)
                &&& forall|j: int| #[trigger]
                    blocks(events, j, row.start_pc, row.cpu_type)
                        ==> events[j]->Blocker_prefix_ops % 0x1_0000_0000 <= row.prefix_ops
                &&& forall|j: int| #[trigger]
                    blocks(events, j, row.start_pc, row.cpu_type) && j > k
                        ==> events[j]->Blocker_prefix_ops % 0x1_0000_0000 < row.prefix_ops
            }
    } else {
        row.prefix_ops == 0 && row.blocker_pc is None && row.blocker_opcode is None
    }
}

/// Whether the compiled length of a row is that of the path compiled last, and
/// zero where none was.
pub open spec fn says_length(events: Seq<Event>, row: TraceProfileRow) -> bool {
    if exists|k: int| #[trigger] compiles(events, k, row.start_pc, row.cpu_type) {
        exists|k: int|
            {
                &&& #[trigger] compiles(events, k, row.start_pc, row.cpu_type)
                &&& keeps_length(row.compiled_ops, events[k]->Compiled_ops.len())
                &&& forall|j: int| #[trigger]
                    compiles(events, j, row.start_pc, row.cpu_type) ==> j <= k
            }
    } else {
        row.compiled_ops == 0
    }
}

/// Whether a row says what was noted of its head.
pub open spec fn says_head(events: Seq<Event>, row: TraceProfileRow) -> bool {
    let pc = row.start_pc;
    let cpu = row.cpu_type;
    &&& says(
        row.backward_hits,
        how_many(events, |event: Event| event is BackwardEdge && is_about(event, pc, cpu)),
    )
    &&& says(
        row.rejected_hits,
        how_many(
            events,
            |event: Event|
                event is BackwardEdge && is_about(event, pc, cpu) && event->BackwardEdge_rejected,
        ),
    )
    &&& says(
        row.recording_attempts,
        how_many(events, |event: Event| event is Recording && is_about(event, pc, cpu)),
    )
    &&& says(
        row.native_calls,
        how_many(events, |event: Event| event is NativeCall && is_about(event, pc, cpu)),
    )
    &&& says(row.jit_retired, instructions(events, pc, cpu))
    &&& says(
        row.guarded_branch_exits,
        how_many(events, |event: Event| event is GuardedBranchExit && is_about(event, pc, cpu)),
    )
    &&& says(
        row.adaptive_rerecords,
        how_many(events, |event: Event| event is AdaptiveRerecord && is_about(event, pc, cpu)),
    )
    &&& says_blocker(events, row)
    &&& says_length(events, row)
}

/// Whether a failed recording is the one that a row is about.
pub open spec fn is_failure(event: Event, row: FailedTraceShapeProfileRow) -> bool {
    &&& event is Blocker
    &&& event->Blocker_pc == row.start_pc
    &&& event->Blocker_cpu_type == row.cpu_type
    &&& keeps_length(row.prefix_ops, event->Blocker_prefix_ops)
    &&& event->Blocker_blocker.pc == row.blocker_pc
    &&& event->Blocker_blocker.executed_opcode == row.executed_opcode
    &&& event->Blocker_blocker.memory_opcode == row.memory_opcode
    &&& event->Blocker_blocker.extension == row.extension
    &&& event->Blocker_blocker.extension2 == row.extension2
}

/// Whether a failure is classified by what memory held: nothing readable,
/// another opcode, or the opcode that was executed.
pub open spec fn is_classified(
    reason: TraceDecodeFailureReason,
    executed_opcode: u16,
    memory_opcode: Option<u16>,
) -> bool {
    &&& reason is OpcodeReadFailed <==> memory_opcode is None
    &&& reason is OpcodeChanged <==> (memory_opcode is Some && memory_opcode
        != Some(executed_opcode))
    &&& reason is UnsupportedFormOrOperandRead <==> memory_opcode == Some(executed_opcode)
}

/// Whether an event is the compilation that a row is about.
pub open spec fn is_compilation(event: Event, row: CompiledTraceShapeProfileRow) -> bool {
    &&& event is Compiled
    &&& event->Compiled_pc == row.start_pc
    &&& event->Compiled_cpu_type == row.cpu_type
    &&& event->Compiled_ops == row.ops@
}

/// Whether a number leads another list of numbers: the first difference
/// decides, and a list comes ahead of those that continue it.
pub open spec fn precedes(a: Seq<int>, b: Seq<int>) -> bool {
    exists|k: int|
        {
            &&& 0 <= k <= a.len()
            &&& k < b.len()
            &&& #[trigger] a.take(k) == b.take(k)
            &&& k < a.len() ==> a[k] < b[k]
        }
}

/// An optional word as a number; an absent one comes ahead of all.
pub open spec fn word_number(word: Option<u16>) -> int {
    match word {
        None => -1,
        Some(word) => word as int,
    }
}

/// A failure reason as a number, in the order of declaration.
pub open spec fn reason_number(reason: TraceDecodeFailureReason) -> int {
    match reason {
        TraceDecodeFailureReason::OpcodeReadFailed => 0,
        TraceDecodeFailureReason::OpcodeChanged => 1,
        TraceDecodeFailureReason::UnsupportedFormOrOperandRead => 2,
    }
}

/// What failed paths are listed by.
pub open spec fn failed_numbers(row: FailedTraceShapeProfileRow) -> Seq<int> {
    seq![
        row.start_pc as int,
        cpu_type::cpu_repr(row.cpu_type) as int,
        row.prefix_ops as int,
        row.blocker_pc as int,
        row.executed_opcode as int,
        word_number(row.memory_opcode),
        word_number(row.extension),
        word_number(row.extension2),
        reason_number(row.reason),
    ]
}

/// The place `k` of a path's numbers: four for each instruction.
pub open spec fn path_number(ops: Seq<TraceShapeOp>, k: int) -> int {
    let op = ops[k / 4];
    if k % 4 == 0 {
        op.pc as int
    } else if k % 4 == 1 {
        op.opcode as int
    } else if k % 4 == 2 {
        word_number(op.extension)
    } else {
        word_number(op.extension2)
    }
}

/// What compiled paths of one head are listed by.
pub open spec fn path_numbers(ops: Seq<TraceShapeOp>) -> Seq<int> {
    Seq::new((4 * ops.len()) as nat, |k: int| path_number(ops, k))
}

/// Whether a head comes ahead of another: by address, then by CPU model.
pub open spec fn head_precedes(pc: u32, cpu: CpuType, other_pc: u32, other_cpu: CpuType) -> bool {
    pc < other_pc || pc == other_pc && cpu_type::cpu_repr(cpu) < cpu_type::cpu_repr(other_cpu)
}

/// A head key that stands for a head stands for no other one.
proof fn lemma_about(event: Event, pc: u32, cpu: CpuType)
    ensures
        is_about(event, pc, cpu) <==> history::head_of(event) == Some(model::head(pc, cpu)),
{
    if history::head_of(event) == Some(model::head(pc, cpu)) {
        match event {
            Event::BackwardEdge { cpu_type, .. } => {
                cpu_type::law_cpu_repr_injective(cpu, cpu_type);
            },
            Event::Recording { cpu_type, .. } => {
                cpu_type::law_cpu_repr_injective(cpu, cpu_type);
            },
            Event::Blocker { cpu_type, .. } => {
                cpu_type::law_cpu_repr_injective(cpu, cpu_type);
            },
            Event::Compiled { cpu_type, .. } => {
                cpu_type::law_cpu_repr_injective(cpu, cpu_type);
            },
            Event::NativeCall { cpu_type, .. } => {
                cpu_type::law_cpu_repr_injective(cpu, cpu_type);
            },
            Event::GuardedBranchExit { cpu_type, .. } => {
                cpu_type::law_cpu_repr_injective(cpu, cpu_type);
            },
            Event::AdaptiveRerecord { cpu_type, .. } => {
                cpu_type::law_cpu_repr_injective(cpu, cpu_type);
            },
            Event::DecodedMem { .. } => {},
        }
    }
}

/// Two kinds that agree count alike, by recursion and by filter.
proof fn lemma_how_many(
    events: Seq<Event>,
    kind: spec_fn(Event) -> bool,
    same: spec_fn(Event) -> bool,
)
    requires
        forall|event: Event| #[trigger] kind(event) == same(event),
    ensures
        how_many(events, kind) == history::count(events, same),
    decreases events.len(),
{
    reveal(Seq::filter);
    if events.len() > 0 {
        lemma_how_many(events.drop_last(), kind, same);
        assert(kind(events.last()) == same(events.last()));
    }
}

/// Retired instructions, by recursion and by sum.
proof fn lemma_instructions(events: Seq<Event>, pc: u32, cpu: CpuType)
    ensures
        instructions(events, pc, cpu) == history::retired(events, model::head(pc, cpu)),
    decreases events.len(),
{
    reveal(Seq::fold_left);
    if events.len() > 0 {
        lemma_instructions(events.drop_last(), pc, cpu);
        lemma_about(events.last(), pc, cpu);
    }
}

/// A count that is positive comes from an event.
proof fn lemma_counted_event(events: Seq<Event>, kind: spec_fn(Event) -> bool)
    ensures
        history::count(events, kind) > 0 <==> exists|k: int|
            0 <= k < events.len() && kind(#[trigger] events[k]),
    decreases events.len(),
{
    if events.len() > 0 {
        let front = events.drop_last();
        lemma_counted_event(front, kind);
        if history::count(front, kind) > 0 {
            let k = choose|k: int| 0 <= k < front.len() && kind(#[trigger] front[k]);
            assert(events[k] == front[k]);
        }
        if kind(events.last()) {
            assert(kind(events[events.len() - 1]));
        }
        if exists|k: int| 0 <= k < events.len() && kind(#[trigger] events[k]) {
            let k = choose|k: int| 0 <= k < events.len() && kind(#[trigger] events[k]);
            if k < front.len() {
                assert(front[k] == events[k]);
            }
        }
    }
}

/// The row of a head with the given counters.
spec fn shown(pc: u32, cpu: CpuType, row: model::Row) -> TraceProfileRow {
    TraceProfileRow {
        start_pc: pc,
        cpu_type: cpu,
        backward_hits: row.backward_hits,
        rejected_hits: row.rejected_hits,
        recording_attempts: row.recording_attempts,
        prefix_ops: row.prefix_ops,
        blocker_pc: row.blocker_pc,
        blocker_opcode: row.blocker_opcode,
        compiled_ops: row.compiled_ops,
        native_calls: row.native_calls,
        jit_retired: row.jit_retired,
        guarded_branch_exits: row.guarded_branch_exits,
        adaptive_rerecords: row.adaptive_rerecords,
    }
}

/// The blocker columns and the compiled length that events leave.
proof fn lemma_columns(events: Seq<Event>, pc: u32, cpu: CpuType)
    ensures
        says_blocker(
            events,
            shown(pc, cpu, history::profile_after(events).row(model::head(pc, cpu))),
        ),
        says_length(
            events,
            shown(pc, cpu, history::profile_after(events).row(model::head(pc, cpu))),
        ),
    decreases events.len(),
{
    let h = model::head(pc, cpu);
    let now = shown(pc, cpu, history::profile_after(events).row(h));
    if events.len() == 0 {
        assert(!exists|k: int| #[trigger] blocks(events, k, pc, cpu));
        assert(!exists|k: int| #[trigger] compiles(events, k, pc, cpu));
    } else {
        let front = events.drop_last();
        let event = events.last();
        let p = history::profile_after(front);
        let then = shown(pc, cpu, p.row(h));
        lemma_columns(front, pc, cpu);
        lemma_about(event, pc, cpu);
        if history::head_of(event) == Some(h) {
            history::lemma_event_changes_head(p, event, h);
        } else {
            history::law_event_leaves_other_heads(p, event, h);
        }
        assert(front.push(event) =~= events);
        lemma_blocker_step(front, event, then, now);
        lemma_length_step(front, event, then, now);
    }
}

/// One more event, seen in the blocker columns.
proof fn lemma_blocker_step(
    front: Seq<Event>,
    event: Event,
    then: TraceProfileRow,
    now: TraceProfileRow,
)
    requires
        says_blocker(front, then),
        now.start_pc == then.start_pc,
        now.cpu_type == then.cpu_type,
        (event is Blocker && is_about(event, then.start_pc, then.cpu_type)) ==> {
            let prefix = event->Blocker_prefix_ops % 0x1_0000_0000;
            if prefix >= then.prefix_ops {
                &&& now.prefix_ops == prefix
                &&& now.blocker_pc == Some(event->Blocker_blocker.pc)
                &&& now.blocker_opcode == Some(event->Blocker_blocker.executed_opcode)
            } else {
                &&& now.prefix_ops == then.prefix_ops
                &&& now.blocker_pc == then.blocker_pc
                &&& now.blocker_opcode == then.blocker_opcode
            }
        },
        !(event is Blocker && is_about(event, then.start_pc, then.cpu_type)) ==> {
            &&& now.prefix_ops == then.prefix_ops
            &&& now.blocker_pc == then.blocker_pc
            &&& now.blocker_opcode == then.blocker_opcode
        },
    ensures
        says_blocker(front.push(event), now),
{
    let events = front.push(event);
    let pc = then.start_pc;
    let cpu = then.cpu_type;
    let last = front.len() as int;
    assert forall|k: int| k != last implies #[trigger] blocks(events, k, pc, cpu) == blocks(
        front,
        k,
        pc,
        cpu,
    ) by {
        if 0 <= k < front.len() {
            assert(events[k] == front[k]);
        }
    }
    assert(events[last] == event);
    let new = blocks(events, last, pc, cpu);
    if exists|k: int| #[trigger] blocks(front, k, pc, cpu) {
        let k = choose|k: int|
            {
                &&& #[trigger] blocks(front, k, pc, cpu)
                &&& keeps_length(then.prefix_ops, front[k]->Blocker_prefix_ops)
                &&& then.blocker_pc == Some(front[k]->Blocker_blocker.pc)
                &&& then.blocker_opcode == Some(front[k]->Blocker_blocker.executed_opcode)
                &&& forall|j: int| #[trigger]
                    blocks(front, j, pc, cpu) ==> front[j]->Blocker_prefix_ops % 0x1_0000_0000
                        <= then.prefix_ops
                &&& forall|j: int| #[trigger]
                    blocks(front, j, pc, cpu) && j > k ==> front[j]->Blocker_prefix_ops
                        % 0x1_0000_0000 < then.prefix_ops
            };
        assert(blocks(events, k, pc, cpu));
        assert(events[k] == front[k]);
        let kept = if new && event->Blocker_prefix_ops % 0x1_0000_0000 >= then.prefix_ops {
            last
        } else {
            k
        };
        assert forall|j: int| #[trigger] blocks(events, j, pc, cpu) implies {
            &&& events[j]->Blocker_prefix_ops % 0x1_0000_0000 <= now.prefix_ops
            &&& j > kept ==> events[j]->Blocker_prefix_ops % 0x1_0000_0000 < now.prefix_ops
        } by {
            if j != last {
                assert(blocks(front, j, pc, cpu));
                assert(events[j] == front[j]);
            }
        }
        assert(blocks(events, kept, pc, cpu));
        assert(keeps_length(now.prefix_ops, events[kept]->Blocker_prefix_ops));
    } else if new {
        assert forall|j: int| #[trigger] blocks(events, j, pc, cpu) implies j == last by {}
        assert(keeps_length(now.prefix_ops, events[last]->Blocker_prefix_ops));
    } else {
        assert(!exists|k: int| #[trigger] blocks(events, k, pc, cpu));
    }
}

/// One more event, seen in the compiled length.
proof fn lemma_length_step(
    front: Seq<Event>,
    event: Event,
    then: TraceProfileRow,
    now: TraceProfileRow,
)
    requires
        says_length(front, then),
        now.start_pc == then.start_pc,
        now.cpu_type == then.cpu_type,
        if event is Compiled && is_about(event, then.start_pc, then.cpu_type) {
            now.compiled_ops == event->Compiled_ops.len() % 0x1_0000_0000
        } else {
            now.compiled_ops == then.compiled_ops
        },
    ensures
        says_length(front.push(event), now),
{
    let events = front.push(event);
    let pc = then.start_pc;
    let cpu = then.cpu_type;
    let last = front.len() as int;
    assert forall|k: int| k != last implies #[trigger] compiles(events, k, pc, cpu) == compiles(
        front,
        k,
        pc,
        cpu,
    ) by {
        if 0 <= k < front.len() {
            assert(events[k] == front[k]);
        }
    }
    assert(events[last] == event);
    if compiles(events, last, pc, cpu) {
        assert(keeps_length(now.compiled_ops, events[last]->Compiled_ops.len()));
    } else if exists|k: int| #[trigger] compiles(front, k, pc, cpu) {
        let k = choose|k: int|
            {
                &&& #[trigger] compiles(front, k, pc, cpu)
                &&& keeps_length(then.compiled_ops, front[k]->Compiled_ops.len())
                &&& forall|j: int| #[trigger] compiles(front, j, pc, cpu) ==> j <= k
            };
        assert(events[k] == front[k]);
        assert(compiles(events, k, pc, cpu));
    } else {
        assert(!exists|k: int| #[trigger] compiles(events, k, pc, cpu));
    }
}

/// Every row of a snapshot says of its head what was noted of it, in every
/// column.
pub proof fn law_rows_say_events(events: Seq<Event>, s: TraceProfileSnapshot, i: int)
    requires
        listing::lists_profile(history::profile_after(events), s),
        0 <= i < s.rows@.len(),
    ensures
        says_head(events, s.rows@[i]),
        exists|k: int|
            0 <= k < events.len() && is_about(
                #[trigger] events[k],
                s.rows@[i].start_pc,
                s.rows@[i].cpu_type,
            ),
{
    let row = s.rows@[i];
    let pc = row.start_pc;
    let cpu = row.cpu_type;
    let h = model::head(pc, cpu);
    let p = history::profile_after(events);
    assert(listing::listed_head(row) == h);
    assert(p.rows.contains_key(h));
    assert(row == shown(pc, cpu, p.row(h)));
    history::law_rows_count_events(events, h);
    lemma_columns(events, pc, cpu);
    lemma_instructions(events, pc, cpu);
    assert forall|event: Event| #[trigger] is_about(event, pc, cpu) == (history::head_of(event)
        == Some(h)) by {
        lemma_about(event, pc, cpu);
    }
    lemma_how_many(
        events,
        |event: Event| event is BackwardEdge && is_about(event, pc, cpu),
        history::backward_edge(h),
    );
    lemma_how_many(
        events,
        |event: Event|
            event is BackwardEdge && is_about(event, pc, cpu) && event->BackwardEdge_rejected,
        history::rejected_edge(h),
    );
    lemma_how_many(
        events,
        |event: Event| event is Recording && is_about(event, pc, cpu),
        history::recording(h),
    );
    lemma_how_many(
        events,
        |event: Event| event is NativeCall && is_about(event, pc, cpu),
        history::native_call(h),
    );
    lemma_how_many(
        events,
        |event: Event| event is GuardedBranchExit && is_about(event, pc, cpu),
        history::guarded_branch_exit(h),
    );
    lemma_how_many(
        events,
        |event: Event| event is AdaptiveRerecord && is_about(event, pc, cpu),
        history::adaptive_rerecord(h),
    );
    lemma_counted_event(events, history::at(h));
    let k = choose|k: int| 0 <= k < events.len() && history::at(h)(#[trigger] events[k]);
    assert(is_about(events[k], pc, cpu));
}

/// Every head that something was noted of has a row, and no head has two.
pub proof fn law_heads_are_listed(
    events: Seq<Event>,
    s: TraceProfileSnapshot,
    k: int,
    pc: u32,
    cpu: CpuType,
)
    requires
        listing::lists_profile(history::profile_after(events), s),
        0 <= k < events.len(),
        is_about(events[k], pc, cpu),
    ensures
        exists|i: int|
            0 <= i < s.rows@.len() && (#[trigger] s.rows@[i]).start_pc == pc && s.rows@[i].cpu_type
                == cpu,
        forall|i: int, j: int|
            0 <= i < j < s.rows@.len() ==> head_precedes(
                (#[trigger] s.rows@[i]).start_pc,
                s.rows@[i].cpu_type,
                (#[trigger] s.rows@[j]).start_pc,
                s.rows@[j].cpu_type,
            ),
{
    let h = model::head(pc, cpu);
    lemma_about(events[k], pc, cpu);
    history::law_rows_count_events(events, h);
    assert(history::at(h)(events[k]));
    lemma_counted_event(events, history::at(h));
    assert(history::profile_after(events).rows.contains_key(h));
    let i = choose|i: int|
        0 <= i < s.rows@.len() && listing::listed_head(#[trigger] s.rows@[i]) == h;
    cpu_type::law_cpu_repr_injective(s.rows@[i].cpu_type, cpu);
    assert(s.rows@[i].start_pc == pc);
}

/// Every row of a failed path says how often a recording failed just so, and
/// why: memory was not readable, held another opcode, or held the executed one.
pub proof fn law_failures_say_events(events: Seq<Event>, s: TraceProfileSnapshot, i: int)
    requires
        listing::lists_profile(history::profile_after(events), s),
        0 <= i < s.failed_shapes@.len(),
    ensures
        ({
            let row = s.failed_shapes@[i];
            let n = how_many(events, |event: Event| is_failure(event, row));
            &&& n > 0
            &&& says(row.recordings, n)
            &&& is_classified(row.reason, row.executed_opcode, row.memory_opcode)
        }),
{
    let row = s.failed_shapes@[i];
    let f = listing::listed_failed(row);
    let p = history::profile_after(events);
    assert(p.failed_shapes.contains_key(f));
    history::law_failed_shapes_count_events(events, f);
    history::law_history_coherent(events);
    assert(f.reason == model::failure_reason(f.executed_opcode, f.memory_opcode));
    let kind = |event: Event| is_failure(event, row);
    assert forall|event: Event| #[trigger] kind(event) == history::failed_with(f)(event) by {
        lemma_failure(event, row);
    }
    lemma_how_many(events, kind, history::failed_with(f));
}

/// The failed recordings that a row is about are those with its path.
proof fn lemma_failure(event: Event, row: FailedTraceShapeProfileRow)
    requires
        row.reason == model::failure_reason(row.executed_opcode, row.memory_opcode),
    ensures
        is_failure(event, row) <==> history::failed_with(listing::listed_failed(row))(event),
{
    if let Event::Blocker { pc, cpu_type, prefix_ops, blocker } = event {
        if history::failed_with(listing::listed_failed(row))(event) {
            cpu_type::law_cpu_repr_injective(row.cpu_type, cpu_type);
        }
    }
}

/// Every failed recording has a row, and failed paths are listed in order, none
/// twice.
pub proof fn law_failures_are_listed(events: Seq<Event>, s: TraceProfileSnapshot, k: int)
    requires
        listing::lists_profile(history::profile_after(events), s),
        0 <= k < events.len(),
        events[k] is Blocker,
    ensures
        exists|i: int|
            0 <= i < s.failed_shapes@.len() && is_failure(
                events[k],
                #[trigger] s.failed_shapes@[i],
            ),
        forall|i: int, j: int|
            0 <= i < j < s.failed_shapes@.len() ==> precedes(
                failed_numbers(#[trigger] s.failed_shapes@[i]),
                failed_numbers(#[trigger] s.failed_shapes@[j]),
            ),
{
    let event = events[k];
    let rows = s.failed_shapes@;
    let f = model::failed_shape(
        event->Blocker_pc,
        event->Blocker_cpu_type,
        event->Blocker_prefix_ops,
        event->Blocker_blocker,
    );
    assert(history::failed_with(f)(event));
    lemma_counted_event(events, history::failed_with(f));
    history::law_failed_shapes_count_events(events, f);
    let i = choose|i: int| 0 <= i < rows.len() && listing::listed_failed(#[trigger] rows[i]) == f;
    cpu_type::law_cpu_repr_injective(rows[i].cpu_type, event->Blocker_cpu_type);
    assert(is_failure(event, rows[i]));
    assert forall|i: int, j: int| 0 <= i < j < rows.len() implies precedes(
        failed_numbers(#[trigger] rows[i]),
        failed_numbers(#[trigger] rows[j]),
    ) by {
        lemma_failed_precedes(rows[i], rows[j]);
    }
}

/// The first difference of two failed paths.
proof fn lemma_failed_precedes(x: FailedTraceShapeProfileRow, y: FailedTraceShapeProfileRow)
    requires
        keys::failed_before(listing::listed_failed(x), listing::listed_failed(y)),
    ensures
        precedes(failed_numbers(x), failed_numbers(y)),
{
    let a = failed_numbers(x);
    let b = failed_numbers(y);
    let k: int = if x.start_pc != y.start_pc {
        0
    } else if cpu_type::cpu_repr(x.cpu_type) != cpu_type::cpu_repr(y.cpu_type) {
        1
    } else if x.prefix_ops != y.prefix_ops {
        2
    } else if x.blocker_pc != y.blocker_pc {
        3
    } else if x.executed_opcode != y.executed_opcode {
        4
    } else if x.memory_opcode != y.memory_opcode {
        5
    } else if x.extension != y.extension {
        6
    } else if x.extension2 != y.extension2 {
        7
    } else {
        8
    };
    assert(a[k] < b[k]);
    assert(a.take(k) =~= b.take(k));
}

/// Every row of a compiled path says how often just that path was compiled.
pub proof fn law_compilations_say_events(events: Seq<Event>, s: TraceProfileSnapshot, i: int)
    requires
        listing::lists_profile(history::profile_after(events), s),
        0 <= i < s.compiled_shapes@.len(),
    ensures
        ({
            let row = s.compiled_shapes@[i];
            let n = how_many(events, |event: Event| is_compilation(event, row));
            n > 0 && says(row.recordings, n)
        }),
{
    let row = s.compiled_shapes@[i];
    let c = listing::listed_compiled(row);
    assert(history::profile_after(events).compiled_shapes.contains_key(c));
    history::law_compiled_shapes_count_events(events, c);
    let kind = |event: Event| is_compilation(event, row);
    assert forall|event: Event| #[trigger] kind(event) == history::compiled_as(c)(event) by {
        if let Event::Compiled { cpu_type, .. } = event {
            if history::compiled_as(c)(event) {
                cpu_type::law_cpu_repr_injective(row.cpu_type, cpu_type);
            }
        }
    }
    lemma_how_many(events, kind, history::compiled_as(c));
}

/// Every compilation has a row, and compiled paths are listed in order, none
/// twice.
pub proof fn law_compilations_are_listed(events: Seq<Event>, s: TraceProfileSnapshot, k: int)
    requires
        listing::lists_profile(history::profile_after(events), s),
        0 <= k < events.len(),
        events[k] is Compiled,
    ensures
        exists|i: int|
            0 <= i < s.compiled_shapes@.len() && is_compilation(
                events[k],
                #[trigger] s.compiled_shapes@[i],
            ),
        forall|i: int, j: int|
            0 <= i < j < s.compiled_shapes@.len() ==> {
                let x = #[trigger] s.compiled_shapes@[i];
                let y = #[trigger] s.compiled_shapes@[j];
                ||| head_precedes(x.start_pc, x.cpu_type, y.start_pc, y.cpu_type)
                ||| x.start_pc == y.start_pc && x.cpu_type == y.cpu_type && precedes(
                    path_numbers(x.ops@),
                    path_numbers(y.ops@),
                )
            },
{
    let event = events[k];
    let rows = s.compiled_shapes@;
    let c = model::compiled_shape(
        event->Compiled_pc,
        event->Compiled_cpu_type,
        event->Compiled_ops,
    );
    assert(history::compiled_as(c)(event));
    lemma_counted_event(events, history::compiled_as(c));
    history::law_compiled_shapes_count_events(events, c);
    let i = choose|i: int|
        0 <= i < rows.len() && listing::listed_compiled(#[trigger] rows[i]) == c;
    cpu_type::law_cpu_repr_injective(rows[i].cpu_type, event->Compiled_cpu_type);
    assert(is_compilation(event, rows[i]));
    assert forall|i: int, j: int| 0 <= i < j < rows.len() implies {
        let x = #[trigger] rows[i];
        let y = #[trigger] rows[j];
        ||| head_precedes(x.start_pc, x.cpu_type, y.start_pc, y.cpu_type)
        ||| x.start_pc == y.start_pc && x.cpu_type == y.cpu_type && precedes(
            path_numbers(x.ops@),
            path_numbers(y.ops@),
        )
    } by {
        let x = rows[i];
        let y = rows[j];
        assert(keys::compiled_before(listing::listed_compiled(x), listing::listed_compiled(y)));
        if x.start_pc == y.start_pc && cpu_type::cpu_repr(x.cpu_type) == cpu_type::cpu_repr(
            y.cpu_type,
        ) {
            cpu_type::law_cpu_repr_injective(x.cpu_type, y.cpu_type);
            lemma_path_precedes(x.ops@, y.ops@);
        }
    }
}

/// The first difference of two paths.
proof fn lemma_path_precedes(a: Seq<TraceShapeOp>, b: Seq<TraceShapeOp>)
    requires
        keys::path_before(a, b),
    ensures
        precedes(path_numbers(a), path_numbers(b)),
    decreases a.len(),
{
    let x = path_numbers(a);
    let y = path_numbers(b);
    if a.len() == 0 || b.len() == 0 {
        assert(x.take(0) =~= y.take(0));
    } else if a[0] != b[0] {
        let k: int = if a[0].pc != b[0].pc {
            0
        } else if a[0].opcode != b[0].opcode {
            1
        } else if a[0].extension != b[0].extension {
            2
        } else {
            3
        };
        assert(x[k] < y[k]);
        assert(x.take(k) =~= y.take(k));
    } else {
        let c = a.drop_first();
        let d = b.drop_first();
        lemma_path_precedes(c, d);
        let u = path_numbers(c);
        let v = path_numbers(d);
        let k = choose|k: int|
            {
                &&& 0 <= k <= u.len()
                &&& k < v.len()
                &&& #[trigger] u.take(k) == v.take(k)
                &&& k < u.len() ==> u[k] < v[k]
            };
        assert forall|j: int| 0 <= j < x.len() && j >= 4 implies #[trigger] x[j] == u[j - 4] by {
            assert(a[j / 4] == c[(j - 4) / 4]);
        }
        assert forall|j: int| 0 <= j < y.len() && j >= 4 implies #[trigger] y[j] == v[j - 4] by {
            assert(b[j / 4] == d[(j - 4) / 4]);
        }
        assert forall|j: int| 0 <= j < k + 4 implies x[j] == y[j] by {
            if j >= 4 {
                assert(u.take(k)[j - 4] == v.take(k)[j - 4]);
                assert(u[j - 4] == v[j - 4]);
            } else {
                assert(j / 4 == 0);
            }
        }
        assert(x.take(k + 4) =~= y.take(k + 4));
        if k < u.len() {
            assert(x[k + 4] == u[k] && y[k + 4] == v[k]);
        }
    }
}

/// The listed opcodes are those that were executed, in order, each with the
/// number of its executions.
pub proof fn law_opcodes_say_events(events: Seq<Event>, s: TraceProfileSnapshot, opcode: u16)
    requires
        listing::lists_profile(history::profile_after(events), s),
    ensures
        ({
            let rows = s.decoded_mem_ops@;
            let n = how_many(
                events,
                |event: Event| event is DecodedMem && event->DecodedMem_opcode == opcode,
            );
            &&& n > 0 <==> exists|i: int|
                0 <= i < rows.len() && (#[trigger] rows[i]).opcode == opcode
            &&& forall|i: int|
                0 <= i < rows.len() && (#[trigger] rows[i]).opcode == opcode ==> says(
                    rows[i].executions,
                    n,
                )
            &&& forall|i: int, j: int|
                0 <= i < j < rows.len() ==> (#[trigger] rows[i]).opcode < (
                #[trigger] rows[j]).opcode
        }),
{
    let rows = s.decoded_mem_ops@;
    let p = history::profile_after(events);
    let kind = |event: Event| event is DecodedMem && event->DecodedMem_opcode == opcode;
    history::law_decoded_mem_counts_events(events, (0, opcode));
    lemma_how_many(events, kind, history::executed(opcode));
    assert forall|i: int| 0 <= i < rows.len() && (#[trigger] rows[i]).opcode == opcode implies {
        &&& rows[i].executions == p.decoded_mem_counts[opcode as int]
        &&& rows[i].executions != 0
    } by {}
    if history::count(events, history::executed(opcode)) > 0 {
        assert(p.decoded_mem_counts[opcode as int] != 0);
    }
}

/// The listed sites are those that were executed, none twice, each with the
/// number of its executions.
pub proof fn law_sites_say_events(
    events: Seq<Event>,
    s: TraceProfileSnapshot,
    pc: u32,
    opcode: u16,
)
    requires
        listing::lists_profile(history::profile_after(events), s),
    ensures
        ({
            let rows = s.decoded_mem_sites@;
            let n = how_many(
                events,
                |event: Event|
                    event is DecodedMem && event->DecodedMem_pc == pc && event->DecodedMem_opcode
                        == opcode,
            );
            &&& n > 0 <==> exists|i: int|
                0 <= i < rows.len() && (#[trigger] rows[i]).pc == pc && rows[i].opcode == opcode
            &&& forall|i: int|
                0 <= i < rows.len() && (#[trigger] rows[i]).pc == pc && rows[i].opcode == opcode
                    ==> says(rows[i].executions, n)
            &&& forall|i: int, j: int|
                0 <= i < j < rows.len() ==> (#[trigger] rows[i]).pc != (#[trigger] rows[j]).pc
                    || rows[i].opcode != rows[j].opcode
        }),
{
    let rows = s.decoded_mem_sites@;
    let p = history::profile_after(events);
    let site = (pc, opcode);
    let kind = |event: Event|
        event is DecodedMem && event->DecodedMem_pc == pc && event->DecodedMem_opcode == opcode;
    history::law_decoded_mem_counts_events(events, site);
    lemma_how_many(events, kind, history::executed_at(site));
    assert forall|i: int|
        0 <= i < rows.len() && (#[trigger] rows[i]).pc == pc && rows[i].opcode == opcode implies {
        &&& p.decoded_mem_sites.contains_key(site)
        &&& rows[i].executions == p.decoded_mem_sites[site]
    } by {
        assert(listing::listed_site(rows[i]) == site);
    }
    if p.decoded_mem_sites.contains_key(site) {
        let i = choose|i: int|
            0 <= i < rows.len() && listing::listed_site(#[trigger] rows[i]) == site;
        assert(rows[i].pc == pc && rows[i].opcode == opcode);
    }
    assert forall|i: int, j: int| 0 <= i < j < rows.len() implies (#[trigger] rows[i]).pc != (
    #[trigger] rows[j]).pc || rows[i].opcode != rows[j].opcode by {
        assert(listing::listed_site(rows[i]) != listing::listed_site(rows[j]));
    }
}

/// Every row of a snapshot holds the counters of the head with its address and
/// CPU model, each in its own column.
pub proof fn law_rows_hold_counters(p: model::ProfileView, s: TraceProfileSnapshot, i: int)
    requires
        listing::lists_profile(p, s),
        0 <= i < s.rows@.len(),
    ensures
        ({
            let row = s.rows@[i];
            let h = HeadKey {
                start_pc: row.start_pc,
                cpu_type: cpu_type::cpu_repr(row.cpu_type),
            };
            &&& p.rows.contains_key(h)
            &&& row.backward_hits == p.rows[h].backward_hits
            &&& row.rejected_hits == p.rows[h].rejected_hits
            &&& row.recording_attempts == p.rows[h].recording_attempts
            &&& row.prefix_ops == p.rows[h].prefix_ops
            &&& row.blocker_pc == p.rows[h].blocker_pc
            &&& row.blocker_opcode == p.rows[h].blocker_opcode
            &&& row.compiled_ops == p.rows[h].compiled_ops
            &&& row.native_calls == p.rows[h].native_calls
            &&& row.jit_retired == p.rows[h].jit_retired
            &&& row.guarded_branch_exits == p.rows[h].guarded_branch_exits
            &&& row.adaptive_rerecords == p.rows[h].adaptive_rerecords
        }),
{
    assert(p.rows.contains_key(listing::listed_head(s.rows@[i])));
}

/// The sum of a column.
pub open spec fn column_sum(
    rows: Seq<TraceProfileRow>,
    column: spec_fn(TraceProfileRow) -> u64,
) -> nat {
    rows.fold_left(0nat, |sum: nat, row: TraceProfileRow| sum + column(row) as nat)
}

/// Sums of a column, by recursion and by fold.
proof fn lemma_column_sum(
    rows: Seq<TraceProfileRow>,
    column: spec_fn(TraceProfileRow) -> u64,
    weight: spec_fn(TraceProfileRow) -> nat,
)
    requires
        forall|row: TraceProfileRow| #[trigger] weight(row) == column(row),
    ensures
        sums::list_sum(rows, weight) == column_sum(rows, column),
    decreases rows.len(),
{
    reveal(Seq::fold_left);
    if rows.len() > 0 {
        lemma_column_sum(rows.drop_last(), column, weight);
        assert(weight(rows.last()) == column(rows.last()));
    }
}

/// Totals over rows are the sums of their columns.
pub proof fn law_column_totals_summed(rows: Seq<TraceProfileRow>)
    ensures
        ({
            let totals = listing::column_totals(rows);
            &&& totals.backward_hits == column_sum(rows, |row: TraceProfileRow| row.backward_hits)
            &&& totals.rejected_hits == column_sum(rows, |row: TraceProfileRow| row.rejected_hits)
            &&& totals.native_calls == column_sum(rows, |row: TraceProfileRow| row.native_calls)
            &&& totals.jit_retired == column_sum(rows, |row: TraceProfileRow| row.jit_retired)
        }),
{
    lemma_column_sum(
        rows,
        |row: TraceProfileRow| row.backward_hits,
        |row: TraceProfileRow| row.backward_hits as nat,
    );
    lemma_column_sum(
        rows,
        |row: TraceProfileRow| row.rejected_hits,
        |row: TraceProfileRow| row.rejected_hits as nat,
    );
    lemma_column_sum(
        rows,
        |row: TraceProfileRow| row.native_calls,
        |row: TraceProfileRow| row.native_calls as nat,
    );
    lemma_column_sum(
        rows,
        |row: TraceProfileRow| row.jit_retired,
        |row: TraceProfileRow| row.jit_retired as nat,
    );
}

/// The totals of a snapshot are the sums of its columns.
pub proof fn law_totals_are_sums(p: model::ProfileView, s: TraceProfileSnapshot)
    requires
        listing::lists_profile(p, s),
    ensures
        s.backward_hits == column_sum(s.rows@, |row: TraceProfileRow| row.backward_hits),
        s.rejected_hits == column_sum(s.rows@, |row: TraceProfileRow| row.rejected_hits),
        s.native_calls == column_sum(s.rows@, |row: TraceProfileRow| row.native_calls),
        s.jit_retired == column_sum(s.rows@, |row: TraceProfileRow| row.jit_retired),
{
    law_column_totals_summed(s.rows@);
}

/// The totals of a profile are the sums over its listed heads, so they fit
/// exactly where those sums are counts.
pub proof fn law_totals_fit(p: model::ProfileView, rows: Seq<TraceProfileRow>)
    requires
        p.coherent(),
        listing::lists_rows(p, rows),
    ensures
        p.totals().fit() <==> {
            &&& column_sum(rows, |row: TraceProfileRow| row.backward_hits) <= u64::MAX
            &&& column_sum(rows, |row: TraceProfileRow| row.rejected_hits) <= u64::MAX
            &&& column_sum(rows, |row: TraceProfileRow| row.native_calls) <= u64::MAX
            &&& column_sum(rows, |row: TraceProfileRow| row.jit_retired) <= u64::MAX
        },
{
    law_column_totals_summed(rows);
    let key = |row: TraceProfileRow| listing::listed_head(row);
    assert forall|i: int, j: int| 0 <= i < j < rows.len() implies key(#[trigger] rows[i]) != key(
        #[trigger] rows[j],
    ) by {
        assert(keys::head_before(listing::listed_head(rows[i]), listing::listed_head(rows[j])));
    }
    sums::lemma_table_sum_listed(
        p.rows,
        model::backward_weight(),
        rows,
        key,
        |row: TraceProfileRow| row.backward_hits as nat,
    );
    sums::lemma_table_sum_listed(
        p.rows,
        model::rejected_weight(),
        rows,
        key,
        |row: TraceProfileRow| row.rejected_hits as nat,
    );
    sums::lemma_table_sum_listed(
        p.rows,
        model::calls_weight(),
        rows,
        key,
        |row: TraceProfileRow| row.native_calls as nat,
    );
    sums::lemma_table_sum_listed(
        p.rows,
        model::retired_weight(),
        rows,
        key,
        |row: TraceProfileRow| row.jit_retired as nat,
    );
}

} // verus!
