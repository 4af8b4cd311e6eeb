//! How the report reads: what each place of it says about the snapshot.

use crate::double;
use crate::listing;
use crate::nearest;
use crate::ranking;
use crate::ranking::RankKey;
use crate::reading;
use crate::reading::Part;
use crate::report;
use crate::rows::{
    CompiledTraceShapeProfileRow, DecodedMemProfileRow, DecodedMemSiteProfileRow,
    FailedTraceShapeProfileRow, TraceDecodeFailureReason, TraceProfileRow, TraceProfileSnapshot,
    TraceShapeOp,
};
use crate::text;
use vstd::prelude::*;

verus! {

/// Parts in turn, as one part.
pub open spec fn line(parts: Seq<Part>) -> Part {
    |t: Seq<char>| reading::in_turn(t, parts)
}

/// The dispatches stranded at a head: its rejected entries times its prefix,
/// or the largest count where that is more.
pub open spec fn stranded(row: TraceProfileRow) -> nat {
    let product = row.rejected_hits as nat * row.prefix_ops as nat;
    if product <= u64::MAX {
        product
    } else {
        u64::MAX as nat
    }
}

/// An average, to two decimals.
pub open spec fn average_text(total: nat, count: nat) -> Part {
    |t: Seq<char>|
        exists|h: nat|
            #[trigger] reading::is_hundredths(t, h) && nearest::is_average(h, total, count)
}

/// An average aligned to the right.
pub open spec fn average(width: nat, total: nat, count: nat) -> Part {
    |t: Seq<char>| reading::is_right_aligned(t, width, average_text(total, count))
}

/// A percentage, to two decimals.
pub open spec fn percentage_text(part: nat, total: nat) -> Part {
    |t: Seq<char>|
        exists|h: nat|
            #[trigger] reading::is_hundredths(t, h) && nearest::is_percentage(h, part, total)
}

/// A percentage aligned to the right.
pub open spec fn percentage(width: nat, part: nat, total: nat) -> Part {
    |t: Seq<char>| reading::is_right_aligned(t, width, percentage_text(part, total))
}

/// A failure reason.
pub open spec fn reason(reason: TraceDecodeFailureReason) -> Part {
    |t: Seq<char>|
        match reason {
            TraceDecodeFailureReason::OpcodeReadFailed => t == "opcode-read-failed"@,
            TraceDecodeFailureReason::OpcodeChanged => t == "opcode-changed"@,
            TraceDecodeFailureReason::UnsupportedFormOrOperandRead => t
                == "unsupported-form-or-operand-read"@,
        }
}

/// An extension word behind a slash, or nothing.
pub open spec fn extension(word: Option<u16>) -> Part {
    |t: Seq<char>|
        match word {
            Some(word) => {
                &&& t.len() == 5
                &&& t[0] == '/'
                &&& reading::is_hex(t.skip(1), 4, word as nat)
            },
            None => t.len() == 0,
        }
}

/// An instruction of a path: its address, its opcode, and its extension words.
pub open spec fn op_parts(op: TraceShapeOp) -> Seq<Part> {
    Seq::empty()
        .push(reading::literal(" "@))
        .push(reading::address(op.pc))
        .push(reading::literal(":"@))
        .push(reading::word(op.opcode))
        .push(extension(op.extension))
        .push(extension(op.extension2))
}

/// All instructions of a path, in order.
pub open spec fn path(ops: Seq<TraceShapeOp>) -> Part {
    |t: Seq<char>| reading::in_turn(t, Seq::new(ops.len(), |k: int| line(op_parts(ops[k]))))
}

/// Executions over listed opcodes.
pub open spec fn executions(rows: Seq<DecodedMemProfileRow>) -> nat {
    rows.fold_left(0nat, |sum: nat, row: DecodedMemProfileRow| sum + row.executions as nat)
}

/// What the line of a trace head says.
pub open spec fn head_parts(rank: nat, row: TraceProfileRow) -> Seq<Part> {
    Seq::empty()
        .push(reading::number(4, rank))
        .push(reading::literal("  "@))
        .push(reading::address(row.start_pc))
        .push(reading::literal("  "@))
        .push(reading::number(10, row.backward_hits as nat))
        .push(reading::literal("  "@))
        .push(reading::number(10, row.rejected_hits as nat))
        .push(reading::literal("  "@))
        .push(reading::number(8, row.recording_attempts as nat))
        .push(reading::literal(" "@))
        .push(reading::number(6, row.prefix_ops as nat))
        .push(reading::literal(" "@))
        .push(reading::number(10, stranded(row)))
        .push(reading::literal("   "@))
        .push(reading::address_or_dashes(row.blocker_pc))
        .push(reading::literal("  "@))
        .push(reading::word_or_dashes(row.blocker_opcode))
        .push(reading::literal("  "@))
        .push(reading::number(8, row.compiled_ops as nat))
        .push(reading::literal(" "@))
        .push(reading::number(10, row.native_calls as nat))
        .push(reading::literal(" "@))
        .push(reading::number(12, row.jit_retired as nat))
        .push(reading::literal("\n"@))
}

/// What the line of an executed trace says.
pub open spec fn called_parts(rank: nat, row: TraceProfileRow) -> Seq<Part> {
    Seq::empty()
        .push(reading::number(4, rank))
        .push(reading::literal("  "@))
        .push(reading::address(row.start_pc))
        .push(reading::literal("  "@))
        .push(reading::number(3, row.compiled_ops as nat))
        .push(reading::literal(" "@))
        .push(reading::number(10, row.native_calls as nat))
        .push(reading::literal(" "@))
        .push(reading::number(12, row.jit_retired as nat))
        .push(reading::literal(" "@))
        .push(average(7, row.jit_retired as nat, row.native_calls as nat))
        .push(reading::literal(" "@))
        .push(reading::number(11, row.guarded_branch_exits as nat))
        .push(reading::literal(" "@))
        .push(reading::number(9, row.adaptive_rerecords as nat))
        .push(reading::literal("\n"@))
}

/// What the line of a failed path says.
pub open spec fn failed_parts(rank: nat, row: FailedTraceShapeProfileRow) -> Seq<Part> {
    Seq::empty()
        .push(reading::number(4, rank))
        .push(reading::literal("  "@))
        .push(reading::address(row.start_pc))
        .push(reading::literal(" "@))
        .push(reading::number(8, row.recordings as nat))
        .push(reading::literal(" "@))
        .push(reading::number(6, row.prefix_ops as nat))
        .push(reading::literal("   "@))
        .push(reading::address(row.blocker_pc))
        .push(reading::literal(" "@))
        .push(reading::word(row.executed_opcode))
        .push(reading::literal(" "@))
        .push(reading::word_or_dashes(row.memory_opcode))
        .push(reading::literal(" "@))
        .push(reading::word_or_dashes(row.extension))
        .push(reading::literal(" "@))
        .push(reading::word_or_dashes(row.extension2))
        .push(reading::literal(" "@))
        .push(reason(row.reason))
        .push(reading::literal("\n"@))
}

/// What the lines of a compiled path say.
pub open spec fn compiled_parts(rank: nat, row: CompiledTraceShapeProfileRow) -> Seq<Part> {
    Seq::empty()
        .push(reading::number(4, rank))
        .push(reading::literal("  "@))
        .push(reading::address(row.start_pc))
        .push(reading::literal(" records="@))
        .push(reading::plain(row.recordings as nat))
        .push(reading::literal(" ops="@))
        .push(reading::plain(row.ops@.len()))
        .push(reading::literal("\n"@))
        .push(reading::literal("      path:"@))
        .push(path(row.ops@))
        .push(reading::literal("\n"@))
}

/// What the line of an opcode says.
pub open spec fn mem_op_parts(rank: nat, row: DecodedMemProfileRow, total: nat) -> Seq<Part> {
    Seq::empty()
        .push(reading::number(4, rank))
        .push(reading::literal("  "@))
        .push(reading::word(row.opcode))
        .push(reading::literal(" "@))
        .push(reading::number(11, row.executions as nat))
        .push(reading::literal(" "@))
        .push(percentage(6, row.executions as nat, total))
        .push(reading::literal("%\n"@))
}

/// What the line of a site says.
pub open spec fn mem_site_parts(rank: nat, row: DecodedMemSiteProfileRow) -> Seq<Part> {
    Seq::empty()
        .push(reading::number(4, rank))
        .push(reading::literal("  "@))
        .push(reading::address(row.pc))
        .push(reading::literal("  "@))
        .push(reading::word(row.opcode))
        .push(reading::literal(" "@))
        .push(reading::number(11, row.executions as nat))
        .push(reading::literal("\n"@))
}

/// What the line of totals says.
pub open spec fn totals_parts(s: TraceProfileSnapshot) -> Seq<Part> {
    Seq::empty()
        .push(reading::literal("totals: backward_hits="@))
        .push(reading::plain(s.backward_hits as nat))
        .push(reading::literal(" rejected_hits="@))
        .push(reading::plain(s.rejected_hits as nat))
        .push(reading::literal(" native_calls="@))
        .push(reading::plain(s.native_calls as nat))
        .push(reading::literal(" jit_retired="@))
        .push(reading::plain(s.jit_retired as nat))
        .push(reading::literal(" avg_ops_per_native_call="@))
        .push(average_text(s.jit_retired as nat, s.native_calls as nat))
        .push(reading::literal("\n"@))
}

/// What the line of decoded memory totals says.
pub open spec fn mem_totals_parts(rows: Seq<DecodedMemProfileRow>) -> Seq<Part> {
    Seq::empty()
        .push(reading::literal("decoded memory operations: total="@))
        .push(reading::plain(executions(rows)))
        .push(reading::literal(" distinct_opcodes="@))
        .push(reading::plain(rows.len()))
        .push(reading::literal("\n"@))
}

/// An average reads as the exact one.
proof fn lemma_average_text(total: nat, count: nat)
    ensures
        average_text(total, count)(text::hundredths(double::average_hundredths(total, count))),
{
    let h = double::average_hundredths(total, count);
    reading::law_hundredths_read_back(h);
    nearest::law_average_of_doubles(total, count);
    assert(reading::is_hundredths(text::hundredths(h), h));
}

/// An aligned average reads as the exact one.
proof fn lemma_average_column(total: nat, count: nat, width: nat)
    ensures
        average(width, total, count)(
            text::pad_left(text::hundredths(double::average_hundredths(total, count)), width),
        ),
{
    let field = text::hundredths(double::average_hundredths(total, count));
    lemma_average_text(total, count);
    reading::law_padding_aligns(field, width, average_text(total, count));
}

/// An aligned percentage reads as the exact one.
proof fn lemma_percentage_column(part: nat, total: nat, width: nat)
    ensures
        percentage(width, part, total)(
            text::pad_left(text::hundredths(double::percent_hundredths(part, total)), width),
        ),
{
    let h = double::percent_hundredths(part, total);
    let field = text::hundredths(h);
    reading::law_hundredths_read_back(h);
    nearest::law_percentage_of_doubles(part, total);
    assert(reading::is_hundredths(field, h));
    reading::law_padding_aligns(field, width, percentage_text(part, total));
}

/// An address or dashes read back.
proof fn lemma_address_or_dashes(pc: Option<u32>)
    ensures
        reading::address_or_dashes(pc)(report::address_or_dashes(pc)),
{
    reveal_strlit("--------");
    if let Some(pc) = pc {
        reading::law_address_reads_back(pc);
    }
}

/// A word or dashes read back.
proof fn lemma_word_or_dashes(word: Option<u16>)
    ensures
        reading::word_or_dashes(word)(report::word_or_dashes(word)),
{
    reveal_strlit("----");
    if let Some(word) = word {
        reading::law_word_reads_back(word);
    }
}

/// An extension word reads back.
proof fn lemma_extension(word: Option<u16>)
    ensures
        extension(word)(report::extension_text(word)),
{
    reveal_strlit("/");
    if let Some(w) = word {
        let t = report::extension_text(word);
        reading::law_word_reads_back(w);
        assert(t.skip(1) =~= text::hex(w as nat, 4));
    }
}

/// The text of an instruction says its address, its opcode and its extension words.
pub proof fn law_op_reads(op: TraceShapeOp)
    ensures
        reading::in_turn(report::op_text(op), op_parts(op)),
{
    let (t, p) = reading::lemma_first(" "@, reading::literal(" "@));
    reading::law_address_reads_back(op.pc);
    let (t, p) = reading::lemma_one_more(t, p, text::hex(op.pc as nat, 8), reading::address(op.pc));
    let (t, p) = reading::lemma_one_more(t, p, ":"@, reading::literal(":"@));
    reading::law_word_reads_back(op.opcode);
    let (t, p) = reading::lemma_one_more(
        t,
        p,
        text::hex(op.opcode as nat, 4),
        reading::word(op.opcode),
    );
    lemma_extension(op.extension);
    let (t, p) = reading::lemma_one_more(
        t,
        p,
        report::extension_text(op.extension),
        extension(op.extension),
    );
    lemma_extension(op.extension2);
    let (t, p) = reading::lemma_one_more(
        t,
        p,
        report::extension_text(op.extension2),
        extension(op.extension2),
    );
}

/// Pieces that read as parts, one by one, read so in turn.
proof fn lemma_lines_read(n: nat, f: spec_fn(int) -> Seq<char>, parts: spec_fn(int) -> Part)
    requires
        forall|k: int| 0 <= k < n ==> parts(k)(#[trigger] f(k)),
    ensures
        reading::in_turn(report::lines(n, f), Seq::new(n, parts)),
    decreases n,
{
    if n == 0 {
        reading::lemma_no_parts();
        assert(Seq::new(n, parts) =~= Seq::empty());
    } else {
        let last = (n - 1) as nat;
        lemma_lines_read(last, f, parts);
        assert(parts(last as int)(f(last as int)));
        let (t, p) = reading::lemma_one_more(
            report::lines(last, f),
            Seq::new(last, parts),
            f(last as int),
            parts(last as int),
        );
        assert(p =~= Seq::new(n, parts));
    }
}

/// The text of a path reads as all of its instructions.
proof fn lemma_path(ops: Seq<TraceShapeOp>)
    ensures
        path(ops)(report::path_text(ops)),
{
    let f = |k: int| report::op_text(ops[k]);
    let parts = |k: int| line(op_parts(ops[k]));
    assert forall|k: int| 0 <= k < ops.len() implies parts(k)(#[trigger] f(k)) by {
        law_op_reads(ops[k]);
    }
    lemma_lines_read(ops.len(), f, parts);
}

/// Stranded dispatches are the capped product.
proof fn lemma_stranded(row: TraceProfileRow)
    ensures
        crate::rows::stranded_dispatches(row.rejected_hits, row.prefix_ops) == stranded(row),
{
    assert(row.rejected_hits as nat * row.prefix_ops as nat == row.rejected_hits
        * row.prefix_ops);
}

/// The total of executions is the sum over the opcodes.
pub proof fn law_executions_summed(rows: Seq<DecodedMemProfileRow>)
    ensures
        listing::executions_total(rows) == executions(rows),
    decreases rows.len(),
{
    if rows.len() > 0 {
        law_executions_summed(rows.drop_last());
    }
    reveal(Seq::fold_left);
}

/// Every place of the line of a trace head says what the row holds.
pub proof fn law_head_line_reads(rank: nat, row: TraceProfileRow)
    ensures
        reading::in_turn(report::head_line(rank, row), head_parts(rank, row)),
{
    reading::law_number_reads_back(rank, 4);
    let (t, p) = reading::lemma_first(report::column(rank, 4), reading::number(4, rank));
    let (t, p) = reading::lemma_one_more(t, p, "  "@, reading::literal("  "@));
    reading::law_address_reads_back(row.start_pc);
    let (t, p) = reading::lemma_one_more(
        t,
        p,
        text::hex(row.start_pc as nat, 8),
        reading::address(row.start_pc),
    );
    let (t, p) = reading::lemma_one_more(t, p, "  "@, reading::literal("  "@));
    reading::law_number_reads_back(row.backward_hits as nat, 10);
    let (t, p) = reading::lemma_one_more(
        t,
        p,
        report::column(row.backward_hits as nat, 10),
        reading::number(10, row.backward_hits as nat),
    );
    let (t, p) = reading::lemma_one_more(t, p, "  "@, reading::literal("  "@));
    reading::law_number_reads_back(row.rejected_hits as nat, 10);
    let (t, p) = reading::lemma_one_more(
        t,
        p,
        report::column(row.rejected_hits as nat, 10),
        reading::number(10, row.rejected_hits as nat),
    );
    let (t, p) = reading::lemma_one_more(t, p, "  "@, reading::literal("  "@));
    reading::law_number_reads_back(row.recording_attempts as nat, 8);
    let (t, p) = reading::lemma_one_more(
        t,
        p,
        report::column(row.recording_attempts as nat, 8),
        reading::number(8, row.recording_attempts as nat),
    );
    let (t, p) = reading::lemma_one_more(t, p, " "@, reading::literal(" "@));
    reading::law_number_reads_back(row.prefix_ops as nat, 6);
    let (t, p) = reading::lemma_one_more(
        t,
        p,
        report::column(row.prefix_ops as nat, 6),
        reading::number(6, row.prefix_ops as nat),
    );
    let (t, p) = reading::lemma_one_more(t, p, " "@, reading::literal(" "@));
    lemma_stranded(row);
    reading::law_number_reads_back(stranded(row), 10);
    let (t, p) = reading::lemma_one_more(
        t,
        p,
        report::column(stranded(row), 10),
        reading::number(10, stranded(row)),
    );
    let (t, p) = reading::lemma_one_more(t, p, "   "@, reading::literal("   "@));
    lemma_address_or_dashes(row.blocker_pc);
    let (t, p) = reading::lemma_one_more(
        t,
        p,
        report::address_or_dashes(row.blocker_pc),
        reading::address_or_dashes(row.blocker_pc),
    );
    let (t, p) = reading::lemma_one_more(t, p, "  "@, reading::literal("  "@));
    lemma_word_or_dashes(row.blocker_opcode);
    let (t, p) = reading::lemma_one_more(
        t,
        p,
        report::word_or_dashes(row.blocker_opcode),
        reading::word_or_dashes(row.blocker_opcode),
    );
    let (t, p) = reading::lemma_one_more(t, p, "  "@, reading::literal("  "@));
    reading::law_number_reads_back(row.compiled_ops as nat, 8);
    let (t, p) = reading::lemma_one_more(
        t,
        p,
        report::column(row.compiled_ops as nat, 8),
        reading::number(8, row.compiled_ops as nat),
    );
    let (t, p) = reading::lemma_one_more(t, p, " "@, reading::literal(" "@));
    reading::law_number_reads_back(row.native_calls as nat, 10);
    let (t, p) = reading::lemma_one_more(
        t,
        p,
        report::column(row.native_calls as nat, 10),
        reading::number(10, row.native_calls as nat),
    );
    let (t, p) = reading::lemma_one_more(t, p, " "@, reading::literal(" "@));
    reading::law_number_reads_back(row.jit_retired as nat, 12);
    let (t, p) = reading::lemma_one_more(
        t,
        p,
        report::column(row.jit_retired as nat, 12),
        reading::number(12, row.jit_retired as nat),
    );
    let (t, p) = reading::lemma_one_more(t, p, "\n"@, reading::literal("\n"@));
}

/// Every place of the line of an executed trace says what the row holds.
pub proof fn law_called_line_reads(rank: nat, row: TraceProfileRow)
    ensures
        reading::in_turn(report::called_line(rank, row), called_parts(rank, row)),
{
    reading::law_number_reads_back(rank, 4);
    let (t, p) = reading::lemma_first(report::column(rank, 4), reading::number(4, rank));
    let (t, p) = reading::lemma_one_more(t, p, "  "@, reading::literal("  "@));
    reading::law_address_reads_back(row.start_pc);
    let (t, p) = reading::lemma_one_more(
        t,
        p,
        text::hex(row.start_pc as nat, 8),
        reading::address(row.start_pc),
    );
    let (t, p) = reading::lemma_one_more(t, p, "  "@, reading::literal("  "@));
    reading::law_number_reads_back(row.compiled_ops as nat, 3);
    let (t, p) = reading::lemma_one_more(
        t,
        p,
        report::column(row.compiled_ops as nat, 3),
        reading::number(3, row.compiled_ops as nat),
    );
    let (t, p) = reading::lemma_one_more(t, p, " "@, reading::literal(" "@));
    reading::law_number_reads_back(row.native_calls as nat, 10);
    let (t, p) = reading::lemma_one_more(
        t,
        p,
        report::column(row.native_calls as nat, 10),
        reading::number(10, row.native_calls as nat),
    );
    let (t, p) = reading::lemma_one_more(t, p, " "@, reading::literal(" "@));
    reading::law_number_reads_back(row.jit_retired as nat, 12);
    let (t, p) = reading::lemma_one_more(
        t,
        p,
        report::column(row.jit_retired as nat, 12),
        reading::number(12, row.jit_retired as nat),
    );
    let (t, p) = reading::lemma_one_more(t, p, " "@, reading::literal(" "@));
    lemma_average_column(row.jit_retired as nat, row.native_calls as nat, 7);
    let (t, p) = reading::lemma_one_more(
        t,
        p,
        text::pad_left(text::hundredths(report::average_ops(row)), 7),
        average(7, row.jit_retired as nat, row.native_calls as nat),
    );
    let (t, p) = reading::lemma_one_more(t, p, " "@, reading::literal(" "@));
    reading::law_number_reads_back(row.guarded_branch_exits as nat, 11);
    let (t, p) = reading::lemma_one_more(
        t,
        p,
        report::column(row.guarded_branch_exits as nat, 11),
        reading::number(11, row.guarded_branch_exits as nat),
    );
    let (t, p) = reading::lemma_one_more(t, p, " "@, reading::literal(" "@));
    reading::law_number_reads_back(row.adaptive_rerecords as nat, 9);
    let (t, p) = reading::lemma_one_more(
        t,
        p,
        report::column(row.adaptive_rerecords as nat, 9),
        reading::number(9, row.adaptive_rerecords as nat),
    );
    let (t, p) = reading::lemma_one_more(t, p, "\n"@, reading::literal("\n"@));
}

/// Every place of the line of a failed path says what the row holds.
pub proof fn law_failed_line_reads(rank: nat, row: FailedTraceShapeProfileRow)
    ensures
        reading::in_turn(report::failed_line(rank, row), failed_parts(rank, row)),
{
    reading::law_number_reads_back(rank, 4);
    let (t, p) = reading::lemma_first(report::column(rank, 4), reading::number(4, rank));
    let (t, p) = reading::lemma_one_more(t, p, "  "@, reading::literal("  "@));
    reading::law_address_reads_back(row.start_pc);
    let (t, p) = reading::lemma_one_more(
        t,
        p,
        text::hex(row.start_pc as nat, 8),
        reading::address(row.start_pc),
    );
    let (t, p) = reading::lemma_one_more(t, p, " "@, reading::literal(" "@));
    reading::law_number_reads_back(row.recordings as nat, 8);
    let (t, p) = reading::lemma_one_more(
        t,
        p,
        report::column(row.recordings as nat, 8),
        reading::number(8, row.recordings as nat),
    );
    let (t, p) = reading::lemma_one_more(t, p, " "@, reading::literal(" "@));
    reading::law_number_reads_back(row.prefix_ops as nat, 6);
    let (t, p) = reading::lemma_one_more(
        t,
        p,
        report::column(row.prefix_ops as nat, 6),
        reading::number(6, row.prefix_ops as nat),
    );
    let (t, p) = reading::lemma_one_more(t, p, "   "@, reading::literal("   "@));
    reading::law_address_reads_back(row.blocker_pc);
    let (t, p) = reading::lemma_one_more(
        t,
        p,
        text::hex(row.blocker_pc as nat, 8),
        reading::address(row.blocker_pc),
    );
    let (t, p) = reading::lemma_one_more(t, p, " "@, reading::literal(" "@));
    reading::law_word_reads_back(row.executed_opcode);
    let (t, p) = reading::lemma_one_more(
        t,
        p,
        text::hex(row.executed_opcode as nat, 4),
        reading::word(row.executed_opcode),
    );
    let (t, p) = reading::lemma_one_more(t, p, " "@, reading::literal(" "@));
    lemma_word_or_dashes(row.memory_opcode);
    let (t, p) = reading::lemma_one_more(
        t,
        p,
        report::word_or_dashes(row.memory_opcode),
        reading::word_or_dashes(row.memory_opcode),
    );
    let (t, p) = reading::lemma_one_more(t, p, " "@, reading::literal(" "@));
    lemma_word_or_dashes(row.extension);
    let (t, p) = reading::lemma_one_more(
        t,
        p,
        report::word_or_dashes(row.extension),
        reading::word_or_dashes(row.extension),
    );
    let (t, p) = reading::lemma_one_more(t, p, " "@, reading::literal(" "@));
    lemma_word_or_dashes(row.extension2);
    let (t, p) = reading::lemma_one_more(
        t,
        p,
        report::word_or_dashes(row.extension2),
        reading::word_or_dashes(row.extension2),
    );
    let (t, p) = reading::lemma_one_more(t, p, " "@, reading::literal(" "@));
    let (t, p) = reading::lemma_one_more(t, p, report::reason_name(row.reason), reason(row.reason));
    let (t, p) = reading::lemma_one_more(t, p, "\n"@, reading::literal("\n"@));
}

/// Every place of the lines of a compiled path says what the row holds.
pub proof fn law_compiled_lines_read(rank: nat, row: CompiledTraceShapeProfileRow)
    ensures
        reading::in_turn(report::compiled_lines(rank, row), compiled_parts(rank, row)),
{
    reading::law_number_reads_back(rank, 4);
    let (t, p) = reading::lemma_first(report::column(rank, 4), reading::number(4, rank));
    let (t, p) = reading::lemma_one_more(t, p, "  "@, reading::literal("  "@));
    reading::law_address_reads_back(row.start_pc);
    let (t, p) = reading::lemma_one_more(
        t,
        p,
        text::hex(row.start_pc as nat, 8),
        reading::address(row.start_pc),
    );
    let (t, p) = reading::lemma_one_more(t, p, " records="@, reading::literal(" records="@));
    reading::law_decimal_reads_back(row.recordings as nat);
    let (t, p) = reading::lemma_one_more(
        t,
        p,
        text::decimal(row.recordings as nat),
        reading::plain(row.recordings as nat),
    );
    let (t, p) = reading::lemma_one_more(t, p, " ops="@, reading::literal(" ops="@));
    reading::law_decimal_reads_back(row.ops@.len());
    let (t, p) = reading::lemma_one_more(
        t,
        p,
        text::decimal(row.ops@.len()),
        reading::plain(row.ops@.len()),
    );
    let (t, p) = reading::lemma_one_more(t, p, "\n"@, reading::literal("\n"@));
    let (t, p) = reading::lemma_one_more(t, p, "      path:"@, reading::literal("      path:"@));
    lemma_path(row.ops@);
    let (t, p) = reading::lemma_one_more(t, p, report::path_text(row.ops@), path(row.ops@));
    let (t, p) = reading::lemma_one_more(t, p, "\n"@, reading::literal("\n"@));
}

/// Every place of the line of an opcode says what the row holds.
pub proof fn law_mem_op_line_reads(rank: nat, row: DecodedMemProfileRow, total: nat)
    ensures
        reading::in_turn(report::mem_op_line(rank, row, total), mem_op_parts(rank, row, total)),
{
    reading::law_number_reads_back(rank, 4);
    let (t, p) = reading::lemma_first(report::column(rank, 4), reading::number(4, rank));
    let (t, p) = reading::lemma_one_more(t, p, "  "@, reading::literal("  "@));
    reading::law_word_reads_back(row.opcode);
    let (t, p) = reading::lemma_one_more(
        t,
        p,
        text::hex(row.opcode as nat, 4),
        reading::word(row.opcode),
    );
    let (t, p) = reading::lemma_one_more(t, p, " "@, reading::literal(" "@));
    reading::law_number_reads_back(row.executions as nat, 11);
    let (t, p) = reading::lemma_one_more(
        t,
        p,
        report::column(row.executions as nat, 11),
        reading::number(11, row.executions as nat),
    );
    let (t, p) = reading::lemma_one_more(t, p, " "@, reading::literal(" "@));
    lemma_percentage_column(row.executions as nat, total, 6);
    let (t, p) = reading::lemma_one_more(
        t,
        p,
        text::pad_left(text::hundredths(double::percent_hundredths(row.executions as nat, total)), 6),
        percentage(6, row.executions as nat, total),
    );
    let (t, p) = reading::lemma_one_more(t, p, "%\n"@, reading::literal("%\n"@));
}

/// Every place of the line of a site says what the row holds.
pub proof fn law_mem_site_line_reads(rank: nat, row: DecodedMemSiteProfileRow)
    ensures
        reading::in_turn(report::mem_site_line(rank, row), mem_site_parts(rank, row)),
{
    reading::law_number_reads_back(rank, 4);
    let (t, p) = reading::lemma_first(report::column(rank, 4), reading::number(4, rank));
    let (t, p) = reading::lemma_one_more(t, p, "  "@, reading::literal("  "@));
    reading::law_address_reads_back(row.pc);
    let (t, p) = reading::lemma_one_more(
        t,
        p,
        text::hex(row.pc as nat, 8),
        reading::address(row.pc),
    );
    let (t, p) = reading::lemma_one_more(t, p, "  "@, reading::literal("  "@));
    reading::law_word_reads_back(row.opcode);
    let (t, p) = reading::lemma_one_more(
        t,
        p,
        text::hex(row.opcode as nat, 4),
        reading::word(row.opcode),
    );
    let (t, p) = reading::lemma_one_more(t, p, " "@, reading::literal(" "@));
    reading::law_number_reads_back(row.executions as nat, 11);
    let (t, p) = reading::lemma_one_more(
        t,
        p,
        report::column(row.executions as nat, 11),
        reading::number(11, row.executions as nat),
    );
    let (t, p) = reading::lemma_one_more(t, p, "\n"@, reading::literal("\n"@));
}

/// Every place of the line of totals says what the snapshot holds.
pub proof fn law_totals_line_reads(s: TraceProfileSnapshot)
    ensures
        reading::in_turn(report::totals_line(s), totals_parts(s)),
{
    let (t, p) = reading::lemma_first(
        "totals: backward_hits="@,
        reading::literal("totals: backward_hits="@),
    );
    reading::law_decimal_reads_back(s.backward_hits as nat);
    let (t, p) = reading::lemma_one_more(
        t,
        p,
        text::decimal(s.backward_hits as nat),
        reading::plain(s.backward_hits as nat),
    );
    let (t, p) = reading::lemma_one_more(
        t,
        p,
        " rejected_hits="@,
        reading::literal(" rejected_hits="@),
    );
    reading::law_decimal_reads_back(s.rejected_hits as nat);
    let (t, p) = reading::lemma_one_more(
        t,
        p,
        text::decimal(s.rejected_hits as nat),
        reading::plain(s.rejected_hits as nat),
    );
    let (t, p) = reading::lemma_one_more(
        t,
        p,
        " native_calls="@,
        reading::literal(" native_calls="@),
    );
    reading::law_decimal_reads_back(s.native_calls as nat);
    let (t, p) = reading::lemma_one_more(
        t,
        p,
        text::decimal(s.native_calls as nat),
        reading::plain(s.native_calls as nat),
    );
    let (t, p) = reading::lemma_one_more(
        t,
        p,
        " jit_retired="@,
        reading::literal(" jit_retired="@),
    );
    reading::law_decimal_reads_back(s.jit_retired as nat);
    let (t, p) = reading::lemma_one_more(
        t,
        p,
        text::decimal(s.jit_retired as nat),
        reading::plain(s.jit_retired as nat),
    );
    let (t, p) = reading::lemma_one_more(
        t,
        p,
        " avg_ops_per_native_call="@,
        reading::literal(" avg_ops_per_native_call="@),
    );
    lemma_average_text(s.jit_retired as nat, s.native_calls as nat);
    let (t, p) = reading::lemma_one_more(
        t,
        p,
        text::hundredths(double::average_hundredths(s.jit_retired as nat, s.native_calls as nat)),
        average_text(s.jit_retired as nat, s.native_calls as nat),
    );
    let (t, p) = reading::lemma_one_more(t, p, "\n"@, reading::literal("\n"@));
}

/// The line of decoded memory totals says the sum of all executions and the number
/// of opcodes.
pub proof fn law_mem_totals_line_reads(rows: Seq<DecodedMemProfileRow>)
    ensures
        reading::in_turn(report::mem_totals_line(rows), mem_totals_parts(rows)),
{
    law_executions_summed(rows);
    let (t, p) = reading::lemma_first(
        "decoded memory operations: total="@,
        reading::literal("decoded memory operations: total="@),
    );
    reading::law_decimal_reads_back(executions(rows));
    let (t, p) = reading::lemma_one_more(
        t,
        p,
        text::decimal(executions(rows)),
        reading::plain(executions(rows)),
    );
    let (t, p) = reading::lemma_one_more(
        t,
        p,
        " distinct_opcodes="@,
        reading::literal(" distinct_opcodes="@),
    );
    reading::law_decimal_reads_back(rows.len());
    let (t, p) = reading::lemma_one_more(
        t,
        p,
        text::decimal(rows.len()),
        reading::plain(rows.len()),
    );
    let (t, p) = reading::lemma_one_more(t, p, "\n"@, reading::literal("\n"@));
}

/// The smaller of two numbers.
pub open spec fn smaller(a: nat, b: nat) -> nat {
    if a <= b {
        a
    } else {
        b
    }
}

/// Whether `order` lists the chosen ones of `n` places, each once, so that of
/// any two the one that comes ahead is listed first.
pub open spec fn is_order(
    order: Seq<int>,
    n: nat,
    chosen: spec_fn(int) -> bool,
    ahead: spec_fn(int, int) -> bool,
) -> bool {
    &&& forall|a: int| 0 <= a < order.len() ==> 0 <= (#[trigger] order[a]) < n && chosen(order[a])
    &&& forall|i: int| 0 <= i < n && #[trigger] chosen(i) ==> order.contains(i)
    &&& forall|a: int, b: int|
        0 <= a < b < order.len() ==> (#[trigger] order[a]) != (#[trigger] order[b]) && ahead(
            order[a],
            order[b],
        )
}

/// Whether a text is a table: the chosen ones of `n` rows in order, at most
/// `limit` of them, each as the line that its rank and its row call for.
pub open spec fn is_table(
    t: Seq<char>,
    limit: nat,
    n: nat,
    chosen: spec_fn(int) -> bool,
    ahead: spec_fn(int, int) -> bool,
    parts: spec_fn(nat, int) -> Seq<Part>,
) -> bool {
    exists|order: Seq<int>|
        {
            &&& #[trigger] is_order(order, n, chosen, ahead)
            &&& reading::in_turn(
                t,
                Seq::new(
                    smaller(order.len(), limit),
                    |k: int| line(parts((k + 1) as nat, order[k])),
                ),
            )
        }
}

/// Heads go by stranded dispatches, more first, then by backward branches, more
/// first, then by address; those alike in all of it as they are listed.
pub open spec fn head_ahead(rows: Seq<TraceProfileRow>) -> spec_fn(int, int) -> bool {
    |i: int, j: int|
        if stranded(rows[i]) != stranded(rows[j]) {
            stranded(rows[i]) > stranded(rows[j])
        } else if rows[i].backward_hits != rows[j].backward_hits {
            rows[i].backward_hits > rows[j].backward_hits
        } else if rows[i].start_pc != rows[j].start_pc {
            rows[i].start_pc < rows[j].start_pc
        } else {
            i < j
        }
}

/// Executed traces go by retired instructions, more first, then by calls, more
/// first, then by address; those alike in all of it as they are listed.
pub open spec fn called_ahead(rows: Seq<TraceProfileRow>) -> spec_fn(int, int) -> bool {
    |i: int, j: int|
        if rows[i].jit_retired != rows[j].jit_retired {
            rows[i].jit_retired > rows[j].jit_retired
        } else if rows[i].native_calls != rows[j].native_calls {
            rows[i].native_calls > rows[j].native_calls
        } else if rows[i].start_pc != rows[j].start_pc {
            rows[i].start_pc < rows[j].start_pc
        } else {
            i < j
        }
}

/// Failed paths go by recordings, more first, then by prefix, longer first, then
/// by address; those alike in all of it as they are listed.
pub open spec fn failed_ahead(rows: Seq<FailedTraceShapeProfileRow>) -> spec_fn(int, int) -> bool {
    |i: int, j: int|
        if rows[i].recordings != rows[j].recordings {
            rows[i].recordings > rows[j].recordings
        } else if rows[i].prefix_ops != rows[j].prefix_ops {
            rows[i].prefix_ops > rows[j].prefix_ops
        } else if rows[i].start_pc != rows[j].start_pc {
            rows[i].start_pc < rows[j].start_pc
        } else {
            i < j
        }
}

/// Compiled paths go by recordings, more first, then by length, longer first,
/// then by address; those alike in all of it as they are listed.
pub open spec fn compiled_ahead(rows: Seq<CompiledTraceShapeProfileRow>) -> spec_fn(
    int,
    int,
) -> bool {
    |i: int, j: int|
        if rows[i].recordings != rows[j].recordings {
            rows[i].recordings > rows[j].recordings
        } else if rows[i].ops@.len() != rows[j].ops@.len() {
            rows[i].ops@.len() > rows[j].ops@.len()
        } else if rows[i].start_pc != rows[j].start_pc {
            rows[i].start_pc < rows[j].start_pc
        } else {
            i < j
        }
}

/// Opcodes go by executions, more first, then by opcode; those alike in both as
/// they are listed.
pub open spec fn mem_op_ahead(rows: Seq<DecodedMemProfileRow>) -> spec_fn(int, int) -> bool {
    |i: int, j: int|
        if rows[i].executions != rows[j].executions {
            rows[i].executions > rows[j].executions
        } else if rows[i].opcode != rows[j].opcode {
            rows[i].opcode < rows[j].opcode
        } else {
            i < j
        }
}

/// Sites go by executions, more first, then by address, then by opcode; those
/// alike in all of it as they are listed.
pub open spec fn mem_site_ahead(rows: Seq<DecodedMemSiteProfileRow>) -> spec_fn(int, int) -> bool {
    |i: int, j: int|
        if rows[i].executions != rows[j].executions {
            rows[i].executions > rows[j].executions
        } else if rows[i].pc != rows[j].pc {
            rows[i].pc < rows[j].pc
        } else if rows[i].opcode != rows[j].opcode {
            rows[i].opcode < rows[j].opcode
        } else {
            i < j
        }
}

/// Every place is chosen.
pub open spec fn all_places() -> spec_fn(int) -> bool {
    |i: int| true
}

/// The places of the heads whose trace was executed.
pub open spec fn called_places(rows: Seq<TraceProfileRow>) -> spec_fn(int) -> bool {
    |i: int| rows[i].native_calls > 0
}

/// The forty leading heads, in order.
pub open spec fn head_table(rows: Seq<TraceProfileRow>) -> Part {
    |t: Seq<char>|
        is_table(
            t,
            40,
            rows.len(),
            all_places(),
            head_ahead(rows),
            |rank: nat, i: int| head_parts(rank, rows[i]),
        )
}

/// The forty leading executed traces, in order.
pub open spec fn called_table(rows: Seq<TraceProfileRow>) -> Part {
    |t: Seq<char>|
        is_table(
            t,
            40,
            rows.len(),
            called_places(rows),
            called_ahead(rows),
            |rank: nat, i: int| called_parts(rank, rows[i]),
        )
}

/// The forty leading failed paths, in order.
pub open spec fn failed_table(rows: Seq<FailedTraceShapeProfileRow>) -> Part {
    |t: Seq<char>|
        is_table(
            t,
            40,
            rows.len(),
            all_places(),
            failed_ahead(rows),
            |rank: nat, i: int| failed_parts(rank, rows[i]),
        )
}

/// The forty leading compiled paths, in order.
pub open spec fn compiled_table(rows: Seq<CompiledTraceShapeProfileRow>) -> Part {
    |t: Seq<char>|
        is_table(
            t,
            40,
            rows.len(),
            all_places(),
            compiled_ahead(rows),
            |rank: nat, i: int| compiled_parts(rank, rows[i]),
        )
}

/// The forty leading opcodes, in order.
pub open spec fn mem_op_table(rows: Seq<DecodedMemProfileRow>) -> Part {
    |t: Seq<char>|
        is_table(
            t,
            40,
            rows.len(),
            all_places(),
            mem_op_ahead(rows),
            |rank: nat, i: int| mem_op_parts(rank, rows[i], executions(rows)),
        )
}

/// The sixty leading sites, in order.
pub open spec fn mem_site_table(rows: Seq<DecodedMemSiteProfileRow>) -> Part {
    |t: Seq<char>|
        is_table(
            t,
            60,
            rows.len(),
            all_places(),
            mem_site_ahead(rows),
            |rank: nat, i: int| mem_site_parts(rank, rows[i]),
        )
}

/// What the report says, from top to bottom.
pub open spec fn report_parts(s: TraceProfileSnapshot) -> Seq<Part> {
    Seq::empty()
        .push(reading::literal("m68k trace opportunity profile\n"@))
        .push(line(totals_parts(s)))
        .push(reading::literal("note: head rows aggregate the process lifetime; failure and compiled columns may describe different recording paths. See the shape tables below.\n"@))
        .push(reading::literal("rank  start_pc  hits       rejected   attempts prefix projected   blocker_pc opcode  compiled calls      retired\n"@))
        .push(head_table(s.rows@))
        .push(reading::literal("compiled traces by retired instructions\n"@))
        .push(reading::literal("rank  start_pc  ops      calls      retired avg_ops guard_exits rerecords\n"@))
        .push(called_table(s.rows@))
        .push(reading::literal("failed recording shapes\n"@))
        .push(reading::literal("rank  start_pc  records prefix blocker_pc ir   memory ext1 ext2 reason\n"@))
        .push(failed_table(s.failed_shapes@))
        .push(reading::literal("compiled recording shapes\n"@))
        .push(compiled_table(s.compiled_shapes@))
        .push(line(mem_totals_parts(s.decoded_mem_ops@)))
        .push(reading::literal("rank  opcode  executions percent\n"@))
        .push(mem_op_table(s.decoded_mem_ops@))
        .push(reading::literal("decoded memory sites by execution count\n"@))
        .push(reading::literal("rank  pc        opcode  executions\n"@))
        .push(mem_site_table(s.decoded_mem_sites@))
}

/// Whether a text is the report of a snapshot.
pub open spec fn reads_as_report(t: Seq<char>, s: TraceProfileSnapshot) -> bool {
    reading::in_turn(t, report_parts(s))
}

/// Lines of ranked rows are a table of all rows.
proof fn lemma_ranked_table(
    keys: Seq<RankKey>,
    limit: nat,
    f: spec_fn(int) -> Seq<char>,
    ahead: spec_fn(int, int) -> bool,
    parts: spec_fn(nat, int) -> Seq<Part>,
)
    requires
        keys.len() <= usize::MAX,
        forall|i: int, j: int|
            0 <= i < keys.len() && 0 <= j < keys.len() && ranking::ranks_before(keys, i, j)
                ==> #[trigger] ahead(i, j),
        forall|k: int|
            0 <= k < keys.len() ==> reading::in_turn(
                #[trigger] f(k),
                parts((k + 1) as nat, ranking::ranking(keys)[k] as int),
            ),
    ensures
        is_table(
            report::lines(smaller(keys.len(), limit), f),
            limit,
            keys.len(),
            all_places(),
            ahead,
            parts,
        ),
{
    ranking::lemma_ranking_exists(keys);
    let ranked = ranking::ranking(keys);
    let order = ranked.map_values(|i: usize| i as int);
    let n = smaller(keys.len(), limit);
    assert forall|a: int| 0 <= a < order.len() implies 0 <= (#[trigger] order[a]) < keys.len() by {
        assert(ranked[a] < keys.len());
    }
    assert forall|i: int| 0 <= i < keys.len() && #[trigger] all_places()(i) implies order.contains(
        i,
    ) by {
        ranking::lemma_ranking_lists_every_row(keys, ranked, i);
        let a = choose|a: int| 0 <= a < ranked.len() && #[trigger] ranked[a] == i;
        assert(order[a] == i);
    }
    assert forall|a: int, b: int| 0 <= a < b < order.len() implies (#[trigger] order[a]) != (
    #[trigger] order[b]) && ahead(order[a], order[b]) by {
        assert(ranked[a] < keys.len() && ranked[b] < keys.len());
        assert(ranking::ranks_before(keys, ranked[a] as int, ranked[b] as int));
    }
    assert(is_order(order, keys.len(), all_places(), ahead));
    let lines_of = |k: int| line(parts((k + 1) as nat, order[k]));
    assert forall|k: int| 0 <= k < n implies lines_of(k)(#[trigger] f(k)) by {
        assert(order[k] == ranked[k] as int);
    }
    lemma_lines_read(n, f, lines_of);
}

/// The table of trace heads ranks all heads by their stranded dispatches, and
/// says of the leading ones what their rows hold.
pub proof fn law_head_table_reads(rows: Seq<TraceProfileRow>)
    requires
        rows.len() <= usize::MAX,
    ensures
        head_table(rows)(report::head_table(rows)),
{
    let keys = report::head_keys(rows);
    let order = ranking::ranking(keys);
    let f = |k: int| report::head_line((k + 1) as nat, rows[order[k] as int]);
    let parts = |rank: nat, i: int| head_parts(rank, rows[i]);
    let ahead = head_ahead(rows);
    assert forall|i: int, j: int|
        0 <= i < keys.len() && 0 <= j < keys.len() && ranking::ranks_before(
            keys,
            i,
            j,
        ) implies #[trigger] ahead(i, j) by {
        lemma_stranded(rows[i]);
        lemma_stranded(rows[j]);
    }
    assert forall|k: int| 0 <= k < keys.len() implies reading::in_turn(
        #[trigger] f(k),
        parts((k + 1) as nat, order[k] as int),
    ) by {
        law_head_line_reads((k + 1) as nat, rows[order[k] as int]);
    }
    lemma_ranked_table(keys, 40, f, ahead, parts);
}

/// The places of executed traces among the rows.
spec fn called_indexes(rows: Seq<TraceProfileRow>) -> Seq<int>
    decreases rows.len(),
{
    if rows.len() == 0 {
        Seq::empty()
    } else if rows.last().native_calls > 0 {
        called_indexes(rows.drop_last()).push(rows.len() - 1)
    } else {
        called_indexes(rows.drop_last())
    }
}

/// Executed traces, found by their places.
proof fn lemma_called_indexes(rows: Seq<TraceProfileRow>)
    ensures
        called_indexes(rows).len() == report::called_rows(rows).len(),
        forall|a: int|
            0 <= a < called_indexes(rows).len() ==> {
                &&& 0 <= #[trigger] called_indexes(rows)[a] < rows.len()
                &&& rows[called_indexes(rows)[a]] == report::called_rows(rows)[a]
                &&& rows[called_indexes(rows)[a]].native_calls > 0
            },
        forall|a: int, b: int|
            0 <= a < b < called_indexes(rows).len() ==> #[trigger] called_indexes(rows)[a]
                < #[trigger] called_indexes(rows)[b],
        forall|i: int|
            0 <= i < rows.len() && (#[trigger] rows[i]).native_calls > 0 ==> called_indexes(
                rows,
            ).contains(i),
    decreases rows.len(),
{
    reveal(Seq::filter);
    if rows.len() > 0 {
        let front = rows.drop_last();
        lemma_called_indexes(front);
        let inner = called_indexes(front);
        let all = called_indexes(rows);
        assert forall|a: int| 0 <= a < inner.len() implies front[#[trigger] inner[a]]
            == rows[inner[a]] by {}
        assert forall|i: int|
            0 <= i < rows.len() && (#[trigger] rows[i]).native_calls > 0 implies all.contains(i) by {
            if i < front.len() {
                assert(front[i] == rows[i]);
                assert(inner.contains(i));
                let a = choose|a: int| 0 <= a < inner.len() && inner[a] == i;
                assert(all[a] == i);
            } else {
                assert(all[inner.len() as int] == i);
            }
        }
    }
}

/// The table of executed traces ranks all of them by retired instructions, and
/// says of the leading ones what their rows hold.
pub proof fn law_called_table_reads(rows: Seq<TraceProfileRow>)
    requires
        rows.len() <= usize::MAX,
    ensures
        called_table(rows)(report::called_table(rows)),
{
    let called = report::called_rows(rows);
    let indexes = called_indexes(rows);
    let keys = report::called_keys(called);
    let parts = |rank: nat, i: int| called_parts(rank, rows[i]);
    let ahead = called_ahead(rows);
    lemma_called_indexes(rows);
    assert(called.len() <= rows.len()) by {
        reveal(Seq::filter);
        lemma_called_fewer(rows);
    }
    ranking::lemma_ranking_exists(keys);
    let ranked = ranking::ranking(keys);
    let order = ranked.map_values(|i: usize| indexes[i as int]);
    let f = |k: int| report::called_line((k + 1) as nat, called[ranked[k] as int]);
    let n = smaller(keys.len(), 40);
    assert forall|a: int| 0 <= a < order.len() implies 0 <= (#[trigger] order[a]) < rows.len()
        && called_places(rows)(order[a]) by {
        assert(ranked[a] < keys.len());
    }
    assert forall|i: int| 0 <= i < rows.len() && #[trigger] called_places(rows)(
        i,
    ) implies order.contains(i) by {
        assert(rows[i].native_calls > 0);
        assert(indexes.contains(i));
        let c = choose|c: int| 0 <= c < indexes.len() && indexes[c] == i;
        ranking::lemma_ranking_lists_every_row(keys, ranked, c);
        let a = choose|a: int| 0 <= a < ranked.len() && #[trigger] ranked[a] == c;
        assert(order[a] == i);
    }
    assert forall|a: int, b: int| 0 <= a < b < order.len() implies (#[trigger] order[a]) != (
    #[trigger] order[b]) && ahead(order[a], order[b]) by {
        assert(ranked[a] < keys.len() && ranked[b] < keys.len());
        assert(ranking::ranks_before(keys, ranked[a] as int, ranked[b] as int));
        let x = ranked[a] as int;
        let y = ranked[b] as int;
        assert(rows[indexes[x]] == called[x]);
        assert(rows[indexes[y]] == called[y]);
        if x < y {
            assert(indexes[x] < indexes[y]);
        } else {
            assert(indexes[y] < indexes[x]);
        }
    }
    assert(is_order(order, rows.len(), called_places(rows), ahead));
    let lines_of = |k: int| line(parts((k + 1) as nat, order[k]));
    assert forall|k: int| 0 <= k < n implies lines_of(k)(#[trigger] f(k)) by {
        assert(ranked[k] < keys.len());
        law_called_line_reads((k + 1) as nat, called[ranked[k] as int]);
        assert(rows[indexes[ranked[k] as int]] == called[ranked[k] as int]);
    }
    lemma_lines_read(n, f, lines_of);
}

/// No more traces are executed than there are heads.
proof fn lemma_called_fewer(rows: Seq<TraceProfileRow>)
    ensures
        report::called_rows(rows).len() <= rows.len(),
    decreases rows.len(),
{
    reveal(Seq::filter);
    if rows.len() > 0 {
        lemma_called_fewer(rows.drop_last());
    }
}

/// The table of failed paths ranks all of them by recordings, and says of the
/// leading ones what their rows hold.
pub proof fn law_failed_table_reads(rows: Seq<FailedTraceShapeProfileRow>)
    requires
        rows.len() <= usize::MAX,
    ensures
        failed_table(rows)(report::failed_table(rows)),
{
    let keys = report::failed_keys(rows);
    let order = ranking::ranking(keys);
    let f = |k: int| report::failed_line((k + 1) as nat, rows[order[k] as int]);
    let parts = |rank: nat, i: int| failed_parts(rank, rows[i]);
    let ahead = failed_ahead(rows);
    ranking::lemma_ranking_exists(keys);
    assert forall|i: int, j: int|
        0 <= i < keys.len() && 0 <= j < keys.len() && ranking::ranks_before(
            keys,
            i,
            j,
        ) implies #[trigger] ahead(i, j) by {
    }
    assert forall|k: int| 0 <= k < keys.len() implies reading::in_turn(
        #[trigger] f(k),
        parts((k + 1) as nat, order[k] as int),
    ) by {
        law_failed_line_reads((k + 1) as nat, rows[order[k] as int]);
    }
    lemma_ranked_table(keys, 40, f, ahead, parts);
}

/// The table of compiled paths ranks all of them by recordings, and says of the
/// leading ones what their rows hold.
pub proof fn law_compiled_table_reads(rows: Seq<CompiledTraceShapeProfileRow>)
    requires
        rows.len() <= usize::MAX,
    ensures
        compiled_table(rows)(report::compiled_table(rows)),
{
    let keys = report::compiled_keys(rows);
    let order = ranking::ranking(keys);
    let f = |k: int| report::compiled_lines((k + 1) as nat, rows[order[k] as int]);
    let parts = |rank: nat, i: int| compiled_parts(rank, rows[i]);
    let ahead = compiled_ahead(rows);
    ranking::lemma_ranking_exists(keys);
    assert forall|i: int, j: int|
        0 <= i < keys.len() && 0 <= j < keys.len() && ranking::ranks_before(
            keys,
            i,
            j,
        ) implies #[trigger] ahead(i, j) by {
    }
    assert forall|k: int| 0 <= k < keys.len() implies reading::in_turn(
        #[trigger] f(k),
        parts((k + 1) as nat, order[k] as int),
    ) by {
        law_compiled_lines_read((k + 1) as nat, rows[order[k] as int]);
    }
    lemma_ranked_table(keys, 40, f, ahead, parts);
}

/// The table of opcodes ranks all of them by executions, and says of the leading
/// ones what their rows hold.
pub proof fn law_mem_op_table_reads(rows: Seq<DecodedMemProfileRow>)
    requires
        rows.len() <= usize::MAX,
    ensures
        mem_op_table(rows)(report::mem_op_table(rows, listing::executions_total(rows))),
{
    law_executions_summed(rows);
    let keys = report::mem_op_keys(rows);
    let order = ranking::ranking(keys);
    let f = |k: int| report::mem_op_line((k + 1) as nat, rows[order[k] as int], listing::executions_total(rows));
    let parts = |rank: nat, i: int| mem_op_parts(rank, rows[i], executions(rows));
    let ahead = mem_op_ahead(rows);
    ranking::lemma_ranking_exists(keys);
    assert forall|i: int, j: int|
        0 <= i < keys.len() && 0 <= j < keys.len() && ranking::ranks_before(
            keys,
            i,
            j,
        ) implies #[trigger] ahead(i, j) by {
    }
    assert forall|k: int| 0 <= k < keys.len() implies reading::in_turn(
        #[trigger] f(k),
        parts((k + 1) as nat, order[k] as int),
    ) by {
        law_mem_op_line_reads((k + 1) as nat, rows[order[k] as int], executions(rows));
    }
    lemma_ranked_table(keys, 40, f, ahead, parts);
}

/// The table of sites ranks all of them by executions, and says of the leading
/// ones what their rows hold.
pub proof fn law_mem_site_table_reads(rows: Seq<DecodedMemSiteProfileRow>)
    requires
        rows.len() <= usize::MAX,
    ensures
        mem_site_table(rows)(report::mem_site_table(rows)),
{
    let keys = report::mem_site_keys(rows);
    let order = ranking::ranking(keys);
    let f = |k: int| report::mem_site_line((k + 1) as nat, rows[order[k] as int]);
    let parts = |rank: nat, i: int| mem_site_parts(rank, rows[i]);
    let ahead = mem_site_ahead(rows);
    ranking::lemma_ranking_exists(keys);
    assert forall|i: int, j: int|
        0 <= i < keys.len() && 0 <= j < keys.len() && ranking::ranks_before(
            keys,
            i,
            j,
        ) implies #[trigger] ahead(i, j) by {
    }
    assert forall|k: int| 0 <= k < keys.len() implies reading::in_turn(
        #[trigger] f(k),
        parts((k + 1) as nat, order[k] as int),
    ) by {
        law_mem_site_line_reads((k + 1) as nat, rows[order[k] as int]);
    }
    lemma_ranked_table(keys, 60, f, ahead, parts);
}

/// The report says what the snapshot holds: the totals, and of every table the
/// leading rows in their order, each place of each line with its own number.
pub proof fn law_report_reads(s: TraceProfileSnapshot)
    ensures
        reads_as_report(report::report_text(s), s),
{
    assert(s.rows.len() <= usize::MAX);
    assert(s.failed_shapes.len() <= usize::MAX);
    assert(s.compiled_shapes.len() <= usize::MAX);
    assert(s.decoded_mem_ops.len() <= usize::MAX);
    assert(s.decoded_mem_sites.len() <= usize::MAX);
    let (t, p) = reading::lemma_first(
        "m68k trace opportunity profile\n"@,
        reading::literal("m68k trace opportunity profile\n"@),
    );
    law_totals_line_reads(s);
    let (t, p) = reading::lemma_one_more(
        t,
        p,
        report::totals_line(s),
        line(totals_parts(s)),
    );
    let (t, p) = reading::lemma_one_more(
        t,
        p,
        "note: head rows aggregate the process lifetime; failure and compiled columns may describe different recording paths. See the shape tables below.\n"@,
        reading::literal("note: head rows aggregate the process lifetime; failure and compiled columns may describe different recording paths. See the shape tables below.\n"@),
    );
    let (t, p) = reading::lemma_one_more(
        t,
        p,
        "rank  start_pc  hits       rejected   attempts prefix projected   blocker_pc opcode  compiled calls      retired\n"@,
        reading::literal("rank  start_pc  hits       rejected   attempts prefix projected   blocker_pc opcode  compiled calls      retired\n"@),
    );
    law_head_table_reads(s.rows@);
    let (t, p) = reading::lemma_one_more(
        t,
        p,
        report::head_table(s.rows@),
        head_table(s.rows@),
    );
    let (t, p) = reading::lemma_one_more(
        t,
        p,
        "compiled traces by retired instructions\n"@,
        reading::literal("compiled traces by retired instructions\n"@),
    );
    let (t, p) = reading::lemma_one_more(
        t,
        p,
        "rank  start_pc  ops      calls      retired avg_ops guard_exits rerecords\n"@,
        reading::literal("rank  start_pc  ops      calls      retired avg_ops guard_exits rerecords\n"@),
    );
    law_called_table_reads(s.rows@);
    let (t, p) = reading::lemma_one_more(
        t,
        p,
        report::called_table(s.rows@),
        called_table(s.rows@),
    );
    let (t, p) = reading::lemma_one_more(
        t,
        p,
        "failed recording shapes\n"@,
        reading::literal("failed recording shapes\n"@),
    );
    let (t, p) = reading::lemma_one_more(
        t,
        p,
        "rank  start_pc  records prefix blocker_pc ir   memory ext1 ext2 reason\n"@,
        reading::literal("rank  start_pc  records prefix blocker_pc ir   memory ext1 ext2 reason\n"@),
    );
    law_failed_table_reads(s.failed_shapes@);
    let (t, p) = reading::lemma_one_more(
        t,
        p,
        report::failed_table(s.failed_shapes@),
        failed_table(s.failed_shapes@),
    );
    let (t, p) = reading::lemma_one_more(
        t,
        p,
        "compiled recording shapes\n"@,
        reading::literal("compiled recording shapes\n"@),
    );
    law_compiled_table_reads(s.compiled_shapes@);
    let (t, p) = reading::lemma_one_more(
        t,
        p,
        report::compiled_table(s.compiled_shapes@),
        compiled_table(s.compiled_shapes@),
    );
    law_mem_totals_line_reads(s.decoded_mem_ops@);
    let (t, p) = reading::lemma_one_more(
        t,
        p,
        report::mem_totals_line(s.decoded_mem_ops@),
        line(mem_totals_parts(s.decoded_mem_ops@)),
    );
    let (t, p) = reading::lemma_one_more(
        t,
        p,
        "rank  opcode  executions percent\n"@,
        reading::literal("rank  opcode  executions percent\n"@),
    );
    law_mem_op_table_reads(s.decoded_mem_ops@);
    let (t, p) = reading::lemma_one_more(
        t,
        p,
        report::mem_op_table(s.decoded_mem_ops@, listing::executions_total(s.decoded_mem_ops@)),
        mem_op_table(s.decoded_mem_ops@),
    );
    let (t, p) = reading::lemma_one_more(
        t,
        p,
        "decoded memory sites by execution count\n"@,
        reading::literal("decoded memory sites by execution count\n"@),
    );
    let (t, p) = reading::lemma_one_more(
        t,
        p,
        "rank  pc        opcode  executions\n"@,
        reading::literal("rank  pc        opcode  executions\n"@),
    );
    law_mem_site_table_reads(s.decoded_mem_sites@);
    let (t, p) = reading::lemma_one_more(
        t,
        p,
        report::mem_site_table(s.decoded_mem_sites@),
        mem_site_table(s.decoded_mem_sites@),
    );
}

/// A path text holds every instruction in order, whatever its length.
pub proof fn law_path_grows(ops: Seq<TraceShapeOp>, op: TraceShapeOp)
    ensures
        report::path_text(Seq::empty()) == Seq::<char>::empty(),
        report::path_text(ops.push(op)) == report::path_text(ops) + report::op_text(op),
{
    let f = |k: int| report::op_text(ops[k]);
    let g = |k: int| report::op_text(ops.push(op)[k]);
    crate::laws::lemma_lines_agree(ops.len(), f, g);
    assert(g(ops.len() as int) == report::op_text(op));
    assert(report::lines((ops.len() + 1) as nat, g) == report::lines(ops.len(), g) + g(
        ops.len() as int,
    ));
}

/// In the line of a head, the eight characters behind the rank and two spaces
/// read as its address.
pub proof fn law_head_address_in_place(rank: nat, row: TraceProfileRow)
    requires
        rank < 10_000,
    ensures
        report::head_line(rank, row).len() > 14,
        reading::is_hex(report::head_line(rank, row).subrange(6, 14), 8, row.start_pc as nat),
{
    let t = report::head_line(rank, row);
    reveal_with_fuel(text::decimal, 5);
    reveal_strlit("  ");
    reading::law_address_reads_back(row.start_pc);
    let pc = text::hex(row.start_pc as nat, 8);
    assert(report::column(rank, 4).len() == 4);
    let front = report::column(rank, 4) + "  "@ + pc;
    assert(front.len() == 14);
    assert(front.subrange(6, 14) =~= pc);
    lemma_head_line_begins(rank, row);
    assert(t.subrange(6, 14) =~= front.subrange(6, 14));
}

/// The line of a head begins with its rank and its address.
proof fn lemma_head_line_begins(rank: nat, row: TraceProfileRow)
    ensures
        (report::column(rank, 4) + "  "@ + text::hex(row.start_pc as nat, 8)).is_prefix_of(
            report::head_line(rank, row),
        ),
        report::head_line(rank, row).len() > (report::column(rank, 4) + "  "@ + text::hex(
            row.start_pc as nat,
            8,
        )).len(),
{
    reveal_strlit("\n");
}

/// Lines of heads with different addresses differ.
pub proof fn law_head_lines_tell_addresses(
    rank: nat,
    row: TraceProfileRow,
    other_rank: nat,
    other: TraceProfileRow,
)
    requires
        rank < 10_000,
        other_rank < 10_000,
        row.start_pc != other.start_pc,
    ensures
        report::head_line(rank, row) != report::head_line(other_rank, other),
{
    law_head_address_in_place(rank, row);
    law_head_address_in_place(other_rank, other);
}

} // verus!
