//! The ranked, human-readable profiling report.

use crate::double;
use crate::listing;
use crate::page;
use crate::ranking;
use crate::ranking::RankKey;
use crate::rows;
use crate::rows::{
    CompiledTraceShapeProfileRow, DecodedMemProfileRow, DecodedMemSiteProfileRow,
    FailedTraceShapeProfileRow, TraceDecodeFailureReason, TraceProfileRow, TraceProfileSnapshot,
    TraceShapeOp,
};
use crate::sums;
use crate::text;
use vstd::prelude::*;

verus! {

/// Rows that a table shows.
pub const TABLE_ROWS: usize = 40;

/// Rows that the table of decoded memory sites shows.
pub const SITE_ROWS: usize = 60;

/// The number of rows shown of a table with `n` rows.
pub open spec fn shown(n: nat, limit: usize) -> nat {
    if n < limit {
        n
    } else {
        limit as nat
    }
}

/// The number of rows shown of a table with `n` rows.
fn shown_rows(n: usize, limit: usize) -> (r: usize)
    ensures
        r == shown(n as nat, limit),
{
    if n < limit {
        n
    } else {
        limit
    }
}

/// The first `n` lines, one after the other.
pub open spec fn lines(n: nat, line: spec_fn(int) -> Seq<char>) -> Seq<char>
    decreases n,
{
    if n == 0 {
        Seq::empty()
    } else {
        lines((n - 1) as nat, line) + line(n - 1)
    }
}

/// A guest address, or dashes where there is none.
pub open spec fn address_or_dashes(pc: Option<u32>) -> Seq<char> {
    match pc {
        Some(pc) => text::hex(pc as nat, 8),
        None => "--------"@,
    }
}

/// A guest word, or dashes where there is none.
pub open spec fn word_or_dashes(word: Option<u16>) -> Seq<char> {
    match word {
        Some(word) => text::hex(word as nat, 4),
        None => "----"@,
    }
}

/// A guest address, or dashes where there is none.
fn address_or_dashes_text(pc: Option<u32>) -> (s: String)
    ensures
        s@ == address_or_dashes(pc),
{
    match pc {
        Some(pc) => text::address_text(pc),
        None => "--------".to_owned(),
    }
}

/// A guest word, or dashes where there is none.
fn word_or_dashes_text(word: Option<u16>) -> (s: String)
    ensures
        s@ == word_or_dashes(word),
{
    match word {
        Some(word) => text::word_text(word),
        None => "----".to_owned(),
    }
}

/// A number aligned to the right.
pub open spec fn column(n: nat, width: nat) -> Seq<char> {
    text::pad_left(text::decimal(n), width)
}

/// The line of one trace head.
pub open spec fn head_line(rank: nat, row: TraceProfileRow) -> Seq<char> {
    column(rank, 4) + "  "@ + text::hex(row.start_pc as nat, 8) + "  "@ + column(
        row.backward_hits as nat,
        10,
    ) + "  "@ + column(row.rejected_hits as nat, 10) + "  "@ + column(
        row.recording_attempts as nat,
        8,
    ) + " "@ + column(row.prefix_ops as nat, 6) + " "@ + column(
        rows::stranded_dispatches(row.rejected_hits, row.prefix_ops) as nat,
        10,
    ) + "   "@ + address_or_dashes(row.blocker_pc) + "  "@ + word_or_dashes(row.blocker_opcode)
        + "  "@ + column(row.compiled_ops as nat, 8) + " "@ + column(row.native_calls as nat, 10)
        + " "@ + column(row.jit_retired as nat, 12) + "\n"@
}

/// Writes the line of one trace head.
fn head_line_text(rank: usize, row: &TraceProfileRow) -> (s: String)
    ensures
        s@ == head_line(rank as nat, *row),
{
    let mut s = text::decimal_column(rank as u64, 4);
    s.append("  ");
    s.append(text::address_text(row.start_pc).as_str());
    s.append("  ");
    s.append(text::decimal_column(row.backward_hits, 10).as_str());
    s.append("  ");
    s.append(text::decimal_column(row.rejected_hits, 10).as_str());
    s.append("  ");
    s.append(text::decimal_column(row.recording_attempts, 8).as_str());
    s.append(" ");
    s.append(text::decimal_column(row.prefix_ops as u64, 6).as_str());
    s.append(" ");
    s.append(text::decimal_column(row.projected_dispatches(), 10).as_str());
    s.append("   ");
    s.append(address_or_dashes_text(row.blocker_pc).as_str());
    s.append("  ");
    s.append(word_or_dashes_text(row.blocker_opcode).as_str());
    s.append("  ");
    s.append(text::decimal_column(row.compiled_ops as u64, 8).as_str());
    s.append(" ");
    s.append(text::decimal_column(row.native_calls, 10).as_str());
    s.append(" ");
    s.append(text::decimal_column(row.jit_retired, 12).as_str());
    s.append("\n");
    s
}

/// Trace heads rank by stranded dispatches, then by backward branches, then by
/// address.
pub open spec fn head_keys(rows: Seq<TraceProfileRow>) -> Seq<RankKey> {
    rows.map_values(
        |row: TraceProfileRow|
            RankKey {
                first: rows::stranded_dispatches(row.rejected_hits, row.prefix_ops),
                second: row.backward_hits,
                third: row.start_pc as u64,
            },
    )
}

/// The table of trace heads.
pub open spec fn head_table(rows: Seq<TraceProfileRow>) -> Seq<char> {
    let order = ranking::ranking(head_keys(rows));
    lines(
        shown(rows.len(), TABLE_ROWS),
        |k: int| head_line((k + 1) as nat, rows[order[k] as int]),
    )
}

/// Writes the table of trace heads.
fn head_table_text(rows: &Vec<TraceProfileRow>) -> (s: String)
    ensures
        s@ == head_table(rows@),
{
    let mut keys: Vec<RankKey> = Vec::new();
    let mut i: usize = 0;
    while i < rows.len()
        invariant
            i <= rows.len(),
            keys@ == head_keys(rows@.take(i as int)),
        decreases rows.len() - i,
    {
        let row = &rows[i];
        keys.push(
            RankKey {
                first: row.projected_dispatches(),
                second: row.backward_hits,
                third: row.start_pc as u64,
            },
        );
        assert(keys@ =~= head_keys(rows@.take(i + 1)));
        i = i + 1;
    }
    assert(rows@.take(i as int) =~= rows@);
    let order = ranking::rank(&keys);
    let n: usize = shown_rows(rows.len(), TABLE_ROWS);
    let ghost line = |k: int| head_line((k + 1) as nat, rows@[order@[k] as int]);
    let mut s = String::new();
    let mut k: usize = 0;
    while k < n
        invariant
            k <= n <= rows.len(),
            n <= TABLE_ROWS,
            order.len() == rows.len(),
            forall|a: int| 0 <= a < order.len() ==> #[trigger] order@[a] < rows.len(),
            line == (|k: int| head_line((k + 1) as nat, rows@[order@[k] as int])),
            s@ == lines(k as nat, line),
        decreases n - k,
    {
        s.append(head_line_text(k + 1, &rows[order[k]]).as_str());
        k = k + 1;
    }
    s
}

/// Instructions retired per executor call of a trace head, in hundredths.
pub open spec fn average_ops(row: TraceProfileRow) -> nat {
    double::average_hundredths(row.jit_retired as nat, row.native_calls as nat)
}

/// The line of one executed trace.
pub open spec fn called_line(rank: nat, row: TraceProfileRow) -> Seq<char> {
    column(rank, 4) + "  "@ + text::hex(row.start_pc as nat, 8) + "  "@ + column(
        row.compiled_ops as nat,
        3,
    ) + " "@ + column(row.native_calls as nat, 10) + " "@ + column(row.jit_retired as nat, 12)
        + " "@ + text::pad_left(text::hundredths(average_ops(row)), 7) + " "@ + column(
        row.guarded_branch_exits as nat,
        11,
    ) + " "@ + column(row.adaptive_rerecords as nat, 9) + "\n"@
}

/// Writes the line of one executed trace.
fn called_line_text(rank: usize, row: &TraceProfileRow) -> (s: String)
    ensures
        s@ == called_line(rank as nat, *row),
{
    let mut s = text::decimal_column(rank as u64, 4);
    s.append("  ");
    s.append(text::address_text(row.start_pc).as_str());
    s.append("  ");
    s.append(text::decimal_column(row.compiled_ops as u64, 3).as_str());
    s.append(" ");
    s.append(text::decimal_column(row.native_calls, 10).as_str());
    s.append(" ");
    s.append(text::decimal_column(row.jit_retired, 12).as_str());
    s.append(" ");
    let average: u128 = double::average(row.jit_retired, row.native_calls);
    s.append(text::hundredths_column(average, 7).as_str());
    s.append(" ");
    s.append(text::decimal_column(row.guarded_branch_exits, 11).as_str());
    s.append(" ");
    s.append(text::decimal_column(row.adaptive_rerecords, 9).as_str());
    s.append("\n");
    s
}

/// The trace heads whose trace was executed.
pub open spec fn called_rows(rows: Seq<TraceProfileRow>) -> Seq<TraceProfileRow> {
    rows.filter(|row: TraceProfileRow| row.native_calls != 0)
}

/// Executed traces rank by retired instructions, then by calls, then by
/// address.
pub open spec fn called_keys(rows: Seq<TraceProfileRow>) -> Seq<RankKey> {
    rows.map_values(
        |row: TraceProfileRow|
            RankKey {
                first: row.jit_retired,
                second: row.native_calls,
                third: row.start_pc as u64,
            },
    )
}

/// The table of executed traces.
pub open spec fn called_table(rows: Seq<TraceProfileRow>) -> Seq<char> {
    let called = called_rows(rows);
    let order = ranking::ranking(called_keys(called));
    lines(
        shown(called.len(), TABLE_ROWS),
        |k: int| called_line((k + 1) as nat, called[order[k] as int]),
    )
}

/// Writes the table of executed traces.
fn called_table_text(rows: &Vec<TraceProfileRow>) -> (s: String)
    ensures
        s@ == called_table(rows@),
{
    let ghost executed = |row: TraceProfileRow| row.native_calls != 0;
    let ghost called = called_rows(rows@);
    let mut chosen: Vec<usize> = Vec::new();
    let mut keys: Vec<RankKey> = Vec::new();
    let mut i: usize = 0;
    proof {
        reveal(Seq::filter);
        assert(rows@.take(0).filter(executed) =~= Seq::empty());
    }
    while i < rows.len()
        invariant
            i <= rows.len(),
            executed == (|row: TraceProfileRow| row.native_calls != 0),
            chosen.len() == keys.len(),
            chosen.len() == rows@.take(i as int).filter(executed).len(),
            forall|a: int|
                0 <= a < chosen.len() ==> {
                    &&& #[trigger] chosen@[a] < i
                    &&& rows@[chosen@[a] as int] == rows@.take(i as int).filter(executed)[a]
                },
            keys@ == called_keys(rows@.take(i as int).filter(executed)),
        decreases rows.len() - i,
    {
        let row = &rows[i];
        proof {
            reveal(Seq::filter);
            assert(rows@.take(i + 1).drop_last() =~= rows@.take(i as int));
            assert(rows@.take(i + 1).last() == rows@[i as int]);
        }
        if row.native_calls != 0 {
            chosen.push(i);
            keys.push(
                RankKey {
                    first: row.jit_retired,
                    second: row.native_calls,
                    third: row.start_pc as u64,
                },
            );
        }
        assert(keys@ =~= called_keys(rows@.take(i + 1).filter(executed)));
        i = i + 1;
    }
    assert(rows@.take(i as int) =~= rows@);
    let order = ranking::rank(&keys);
    let n: usize = shown_rows(chosen.len(), TABLE_ROWS);
    let ghost line = |k: int| called_line((k + 1) as nat, called[order@[k] as int]);
    let mut s = String::new();
    let mut k: usize = 0;
    while k < n
        invariant
            k <= n <= chosen.len(),
            n <= TABLE_ROWS,
            chosen.len() == called.len(),
            order.len() == chosen.len(),
            forall|a: int| 0 <= a < order.len() ==> #[trigger] order@[a] < chosen.len(),
            forall|a: int|
                0 <= a < chosen.len() ==> {
                    &&& #[trigger] chosen@[a] < rows.len()
                    &&& rows@[chosen@[a] as int] == called[a]
                },
            line == (|k: int| called_line((k + 1) as nat, called[order@[k] as int])),
            s@ == lines(k as nat, line),
        decreases n - k,
    {
        s.append(called_line_text(k + 1, &rows[chosen[order[k]]]).as_str());
        k = k + 1;
    }
    s
}

/// The name of a failure reason.
pub open spec fn reason_name(reason: TraceDecodeFailureReason) -> Seq<char> {
    match reason {
        TraceDecodeFailureReason::OpcodeReadFailed => "opcode-read-failed"@,
        TraceDecodeFailureReason::OpcodeChanged => "opcode-changed"@,
        TraceDecodeFailureReason::UnsupportedFormOrOperandRead => {
            "unsupported-form-or-operand-read"@
        },
    }
}

/// The name of a failure reason.
fn reason_text(reason: TraceDecodeFailureReason) -> (s: &'static str)
    ensures
        s@ == reason_name(reason),
{
    match reason {
        TraceDecodeFailureReason::OpcodeReadFailed => "opcode-read-failed",
        TraceDecodeFailureReason::OpcodeChanged => "opcode-changed",
        TraceDecodeFailureReason::UnsupportedFormOrOperandRead => {
            "unsupported-form-or-operand-read"
        },
    }
}

/// The line of one failed path.
pub open spec fn failed_line(rank: nat, row: FailedTraceShapeProfileRow) -> Seq<char> {
    column(rank, 4) + "  "@ + text::hex(row.start_pc as nat, 8) + " "@ + column(
        row.recordings as nat,
        8,
    ) + " "@ + column(row.prefix_ops as nat, 6) + "   "@ + text::hex(row.blocker_pc as nat, 8)
        + " "@ + text::hex(row.executed_opcode as nat, 4) + " "@ + word_or_dashes(
        row.memory_opcode,
    ) + " "@ + word_or_dashes(row.extension) + " "@ + word_or_dashes(row.extension2) + " "@
        + reason_name(row.reason) + "\n"@
}

/// Writes the line of one failed path.
fn failed_line_text(rank: usize, row: &FailedTraceShapeProfileRow) -> (s: String)
    ensures
        s@ == failed_line(rank as nat, *row),
{
    let mut s = text::decimal_column(rank as u64, 4);
    s.append("  ");
    s.append(text::address_text(row.start_pc).as_str());
    s.append(" ");
    s.append(text::decimal_column(row.recordings, 8).as_str());
    s.append(" ");
    s.append(text::decimal_column(row.prefix_ops as u64, 6).as_str());
    s.append("   ");
    s.append(text::address_text(row.blocker_pc).as_str());
    s.append(" ");
    s.append(text::word_text(row.executed_opcode).as_str());
    s.append(" ");
    s.append(word_or_dashes_text(row.memory_opcode).as_str());
    s.append(" ");
    s.append(word_or_dashes_text(row.extension).as_str());
    s.append(" ");
    s.append(word_or_dashes_text(row.extension2).as_str());
    s.append(" ");
    s.append(reason_text(row.reason));
    s.append("\n");
    s
}

/// Failed paths rank by recordings, then by prefix length, then by address.
pub open spec fn failed_keys(rows: Seq<FailedTraceShapeProfileRow>) -> Seq<RankKey> {
    rows.map_values(
        |row: FailedTraceShapeProfileRow|
            RankKey {
                first: row.recordings,
                second: row.prefix_ops as u64,
                third: row.start_pc as u64,
            },
    )
}

/// The table of failed paths.
pub open spec fn failed_table(rows: Seq<FailedTraceShapeProfileRow>) -> Seq<char> {
    let order = ranking::ranking(failed_keys(rows));
    lines(
        shown(rows.len(), TABLE_ROWS),
        |k: int| failed_line((k + 1) as nat, rows[order[k] as int]),
    )
}

/// Writes the table of failed paths.
fn failed_table_text(rows: &Vec<FailedTraceShapeProfileRow>) -> (s: String)
    ensures
        s@ == failed_table(rows@),
{
    let mut keys: Vec<RankKey> = Vec::new();
    let mut i: usize = 0;
    while i < rows.len()
        invariant
            i <= rows.len(),
            keys@ == failed_keys(rows@.take(i as int)),
        decreases rows.len() - i,
    {
        let row = &rows[i];
        keys.push(
            RankKey {
                first: row.recordings,
                second: row.prefix_ops as u64,
                third: row.start_pc as u64,
            },
        );
        assert(keys@ =~= failed_keys(rows@.take(i + 1)));
        i = i + 1;
    }
    assert(rows@.take(i as int) =~= rows@);
    let order = ranking::rank(&keys);
    let n: usize = shown_rows(rows.len(), TABLE_ROWS);
    let ghost line = |k: int| failed_line((k + 1) as nat, rows@[order@[k] as int]);
    let mut s = String::new();
    let mut k: usize = 0;
    while k < n
        invariant
            k <= n <= rows.len(),
            n <= TABLE_ROWS,
            order.len() == rows.len(),
            forall|a: int| 0 <= a < order.len() ==> #[trigger] order@[a] < rows.len(),
            line == (|k: int| failed_line((k + 1) as nat, rows@[order@[k] as int])),
            s@ == lines(k as nat, line),
        decreases n - k,
    {
        s.append(failed_line_text(k + 1, &rows[order[k]]).as_str());
        k = k + 1;
    }
    s
}

/// An extension word of an instruction, where it has one.
pub open spec fn extension_text(word: Option<u16>) -> Seq<char> {
    match word {
        Some(word) => "/"@ + text::hex(word as nat, 4),
        None => Seq::empty(),
    }
}

/// One instruction of a compiled path.
pub open spec fn op_text(op: TraceShapeOp) -> Seq<char> {
    " "@ + text::hex(op.pc as nat, 8) + ":"@ + text::hex(op.opcode as nat, 4) + extension_text(
        op.extension,
    ) + extension_text(op.extension2)
}

/// Appends an extension word of an instruction, where it has one.
fn push_extension(out: &mut String, word: Option<u16>)
    ensures
        final(out)@ == old(out)@ + extension_text(word),
{
    match word {
        Some(word) => {
            out.append("/");
            out.append(text::word_text(word).as_str());
        },
        None => {},
    }
    assert(out@ =~= old(out)@ + extension_text(word));
}

/// Writes one instruction of a compiled path.
fn op_line(op: &TraceShapeOp) -> (s: String)
    ensures
        s@ == op_text(*op),
{
    let mut s = " ".to_owned();
    s.append(text::address_text(op.pc).as_str());
    s.append(":");
    s.append(text::word_text(op.opcode).as_str());
    push_extension(&mut s, op.extension);
    push_extension(&mut s, op.extension2);
    s
}

/// The instructions of a compiled path, one after the other.
pub open spec fn path_text(ops: Seq<TraceShapeOp>) -> Seq<char> {
    lines(ops.len(), |k: int| op_text(ops[k]))
}

/// Writes the instructions of a compiled path.
fn path_line(ops: &Vec<TraceShapeOp>) -> (s: String)
    ensures
        s@ == path_text(ops@),
{
    let ghost line = |k: int| op_text(ops@[k]);
    let mut s = String::new();
    let mut k: usize = 0;
    while k < ops.len()
        invariant
            k <= ops.len(),
            line == (|k: int| op_text(ops@[k])),
            s@ == lines(k as nat, line),
        decreases ops.len() - k,
    {
        s.append(op_line(&ops[k]).as_str());
        k = k + 1;
    }
    s
}

/// The lines of one compiled path.
pub open spec fn compiled_lines(rank: nat, row: CompiledTraceShapeProfileRow) -> Seq<char> {
    column(rank, 4) + "  "@ + text::hex(row.start_pc as nat, 8) + " records="@ + text::decimal(
        row.recordings as nat,
    ) + " ops="@ + text::decimal(row.ops@.len()) + "\n"@ + "      path:"@ + path_text(row.ops@)
        + "\n"@
}

/// Writes the lines of one compiled path.
fn compiled_lines_text(rank: usize, row: &CompiledTraceShapeProfileRow) -> (s: String)
    ensures
        s@ == compiled_lines(rank as nat, *row),
{
    let mut s = text::decimal_column(rank as u64, 4);
    s.append("  ");
    s.append(text::address_text(row.start_pc).as_str());
    s.append(" records=");
    s.append(text::decimal_text(row.recordings).as_str());
    s.append(" ops=");
    s.append(text::decimal_text(row.ops.len() as u64).as_str());
    s.append("\n");
    s.append("      path:");
    s.append(path_line(&row.ops).as_str());
    s.append("\n");
    s
}

/// Compiled paths rank by recordings, then by length, then by address.
pub open spec fn compiled_keys(rows: Seq<CompiledTraceShapeProfileRow>) -> Seq<RankKey> {
    rows.map_values(
        |row: CompiledTraceShapeProfileRow|
            RankKey {
                first: row.recordings,
                second: row.ops.len() as u64,
                third: row.start_pc as u64,
            },
    )
}

/// The table of compiled paths.
pub open spec fn compiled_table(rows: Seq<CompiledTraceShapeProfileRow>) -> Seq<char> {
    let order = ranking::ranking(compiled_keys(rows));
    lines(
        shown(rows.len(), TABLE_ROWS),
        |k: int| compiled_lines((k + 1) as nat, rows[order[k] as int]),
    )
}

/// Writes the table of compiled paths.
fn compiled_table_text(rows: &Vec<CompiledTraceShapeProfileRow>) -> (s: String)
    ensures
        s@ == compiled_table(rows@),
{
    let mut keys: Vec<RankKey> = Vec::new();
    let mut i: usize = 0;
    while i < rows.len()
        invariant
            i <= rows.len(),
            keys@ == compiled_keys(rows@.take(i as int)),
        decreases rows.len() - i,
    {
        let row = &rows[i];
        keys.push(
            RankKey {
                first: row.recordings,
                second: row.ops.len() as u64,
                third: row.start_pc as u64,
            },
        );
        assert(keys@ =~= compiled_keys(rows@.take(i + 1)));
        i = i + 1;
    }
    assert(rows@.take(i as int) =~= rows@);
    let order = ranking::rank(&keys);
    let n: usize = shown_rows(rows.len(), TABLE_ROWS);
    let ghost line = |k: int| compiled_lines((k + 1) as nat, rows@[order@[k] as int]);
    let mut s = String::new();
    let mut k: usize = 0;
    while k < n
        invariant
            k <= n <= rows.len(),
            n <= TABLE_ROWS,
            order.len() == rows.len(),
            forall|a: int| 0 <= a < order.len() ==> #[trigger] order@[a] < rows.len(),
            line == (|k: int| compiled_lines((k + 1) as nat, rows@[order@[k] as int])),
            s@ == lines(k as nat, line),
        decreases n - k,
    {
        s.append(compiled_lines_text(k + 1, &rows[order[k]]).as_str());
        k = k + 1;
    }
    s
}

/// The line of one opcode, with its share of all executions.
pub open spec fn mem_op_line(rank: nat, row: DecodedMemProfileRow, total: nat) -> Seq<char> {
    column(rank, 4) + "  "@ + text::hex(row.opcode as nat, 4) + " "@ + column(
        row.executions as nat,
        11,
    ) + " "@ + text::pad_left(
        text::hundredths(double::percent_hundredths(row.executions as nat, total)),
        6,
    ) + "%\n"@
}

/// Writes the line of one opcode.
fn mem_op_line_text(rank: usize, row: &DecodedMemProfileRow, total: u64) -> (s: String)
    ensures
        s@ == mem_op_line(rank as nat, *row, total as nat),
{
    let mut s = text::decimal_column(rank as u64, 4);
    s.append("  ");
    s.append(text::word_text(row.opcode).as_str());
    s.append(" ");
    s.append(text::decimal_column(row.executions, 11).as_str());
    s.append(" ");
    let percent: u128 = double::percent(row.executions, total);
    s.append(text::hundredths_column(percent, 6).as_str());
    s.append("%\n");
    s
}

/// Opcodes rank by executions, then by opcode.
pub open spec fn mem_op_keys(rows: Seq<DecodedMemProfileRow>) -> Seq<RankKey> {
    rows.map_values(
        |row: DecodedMemProfileRow|
            RankKey { first: row.executions, second: 0, third: row.opcode as u64 },
    )
}

/// The table of decoded memory opcodes.
pub open spec fn mem_op_table(rows: Seq<DecodedMemProfileRow>, total: nat) -> Seq<char> {
    let order = ranking::ranking(mem_op_keys(rows));
    lines(
        shown(rows.len(), TABLE_ROWS),
        |k: int| mem_op_line((k + 1) as nat, rows[order[k] as int], total),
    )
}

/// Writes the table of decoded memory opcodes.
fn mem_op_table_text(rows: &Vec<DecodedMemProfileRow>, total: u64) -> (s: String)
    ensures
        s@ == mem_op_table(rows@, total as nat),
{
    let mut keys: Vec<RankKey> = Vec::new();
    let mut i: usize = 0;
    while i < rows.len()
        invariant
            i <= rows.len(),
            keys@ == mem_op_keys(rows@.take(i as int)),
        decreases rows.len() - i,
    {
        let row = &rows[i];
        keys.push(RankKey { first: row.executions, second: 0, third: row.opcode as u64 });
        assert(keys@ =~= mem_op_keys(rows@.take(i + 1)));
        i = i + 1;
    }
    assert(rows@.take(i as int) =~= rows@);
    let order = ranking::rank(&keys);
    let n: usize = shown_rows(rows.len(), TABLE_ROWS);
    let ghost line = |k: int|
        mem_op_line((k + 1) as nat, rows@[order@[k] as int], total as nat);
    let mut s = String::new();
    let mut k: usize = 0;
    while k < n
        invariant
            k <= n <= rows.len(),
            n <= TABLE_ROWS,
            order.len() == rows.len(),
            forall|a: int| 0 <= a < order.len() ==> #[trigger] order@[a] < rows.len(),
            line == (|k: int|
                mem_op_line((k + 1) as nat, rows@[order@[k] as int], total as nat)),
            s@ == lines(k as nat, line),
        decreases n - k,
    {
        s.append(mem_op_line_text(k + 1, &rows[order[k]], total).as_str());
        k = k + 1;
    }
    s
}

/// The line of one site.
pub open spec fn mem_site_line(rank: nat, row: DecodedMemSiteProfileRow) -> Seq<char> {
    column(rank, 4) + "  "@ + text::hex(row.pc as nat, 8) + "  "@ + text::hex(
        row.opcode as nat,
        4,
    ) + " "@ + column(row.executions as nat, 11) + "\n"@
}

/// Writes the line of one site.
fn mem_site_line_text(rank: usize, row: &DecodedMemSiteProfileRow) -> (s: String)
    ensures
        s@ == mem_site_line(rank as nat, *row),
{
    let mut s = text::decimal_column(rank as u64, 4);
    s.append("  ");
    s.append(text::address_text(row.pc).as_str());
    s.append("  ");
    s.append(text::word_text(row.opcode).as_str());
    s.append(" ");
    s.append(text::decimal_column(row.executions, 11).as_str());
    s.append("\n");
    s
}

/// A site ranks by executions, then by address, then by opcode.
pub open spec fn mem_site_key(row: DecodedMemSiteProfileRow) -> RankKey {
    RankKey {
        first: row.executions,
        second: 0,
        third: (row.pc * 0x1_0000 + row.opcode) as u64,
    }
}

/// What the sites rank by.
pub open spec fn mem_site_keys(rows: Seq<DecodedMemSiteProfileRow>) -> Seq<RankKey> {
    rows.map_values(|row: DecodedMemSiteProfileRow| mem_site_key(row))
}

/// The table of decoded memory sites.
pub open spec fn mem_site_table(rows: Seq<DecodedMemSiteProfileRow>) -> Seq<char> {
    let order = ranking::ranking(mem_site_keys(rows));
    lines(
        shown(rows.len(), SITE_ROWS),
        |k: int| mem_site_line((k + 1) as nat, rows[order[k] as int]),
    )
}

/// Writes the table of decoded memory sites.
fn mem_site_table_text(rows: &Vec<DecodedMemSiteProfileRow>) -> (s: String)
    ensures
        s@ == mem_site_table(rows@),
{
    let mut keys: Vec<RankKey> = Vec::new();
    let mut i: usize = 0;
    while i < rows.len()
        invariant
            i <= rows.len(),
            keys@ == mem_site_keys(rows@.take(i as int)),
        decreases rows.len() - i,
    {
        let row = &rows[i];
        keys.push(
            RankKey {
                first: row.executions,
                second: 0,
                third: row.pc as u64 * 0x1_0000 + row.opcode as u64,
            },
        );
        assert(keys@ =~= mem_site_keys(rows@.take(i + 1)));
        i = i + 1;
    }
    assert(rows@.take(i as int) =~= rows@);
    let order = ranking::rank(&keys);
    let n: usize = shown_rows(rows.len(), SITE_ROWS);
    let ghost line = |k: int| mem_site_line((k + 1) as nat, rows@[order@[k] as int]);
    let mut s = String::new();
    let mut k: usize = 0;
    while k < n
        invariant
            k <= n <= rows.len(),
            n <= SITE_ROWS,
            order.len() == rows.len(),
            forall|a: int| 0 <= a < order.len() ==> #[trigger] order@[a] < rows.len(),
            line == (|k: int| mem_site_line((k + 1) as nat, rows@[order@[k] as int])),
            s@ == lines(k as nat, line),
        decreases n - k,
    {
        s.append(mem_site_line_text(k + 1, &rows[order[k]]).as_str());
        k = k + 1;
    }
    s
}

/// The line with the counter totals.
pub open spec fn totals_line(s: TraceProfileSnapshot) -> Seq<char> {
    "totals: backward_hits="@ + text::decimal(s.backward_hits as nat) + " rejected_hits="@
        + text::decimal(s.rejected_hits as nat) + " native_calls="@ + text::decimal(
        s.native_calls as nat,
    ) + " jit_retired="@ + text::decimal(s.jit_retired as nat) + " avg_ops_per_native_call="@
        + text::hundredths(
        double::average_hundredths(s.jit_retired as nat, s.native_calls as nat),
    ) + "\n"@
}

/// Writes the line with the counter totals.
fn totals_line_text(s: &TraceProfileSnapshot) -> (out: String)
    ensures
        out@ == totals_line(*s),
{
    let mut out = "totals: backward_hits=".to_owned();
    out.append(text::decimal_text(s.backward_hits).as_str());
    out.append(" rejected_hits=");
    out.append(text::decimal_text(s.rejected_hits).as_str());
    out.append(" native_calls=");
    out.append(text::decimal_text(s.native_calls).as_str());
    out.append(" jit_retired=");
    out.append(text::decimal_text(s.jit_retired).as_str());
    out.append(" avg_ops_per_native_call=");
    let average: u128 = double::average(s.jit_retired, s.native_calls);
    out.append(text::hundredths_text(average).as_str());
    out.append("\n");
    out
}

/// The line with the decoded memory totals.
pub open spec fn mem_totals_line(rows: Seq<DecodedMemProfileRow>) -> Seq<char> {
    "decoded memory operations: total="@ + text::decimal(listing::executions_total(rows))
        + " distinct_opcodes="@ + text::decimal(rows.len()) + "\n"@
}

/// Writes the line with the decoded memory totals.
fn mem_totals_line_text(rows: &Vec<DecodedMemProfileRow>, total: u64) -> (out: String)
    requires
        total == listing::executions_total(rows@),
    ensures
        out@ == mem_totals_line(rows@),
{
    let mut out = "decoded memory operations: total=".to_owned();
    out.append(text::decimal_text(total).as_str());
    out.append(" distinct_opcodes=");
    out.append(text::decimal_text(rows.len() as u64).as_str());
    out.append("\n");
    out
}

/// The whole report.
pub open spec fn report_text(s: TraceProfileSnapshot) -> Seq<char> {
    "m68k trace opportunity profile\n"@ + totals_line(s)
        + "note: head rows aggregate the process lifetime; failure and compiled columns may describe different recording paths. See the shape tables below.\n"@
        + "rank  start_pc  hits       rejected   attempts prefix projected   blocker_pc opcode  compiled calls      retired\n"@
        + head_table(s.rows@) + "compiled traces by retired instructions\n"@
        + "rank  start_pc  ops      calls      retired avg_ops guard_exits rerecords\n"@
        + called_table(s.rows@) + "failed recording shapes\n"@
        + "rank  start_pc  records prefix blocker_pc ir   memory ext1 ext2 reason\n"@
        + failed_table(s.failed_shapes@) + "compiled recording shapes\n"@ + compiled_table(
        s.compiled_shapes@,
    ) + mem_totals_line(s.decoded_mem_ops@) + "rank  opcode  executions percent\n"@
        + mem_op_table(s.decoded_mem_ops@, listing::executions_total(s.decoded_mem_ops@))
        + "decoded memory sites by execution count\n"@
        + "rank  pc        opcode  executions\n"@ + mem_site_table(s.decoded_mem_sites@)
}

impl TraceProfileSnapshot {
    /// Executions through the decoded memory fast path over all opcodes, if
    /// they can be counted.
    pub fn decoded_mem_total(&self) -> (total: Option<u64>)
        ensures
            match total {
                Some(total) => total == listing::executions_total(self.decoded_mem_ops@),
                None => listing::executions_total(self.decoded_mem_ops@) > u64::MAX,
            },
    {
        let rows = &self.decoded_mem_ops;
        let ghost executions = |row: DecodedMemProfileRow| row.executions as nat;
        let mut total: u64 = 0;
        let mut i: usize = 0;
        assert(rows@.take(0) =~= Seq::<DecodedMemProfileRow>::empty());
        while i < rows.len()
            invariant
                i <= rows.len(),
                rows == self.decoded_mem_ops,
                executions == (|row: DecodedMemProfileRow| row.executions as nat),
                total == sums::list_sum(rows@.take(i as int), executions),
            decreases rows.len() - i,
        {
            proof {
                sums::lemma_list_sum_step(rows@, executions, i as int);
            }
            match total.checked_add(rows[i].executions) {
                Some(sum) => {
                    total = sum;
                },
                None => {
                    return None;
                },
            }
            i = i + 1;
        }
        assert(rows@.take(i as int) =~= rows@);
        Some(total)
    }

    /// Format the snapshot as a ranked, human-readable profiling report.
    ///
    /// Executions over all opcodes have to be a count themselves.
    pub fn report(&self) -> (out: String)
        requires
            listing::executions_total(self.decoded_mem_ops@) <= u64::MAX,
        ensures
            out@ == report_text(*self),
            page::reads_as_report(out@, *self),
    {
        let decoded_mem_total: u64 = self.decoded_mem_total().unwrap();
        let mut out = "m68k trace opportunity profile\n".to_owned();
        out.append(totals_line_text(self).as_str());
        out.append(
            "note: head rows aggregate the process lifetime; failure and compiled columns may describe different recording paths. See the shape tables below.\n",
        );
        out.append(
            "rank  start_pc  hits       rejected   attempts prefix projected   blocker_pc opcode  compiled calls      retired\n",
        );
        out.append(head_table_text(&self.rows).as_str());
        out.append("compiled traces by retired instructions\n");
        out.append("rank  start_pc  ops      calls      retired avg_ops guard_exits rerecords\n");
        out.append(called_table_text(&self.rows).as_str());
        out.append("failed recording shapes\n");
        out.append("rank  start_pc  records prefix blocker_pc ir   memory ext1 ext2 reason\n");
        out.append(failed_table_text(&self.failed_shapes).as_str());
        out.append("compiled recording shapes\n");
        out.append(compiled_table_text(&self.compiled_shapes).as_str());
        out.append(mem_totals_line_text(&self.decoded_mem_ops, decoded_mem_total).as_str());
        out.append("rank  opcode  executions percent\n");
        out.append(mem_op_table_text(&self.decoded_mem_ops, decoded_mem_total).as_str());
        out.append("decoded memory sites by execution count\n");
        out.append("rank  pc        opcode  executions\n");
        out.append(mem_site_table_text(&self.decoded_mem_sites).as_str());
        proof {
            page::law_report_reads(*self);
        }
        out
    }
}

} // verus!
