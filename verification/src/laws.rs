//! Laws that relate the profiler's events, its snapshots and its report.

use crate::cpu_type::CpuType;
use crate::keys;
use crate::keys::{CompiledShape, FailedShapeKey, HeadKey};
use crate::listing;
use crate::model;
use crate::model::ProfileView;
use crate::ordered::OrderedKey;
use crate::ranking;
use crate::report;
use crate::rows;
use crate::rows::{
    CompiledTraceShapeProfileRow, DecodedMemProfileRow, DecodedMemSiteProfileRow,
    FailedTraceShapeProfileRow, TraceBlocker, TraceProfileRow, TraceProfileSnapshot,
    TraceShapeOp,
};
use crate::sums;
use vstd::prelude::*;

verus! {

/// Whether a list is strictly in order.
spec fn sorted<A>(list: Seq<A>, before: spec_fn(A, A) -> bool) -> bool {
    forall|i: int, j: int|
        0 <= i < j < list.len() ==> before(#[trigger] list[i], #[trigger] list[j])
}

/// A strict order.
spec fn strict<A>(before: spec_fn(A, A) -> bool) -> bool {
    forall|x: A, y: A| #[trigger] before(x, y) ==> !before(y, x)
}

/// Two ordered lists of the same items are equal.
proof fn lemma_sorted_unique<A>(a: Seq<A>, b: Seq<A>, before: spec_fn(A, A) -> bool)
    requires
        strict(before),
        sorted(a, before),
        sorted(b, before),
        forall|x: A| #[trigger] a.contains(x) <==> b.contains(x),
    ensures
        a == b,
    decreases a.len(),
{
    if a.len() == 0 {
        if b.len() > 0 {
            assert(b.contains(b[0]));
            assert(a.contains(b[0]));
        }
        assert(a =~= b);
    } else if b.len() == 0 {
        assert(a.contains(a[0]));
        assert(b.contains(a[0]));
    } else {
        let x = a.last();
        let y = b.last();
        assert(a.contains(x));
        assert(a.contains(y)) by {
            assert(b.contains(y));
        }
        let i = choose|i: int| 0 <= i < a.len() && a[i] == y;
        let j = choose|j: int| 0 <= j < b.len() && b[j] == x;
        if x != y {
            assert(before(a[i], a[a.len() - 1]));
            assert(before(b[j], b[b.len() - 1]));
            assert(false);
        }
        let c = a.drop_last();
        let d = b.drop_last();
        assert forall|z: A| #[trigger] c.contains(z) <==> d.contains(z) by {
            if c.contains(z) {
                let k = choose|k: int| 0 <= k < c.len() && c[k] == z;
                assert(a[k] == z);
                assert(before(a[k], a[a.len() - 1]));
                assert(a.contains(z));
                let m = choose|m: int| 0 <= m < b.len() && b[m] == z;
                assert(d[m] == z);
            }
            if d.contains(z) {
                let k = choose|k: int| 0 <= k < d.len() && d[k] == z;
                assert(b[k] == z);
                assert(before(b[k], b[b.len() - 1]));
                assert(a.contains(z));
                let m = choose|m: int| 0 <= m < a.len() && a[m] == z;
                assert(c[m] == z);
            }
        }
        lemma_sorted_unique(c, d, before);
        assert(a =~= c.push(x));
        assert(b =~= d.push(y));
    }
}

/// Lines that agree one by one make the same text.
pub proof fn lemma_lines_agree(n: nat, f: spec_fn(int) -> Seq<char>, g: spec_fn(int) -> Seq<char>)
    requires
        forall|k: int| 0 <= k < n ==> #[trigger] f(k) == g(k),
    ensures
        report::lines(n, f) == report::lines(n, g),
    decreases n,
{
    if n > 0 {
        lemma_lines_agree((n - 1) as nat, f, g);
        assert(f(n - 1) == g(n - 1));
    }
}

/// A profile has only one listing of its trace heads.
pub proof fn law_rows_determined(
    p: ProfileView,
    a: Seq<TraceProfileRow>,
    b: Seq<TraceProfileRow>,
)
    requires
        listing::lists_rows(p, a),
        listing::lists_rows(p, b),
    ensures
        a == b,
{
    let before = |x: TraceProfileRow, y: TraceProfileRow|
        keys::head_before(listing::listed_head(x), listing::listed_head(y));
    assert forall|x: TraceProfileRow| #[trigger] a.contains(x) implies b.contains(x) by {
        let i = choose|i: int| 0 <= i < a.len() && a[i] == x;
        let h = listing::listed_head(a[i]);
        assert(p.rows.contains_key(h));
        let j = choose|j: int| 0 <= j < b.len() && listing::listed_head(#[trigger] b[j]) == h;
        assert(b[j] == x);
    }
    assert forall|x: TraceProfileRow| #[trigger] b.contains(x) implies a.contains(x) by {
        let i = choose|i: int| 0 <= i < b.len() && b[i] == x;
        let h = listing::listed_head(b[i]);
        assert(p.rows.contains_key(h));
        let j = choose|j: int| 0 <= j < a.len() && listing::listed_head(#[trigger] a[j]) == h;
        assert(a[j] == x);
    }
    lemma_sorted_unique(a, b, before);
}

/// A profile has only one listing of its failed paths.
pub proof fn law_failed_shapes_determined(
    p: ProfileView,
    a: Seq<FailedTraceShapeProfileRow>,
    b: Seq<FailedTraceShapeProfileRow>,
)
    requires
        listing::lists_failed_shapes(p, a),
        listing::lists_failed_shapes(p, b),
    ensures
        a == b,
{
    let before = |x: FailedTraceShapeProfileRow, y: FailedTraceShapeProfileRow|
        keys::failed_before(listing::listed_failed(x), listing::listed_failed(y));
    assert forall|x: FailedTraceShapeProfileRow| #[trigger] a.contains(x) implies b.contains(
        x,
    ) by {
        let i = choose|i: int| 0 <= i < a.len() && a[i] == x;
        lemma_failed_row_listed(p, b, a[i]);
    }
    assert forall|x: FailedTraceShapeProfileRow| #[trigger] b.contains(x) implies a.contains(
        x,
    ) by {
        let i = choose|i: int| 0 <= i < b.len() && b[i] == x;
        lemma_failed_row_listed(p, a, b[i]);
    }
    lemma_sorted_unique(a, b, before);
}

/// A row with a failed path of the profile and its count is listed.
proof fn lemma_failed_row_listed(
    p: ProfileView,
    rows: Seq<FailedTraceShapeProfileRow>,
    row: FailedTraceShapeProfileRow,
)
    requires
        listing::lists_failed_shapes(p, rows),
        p.failed_shapes.contains_key(listing::listed_failed(row)),
        row.recordings == p.failed_shapes[listing::listed_failed(row)],
    ensures
        rows.contains(row),
{
    let shape = listing::listed_failed(row);
    let j = choose|j: int| 0 <= j < rows.len() && listing::listed_failed(#[trigger] rows[j]) == shape;
    let other = rows[j];
    assert(listing::listed_failed(other) == shape);
    crate::cpu_type::law_cpu_repr_injective(other.cpu_type, row.cpu_type);
    assert(other == row);
}

/// A profile has only one listing of its opcodes.
pub proof fn law_decoded_mem_ops_determined(
    p: ProfileView,
    a: Seq<DecodedMemProfileRow>,
    b: Seq<DecodedMemProfileRow>,
)
    requires
        listing::lists_decoded_mem_ops(p, a),
        listing::lists_decoded_mem_ops(p, b),
    ensures
        a == b,
{
    let before = |x: DecodedMemProfileRow, y: DecodedMemProfileRow| x.opcode < y.opcode;
    assert forall|x: DecodedMemProfileRow| #[trigger] a.contains(x) implies b.contains(x) by {
        let i = choose|i: int| 0 <= i < a.len() && a[i] == x;
        assert(a[i].executions == p.decoded_mem_counts[x.opcode as int]);
        let j = choose|j: int| 0 <= j < b.len() && (#[trigger] b[j]).opcode == x.opcode;
        assert(b[j] == x);
    }
    assert forall|x: DecodedMemProfileRow| #[trigger] b.contains(x) implies a.contains(x) by {
        let i = choose|i: int| 0 <= i < b.len() && b[i] == x;
        assert(b[i].executions == p.decoded_mem_counts[x.opcode as int]);
        let j = choose|j: int| 0 <= j < a.len() && (#[trigger] a[j]).opcode == x.opcode;
        assert(a[j] == x);
    }
    lemma_sorted_unique(a, b, before);
}

/// The compiled paths and counts of listed rows.
spec fn compiled_items(rows: Seq<CompiledTraceShapeProfileRow>) -> Seq<(CompiledShape, u64)> {
    rows.map_values(
        |row: CompiledTraceShapeProfileRow| (listing::listed_compiled(row), row.recordings),
    )
}

/// A compiled path of the profile is listed with its count.
proof fn lemma_compiled_item_listed(
    p: ProfileView,
    rows: Seq<CompiledTraceShapeProfileRow>,
    item: (CompiledShape, u64),
)
    requires
        listing::lists_compiled_shapes(p, rows),
        p.compiled_shapes.contains_key(item.0),
        item.1 == p.compiled_shapes[item.0],
    ensures
        compiled_items(rows).contains(item),
{
    let j = choose|j: int|
        0 <= j < rows.len() && listing::listed_compiled(#[trigger] rows[j]) == item.0;
    assert(compiled_items(rows)[j] == item);
}

/// A profile has only one listing of its compiled paths: two listings agree on
/// the path and the count at every place.
pub proof fn law_compiled_shapes_determined(
    p: ProfileView,
    a: Seq<CompiledTraceShapeProfileRow>,
    b: Seq<CompiledTraceShapeProfileRow>,
)
    requires
        listing::lists_compiled_shapes(p, a),
        listing::lists_compiled_shapes(p, b),
    ensures
        a.len() == b.len(),
        forall|i: int|
            0 <= i < a.len() ==> {
                &&& (#[trigger] a[i]).start_pc == b[i].start_pc
                &&& a[i].cpu_type == b[i].cpu_type
                &&& a[i].ops@ == b[i].ops@
                &&& a[i].recordings == b[i].recordings
            },
{
    let before = |x: (CompiledShape, u64), y: (CompiledShape, u64)|
        keys::compiled_before(x.0, y.0);
    let x = compiled_items(a);
    let y = compiled_items(b);
    assert(strict(before)) by {
        assert forall|u: (CompiledShape, u64), v: (CompiledShape, u64)| #[trigger]
            before(u, v) implies !before(v, u) by {
            <crate::keys::CompiledShapeKey as OrderedKey>::before_asymmetric(u.0, v.0);
        }
    }
    assert forall|item: (CompiledShape, u64)| #[trigger] x.contains(item) implies y.contains(
        item,
    ) by {
        let i = choose|i: int| 0 <= i < x.len() && x[i] == item;
        assert(p.compiled_shapes.contains_key(listing::listed_compiled(a[i])));
        lemma_compiled_item_listed(p, b, item);
    }
    assert forall|item: (CompiledShape, u64)| #[trigger] y.contains(item) implies x.contains(
        item,
    ) by {
        let i = choose|i: int| 0 <= i < y.len() && y[i] == item;
        assert(p.compiled_shapes.contains_key(listing::listed_compiled(b[i])));
        lemma_compiled_item_listed(p, a, item);
    }
    lemma_sorted_unique(x, y, before);
    assert forall|i: int| 0 <= i < a.len() implies {
        &&& (#[trigger] a[i]).start_pc == b[i].start_pc
        &&& a[i].cpu_type == b[i].cpu_type
        &&& a[i].ops@ == b[i].ops@
        &&& a[i].recordings == b[i].recordings
    } by {
        assert(x[i] == y[i]);
        crate::cpu_type::law_cpu_repr_injective(a[i].cpu_type, b[i].cpu_type);
    }
}

/// Whether no site is listed twice.
pub open spec fn distinct_sites(rows: Seq<DecodedMemSiteProfileRow>) -> bool {
    forall|i: int, j: int|
        0 <= i < j < rows.len() ==> listing::listed_site(#[trigger] rows[i])
            != listing::listed_site(#[trigger] rows[j])
}

/// The sites in ranked order.
spec fn ranked_sites(rows: Seq<DecodedMemSiteProfileRow>) -> Seq<DecodedMemSiteProfileRow> {
    ranking::ranking(report::mem_site_keys(rows)).map_values(|i: usize| rows[i as int])
}

/// Whether a site ranks ahead of another one.
spec fn site_ahead(x: DecodedMemSiteProfileRow, y: DecodedMemSiteProfileRow) -> bool {
    let a = report::mem_site_key(x);
    let b = report::mem_site_key(y);
    a.first > b.first || a.first == b.first && a.third < b.third
}

/// Ranked sites are the same sites, strictly in order.
proof fn lemma_ranked_sites(rows: Seq<DecodedMemSiteProfileRow>)
    requires
        rows.len() <= usize::MAX,
        distinct_sites(rows),
    ensures
        ranked_sites(rows).len() == rows.len(),
        sorted(
            ranked_sites(rows),
            |x: DecodedMemSiteProfileRow, y: DecodedMemSiteProfileRow| site_ahead(x, y),
        ),
        forall|x: DecodedMemSiteProfileRow| #[trigger]
            ranked_sites(rows).contains(x) <==> rows.contains(x),
{
    let keys = report::mem_site_keys(rows);
    let order = ranking::ranking(keys);
    let ranked = ranked_sites(rows);
    ranking::lemma_ranking_exists(keys);
    assert forall|i: int, j: int| 0 <= i < j < ranked.len() implies site_ahead(
        #[trigger] ranked[i],
        #[trigger] ranked[j],
    ) by {
        assert(ranking::ranks_before(keys, order[i] as int, order[j] as int));
        let x = rows[order[i] as int];
        let y = rows[order[j] as int];
        assert(order[i] != order[j]);
        if order[i] < order[j] {
            assert(listing::listed_site(x) != listing::listed_site(y));
        } else {
            assert(listing::listed_site(y) != listing::listed_site(x));
        }
    }
    assert forall|x: DecodedMemSiteProfileRow| #[trigger] ranked.contains(x) implies rows.contains(
        x,
    ) by {
        let i = choose|i: int| 0 <= i < ranked.len() && ranked[i] == x;
        assert(order[i] < keys.len());
        assert(rows[order[i] as int] == x);
    }
    assert forall|x: DecodedMemSiteProfileRow| #[trigger] rows.contains(x) implies ranked.contains(
        x,
    ) by {
        let i = choose|i: int| 0 <= i < rows.len() && rows[i] == x;
        ranking::lemma_ranking_lists_every_row(keys, order, i);
        let a = choose|a: int| 0 <= a < order.len() && #[trigger] order[a] == i;
        assert(ranked[a] == x);
    }
}

/// The table of sites does not depend on the order in which the snapshot lists
/// them.
pub proof fn law_site_order_immaterial(
    a: Seq<DecodedMemSiteProfileRow>,
    b: Seq<DecodedMemSiteProfileRow>,
)
    requires
        a.len() <= usize::MAX,
        b.len() <= usize::MAX,
        distinct_sites(a),
        distinct_sites(b),
        forall|x: DecodedMemSiteProfileRow| #[trigger] a.contains(x) <==> b.contains(x),
    ensures
        report::mem_site_table(a) == report::mem_site_table(b),
{
    let ahead = |x: DecodedMemSiteProfileRow, y: DecodedMemSiteProfileRow| site_ahead(x, y);
    lemma_ranked_sites(a);
    lemma_ranked_sites(b);
    assert forall|x: DecodedMemSiteProfileRow| #[trigger]
        ranked_sites(a).contains(x) <==> ranked_sites(b).contains(x) by {
        assert(a.contains(x) <==> b.contains(x));
    }
    lemma_sorted_unique(ranked_sites(a), ranked_sites(b), ahead);
    let first = ranking::ranking(report::mem_site_keys(a));
    let second = ranking::ranking(report::mem_site_keys(b));
    let f = |k: int| report::mem_site_line((k + 1) as nat, a[first[k] as int]);
    let g = |k: int| report::mem_site_line((k + 1) as nat, b[second[k] as int]);
    let n = report::shown(a.len(), report::SITE_ROWS);
    assert forall|k: int| 0 <= k < n implies #[trigger] f(k) == g(k) by {
        assert(ranked_sites(a)[k] == a[first[k] as int]);
        assert(ranked_sites(b)[k] == b[second[k] as int]);
    }
    lemma_lines_agree(n, f, g);
}

/// A row with a site of the profile and its count is listed.
proof fn lemma_site_row_listed(
    p: ProfileView,
    rows: Seq<DecodedMemSiteProfileRow>,
    row: DecodedMemSiteProfileRow,
)
    requires
        listing::lists_decoded_mem_sites(p, rows),
        p.decoded_mem_sites.contains_key(listing::listed_site(row)),
        row.executions == p.decoded_mem_sites[listing::listed_site(row)],
    ensures
        rows.contains(row),
{
    let site = listing::listed_site(row);
    let j = choose|j: int| 0 <= j < rows.len() && listing::listed_site(#[trigger] rows[j]) == site;
    assert(rows[j] == row);
}

/// The table of compiled paths depends on the listed paths alone.
proof fn lemma_compiled_table_agrees(
    a: Seq<CompiledTraceShapeProfileRow>,
    b: Seq<CompiledTraceShapeProfileRow>,
)
    requires
        a.len() == b.len(),
        a.len() <= usize::MAX,
        forall|i: int|
            0 <= i < a.len() ==> {
                &&& (#[trigger] a[i]).start_pc == b[i].start_pc
                &&& a[i].ops@ == b[i].ops@
                &&& a[i].recordings == b[i].recordings
            },
    ensures
        report::compiled_table(a) == report::compiled_table(b),
{
    let keys = report::compiled_keys(a);
    assert(keys =~= report::compiled_keys(b)) by {
        assert forall|i: int| 0 <= i < a.len() implies #[trigger] keys[i] == report::compiled_keys(
            b,
        )[i] by {
            assert(a[i].ops@.len() == b[i].ops@.len());
        }
    }
    ranking::lemma_ranking_exists(keys);
    let order = ranking::ranking(keys);
    let f = |k: int| report::compiled_lines((k + 1) as nat, a[order[k] as int]);
    let g = |k: int| report::compiled_lines((k + 1) as nat, b[order[k] as int]);
    let n = report::shown(a.len(), report::TABLE_ROWS);
    assert forall|k: int| 0 <= k < n implies #[trigger] f(k) == g(k) by {
        assert(order[k] < keys.len());
        let i = order[k] as int;
        assert(a[i].start_pc == b[i].start_pc);
    }
    lemma_lines_agree(n, f, g);
}

/// The report of a profile is determined by the profile: two snapshots of it
/// are reported alike, in whatever order they list the sites.
pub proof fn law_report_determined(
    p: ProfileView,
    s: TraceProfileSnapshot,
    t: TraceProfileSnapshot,
)
    requires
        listing::lists_profile(p, s),
        listing::lists_profile(p, t),
    ensures
        report::report_text(s) == report::report_text(t),
{
    law_rows_determined(p, s.rows@, t.rows@);
    law_failed_shapes_determined(p, s.failed_shapes@, t.failed_shapes@);
    law_compiled_shapes_determined(p, s.compiled_shapes@, t.compiled_shapes@);
    law_decoded_mem_ops_determined(p, s.decoded_mem_ops@, t.decoded_mem_ops@);
    assert(s.compiled_shapes.len() <= usize::MAX);
    lemma_compiled_table_agrees(s.compiled_shapes@, t.compiled_shapes@);
    let a = s.decoded_mem_sites@;
    let b = t.decoded_mem_sites@;
    assert(s.decoded_mem_sites.len() <= usize::MAX);
    assert(t.decoded_mem_sites.len() <= usize::MAX);
    assert forall|x: DecodedMemSiteProfileRow| #[trigger] a.contains(x) <==> b.contains(x) by {
        if a.contains(x) {
            let i = choose|i: int| 0 <= i < a.len() && a[i] == x;
            assert(p.decoded_mem_sites.contains_key(listing::listed_site(a[i])));
            lemma_site_row_listed(p, b, x);
        }
        if b.contains(x) {
            let i = choose|i: int| 0 <= i < b.len() && b[i] == x;
            assert(p.decoded_mem_sites.contains_key(listing::listed_site(b[i])));
            lemma_site_row_listed(p, a, x);
        }
    }
    law_site_order_immaterial(a, b);
}

/// A snapshot of a fresh or reset profiler lists nothing.
pub proof fn law_empty_profile_lists_nothing(s: TraceProfileSnapshot)
    requires
        listing::lists_profile(ProfileView::empty(), s),
    ensures
        s.rows@.len() == 0,
        s.failed_shapes@.len() == 0,
        s.compiled_shapes@.len() == 0,
        s.decoded_mem_ops@.len() == 0,
        s.decoded_mem_sites@.len() == 0,
        listing::listed_totals(s) == (model::Totals {
            backward_hits: 0,
            rejected_hits: 0,
            native_calls: 0,
            jit_retired: 0,
        }),
{
    let p = ProfileView::empty();
    model::lemma_empty_coherent();
    if s.rows@.len() > 0 {
        assert(p.rows.contains_key(listing::listed_head(s.rows@[0])));
    }
    if s.failed_shapes@.len() > 0 {
        assert(p.failed_shapes.contains_key(listing::listed_failed(s.failed_shapes@[0])));
    }
    if s.compiled_shapes@.len() > 0 {
        assert(p.compiled_shapes.contains_key(listing::listed_compiled(s.compiled_shapes@[0])));
    }
    if s.decoded_mem_ops@.len() > 0 {
        let row = s.decoded_mem_ops@[0];
        assert(row.executions == p.decoded_mem_counts[row.opcode as int]);
    }
    if s.decoded_mem_sites@.len() > 0 {
        assert(p.decoded_mem_sites.contains_key(listing::listed_site(s.decoded_mem_sites@[0])));
    }
}

/// No trace head is rejected more often than it is branched to, and neither
/// are all of them together.
pub proof fn law_rejected_within_backward(p: ProfileView, s: TraceProfileSnapshot)
    requires
        p.coherent(),
        listing::lists_profile(p, s),
    ensures
        forall|i: int|
            0 <= i < s.rows@.len() ==> (#[trigger] s.rows@[i]).rejected_hits
                <= s.rows@[i].backward_hits,
        s.rejected_hits <= s.backward_hits,
{
    assert forall|i: int| 0 <= i < s.rows@.len() implies (#[trigger] s.rows@[i]).rejected_hits
        <= s.rows@[i].backward_hits by {
        assert(p.rows.contains_key(listing::listed_head(s.rows@[i])));
    }
    sums::lemma_list_sum_at_most(
        s.rows@,
        |row: TraceProfileRow| row.rejected_hits as nat,
        |row: TraceProfileRow| row.backward_hits as nat,
    );
}

/// Whether a failed path belongs to the trace head of a row.
pub open spec fn same_head(row: TraceProfileRow, failed: FailedTraceShapeProfileRow) -> bool {
    row.start_pc == failed.start_pc && row.cpu_type == failed.cpu_type
}

/// Whether the blocker columns of a row are those of a failed path.
pub open spec fn blocked_by(row: TraceProfileRow, failed: FailedTraceShapeProfileRow) -> bool {
    &&& same_head(row, failed)
    &&& row.prefix_ops == failed.prefix_ops
    &&& row.blocker_pc == Some(failed.blocker_pc)
    &&& row.blocker_opcode == Some(failed.executed_opcode)
}

/// The blocker columns of a row are those of a longest failed path of its trace
/// head; while it has none they are empty.
pub proof fn law_blocker_is_longest_failed_path(p: ProfileView, s: TraceProfileSnapshot, i: int)
    requires
        p.coherent(),
        listing::lists_profile(p, s),
        0 <= i < s.rows@.len(),
    ensures
        ({
            let row = s.rows@[i];
            let failed = s.failed_shapes@;
            &&& row.blocker_pc is Some <==> exists|j: int|
                0 <= j < failed.len() && same_head(row, #[trigger] failed[j])
            &&& row.blocker_pc is Some <==> row.blocker_opcode is Some
            &&& row.blocker_pc is Some ==> exists|j: int|
                0 <= j < failed.len() && blocked_by(row, #[trigger] failed[j])
            &&& row.blocker_pc is None ==> row.prefix_ops == 0
            &&& forall|j: int|
                0 <= j < failed.len() && same_head(row, #[trigger] failed[j])
                    ==> failed[j].prefix_ops <= row.prefix_ops
        }),
{
    let row = s.rows@[i];
    let failed = s.failed_shapes@;
    let h = listing::listed_head(row);
    assert(p.rows.contains_key(h));
    assert(p.blocker_explained(h));
    if row.blocker_pc is Some {
        let f = choose|f: FailedShapeKey| #[trigger]
            p.failed_shapes.contains_key(f) && model::describes_blocker(f, h, p.rows[h]);
        let j = choose|j: int|
            0 <= j < failed.len() && listing::listed_failed(#[trigger] failed[j]) == f;
        crate::cpu_type::law_cpu_repr_injective(row.cpu_type, failed[j].cpu_type);
        assert(blocked_by(row, failed[j]));
        assert(same_head(row, failed[j]));
    }
    assert forall|j: int| 0 <= j < failed.len() && same_head(row, #[trigger] failed[j]) implies {
        &&& failed[j].prefix_ops <= row.prefix_ops
        &&& row.blocker_pc is Some
    } by {
        let f = listing::listed_failed(failed[j]);
        assert(p.failed_shapes.contains_key(f));
        assert(model::head_of_failed(f) == h);
    }
}

/// Every failed path is classified by its own opcodes: memory was not readable,
/// held another opcode than the executed one, or held that one.
pub proof fn law_failed_paths_classified(p: ProfileView, s: TraceProfileSnapshot, i: int)
    requires
        p.coherent(),
        listing::lists_profile(p, s),
        0 <= i < s.failed_shapes@.len(),
    ensures
        s.failed_shapes@[i].reason == model::failure_reason(
            s.failed_shapes@[i].executed_opcode,
            s.failed_shapes@[i].memory_opcode,
        ),
        ({
            let row = s.failed_shapes@[i];
            &&& row.reason is OpcodeReadFailed <==> row.memory_opcode is None
            &&& row.reason is OpcodeChanged <==> (row.memory_opcode is Some && row.memory_opcode
                != Some(row.executed_opcode))
            &&& row.reason is UnsupportedFormOrOperandRead <==> row.memory_opcode == Some(
                row.executed_opcode,
            )
        }),
        s.failed_shapes@[i].recordings >= 1,
{
    assert(p.failed_shapes.contains_key(listing::listed_failed(s.failed_shapes@[i])));
}

/// Executions of an opcode over listed sites.
pub open spec fn listed_site_total(rows: Seq<DecodedMemSiteProfileRow>, opcode: u16) -> nat {
    sums::list_sum(
        rows,
        |row: DecodedMemSiteProfileRow|
            if row.opcode == opcode {
                row.executions as nat
            } else {
                0
            },
    )
}

/// The listed count of an opcode is the sum over its listed sites, capped at
/// the largest count.
pub proof fn law_opcode_count_is_site_sum(p: ProfileView, s: TraceProfileSnapshot, i: int)
    requires
        p.coherent(),
        listing::lists_profile(p, s),
        0 <= i < s.decoded_mem_ops@.len(),
    ensures
        s.decoded_mem_ops@[i].executions == model::capped(
            listed_site_total(s.decoded_mem_sites@, s.decoded_mem_ops@[i].opcode),
        ),
{
    let row = s.decoded_mem_ops@[i];
    let opcode = row.opcode;
    assert(row.executions == p.decoded_mem_counts[opcode as int]);
    sums::lemma_table_sum_listed(
        p.decoded_mem_sites,
        model::opcode_weight(opcode),
        s.decoded_mem_sites@,
        |row: DecodedMemSiteProfileRow| listing::listed_site(row),
        |row: DecodedMemSiteProfileRow|
            if row.opcode == opcode {
                row.executions as nat
            } else {
                0
            },
    );
}

/// A noted blocker keeps the longest prefix of its trace head, and replaces the
/// blocker columns only when its prefix is at least as long.
pub proof fn law_longest_prefix_kept(
    p: ProfileView,
    start_pc: u32,
    cpu_type: CpuType,
    prefix_ops: nat,
    blocker: TraceBlocker,
)
    ensures
        ({
            let h = model::head(start_pc, cpu_type);
            let old_row = p.row(h);
            let row = p.after_blocker(start_pc, cpu_type, prefix_ops, blocker).row(h);
            let prefix = prefix_ops % 0x1_0000_0000;
            &&& row.prefix_ops == if prefix > old_row.prefix_ops {
                prefix
            } else {
                old_row.prefix_ops as nat
            }
            &&& prefix >= old_row.prefix_ops ==> row.blocker_pc == Some(blocker.pc)
                && row.blocker_opcode == Some(blocker.executed_opcode)
            &&& prefix < old_row.prefix_ops ==> row == old_row
        }),
{
}

/// A path compiled for a head gives the head its length, whatever it had
/// before; only what does not fit in 32 bits is lost.
pub proof fn law_compiled_length_kept(
    p: ProfileView,
    pc: u32,
    cpu_type: CpuType,
    ops: Seq<TraceShapeOp>,
)
    ensures
        ({
            let row = p.after_compiled(pc, cpu_type, ops).row(model::head(pc, cpu_type));
            &&& ops.len() <= u32::MAX ==> row.compiled_ops == ops.len()
            &&& (ops.len() - row.compiled_ops) % 0x1_0000_0000 == 0
        }),
{
}

/// Failed and compiled paths are kept apart: a blocker changes no compiled
/// path and no compiled length, and a compiled path changes no failed path and
/// no blocker column.
pub proof fn law_failed_and_compiled_kept_apart(
    p: ProfileView,
    pc: u32,
    cpu_type: CpuType,
    prefix_ops: nat,
    blocker: TraceBlocker,
    ops: Seq<TraceShapeOp>,
    h: HeadKey,
)
    ensures
        ({
            let q = p.after_blocker(pc, cpu_type, prefix_ops, blocker);
            &&& q.compiled_shapes == p.compiled_shapes
            &&& q.row(h).compiled_ops == p.row(h).compiled_ops
        }),
        ({
            let q = p.after_compiled(pc, cpu_type, ops);
            &&& q.failed_shapes == p.failed_shapes
            &&& q.row(h).prefix_ops == p.row(h).prefix_ops
            &&& q.row(h).blocker_pc == p.row(h).blocker_pc
            &&& q.row(h).blocker_opcode == p.row(h).blocker_opcode
        }),
{
}

/// The table of trace heads lists those with more stranded dispatches first,
/// whatever their raw hits; equals by backward branches, then by address.
pub proof fn law_heads_ranked_by_stranded_dispatches(
    rows: Seq<TraceProfileRow>,
    a: int,
    b: int,
)
    requires
        rows.len() <= usize::MAX,
        0 <= a < b < rows.len(),
    ensures
        ({
            let order = ranking::ranking(report::head_keys(rows));
            let x = rows[order[a] as int];
            let y = rows[order[b] as int];
            let more = rows::stranded_dispatches(x.rejected_hits, x.prefix_ops);
            let less = rows::stranded_dispatches(y.rejected_hits, y.prefix_ops);
            &&& order[a] < rows.len() && order[b] < rows.len() && order[a] != order[b]
            &&& more >= less
            &&& more == less ==> x.backward_hits >= y.backward_hits
            &&& more == less && x.backward_hits == y.backward_hits ==> x.start_pc <= y.start_pc
        }),
{
    let keys = report::head_keys(rows);
    ranking::lemma_ranking_exists(keys);
    let order = ranking::ranking(keys);
    assert(ranking::ranks_before(keys, order[a] as int, order[b] as int));
}

/// The table of opcodes lists the more executed ones first; equals by opcode.
pub proof fn law_opcodes_ranked_by_executions(rows: Seq<DecodedMemProfileRow>, a: int, b: int)
    requires
        rows.len() <= usize::MAX,
        0 <= a < b < rows.len(),
    ensures
        ({
            let order = ranking::ranking(report::mem_op_keys(rows));
            let x = rows[order[a] as int];
            let y = rows[order[b] as int];
            &&& order[a] < rows.len() && order[b] < rows.len() && order[a] != order[b]
            &&& x.executions >= y.executions
            &&& x.executions == y.executions ==> x.opcode <= y.opcode
        }),
{
    let keys = report::mem_op_keys(rows);
    ranking::lemma_ranking_exists(keys);
    let order = ranking::ranking(keys);
    assert(ranking::ranks_before(keys, order[a] as int, order[b] as int));
}

/// The table of executed traces lists those with more retired instructions
/// first; equals by calls, then by address.
pub proof fn law_called_ranked_by_retired(
    rows: Seq<TraceProfileRow>,
    a: int,
    b: int,
)
    requires
        rows.len() <= usize::MAX,
        0 <= a < b < rows.len(),
    ensures
        ({
            let order = ranking::ranking(report::called_keys(rows));
            let x = rows[order[a] as int];
            let y = rows[order[b] as int];
            &&& order[a] < rows.len() && order[b] < rows.len() && order[a] != order[b]
            &&& x.jit_retired >= y.jit_retired
            &&& x.jit_retired == y.jit_retired ==> x.native_calls >= y.native_calls
            &&& x.jit_retired == y.jit_retired && x.native_calls == y.native_calls ==> x.start_pc
                <= y.start_pc
        }),
{
    let keys = report::called_keys(rows);
    ranking::lemma_ranking_exists(keys);
    let order = ranking::ranking(keys);
    assert(ranking::ranks_before(keys, order[a] as int, order[b] as int));
}

/// The table of failed paths lists the more recorded ones first; equals by
/// prefix length, then by address.
pub proof fn law_failed_ranked_by_recordings(
    rows: Seq<FailedTraceShapeProfileRow>,
    a: int,
    b: int,
)
    requires
        rows.len() <= usize::MAX,
        0 <= a < b < rows.len(),
    ensures
        ({
            let order = ranking::ranking(report::failed_keys(rows));
            let x = rows[order[a] as int];
            let y = rows[order[b] as int];
            &&& order[a] < rows.len() && order[b] < rows.len() && order[a] != order[b]
            &&& x.recordings >= y.recordings
            &&& x.recordings == y.recordings ==> x.prefix_ops >= y.prefix_ops
            &&& x.recordings == y.recordings && x.prefix_ops == y.prefix_ops ==> x.start_pc
                <= y.start_pc
        }),
{
    let keys = report::failed_keys(rows);
    ranking::lemma_ranking_exists(keys);
    let order = ranking::ranking(keys);
    assert(ranking::ranks_before(keys, order[a] as int, order[b] as int));
}

/// The table of compiled paths lists the more recorded ones first; equals by
/// length, then by address.
pub proof fn law_compiled_ranked_by_recordings(
    rows: Seq<CompiledTraceShapeProfileRow>,
    a: int,
    b: int,
)
    requires
        rows.len() <= usize::MAX,
        0 <= a < b < rows.len(),
    ensures
        ({
            let order = ranking::ranking(report::compiled_keys(rows));
            let x = rows[order[a] as int];
            let y = rows[order[b] as int];
            &&& order[a] < rows.len() && order[b] < rows.len() && order[a] != order[b]
            &&& x.recordings >= y.recordings
            &&& x.recordings == y.recordings ==> x.ops@.len() >= y.ops@.len()
            &&& x.recordings == y.recordings && x.ops@.len() == y.ops@.len() ==> x.start_pc
                <= y.start_pc
        }),
{
    let keys = report::compiled_keys(rows);
    ranking::lemma_ranking_exists(keys);
    let order = ranking::ranking(keys);
    assert(ranking::ranks_before(keys, order[a] as int, order[b] as int));
}

/// The table of sites lists the more executed ones first; equals by address,
/// then by opcode.
pub proof fn law_sites_ranked_by_executions(
    rows: Seq<DecodedMemSiteProfileRow>,
    a: int,
    b: int,
)
    requires
        rows.len() <= usize::MAX,
        0 <= a < b < rows.len(),
    ensures
        ({
            let order = ranking::ranking(report::mem_site_keys(rows));
            let x = rows[order[a] as int];
            let y = rows[order[b] as int];
            &&& order[a] < rows.len() && order[b] < rows.len() && order[a] != order[b]
            &&& x.executions >= y.executions
            &&& x.executions == y.executions ==> x.pc <= y.pc
            &&& x.executions == y.executions && x.pc == y.pc ==> x.opcode <= y.opcode
        }),
{
    let keys = report::mem_site_keys(rows);
    ranking::lemma_ranking_exists(keys);
    let order = ranking::ranking(keys);
    assert(ranking::ranks_before(keys, order[a] as int, order[b] as int));
}

/// A table's text is its lines in order: up to any line it begins with the lines
/// ahead, followed by that line.
pub proof fn law_lines_in_order(n: nat, line: spec_fn(int) -> Seq<char>, k: int)
    requires
        0 <= k < n,
    ensures
        (report::lines(k as nat, line) + line(k)).is_prefix_of(report::lines(n, line)),
    decreases n,
{
    if k == n - 1 {
        assert((report::lines(k as nat, line) + line(k)) == report::lines(n, line));
    } else {
        law_lines_in_order((n - 1) as nat, line, k);
        let front = report::lines(k as nat, line) + line(k);
        let inner = report::lines((n - 1) as nat, line);
        assert(report::lines(n, line) == inner + line(n - 1));
        assert(front.len() <= inner.len());
        assert(front =~= report::lines(n, line).subrange(0, front.len() as int));
    }
}

} // verus!
