//! Ranked order of table rows.

use vstd::prelude::*;

verus! {

/// What a row is ranked by: the larger `first` leads, then the larger
/// `second`, then the smaller `third`.
#[derive(Debug, Clone, Copy)]
pub struct RankKey {
    /// Leading measure, larger first.
    pub first: u64,
    /// Measure among equals, larger first.
    pub second: u64,
    /// Address-like tie break, smaller first.
    pub third: u64,
}

/// Whether row `i` is listed ahead of row `j`; rows with equal keys keep their
/// order.
pub open spec fn ranks_before(keys: Seq<RankKey>, i: int, j: int) -> bool {
    let a = keys[i];
    let b = keys[j];
    ||| a.first > b.first
    ||| a.first == b.first && a.second > b.second
    ||| a.first == b.first && a.second == b.second && a.third < b.third
    ||| a.first == b.first && a.second == b.second && a.third == b.third && i < j
}

/// Whether a list of row numbers is in ranked order, each row listed once.
pub open spec fn in_ranked_order(keys: Seq<RankKey>, order: Seq<usize>) -> bool {
    forall|a: int, b: int|
        0 <= a < b < order.len() ==> ranks_before(
            keys,
            #[trigger] order[a] as int,
            #[trigger] order[b] as int,
        )
}

/// Whether `order` lists every row of `keys` in ranked order.
pub open spec fn is_ranking(keys: Seq<RankKey>, order: Seq<usize>) -> bool {
    &&& order.len() == keys.len()
    &&& forall|a: int| 0 <= a < order.len() ==> #[trigger] order[a] < keys.len()
    &&& in_ranked_order(keys, order)
}

/// The rows in ranked order.
pub open spec fn ranking(keys: Seq<RankKey>) -> Seq<usize> {
    choose|order: Seq<usize>| is_ranking(keys, order)
}

/// A ranking lists every row.
pub proof fn lemma_ranking_lists_every_row(keys: Seq<RankKey>, order: Seq<usize>, row: int)
    requires
        is_ranking(keys, order),
        0 <= row < keys.len(),
    ensures
        exists|a: int| 0 <= a < order.len() && #[trigger] order[a] == row,
{
    let rows = order.map_values(|i: usize| i as int);
    assert(rows.no_duplicates()) by {
        assert forall|a: int, b: int| 0 <= a < b < rows.len() implies rows[a] != rows[b] by {
            assert(ranks_before(keys, order[a] as int, order[b] as int));
        }
    }
    rows.unique_seq_to_set();
    let all = vstd::set_lib::set_int_range(0, keys.len() as int);
    vstd::set_lib::lemma_int_range(0, keys.len() as int);
    assert(rows.to_set().subset_of(all)) by {
        assert forall|i: int| rows.to_set().contains(i) implies all.contains(i) by {
            let a = choose|a: int| 0 <= a < rows.len() && rows[a] == i;
            assert(order[a] < keys.len());
        }
    }
    vstd::set_lib::lemma_subset_equality(rows.to_set(), all);
    assert(rows.to_set().contains(row));
    let a = choose|a: int| 0 <= a < rows.len() && rows[a] == row;
    assert(order[a] == row);
}

/// Rows have only one ranked order.
pub proof fn lemma_ranking_unique(keys: Seq<RankKey>, x: Seq<usize>, y: Seq<usize>)
    requires
        is_ranking(keys, x),
        is_ranking(keys, y),
    ensures
        x == y,
{
    assert forall|k: int| 0 <= k < x.len() implies x[k] == y[k] by {
        lemma_ranking_agrees(keys, x, y, k);
    }
    assert(x =~= y);
}

/// Two rankings of the same rows agree at every place.
proof fn lemma_ranking_agrees(keys: Seq<RankKey>, x: Seq<usize>, y: Seq<usize>, k: int)
    requires
        is_ranking(keys, x),
        is_ranking(keys, y),
        0 <= k < x.len(),
    ensures
        x[k] == y[k],
    decreases k,
{
    assert forall|i: int| 0 <= i < k implies x[i] == y[i] by {
        lemma_ranking_agrees(keys, x, y, i);
    }
    if x[k] != y[k] {
        lemma_ranking_lists_every_row(keys, y, x[k] as int);
        lemma_ranking_lists_every_row(keys, x, y[k] as int);
        let j = choose|j: int| 0 <= j < y.len() && #[trigger] y[j] == x[k] as int;
        let i = choose|i: int| 0 <= i < x.len() && #[trigger] x[i] == y[k] as int;
        if j < k {
            assert(ranks_before(keys, x[j] as int, x[k] as int));
        }
        if i < k {
            assert(ranks_before(keys, y[i] as int, y[k] as int));
        }
        assert(ranks_before(keys, y[k] as int, y[j] as int));
        assert(ranks_before(keys, x[k] as int, x[i] as int));
        assert(false);
    }
}

/// `row` put at its place among ranked rows.
spec fn placed(keys: Seq<RankKey>, order: Seq<usize>, row: usize) -> Seq<usize>
    decreases order.len(),
{
    if order.len() == 0 || ranks_before(keys, order.last() as int, row as int) {
        order.push(row)
    } else {
        placed(keys, order.drop_last(), row).push(order.last())
    }
}

/// A row put at its place leaves the list in ranked order.
proof fn lemma_placed(keys: Seq<RankKey>, order: Seq<usize>, row: usize)
    requires
        in_ranked_order(keys, order),
        forall|a: int| 0 <= a < order.len() ==> #[trigger] order[a] < row,
    ensures
        placed(keys, order, row).len() == order.len() + 1,
        in_ranked_order(keys, placed(keys, order, row)),
        forall|a: int|
            0 <= a < placed(keys, order, row).len() ==> {
                ||| #[trigger] placed(keys, order, row)[a] == row
                ||| order.contains(placed(keys, order, row)[a])
            },
    decreases order.len(),
{
    let result = placed(keys, order, row);
    if order.len() == 0 || ranks_before(keys, order.last() as int, row as int) {
        assert forall|a: int, b: int| 0 <= a < b < result.len() implies ranks_before(
            keys,
            #[trigger] result[a] as int,
            #[trigger] result[b] as int,
        ) by {
            if b == order.len() && a < order.len() - 1 {
                assert(ranks_before(keys, order[a] as int, order.last() as int));
            }
        }
        assert forall|a: int| 0 <= a < result.len() implies #[trigger] result[a] == row
            || order.contains(result[a]) by {
            if a < order.len() {
                assert(order[a] == result[a]);
            }
        }
    } else {
        let rest = order.drop_last();
        lemma_placed(keys, rest, row);
        let inner = placed(keys, rest, row);
        let last = order.last();
        assert(last < row);
        assert(ranks_before(keys, row as int, last as int));
        assert forall|a: int| 0 <= a < inner.len() implies ranks_before(
            keys,
            #[trigger] inner[a] as int,
            last as int,
        ) by {
            if inner[a] != row {
                let i = choose|i: int| 0 <= i < rest.len() && rest[i] == inner[a];
                assert(order[i] == inner[a]);
                assert(ranks_before(keys, order[i] as int, order[order.len() - 1] as int));
            }
        }
        assert forall|a: int| 0 <= a < result.len() implies #[trigger] result[a] == row
            || order.contains(result[a]) by {
            if a < inner.len() {
                assert(result[a] == inner[a]);
                if inner[a] != row {
                    let i = choose|i: int| 0 <= i < rest.len() && rest[i] == inner[a];
                    assert(order[i] == result[a]);
                }
            } else {
                assert(order[order.len() - 1] == result[a]);
            }
        }
    }
}

/// Rows that can be numbered have a ranked order.
pub proof fn lemma_ranking_exists(keys: Seq<RankKey>)
    requires
        keys.len() <= usize::MAX,
    ensures
        is_ranking(keys, ranking(keys)),
    decreases keys.len(),
{
    if keys.len() == 0 {
        assert(is_ranking(keys, Seq::<usize>::empty()));
    } else {
        let rest = keys.drop_last();
        let row = (keys.len() - 1) as usize;
        lemma_ranking_exists(rest);
        let order = ranking(rest);
        assert(in_ranked_order(keys, order)) by {
            assert forall|a: int, b: int| 0 <= a < b < order.len() implies ranks_before(
                keys,
                #[trigger] order[a] as int,
                #[trigger] order[b] as int,
            ) by {
                assert(ranks_before(rest, order[a] as int, order[b] as int));
            }
        }
        lemma_placed(keys, order, row);
        assert(is_ranking(keys, placed(keys, order, row)));
    }
}

/// Whether row `i` is listed ahead of row `j`.
fn before(keys: &Vec<RankKey>, i: usize, j: usize) -> (r: bool)
    requires
        i < keys.len(),
        j < keys.len(),
    ensures
        r == ranks_before(keys@, i as int, j as int),
{
    let a = keys[i];
    let b = keys[j];
    if a.first != b.first {
        a.first > b.first
    } else if a.second != b.second {
        a.second > b.second
    } else if a.third != b.third {
        a.third < b.third
    } else {
        i < j
    }
}

/// The rows from `lo` to `hi` in ranked order.
fn rank_range(keys: &Vec<RankKey>, lo: usize, hi: usize) -> (order: Vec<usize>)
    requires
        lo <= hi <= keys.len(),
    ensures
        order.len() == hi - lo,
        forall|a: int| 0 <= a < order.len() ==> lo <= #[trigger] order@[a] < hi,
        in_ranked_order(keys@, order@),
    decreases hi - lo,
{
    let mut order: Vec<usize> = Vec::new();
    if hi - lo == 0 {
        return order;
    }
    if hi - lo == 1 {
        order.push(lo);
        return order;
    }
    let mid: usize = lo + (hi - lo) / 2;
    let left = rank_range(keys, lo, mid);
    let right = rank_range(keys, mid, hi);
    let mut i: usize = 0;
    let mut j: usize = 0;
    while i < left.len() || j < right.len()
        invariant
            lo <= mid <= hi <= keys.len(),
            left.len() == mid - lo,
            right.len() == hi - mid,
            forall|a: int| 0 <= a < left.len() ==> lo <= #[trigger] left@[a] < mid,
            forall|a: int| 0 <= a < right.len() ==> mid <= #[trigger] right@[a] < hi,
            in_ranked_order(keys@, left@),
            in_ranked_order(keys@, right@),
            i <= left.len(),
            j <= right.len(),
            order.len() == i + j,
            forall|a: int| 0 <= a < order.len() ==> lo <= #[trigger] order@[a] < hi,
            in_ranked_order(keys@, order@),
            forall|a: int, b: int|
                0 <= a < order.len() && i <= b < left.len() ==> ranks_before(
                    keys@,
                    #[trigger] order@[a] as int,
                    #[trigger] left@[b] as int,
                ),
            forall|a: int, b: int|
                0 <= a < order.len() && j <= b < right.len() ==> ranks_before(
                    keys@,
                    #[trigger] order@[a] as int,
                    #[trigger] right@[b] as int,
                ),
        decreases left.len() - i + right.len() - j,
    {
        let take_left: bool = if i >= left.len() {
            false
        } else if j >= right.len() {
            true
        } else {
            before(keys, left[i], right[j])
        };
        let ghost old_order = order@;
        if take_left {
            let row: usize = left[i];
            order.push(row);
            assert forall|b: int| j <= b < right.len() implies ranks_before(
                keys@,
                row as int,
                #[trigger] right@[b] as int,
            ) by {
                if b > j {
                    assert(ranks_before(keys@, right@[j as int] as int, right@[b] as int));
                }
            }
            i = i + 1;
        } else {
            let row: usize = right[j];
            order.push(row);
            assert forall|b: int| i <= b < left.len() implies ranks_before(
                keys@,
                row as int,
                #[trigger] left@[b] as int,
            ) by {
                assert(ranks_before(keys@, row as int, left@[i as int] as int));
                if b > i {
                    assert(ranks_before(keys@, left@[i as int] as int, left@[b] as int));
                }
            }
            j = j + 1;
        }
    }
    order
}

/// Lists the rows in ranked order.
pub fn rank(keys: &Vec<RankKey>) -> (order: Vec<usize>)
    ensures
        is_ranking(keys@, order@),
        order@ == ranking(keys@),
{
    let order = rank_range(keys, 0, keys.len());
    proof {
        assert(is_ranking(keys@, order@));
        lemma_ranking_unique(keys@, order@, ranking(keys@));
    }
    order
}

/// A ranking lists larger first measures first, then larger second ones, then
/// smaller third ones, and what is alike in all three as it came.
pub proof fn law_ranking_ordered(keys: Seq<RankKey>, order: Seq<usize>, a: int, b: int)
    requires
        is_ranking(keys, order),
        0 <= a < b < order.len(),
    ensures
        ({
            let x = keys[order[a] as int];
            let y = keys[order[b] as int];
            &&& order[a] != order[b]
            &&& x.first >= y.first
            &&& x.first == y.first ==> x.second >= y.second
            &&& x.first == y.first && x.second == y.second ==> x.third <= y.third
            &&& x.first == y.first && x.second == y.second && x.third == y.third ==> order[a]
                < order[b]
        }),
{
    assert(ranks_before(keys, order[a] as int, order[b] as int));
}

} // verus!
