//! Sums over tables and lists.

use crate::ordered::OrderedKey;
use crate::ordered;
use vstd::prelude::*;

verus! {

/// The sum of the weights of a table's entries.
pub open spec fn table_sum<K, V>(table: Map<K, V>, weight: spec_fn(K, V) -> nat) -> nat
    decreases table.dom().len(),
{
    if !table.dom().finite() || table.dom().len() == 0 {
        0
    } else {
        let k = table.dom().choose();
        weight(k, table[k]) + table_sum(table.remove(k), weight)
    }
}

/// The sum of the weights of a list's items.
pub open spec fn list_sum<A>(list: Seq<A>, weight: spec_fn(A) -> nat) -> nat
    decreases list.len(),
{
    if list.len() == 0 {
        0
    } else {
        list_sum(list.drop_last(), weight) + weight(list.last())
    }
}

/// A sum over a table may start with any entry.
pub proof fn lemma_table_sum_remove<K, V>(
    table: Map<K, V>,
    weight: spec_fn(K, V) -> nat,
    key: K,
)
    requires
        table.dom().finite(),
        table.contains_key(key),
    ensures
        table_sum(table, weight) == weight(key, table[key]) + table_sum(table.remove(key), weight),
    decreases table.dom().len(),
{
    let k = table.dom().choose();
    if table.dom().len() == 0 {
        assert(table.dom() =~= Set::<K>::empty());
    }
    assert(table.contains_key(k));
    if k != key {
        lemma_table_sum_remove(table.remove(k), weight, key);
        lemma_table_sum_remove(table.remove(key), weight, k);
        assert(table.remove(k).remove(key) =~= table.remove(key).remove(k));
    }
}

/// What an entry that enters or changes does to the sum.
pub proof fn lemma_table_sum_insert<K, V>(
    table: Map<K, V>,
    weight: spec_fn(K, V) -> nat,
    key: K,
    value: V,
)
    requires
        table.dom().finite(),
    ensures
        table.insert(key, value).dom().finite(),
        table_sum(table.insert(key, value), weight) + (if table.contains_key(key) {
            weight(key, table[key])
        } else {
            0
        }) == table_sum(table, weight) + weight(key, value),
{
    let after = table.insert(key, value);
    lemma_table_sum_remove(after, weight, key);
    if table.contains_key(key) {
        lemma_table_sum_remove(table, weight, key);
        assert(after.remove(key) =~= table.remove(key));
    } else {
        assert(after.remove(key) =~= table);
    }
}

/// The empty table sums to zero.
pub proof fn lemma_table_sum_empty<K, V>(weight: spec_fn(K, V) -> nat)
    ensures
        table_sum(Map::<K, V>::empty(), weight) == 0,
{
}

/// The sum over a list only grows with the list.
pub proof fn lemma_list_sum_prefix<A>(list: Seq<A>, weight: spec_fn(A) -> nat, n: int)
    requires
        0 <= n <= list.len(),
    ensures
        list_sum(list.take(n), weight) <= list_sum(list, weight),
    decreases list.len(),
{
    if n == list.len() {
        assert(list.take(n) =~= list);
    } else {
        lemma_list_sum_prefix(list.drop_last(), weight, n);
        assert(list.drop_last().take(n) =~= list.take(n));
    }
}

/// One more item adds its weight.
pub proof fn lemma_list_sum_step<A>(list: Seq<A>, weight: spec_fn(A) -> nat, n: int)
    requires
        0 <= n < list.len(),
    ensures
        list_sum(list.take(n + 1), weight) == list_sum(list.take(n), weight) + weight(list[n]),
        list_sum(list.take(n + 1), weight) <= list_sum(list, weight),
{
    assert(list.take(n + 1).drop_last() =~= list.take(n));
    lemma_list_sum_prefix(list, weight, n + 1);
}

/// What changing an item does to the sum.
pub proof fn lemma_list_sum_update<A>(list: Seq<A>, weight: spec_fn(A) -> nat, n: int, item: A)
    requires
        0 <= n < list.len(),
    ensures
        list_sum(list.update(n, item), weight) + weight(list[n]) == list_sum(list, weight) + weight(
            item,
        ),
    decreases list.len(),
{
    let changed = list.update(n, item);
    if n == list.len() - 1 {
        assert(changed.drop_last() =~= list.drop_last());
    } else {
        assert(changed.drop_last() =~= list.drop_last().update(n, item));
        lemma_list_sum_update(list.drop_last(), weight, n, item);
    }
}

/// Items without weight sum to zero.
pub proof fn lemma_list_sum_zero<A>(list: Seq<A>, weight: spec_fn(A) -> nat)
    requires
        forall|i: int| 0 <= i < list.len() ==> weight(#[trigger] list[i]) == 0,
    ensures
        list_sum(list, weight) == 0,
    decreases list.len(),
{
    if list.len() > 0 {
        lemma_list_sum_zero(list.drop_last(), weight);
    }
}

/// An ordered table has finitely many entries.
pub proof fn lemma_paired_finite<K: OrderedKey, V>(keys: Seq<K::V>, values: Seq<V>)
    ensures
        ordered::paired(keys, values).dom().finite(),
{
    assert(ordered::paired(keys, values).dom() =~= keys.to_set());
}

/// The sum over an ordered table, entry by entry.
pub proof fn lemma_table_sum_paired<K: OrderedKey, V, A>(
    keys: Seq<K::V>,
    values: Seq<V>,
    weight: spec_fn(K::V, V) -> nat,
    list: Seq<A>,
    item_weight: spec_fn(A) -> nat,
)
    requires
        ordered::ascending::<K>(keys),
        keys.len() == values.len(),
        list.len() == keys.len(),
        forall|i: int|
            0 <= i < keys.len() ==> weight(#[trigger] keys[i], values[i]) == item_weight(list[i]),
    ensures
        table_sum(ordered::paired(keys, values), weight) == list_sum(list, item_weight),
    decreases keys.len(),
{
    let table = ordered::paired(keys, values);
    lemma_paired_finite::<K, V>(keys, values);
    if keys.len() == 0 {
        assert(table =~= Map::<K::V, V>::empty());
    } else {
        let n = keys.len() - 1;
        let key = keys[n];
        let rest_keys = keys.drop_last();
        let rest_values = values.drop_last();
        ordered::lemma_ascending_distinct::<K>(keys);
        ordered::lemma_paired_at::<K, V>(keys, values, n);
        assert(ordered::ascending::<K>(rest_keys));
        assert(table.remove(key) =~= ordered::paired(rest_keys, rest_values)) by {
            assert forall|k: K::V| #[trigger] table.remove(key).contains_key(k) implies {
                &&& ordered::paired(rest_keys, rest_values).contains_key(k)
                &&& table[k] == ordered::paired(rest_keys, rest_values)[k]
            } by {
                let i = keys.index_of(k);
                assert(keys[i] == k);
                assert(rest_keys[i] == k);
                ordered::lemma_paired_at::<K, V>(rest_keys, rest_values, i);
            }
            assert forall|k: K::V| #[trigger]
                ordered::paired(rest_keys, rest_values).contains_key(k) implies table.remove(
                key,
            ).contains_key(k) by {
                let i = rest_keys.index_of(k);
                assert(rest_keys[i] == k);
                assert(keys[i] == k);
            }
        }
        lemma_table_sum_remove(table, weight, key);
        lemma_table_sum_paired::<K, V, A>(
            rest_keys,
            rest_values,
            weight,
            list.drop_last(),
            item_weight,
        );
    }
}

/// The sum over a table, by any list that names each key once.
pub proof fn lemma_table_sum_listed<K, V, A>(
    table: Map<K, V>,
    weight: spec_fn(K, V) -> nat,
    list: Seq<A>,
    key_of: spec_fn(A) -> K,
    item_weight: spec_fn(A) -> nat,
)
    requires
        table.dom().finite(),
        forall|i: int|
            0 <= i < list.len() ==> {
                &&& table.contains_key(key_of(#[trigger] list[i]))
                &&& item_weight(list[i]) == weight(key_of(list[i]), table[key_of(list[i])])
            },
        forall|i: int, j: int|
            0 <= i < j < list.len() ==> key_of(#[trigger] list[i]) != key_of(#[trigger] list[j]),
        forall|k: K| #[trigger]
            table.contains_key(k) ==> exists|i: int|
                0 <= i < list.len() && key_of(#[trigger] list[i]) == k,
    ensures
        table_sum(table, weight) == list_sum(list, item_weight),
    decreases list.len(),
{
    if list.len() == 0 {
        assert(table.dom() =~= Set::<K>::empty());
    } else {
        let n = list.len() - 1;
        let key = key_of(list[n]);
        let rest = table.remove(key);
        let shorter = list.drop_last();
        assert forall|k: K| #[trigger] rest.contains_key(k) implies exists|i: int|
            0 <= i < shorter.len() && key_of(#[trigger] shorter[i]) == k by {
            let i = choose|i: int| 0 <= i < list.len() && key_of(#[trigger] list[i]) == k;
            assert(key_of(shorter[i]) == k);
        }
        lemma_table_sum_listed(rest, weight, shorter, key_of, item_weight);
        lemma_table_sum_remove(table, weight, key);
    }
}

/// Sums compare as their items do.
pub proof fn lemma_list_sum_at_most<A>(
    list: Seq<A>,
    small: spec_fn(A) -> nat,
    large: spec_fn(A) -> nat,
)
    requires
        forall|i: int| 0 <= i < list.len() ==> small(#[trigger] list[i]) <= large(list[i]),
    ensures
        list_sum(list, small) <= list_sum(list, large),
    decreases list.len(),
{
    if list.len() > 0 {
        lemma_list_sum_at_most(list.drop_last(), small, large);
    }
}

} // verus!
