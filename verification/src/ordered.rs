//! An associative table whose keys are kept in order.

use vstd::prelude::*;

verus! {

/// How one key stands to another.
pub enum KeyOrder {
    /// The first key comes ahead of the second.
    Before,
    /// The keys are the same.
    Same,
    /// The first key comes after the second.
    After,
}

/// A key with a total order.
pub trait OrderedKey: View + Sized {
    /// Whether key `a` comes ahead of key `b`.
    spec fn before(a: Self::V, b: Self::V) -> bool;

    /// Two keys are never each ahead of the other.
    proof fn before_asymmetric(a: Self::V, b: Self::V)
        requires
            Self::before(a, b),
        ensures
            !Self::before(b, a),
    ;

    /// The order is transitive.
    proof fn before_transitive(a: Self::V, b: Self::V, c: Self::V)
        requires
            Self::before(a, b),
            Self::before(b, c),
        ensures
            Self::before(a, c),
    ;

    /// Compares two keys.
    fn compare(&self, other: &Self) -> (order: KeyOrder)
        ensures
            match order {
                KeyOrder::Before => Self::before(self@, other@),
                KeyOrder::Same => self@ == other@,
                KeyOrder::After => Self::before(other@, self@),
            },
    ;
}

/// A table from keys to values, the keys in order.
pub struct OrderedTable<K, V> {
    keys: Vec<K>,
    values: Vec<V>,
}

/// The table that pairs `keys` with `values`.
pub open spec fn paired<K, V>(keys: Seq<K>, values: Seq<V>) -> Map<K, V> {
    Map::new(|k: K| keys.contains(k), |k: K| values[keys.index_of(k)])
}

/// Whether `keys` come strictly in order.
pub open spec fn ascending<K: OrderedKey>(keys: Seq<K::V>) -> bool {
    forall|i: int, j: int|
        0 <= i < j < keys.len() ==> K::before(#[trigger] keys[i], #[trigger] keys[j])
}

impl<K: OrderedKey, V> OrderedTable<K, V> {
    /// The keys, in order.
    pub closed spec fn keys(&self) -> Seq<K::V> {
        self.keys@.map_values(|k: K| k@)
    }

    /// The values, in the order of their keys.
    pub closed spec fn values(&self) -> Seq<V> {
        self.values@
    }

    /// Keys are in order, and each has a value.
    pub open spec fn wf(&self) -> bool {
        &&& self.keys().len() == self.values().len()
        &&& ascending::<K>(self.keys())
    }
}

impl<K: OrderedKey, V> View for OrderedTable<K, V> {
    type V = Map<K::V, V>;

    open spec fn view(&self) -> Map<K::V, V> {
        paired(self.keys(), self.values())
    }
}

/// Ordered keys do not repeat.
pub proof fn lemma_ascending_distinct<K: OrderedKey>(keys: Seq<K::V>)
    requires
        ascending::<K>(keys),
    ensures
        keys.no_duplicates(),
{
    assert forall|i: int, j: int| 0 <= i < j < keys.len() implies keys[i] != keys[j] by {
        if keys[i] == keys[j] {
            assert(K::before(keys[i], keys[j]));
            K::before_asymmetric(keys[i], keys[j]);
        }
    }
}

/// The value paired with the key at a position.
pub proof fn lemma_paired_at<K: OrderedKey, V>(keys: Seq<K::V>, values: Seq<V>, i: int)
    requires
        ascending::<K>(keys),
        keys.len() == values.len(),
        0 <= i < keys.len(),
    ensures
        paired(keys, values).contains_key(keys[i]),
        paired(keys, values)[keys[i]] == values[i],
{
    lemma_ascending_distinct::<K>(keys);
    assert(keys.contains(keys[i]));
    let j = keys.index_of(keys[i]);
    assert(keys[j] == keys[i]);
}

/// Changing the value at a position changes the value of its key.
proof fn lemma_paired_update<K: OrderedKey, V>(keys: Seq<K::V>, values: Seq<V>, i: int, v: V)
    requires
        ascending::<K>(keys),
        keys.len() == values.len(),
        0 <= i < keys.len(),
    ensures
        paired(keys, values.update(i, v)) == paired(keys, values).insert(keys[i], v),
{
    lemma_ascending_distinct::<K>(keys);
    let before = paired(keys, values).insert(keys[i], v);
    let after = paired(keys, values.update(i, v));
    assert(keys.contains(keys[i]));
    assert forall|k: K::V| after.contains_key(k) implies #[trigger] after[k] == before[k] by {
        let j = keys.index_of(k);
        assert(keys[j] == k);
    }
    assert(after =~= before);
}

/// Inserting a new key at its place adds it to the table.
proof fn lemma_paired_insert<K: OrderedKey, V>(
    keys: Seq<K::V>,
    values: Seq<V>,
    i: int,
    key: K::V,
    v: V,
)
    requires
        ascending::<K>(keys),
        keys.len() == values.len(),
        0 <= i <= keys.len(),
        forall|j: int| 0 <= j < i ==> K::before(#[trigger] keys[j], key),
        forall|j: int| i <= j < keys.len() ==> K::before(key, #[trigger] keys[j]),
    ensures
        ascending::<K>(keys.insert(i, key)),
        !paired(keys, values).contains_key(key),
        paired(keys.insert(i, key), values.insert(i, v)) == paired(keys, values).insert(key, v),
{
    let new_keys = keys.insert(i, key);
    let new_values = values.insert(i, v);
    assert(ascending::<K>(new_keys));
    if keys.contains(key) {
        let j = keys.index_of(key);
        assert(keys[j] == key);
        K::before_asymmetric(key, key);
    }
    lemma_ascending_distinct::<K>(keys);
    lemma_ascending_distinct::<K>(new_keys);
    let before = paired(keys, values).insert(key, v);
    let after = paired(new_keys, new_values);
    assert(new_keys[i] == key);
    assert forall|k: K::V| before.contains_key(k) implies after.contains_key(k) by {
        if k != key {
            let j = keys.index_of(k);
            assert(keys[j] == k);
            if j < i {
                assert(new_keys[j] == k);
            } else {
                assert(new_keys[j + 1] == k);
            }
        }
    }
    assert forall|k: K::V| after.contains_key(k) implies before.contains_key(k)
        && #[trigger] after[k] == before[k] by {
        let j = new_keys.index_of(k);
        assert(new_keys[j] == k);
        if j < i {
            lemma_paired_at::<K, V>(keys, values, j);
            assert(keys[j] == k);
        } else if j > i {
            lemma_paired_at::<K, V>(keys, values, j - 1);
            assert(keys[j - 1] == k);
        }
    }
    assert(after =~= before);
}

impl<K: OrderedKey, V> OrderedTable<K, V> {
    /// An empty table.
    pub fn new() -> (table: Self)
        ensures
            table.wf(),
            table@ == Map::<K::V, V>::empty(),
    {
        let table = OrderedTable { keys: Vec::new(), values: Vec::new() };
        assert(table@ =~= Map::<K::V, V>::empty());
        table
    }

    /// Number of keys.
    pub fn len(&self) -> (n: usize)
        requires
            self.wf(),
        ensures
            n == self.keys().len(),
    {
        self.keys.len()
    }

    /// The key at a position.
    pub fn key(&self, i: usize) -> (key: &K)
        requires
            self.wf(),
            i < self.keys().len(),
        ensures
            key@ == self.keys()[i as int],
    {
        &self.keys[i]
    }

    /// The value at a position.
    pub fn value(&self, i: usize) -> (value: &V)
        requires
            self.wf(),
            i < self.keys().len(),
        ensures
            value == self.values()[i as int],
    {
        &self.values[i]
    }

    /// The value at a position, for change in place.
    fn value_mut(&mut self, i: usize) -> (value: &mut V)
        requires
            i < old(self).values().len(),
        ensures
            *value == old(self).values()[i as int],
            final(self).keys() == old(self).keys(),
            final(self).values() == old(self).values().update(i as int, *final(value)),
    {
        &mut self.values[i]
    }

    /// The place of a key: where it is, or where it belongs.
    fn find(&self, key: &K) -> (r: (bool, usize))
        requires
            self.wf(),
        ensures
            r.1 <= self.keys().len(),
            r.0 ==> r.1 < self.keys().len() && self.keys()[r.1 as int] == key@,
            !r.0 ==> {
                &&& forall|j: int| 0 <= j < r.1 ==> K::before(#[trigger] self.keys()[j], key@)
                &&& forall|j: int|
                    r.1 <= j < self.keys().len() ==> K::before(key@, #[trigger] self.keys()[j])
            },
    {
        let mut lo: usize = 0;
        let mut hi: usize = self.keys.len();
        while lo < hi
            invariant
                self.wf(),
                lo <= hi <= self.keys().len(),
                self.keys().len() == self.keys@.len(),
                forall|j: int| 0 <= j < lo ==> K::before(#[trigger] self.keys()[j], key@),
                forall|j: int|
                    hi <= j < self.keys().len() ==> K::before(key@, #[trigger] self.keys()[j]),
            decreases hi - lo,
        {
            let mid: usize = lo + (hi - lo) / 2;
            assert(self.keys()[mid as int] == self.keys@[mid as int]@);
            match self.keys[mid].compare(key) {
                KeyOrder::Before => {
                    assert forall|j: int| 0 <= j < mid + 1 implies K::before(
                        #[trigger] self.keys()[j],
                        key@,
                    ) by {
                        if j < mid {
                            assert(K::before(self.keys()[j], self.keys()[mid as int]));
                            K::before_transitive(self.keys()[j], self.keys()[mid as int], key@);
                        }
                    }
                    lo = mid + 1;
                },
                KeyOrder::Same => {
                    return (true, mid);
                },
                KeyOrder::After => {
                    assert forall|j: int| mid <= j < self.keys().len() implies K::before(
                        key@,
                        #[trigger] self.keys()[j],
                    ) by {
                        if j > mid {
                            assert(K::before(self.keys()[mid as int], self.keys()[j]));
                            K::before_transitive(key@, self.keys()[mid as int], self.keys()[j]);
                        }
                    }
                    hi = mid;
                },
            }
        }
        (false, lo)
    }

    /// The value of `key`, for change in place; a key that is not in the table
    /// yet enters with the value `default`.
    pub fn entry(&mut self, key: K, default: V) -> (value: &mut V)
        requires
            old(self).wf(),
        ensures
            *value == if old(self)@.contains_key(key@) {
                old(self)@[key@]
            } else {
                default
            },
            final(self).wf(),
            final(self)@ == old(self)@.insert(key@, *final(value)),
    {
        let (found, at) = self.find(&key);
        let ghost before_keys = self.keys();
        let ghost before_values = self.values();
        let ghost k = key@;
        if found {
            proof {
                lemma_paired_at::<K, V>(self.keys(), self.values(), at as int);
                assert forall|v: V| #[trigger]
                    paired(self.keys(), self.values().update(at as int, v)) == self@.insert(
                        k,
                        v,
                    ) by {
                    lemma_paired_update::<K, V>(self.keys(), self.values(), at as int, v);
                }
            }
        } else {
            proof {
                lemma_paired_insert::<K, V>(self.keys(), self.values(), at as int, k, default);
            }
            self.keys.insert(at, key);
            self.values.insert(at, default);
            proof {
                assert(self.keys() =~= before_keys.insert(at as int, k));
                assert(self.keys()[at as int] == k);
                assert forall|v: V| #[trigger]
                    paired(self.keys(), self.values().update(at as int, v)) == paired(
                        before_keys,
                        before_values,
                    ).insert(k, v) by {
                    lemma_paired_update::<K, V>(self.keys(), self.values(), at as int, v);
                    assert(paired(before_keys, before_values).insert(k, default).insert(k, v)
                        =~= paired(before_keys, before_values).insert(k, v));
                }
            }
        }
        self.value_mut(at)
    }
}

} // verus!
