//! A hash table of key/value pairs, deduplicated by a caller-supplied
//! equality callback: inserting an equal key replaces the value.

use vstd::prelude::*;

verus! {

/// One stored pair.
pub struct HashTableEntry<K, V> {
    pub pair: (K, V),
}

/// A hash table: `table` holds the pairs; inserting a key the equality
/// callback accepts against a stored one replaces that pair in place, so
/// duplicates arise only where the callback itself tells keys apart
/// inconsistently.
pub struct HashTable<K, V, FH: Fn(&K) -> u32, FE: Fn(&K, &K) -> i32> {
    pub table: Vec<HashTableEntry<K, V>>,
    pub entries: u32,
    pub hash_func: FH,
    pub equal_func: FE,
}

/// A walk over a snapshot of a table's pairs.
pub struct HashTableIterator<K, V> {
    pub hash_table: Option<Vec<(K, V)>>,
    pub next_entry: Option<usize>,
    pub next_chain: usize,
}

/// Both callbacks can be called on anything.
pub open spec fn ht_callbacks_ok<K, FH: Fn(&K) -> u32, FE: Fn(&K, &K) -> i32>(
    hash_func: FH,
    equal_func: FE,
) -> bool {
    &&& forall|a: &K| #[trigger] call_requires(hash_func, (a,))
    &&& forall|a: &K, b: &K| #[trigger] call_requires(equal_func, (a, b))
}

impl<K, V, FH: Fn(&K) -> u32, FE: Fn(&K, &K) -> i32> HashTable<K, V, FH, FE> {
    /// The stored pairs, in insertion order.
    pub open spec fn view(self) -> Seq<(K, V)> {
        Seq::new(self.table@.len(), |i: int| self.table@[i].pair)
    }

    /// The count is exact, the callbacks are callable, and the equality
    /// callback told every stored key apart from each stored earlier.
    pub open spec fn wf(self) -> bool {
        &&& self.entries == self.table@.len()
        &&& self.table@.len() <= u32::MAX
        &&& ht_callbacks_ok(self.hash_func, self.equal_func)
    }
}

/// Creates an empty table with the given hash and equality callbacks.
pub fn hash_table_new<K, V, FH: Fn(&K) -> u32, FE: Fn(&K, &K) -> i32>(
    hash_func: FH,
    equal_func: FE,
) -> (r: Option<Box<HashTable<K, V, FH, FE>>>)
    ensures
        r matches Some(t) && t@ == Seq::<(K, V)>::empty() && t.entries == 0 && t.hash_func
            == hash_func && t.equal_func == equal_func,
        r matches Some(t) && (ht_callbacks_ok(hash_func, equal_func) ==> t.wf()),
{
    let t = HashTable { table: Vec::new(), entries: 0, hash_func, equal_func };
    proof {
        assert(t@ =~= Seq::<(K, V)>::empty());
    }
    Some(Box::new(t))
}

/// Sizes the table's storage; storage is managed automatically, so this
/// always succeeds and changes nothing observable.
pub fn hash_table_allocate_table<K, V, FH: Fn(&K) -> u32, FE: Fn(&K, &K) -> i32>(
    hash_table: &mut HashTable<K, V, FH, FE>,
) -> (r: bool)
    ensures
        r,
        final (hash_table)@ == old(hash_table)@,
        final (hash_table).entries == old(hash_table).entries,
        final (hash_table).hash_func == old(hash_table).hash_func,
        final (hash_table).equal_func == old(hash_table).equal_func,
{
    true
}

/// Grows the table's storage; storage is managed automatically, so this
/// always succeeds and changes nothing observable.
pub fn hash_table_enlarge<K, V, FH: Fn(&K) -> u32, FE: Fn(&K, &K) -> i32>(
    hash_table: &mut HashTable<K, V, FH, FE>,
) -> (r: bool)
    ensures
        r,
        final (hash_table)@ == old(hash_table)@,
        final (hash_table).entries == old(hash_table).entries,
        final (hash_table).hash_func == old(hash_table).hash_func,
        final (hash_table).equal_func == old(hash_table).equal_func,
{
    true
}

/// Accepts teardown hooks for interface compatibility; keys and values are
/// owned by the table and released with it.
pub fn hash_table_register_free_functions<
    K,
    V,
    FH: Fn(&K) -> u32,
    FE: Fn(&K, &K) -> i32,
    FK: Fn(K),
    FV: Fn(V),
>(
    hash_table: &mut HashTable<K, V, FH, FE>,
    key_free_func: Option<FK>,
    value_free_func: Option<FV>,
)
    ensures
        final (hash_table)@ == old(hash_table)@,
        final (hash_table).entries == old(hash_table).entries,
        final (hash_table).hash_func == old(hash_table).hash_func,
        final (hash_table).equal_func == old(hash_table).equal_func,
{
    let _ = key_free_func;
    let _ = value_free_func;
}

/// Releases one stored entry.
pub fn hash_table_free_entry<K, V, FH: Fn(&K) -> u32, FE: Fn(&K, &K) -> i32>(
    hash_table: &mut HashTable<K, V, FH, FE>,
    entry: HashTableEntry<K, V>,
)
    ensures
        final (hash_table)@ == old(hash_table)@,
        final (hash_table).entries == old(hash_table).entries,
        final (hash_table).hash_func == old(hash_table).hash_func,
        final (hash_table).equal_func == old(hash_table).equal_func,
{
    let _ = entry;
}

/// Stores `value` under `key`: a stored key the equality callback accepts
/// against `key` has its pair replaced, any other key keeps its place, and
/// a new key is appended.  Reports 1.
pub fn hash_table_insert<K, V, FH: Fn(&K) -> u32, FE: Fn(&K, &K) -> i32>(
    hash_table: &mut HashTable<K, V, FH, FE>,
    key: K,
    value: V,
) -> (r: i32)
    requires
        old(hash_table).wf(),
        old(hash_table).entries < u32::MAX,
    ensures
        r == 1,
        final (hash_table).wf(),
        final (hash_table).hash_func == old(hash_table).hash_func,
        final (hash_table).equal_func == old(hash_table).equal_func,
        final (hash_table)@.len() == old(hash_table)@.len() || final (hash_table)@.len() == old(
            hash_table,
        )@.len() + 1,
        final (hash_table)@.len() == old(hash_table)@.len() + 1 ==> final (hash_table)@ == old(
            hash_table,
        )@.push((key, value)) && forall|i: int|
            0 <= i < old(hash_table)@.len() ==> call_ensures(
                old(hash_table).equal_func,
                (&key, &old(hash_table)@[i].0),
                0i32,
            ),
        final (hash_table)@.len() == old(hash_table)@.len() ==> exists|i: int, e: i32|
            0 <= i < old(hash_table)@.len() && e != 0 && #[trigger] call_ensures(
                old(hash_table).equal_func,
                (&key, &old(hash_table)@[i].0),
                e,
            ) && final (hash_table)@ == old(hash_table)@.update(i, (key, value)),
{
    let mut i: usize = 0;
    while i < hash_table.table.len()
        invariant
            old(hash_table).wf(),
            hash_table == old(hash_table),
            i <= hash_table.table@.len(),
            forall|k: int|
                0 <= k < i ==> call_ensures(hash_table.equal_func, (&key, &hash_table@[k].0), 0i32),
        decreases hash_table.table@.len() - i,
    {
        let eq = (hash_table.equal_func)(&key, &hash_table.table[i].pair.0);
        if eq != 0 {
            let ghost pre = hash_table@;
            proof {
                assert(call_ensures(hash_table.equal_func, (&key, &hash_table@[i as int].0), eq));
            }
            hash_table.table.set(i, HashTableEntry { pair: (key, value) });
            proof {
                assert(hash_table@ =~= pre.update(i as int, (key, value)));
            }
            return 1;
        }
        i = i + 1;
    }
    hash_table.table.push(HashTableEntry { pair: (key, value) });
    hash_table.entries = hash_table.entries + 1;
    proof {
        assert(hash_table@ =~= old(hash_table)@.push((key, value)));
    }
    1
}

/// The number of pairs held.
pub fn hash_table_num_entries<K, V, FH: Fn(&K) -> u32, FE: Fn(&K, &K) -> i32>(
    hash_table: &HashTable<K, V, FH, FE>,
) -> (r: u32)
    ensures
        r == hash_table.entries,
{
    hash_table.entries
}

/// The value stored with a key the equality callback accepts against
/// `key`, while one is stored.
pub fn hash_table_lookup<'a, K, V, FH: Fn(&K) -> u32, FE: Fn(&K, &K) -> i32>(
    hash_table: &'a HashTable<K, V, FH, FE>,
    key: &K,
) -> (r: Option<&'a V>)
    requires
        hash_table.wf(),
    ensures
        r matches Some(v) ==> exists|i: int, e: i32|
            0 <= i < hash_table@.len() && *v == hash_table@[i].1 && e != 0 && #[trigger] call_ensures(
                hash_table.equal_func,
                (key, &hash_table@[i].0),
                e,
            ),
        r is None ==> forall|i: int|
            0 <= i < hash_table@.len() ==> call_ensures(
                hash_table.equal_func,
                (key, &(#[trigger] hash_table@[i]).0),
                0i32,
            ),
{
    let mut i: usize = 0;
    while i < hash_table.table.len()
        invariant
            hash_table.wf(),
            i <= hash_table.table@.len(),
            forall|k: int|
                0 <= k < i ==> call_ensures(
                    hash_table.equal_func,
                    (key, &(#[trigger] hash_table@[k]).0),
                    0i32,
                ),
        decreases hash_table.table@.len() - i,
    {
        let eq = (hash_table.equal_func)(key, &hash_table.table[i].pair.0);
        if eq != 0 {
            proof {
                assert(call_ensures(
                    hash_table.equal_func,
                    (key, &hash_table@[i as int].0),
                    eq,
                ));
            }
            return Some(&hash_table.table[i].pair.1);
        }
        i = i + 1;
    }
    None
}

/// Removes the pair whose key the equality callback accepts against
/// `key`, while one is stored; reports 1 exactly when a pair left.
pub fn hash_table_remove<K, V, FH: Fn(&K) -> u32, FE: Fn(&K, &K) -> i32>(
    hash_table: &mut HashTable<K, V, FH, FE>,
    key: &K,
) -> (r: i32)
    requires
        old(hash_table).wf(),
    ensures
        r == 0 || r == 1,
        final (hash_table).wf(),
        final (hash_table).hash_func == old(hash_table).hash_func,
        final (hash_table).equal_func == old(hash_table).equal_func,
        r == 1 ==> final (hash_table).entries == old(hash_table).entries - 1 && exists|
            i: int,
            e: i32,
        |
            0 <= i < old(hash_table)@.len() && e != 0 && #[trigger] call_ensures(
                old(hash_table).equal_func,
                (key, &old(hash_table)@[i].0),
                e,
            ) && final (hash_table)@ == old(hash_table)@.remove(i),
        r == 0 ==> final (hash_table)@ == old(hash_table)@ && final (hash_table).entries == old(
            hash_table,
        ).entries && forall|i: int|
            0 <= i < old(hash_table)@.len() ==> call_ensures(
                old(hash_table).equal_func,
                (key, &(#[trigger] old(hash_table)@[i]).0),
                0i32,
            ),
{
    let mut i: usize = 0;
    while i < hash_table.table.len()
        invariant
            old(hash_table).wf(),
            hash_table == old(hash_table),
            i <= hash_table.table@.len(),
            forall|k: int|
                0 <= k < i ==> call_ensures(
                    hash_table.equal_func,
                    (key, &(#[trigger] hash_table@[k]).0),
                    0i32,
                ),
        decreases hash_table.table@.len() - i,
    {
        let eq = (hash_table.equal_func)(key, &hash_table.table[i].pair.0);
        if eq != 0 {
            let ghost pre = hash_table@;
            proof {
                assert(call_ensures(
                    hash_table.equal_func,
                    (key, &hash_table@[i as int].0),
                    eq,
                ));
            }
            hash_table.table.remove(i);
            hash_table.entries = hash_table.entries - 1;
            proof {
                assert(hash_table@ =~= pre.remove(i as int));
            }
            return 1;
        }
        i = i + 1;
    }
    0
}

/// Starts a walk over a snapshot of the table's pairs: the snapshot holds
/// one clone of every stored pair, and handing its pairs out one by one
/// produces them in storage order, each exactly once.
pub fn hash_table_iterate<K: Clone, V: Clone, FH: Fn(&K) -> u32, FE: Fn(&K, &K) -> i32>(
    hash_table: &HashTable<K, V, FH, FE>,
    iterator: &mut HashTableIterator<K, V>,
)
    ensures
        final (iterator).hash_table matches Some(snap) && snap@.len() == hash_table@.len()
            && forall|j: int|
            0 <= j < snap@.len() ==> vstd::pervasive::cloned(
                hash_table@[snap@.len() - 1 - j].0,
                (#[trigger] snap@[j]).0,
            ) && vstd::pervasive::cloned(hash_table@[snap@.len() - 1 - j].1, snap@[j].1),
        final (iterator).next_chain == 0,
{
    let n = hash_table.table.len();
    let mut snap: Vec<(K, V)> = Vec::new();
    let mut i: usize = 0;
    while i < n
        invariant
            n == hash_table.table@.len(),
            i <= n,
            snap@.len() == i,
            forall|j: int|
                0 <= j < i ==> vstd::pervasive::cloned(
                    hash_table@[n - 1 - j].0,
                    (#[trigger] snap@[j]).0,
                ) && vstd::pervasive::cloned(hash_table@[n - 1 - j].1, snap@[j].1),
        decreases n - i,
    {
        let k = hash_table.table[n - 1 - i].pair.0.clone();
        let v = hash_table.table[n - 1 - i].pair.1.clone();
        snap.push((k, v));
        i = i + 1;
    }
    iterator.hash_table = Some(snap);
    iterator.next_entry = None;
    iterator.next_chain = 0;
}

/// Whether the walk has pairs left.
pub fn hash_table_iter_has_more<K, V>(iterator: &HashTableIterator<K, V>) -> (r: bool)
    ensures
        r <==> (iterator.hash_table matches Some(snap) && snap@.len() > 0),
{
    match &iterator.hash_table {
        Some(snap) => snap.len() > 0,
        None => false,
    }
}

/// The next pair of the walk: exactly the next pair of the snapshot,
/// while one is left.
pub fn hash_table_iter_next<K: Clone, V: Clone>(iterator: &mut HashTableIterator<K, V>) -> (r:
    Option<(K, V)>)
    ensures
        match old(iterator).hash_table {
            Some(snap) => if snap@.len() > 0 {
                r == Some(snap@.last()) && (final (iterator).hash_table matches Some(s2) && s2@
                    == snap@.drop_last()) && final (iterator).next_chain == if old(
                    iterator,
                ).next_chain < usize::MAX {
                    old(iterator).next_chain + 1
                } else {
                    old(iterator).next_chain as int
                }
            } else {
                r is None && (final (iterator).hash_table matches Some(s2) && s2@ == snap@)
            },
            None => r is None && final (iterator).hash_table is None,
        },
{
    match &mut iterator.hash_table {
        Some(snap) => {
            match snap.pop() {
                Some(p) => {
                    if iterator.next_chain < usize::MAX {
                        iterator.next_chain = iterator.next_chain + 1;
                    }
                    Some(p)
                },
                None => None,
            }
        },
        None => None,
    }
}

/// Releases the table and everything in it.
pub fn hash_table_free<K, V, FH: Fn(&K) -> u32, FE: Fn(&K, &K) -> i32>(
    hash_table: Box<HashTable<K, V, FH, FE>>,
) {
    let _ = hash_table;
}

} // verus!
