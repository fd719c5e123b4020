//! An unordered set of values, deduplicated by a caller-supplied equality
//! callback, with union and intersection.

use vstd::prelude::*;

verus! {

/// One stored value.
#[derive(Clone)]
pub struct SetEntry<T> {
    pub data: T,
}

/// A set: `table` holds the values, none of which the equality callback
/// accepts against an earlier one.
pub struct ValueSet<T, FH: Fn(&T) -> usize, FE: Fn(&T, &T) -> bool> {
    pub entries: usize,
    pub table: Vec<SetEntry<T>>,
    pub hash_func: FH,
    pub equal_func: FE,
    /// When `Some(n)`, inserting may allocate at most `n` new entries;
    /// used to exercise the failure paths.
    pub alloc_limit: Option<usize>,
}

/// A walk over a snapshot of a set's values.
pub struct SetIterator<T> {
    pub set: Option<Vec<T>>,
    pub next_entry: Option<usize>,
    pub next_chain: usize,
}

impl<T> Default for SetIterator<T> {
    /// An iterator over nothing.
    fn default() -> (r: Self)
        ensures
            r.set is None,
            r.next_chain == 0,
    {
        SetIterator { set: None, next_entry: None, next_chain: 0 }
    }
}

/// Both callbacks can be called on anything.
pub open spec fn set_callbacks_ok<T, FH: Fn(&T) -> usize, FE: Fn(&T, &T) -> bool>(
    hash_func: FH,
    equal_func: FE,
) -> bool {
    &&& forall|a: &T| #[trigger] call_requires(hash_func, (a,))
    &&& forall|a: &T, b: &T| #[trigger] call_requires(equal_func, (a, b))
}

impl<T, FH: Fn(&T) -> usize, FE: Fn(&T, &T) -> bool> ValueSet<T, FH, FE> {
    /// The values stored, in insertion order.
    pub open spec fn view(self) -> Seq<T> {
        Seq::new(self.table@.len(), |i: int| self.table@[i].data)
    }

    /// The count is exact, the callbacks are callable, and the equality
    /// callback rejected every stored value against each stored earlier.
    pub open spec fn wf(self) -> bool {
        &&& self.entries == self.table@.len()
        &&& set_callbacks_ok(self.hash_func, self.equal_func)
        &&& forall|i: int, j: int|
            0 <= i < j < self@.len() ==> call_ensures(
                self.equal_func,
                (&self@[j], &self@[i]),
                false,
            )
    }
}

/// Creates an empty set with the given hash and equality callbacks.
pub fn set_new<T, FH: Fn(&T) -> usize, FE: Fn(&T, &T) -> bool>(hash_func: FH, equal_func: FE) -> (r:
    Option<ValueSet<T, FH, FE>>)
    ensures
        r matches Some(s) && s@ == Seq::<T>::empty() && s.entries == 0 && s.hash_func == hash_func
            && s.equal_func == equal_func && s.alloc_limit is None,
        r matches Some(s) && (set_callbacks_ok(hash_func, equal_func) ==> s.wf()),
{
    let s = ValueSet {
        entries: 0,
        table: Vec::new(),
        hash_func,
        equal_func,
        alloc_limit: None,
    };
    proof {
        assert(s@ =~= Seq::<T>::empty());
    }
    Some(s)
}

/// Caps the number of entries the set may still allocate, or lifts the
/// cap.
pub fn set_set_alloc_limit<T, FH: Fn(&T) -> usize, FE: Fn(&T, &T) -> bool>(
    set: &mut ValueSet<T, FH, FE>,
    limit: Option<usize>,
)
    ensures
        final (set).alloc_limit == limit,
        final (set)@ == old(set)@,
        final (set).entries == old(set).entries,
        final (set).hash_func == old(set).hash_func,
        final (set).equal_func == old(set).equal_func,
{
    set.alloc_limit = limit;
}

/// Accepts a teardown hook for interface compatibility; values are owned
/// by the set and released with it, so the hook has nothing left to do.
pub fn set_register_free_function<T, FH: Fn(&T) -> usize, FE: Fn(&T, &T) -> bool, FF: Fn(T)>(
    set: &mut ValueSet<T, FH, FE>,
    free_func: Option<FF>,
)
    ensures
        final (set)@ == old(set)@,
        final (set).entries == old(set).entries,
        final (set).hash_func == old(set).hash_func,
        final (set).equal_func == old(set).equal_func,
        final (set).alloc_limit == old(set).alloc_limit,
{
    let _ = free_func;
}

/// Makes room for the set to keep growing; the table is managed
/// automatically, so there is nothing to move.
pub fn set_allocate_table<T, FH: Fn(&T) -> usize, FE: Fn(&T, &T) -> bool>(
    set: &mut ValueSet<T, FH, FE>,
) -> (r: bool)
    ensures
        r,
        final (set)@ == old(set)@,
        final (set).entries == old(set).entries,
        final (set).hash_func == old(set).hash_func,
        final (set).equal_func == old(set).equal_func,
        final (set).alloc_limit == old(set).alloc_limit,
{
    true
}

/// Grows the set's table; the table is managed automatically, so this
/// always succeeds and changes nothing observable.
pub fn set_enlarge<T, FH: Fn(&T) -> usize, FE: Fn(&T, &T) -> bool>(set: &mut ValueSet<T, FH, FE>) -> (r:
    bool)
    ensures
        r,
        final (set)@ == old(set)@,
        final (set).entries == old(set).entries,
        final (set).hash_func == old(set).hash_func,
        final (set).equal_func == old(set).equal_func,
        final (set).alloc_limit == old(set).alloc_limit,
{
    true
}

/// Releases one stored entry.
pub fn set_free_entry<T, FH: Fn(&T) -> usize, FE: Fn(&T, &T) -> bool>(
    set: &mut ValueSet<T, FH, FE>,
    entry: SetEntry<T>,
)
    ensures
        final (set)@ == old(set)@,
        final (set).entries == old(set).entries,
        final (set).hash_func == old(set).hash_func,
        final (set).equal_func == old(set).equal_func,
        final (set).alloc_limit == old(set).alloc_limit,
{
    let _ = entry;
}

/// Inserts `data` unless the equality callback accepts it against a stored
/// value or the allocation limit is spent; reports whether it was added.
pub fn set_insert<T, FH: Fn(&T) -> usize, FE: Fn(&T, &T) -> bool>(
    set: &mut ValueSet<T, FH, FE>,
    data: T,
) -> (r: bool)
    requires
        old(set).wf(),
        old(set).entries < usize::MAX,
    ensures
        final (set).wf(),
        final (set).hash_func == old(set).hash_func,
        final (set).equal_func == old(set).equal_func,
        final (set).alloc_limit == old(set).alloc_limit,
        r ==> final (set)@ == old(set)@.push(data) && final (set).entries == old(set).entries + 1
            && forall|i: int|
            0 <= i < old(set)@.len() ==> call_ensures(
                old(set).equal_func,
                (&data, &old(set)@[i]),
                false,
            ),
        !r ==> final (set)@ == old(set)@ && final (set).entries == old(set).entries,
        !r ==> (exists|i: int|
            0 <= i < old(set)@.len() && call_ensures(
                old(set).equal_func,
                (&data, &old(set)@[i]),
                true,
            )) || old(set).alloc_limit is Some,
{
    let mut i: usize = 0;
    while i < set.table.len()
        invariant
            old(set).wf(),
            set == old(set),
            i <= set.table@.len(),
            forall|k: int|
                0 <= k < i ==> call_ensures(set.equal_func, (&data, &set@[k]), false),
        decreases set.table@.len() - i,
    {
        if (set.equal_func)(&data, &set.table[i].data) {
            proof {
                assert(call_ensures(set.equal_func, (&data, &set@[i as int]), true));
            }
            return false;
        }
        i = i + 1;
    }
    match set.alloc_limit {
        Some(l) => {
            if l < 1 {
                return false;
            }
        },
        None => {},
    }
    set.table.push(SetEntry { data });
    set.entries = set.entries + 1;
    proof {
        assert(set@ =~= old(set)@.push(data));
        assert forall|p: int, q: int| 0 <= p < q < set@.len() implies call_ensures(
            set.equal_func,
            (&set@[q], &set@[p]),
            false,
        ) by {
            if q < set@.len() - 1 {
                assert(set@[p] == old(set)@[p] && set@[q] == old(set)@[q]);
            } else {
                assert(set@[q] == data && set@[p] == old(set)@[p]);
            }
        }
    }
    true
}

/// Empties the set.
pub fn set_free<T, FH: Fn(&T) -> usize, FE: Fn(&T, &T) -> bool>(set: &mut ValueSet<T, FH, FE>)
    ensures
        final (set)@ == Seq::<T>::empty(),
        final (set).entries == 0,
        final (set).hash_func == old(set).hash_func,
        final (set).equal_func == old(set).equal_func,
{
    set.table.clear();
    set.entries = 0;
    proof {
        assert(set@ =~= Seq::<T>::empty());
    }
}

/// The number of values held.
pub fn set_num_entries<T, FH: Fn(&T) -> usize, FE: Fn(&T, &T) -> bool>(set: &ValueSet<T, FH, FE>) -> (r:
    usize)
    ensures
        r == set.entries,
{
    set.entries
}

/// Whether the equality callback accepts `data` against a stored value: 1
/// when it does, 0 when it rejects every one.
pub fn set_query<T, FH: Fn(&T) -> usize, FE: Fn(&T, &T) -> bool>(
    set: &ValueSet<T, FH, FE>,
    data: T,
) -> (r: i32)
    requires
        set.wf(),
    ensures
        r == 0 || r == 1,
        r == 1 ==> exists|i: int|
            0 <= i < set@.len() && call_ensures(set.equal_func, (&data, &set@[i]), true),
        r == 0 ==> forall|i: int|
            0 <= i < set@.len() ==> call_ensures(set.equal_func, (&data, &set@[i]), false),
{
    let mut i: usize = 0;
    while i < set.table.len()
        invariant
            set.wf(),
            i <= set.table@.len(),
            forall|k: int|
                0 <= k < i ==> call_ensures(set.equal_func, (&data, &set@[k]), false),
        decreases set.table@.len() - i,
    {
        if (set.equal_func)(&data, &set.table[i].data) {
            proof {
                assert(call_ensures(set.equal_func, (&data, &set@[i as int]), true));
            }
            return 1;
        }
        i = i + 1;
    }
    0
}

/// Removes the first stored value the equality callback accepts against
/// `data`; reports whether one was removed.
pub fn set_remove<T, FH: Fn(&T) -> usize, FE: Fn(&T, &T) -> bool>(
    set: &mut ValueSet<T, FH, FE>,
    data: T,
) -> (r: bool)
    requires
        old(set).wf(),
    ensures
        final (set).wf(),
        final (set).hash_func == old(set).hash_func,
        final (set).equal_func == old(set).equal_func,
        final (set).alloc_limit == old(set).alloc_limit,
        r ==> final (set).entries == old(set).entries - 1 && exists|i: int|
            0 <= i < old(set)@.len() && call_ensures(
                old(set).equal_func,
                (&data, &old(set)@[i]),
                true,
            ) && final (set)@ == old(set)@.remove(i),
        !r ==> final (set)@ == old(set)@ && final (set).entries == old(set).entries && forall|
            i: int,
        |
            0 <= i < old(set)@.len() ==> call_ensures(
                old(set).equal_func,
                (&data, &old(set)@[i]),
                false,
            ),
{
    let mut i: usize = 0;
    while i < set.table.len()
        invariant
            old(set).wf(),
            set == old(set),
            i <= set.table@.len(),
            forall|k: int|
                0 <= k < i ==> call_ensures(set.equal_func, (&data, &set@[k]), false),
        decreases set.table@.len() - i,
    {
        if (set.equal_func)(&data, &set.table[i].data) {
            let ghost pre = set@;
            set.table.remove(i);
            set.entries = set.entries - 1;
            proof {
                assert(set@ =~= pre.remove(i as int));
                assert forall|p: int, q: int| 0 <= p < q < set@.len() implies call_ensures(
                    set.equal_func,
                    (&set@[q], &set@[p]),
                    false,
                ) by {
                    let pp = if p < i {
                        p
                    } else {
                        p + 1
                    };
                    let qq = if q < i {
                        q
                    } else {
                        q + 1
                    };
                    assert(set@[p] == pre[pp] && set@[q] == pre[qq]);
                }
            }
            return true;
        }
        i = i + 1;
    }
    false
}

/// Starts a walk over a snapshot of the set's values: the snapshot holds
/// one clone of every stored value, and handing its values out one by one
/// produces them in storage order, each exactly once.
pub fn set_iterate<T: Clone, FH: Fn(&T) -> usize, FE: Fn(&T, &T) -> bool>(
    set: &ValueSet<T, FH, FE>,
    iter: &mut SetIterator<T>,
)
    ensures
        final (iter).set matches Some(snap) && snap@.len() == set@.len() && forall|j: int|
            0 <= j < snap@.len() ==> vstd::pervasive::cloned(
                set@[snap@.len() - 1 - j],
                #[trigger] snap@[j],
            ),
        final (iter).next_chain == 0,
{
    let n = set.table.len();
    let mut snap: Vec<T> = Vec::new();
    let mut i: usize = 0;
    while i < n
        invariant
            n == set.table@.len(),
            i <= n,
            snap@.len() == i,
            forall|j: int|
                0 <= j < i ==> vstd::pervasive::cloned(set@[n - 1 - j], #[trigger] snap@[j]),
        decreases n - i,
    {
        snap.push(set.table[n - 1 - i].data.clone());
        i = i + 1;
    }
    iter.set = Some(snap);
    iter.next_entry = None;
    iter.next_chain = 0;
}

/// Whether the walk has values left.
pub fn set_iter_has_more<T>(iterator: &SetIterator<T>) -> (r: bool)
    ensures
        r <==> (iterator.set matches Some(snap) && snap@.len() > 0),
{
    match &iterator.set {
        Some(snap) => snap.len() > 0,
        None => false,
    }
}

/// The next value of the walk: exactly the next value of the snapshot,
/// while one is left.
pub fn set_iter_next<T: Clone>(iterator: &mut SetIterator<T>) -> (r: Option<T>)
    ensures
        match old(iterator).set {
            Some(snap) => if snap@.len() > 0 {
                r == Some(snap@.last()) && (final (iterator).set matches Some(s2) && s2@ == snap@.drop_last())
                    && final (iterator).next_chain == if old(iterator).next_chain < usize::MAX {
                    old(iterator).next_chain + 1
                } else {
                    old(iterator).next_chain as int
                }
            } else {
                r is None && (final (iterator).set matches Some(s2) && s2@ == snap@)
            },
            None => r is None && final (iterator).set is None,
        },
{
    match &mut iterator.set {
        Some(snap) => {
            match snap.pop() {
                Some(v) => {
                    if iterator.next_chain < usize::MAX {
                        iterator.next_chain = iterator.next_chain + 1;
                    }
                    Some(v)
                },
                None => None,
            }
        },
        None => None,
    }
}


/// Position `j` of `from` is accounted for in `to`: a clone of that value
/// is present in `to` itself, or the equality callback accepted a clone of
/// it against a value present in `to`.
pub open spec fn set_absorbed<T: Clone, FE: Fn(&T, &T) -> bool>(
    eq: FE,
    from: Seq<T>,
    j: int,
    to: Seq<T>,
) -> bool {
    exists|v: T, w: int|
        #![trigger vstd::pervasive::cloned(from[j], v), to[w]]
        0 <= w < to.len() && vstd::pervasive::cloned(from[j], v) && (v == to[w] || call_ensures(
            eq,
            (&v, &to[w]),
            true,
        ))
}

/// A value is a clone of some value of `from`.
pub open spec fn set_from<T: Clone>(elem: T, from: Seq<T>) -> bool {
    exists|j: int| 0 <= j < from.len() && #[trigger] vstd::pervasive::cloned(from[j], elem)
}

/// A value of `to` came from somewhere: it is a clone of a value of
/// `from1` or of `from2`.
pub open spec fn set_sourced<T: Clone>(elem: T, from1: Seq<T>, from2: Seq<T>) -> bool {
    (exists|j: int| 0 <= j < from1.len() && #[trigger] vstd::pervasive::cloned(from1[j], elem))
        || (exists|j: int|
        0 <= j < from2.len() && #[trigger] vstd::pervasive::cloned(from2[j], elem))
}

/// Position `j` of `from` was screened out: the equality callback rejected
/// a clone of a clone of that value against every value of `against`.
pub open spec fn set_screened<T: Clone, FE: Fn(&T, &T) -> bool>(
    eq: FE,
    from: Seq<T>,
    j: int,
    against: Seq<T>,
) -> bool {
    exists|v: T, v2: T|
        #![trigger vstd::pervasive::cloned(from[j], v), vstd::pervasive::cloned(v, v2)]
        vstd::pervasive::cloned(from[j], v) && vstd::pervasive::cloned(v, v2) && forall|w: int|
            0 <= w < against.len() ==> call_ensures(eq, (&v2, &against[w]), false)
}

/// What absorbs a value keeps absorbing it as it grows at the end.
proof fn lemma_absorbed_extend<T: Clone, FE: Fn(&T, &T) -> bool>(
    eq: FE,
    from: Seq<T>,
    j: int,
    to: Seq<T>,
    to2: Seq<T>,
)
    requires
        set_absorbed(eq, from, j, to),
        to2.len() >= to.len(),
        forall|w: int| 0 <= w < to.len() ==> to2[w] == to[w],
    ensures
        set_absorbed(eq, from, j, to2),
{
    let (v, w) = choose|v: T, w: int|
        #![trigger vstd::pervasive::cloned(from[j], v), to[w]]
        0 <= w < to.len() && vstd::pervasive::cloned(from[j], v) && (v == to[w] || call_ensures(
            eq,
            (&v, &to[w]),
            true,
        ));
    assert(to2[w] == to[w]);
    assert(0 <= w < to2.len() && vstd::pervasive::cloned(from[j], v) && (v == to2[w]
        || call_ensures(eq, (&v, &to2[w]), true)));
}

/// The union of two sets: every value of `set1`, then every value of
/// `set2` that the equality callback does not accept against one already
/// taken.  Every value of either input is accounted for in the result,
/// every result value comes from an input, and the result's values are
/// pairwise distinct under the callback (part of `wf`).
pub fn set_union<T: Clone, FH: Fn(&T) -> usize + Copy, FE: Fn(&T, &T) -> bool + Copy>(
    set1: &ValueSet<T, FH, FE>,
    set2: &ValueSet<T, FH, FE>,
) -> (r: Option<ValueSet<T, FH, FE>>)
    requires
        set1.wf(),
        set2.wf(),
        set1.table@.len() + set2.table@.len() < usize::MAX,
    ensures
        r matches Some(s) && s.wf() && s@.len() <= set1@.len() + set2@.len() && s.equal_func
            == set1.equal_func && (forall|j: int|
            0 <= j < set1@.len() ==> #[trigger] set_absorbed(set1.equal_func, set1@, j, s@))
            && (forall|j: int|
            0 <= j < set2@.len() ==> #[trigger] set_absorbed(set1.equal_func, set2@, j, s@))
            && (forall|i: int|
            0 <= i < s@.len() ==> #[trigger] set_sourced(s@[i], set1@, set2@)),
{
    let mut new_set: ValueSet<T, FH, FE> = ValueSet {
        entries: 0,
        table: Vec::new(),
        hash_func: set1.hash_func,
        equal_func: set1.equal_func,
        alloc_limit: None,
    };
    proof {
        assert(new_set@ =~= Seq::<T>::empty());
    }
    let ghost eqf = set1.equal_func;
    let mut i: usize = 0;
    while i < set1.table.len()
        invariant
            set1.wf(),
            set2.wf(),
            set1.table@.len() + set2.table@.len() < usize::MAX,
            i <= set1.table@.len(),
            new_set.wf(),
            new_set@.len() <= i,
            new_set.equal_func == eqf,
            eqf == set1.equal_func,
            new_set.alloc_limit is None,
            forall|jj: int| 0 <= jj < i ==> #[trigger] set_absorbed(eqf, set1@, jj, new_set@),
            forall|k: int|
                0 <= k < new_set@.len() ==> #[trigger] set_sourced(new_set@[k], set1@, set2@),
        decreases set1.table@.len() - i,
    {
        let v = set1.table[i].data.clone();
        proof {
            assert(vstd::pervasive::cloned(set1@[i as int], v));
        }
        let ghost pre = new_set@;
        let added = set_insert(&mut new_set, v);
        proof {
            lemma_union_step(eqf, set1@, set2@, i as int, pre, new_set@, v, added, true);
        }
        i = i + 1;
    }
    let mut j: usize = 0;
    while j < set2.table.len()
        invariant
            set1.wf(),
            set2.wf(),
            set1.table@.len() + set2.table@.len() < usize::MAX,
            j <= set2.table@.len(),
            new_set.wf(),
            new_set@.len() <= set1.table@.len() + j,
            new_set.equal_func == eqf,
            eqf == set1.equal_func,
            new_set.alloc_limit is None,
            forall|jj: int|
                0 <= jj < set1@.len() ==> #[trigger] set_absorbed(eqf, set1@, jj, new_set@),
            forall|jj: int| 0 <= jj < j ==> #[trigger] set_absorbed(eqf, set2@, jj, new_set@),
            forall|k: int|
                0 <= k < new_set@.len() ==> #[trigger] set_sourced(new_set@[k], set1@, set2@),
        decreases set2.table@.len() - j,
    {
        let v = set2.table[j].data.clone();
        proof {
            assert(vstd::pervasive::cloned(set2@[j as int], v));
        }
        let ghost pre = new_set@;
        let added = set_insert(&mut new_set, v);
        proof {
            lemma_union_step(eqf, set2@, set1@, j as int, pre, new_set@, v, added, false);
            assert forall|jj: int| 0 <= jj < set1@.len() implies #[trigger] set_absorbed(
                eqf,
                set1@,
                jj,
                new_set@,
            ) by {
                lemma_absorbed_extend(eqf, set1@, jj, pre, new_set@);
            }
        }
        j = j + 1;
    }
    Some(new_set)
}

/// One insert step of a union keeps the book-keeping: what was absorbed
/// stays absorbed, the value just handled is now absorbed, and every
/// result value still has a source.
proof fn lemma_union_step<T: Clone, FE: Fn(&T, &T) -> bool>(
    eq: FE,
    from: Seq<T>,
    other: Seq<T>,
    idx: int,
    pre: Seq<T>,
    post: Seq<T>,
    v: T,
    added: bool,
    from_is_first: bool,
)
    requires
        0 <= idx < from.len(),
        vstd::pervasive::cloned(from[idx], v),
        added ==> post == pre.push(v),
        !added ==> post == pre && exists|w: int|
            0 <= w < pre.len() && #[trigger] call_ensures(eq, (&v, &pre[w]), true),
        forall|jj: int| 0 <= jj < idx ==> #[trigger] set_absorbed(eq, from, jj, pre),
        from_is_first ==> forall|k: int|
            0 <= k < pre.len() ==> #[trigger] set_sourced(pre[k], from, other),
        !from_is_first ==> forall|k: int|
            0 <= k < pre.len() ==> #[trigger] set_sourced(pre[k], other, from),
    ensures
        forall|jj: int| 0 <= jj < idx + 1 ==> #[trigger] set_absorbed(eq, from, jj, post),
        from_is_first ==> forall|k: int|
            0 <= k < post.len() ==> #[trigger] set_sourced(post[k], from, other),
        !from_is_first ==> forall|k: int|
            0 <= k < post.len() ==> #[trigger] set_sourced(post[k], other, from),
{
    assert forall|jj: int| 0 <= jj < idx + 1 implies #[trigger] set_absorbed(
        eq,
        from,
        jj,
        post,
    ) by {
        if jj < idx {
            lemma_absorbed_extend(eq, from, jj, pre, post);
        } else {
            if added {
                let w = post.len() - 1;
                assert(post[w] == v);
                assert(0 <= w < post.len() && vstd::pervasive::cloned(from[jj], v) && (v == post[w]
                    || call_ensures(eq, (&v, &post[w]), true)));
            } else {
                let w = choose|w: int|
                    0 <= w < pre.len() && #[trigger] call_ensures(eq, (&v, &pre[w]), true);
                assert(0 <= w < post.len() && vstd::pervasive::cloned(from[jj], v) && (v == post[w]
                    || call_ensures(eq, (&v, &post[w]), true)));
            }
        }
    }
    if from_is_first {
        assert forall|k: int| 0 <= k < post.len() implies #[trigger] set_sourced(
            post[k],
            from,
            other,
        ) by {
            if k < pre.len() {
                assert(post[k] == pre[k]);
            } else {
                assert(post[k] == v);
                assert(vstd::pervasive::cloned(from[idx], post[k]));
            }
        }
    } else {
        assert forall|k: int| 0 <= k < post.len() implies #[trigger] set_sourced(
            post[k],
            other,
            from,
        ) by {
            if k < pre.len() {
                assert(post[k] == pre[k]);
            } else {
                assert(post[k] == v);
                assert(vstd::pervasive::cloned(from[idx], post[k]));
            }
        }
    }
}

/// The intersection of two sets: every value of `set1` whose clone the
/// equality callback accepts against some value of `set2`.  Every value of
/// `set1` is either accounted for in the result or was rejected against
/// everything in `set2`; every result value comes from `set1`; the
/// result's values are pairwise distinct under the callback (part of
/// `wf`).
pub fn set_intersection<T: Clone, FH: Fn(&T) -> usize + Copy, FE: Fn(&T, &T) -> bool + Copy>(
    set1: &ValueSet<T, FH, FE>,
    set2: &ValueSet<T, FH, FE>,
) -> (r: Option<ValueSet<T, FH, FE>>)
    requires
        set1.wf(),
        set2.wf(),
        set1.table@.len() < usize::MAX,
    ensures
        r matches Some(s) && s.wf() && s@.len() <= set1@.len() && s.equal_func == set2.equal_func
            && (forall|j: int|
            0 <= j < set1@.len() ==> #[trigger] set_absorbed(set2.equal_func, set1@, j, s@)
                || set_screened(set2.equal_func, set1@, j, set2@)) && (forall|i: int|
            0 <= i < s@.len() ==> #[trigger] set_from(s@[i], set1@)),
{
    let mut new_set: ValueSet<T, FH, FE> = ValueSet {
        entries: 0,
        table: Vec::new(),
        hash_func: set1.hash_func,
        equal_func: set2.equal_func,
        alloc_limit: None,
    };
    proof {
        assert(new_set@ =~= Seq::<T>::empty());
    }
    let ghost eqf = set2.equal_func;
    let mut i: usize = 0;
    while i < set1.table.len()
        invariant
            set1.wf(),
            set2.wf(),
            set1.table@.len() < usize::MAX,
            i <= set1.table@.len(),
            new_set.wf(),
            new_set@.len() <= i,
            new_set.equal_func == eqf,
            eqf == set2.equal_func,
            new_set.alloc_limit is None,
            forall|jj: int|
                0 <= jj < i ==> #[trigger] set_absorbed(eqf, set1@, jj, new_set@)
                    || set_screened(eqf, set1@, jj, set2@),
            forall|k: int|
                0 <= k < new_set@.len() ==> #[trigger] set_from(new_set@[k], set1@),
        decreases set1.table@.len() - i,
    {
        let v = set1.table[i].data.clone();
        proof {
            assert(vstd::pervasive::cloned(set1@[i as int], v));
        }
        let v2 = v.clone();
        proof {
            assert(vstd::pervasive::cloned(v, v2));
        }
        let ghost pre = new_set@;
        let matched = set_query(set2, v2);
        if matched != 0 {
            let added = set_insert(&mut new_set, v);
            proof {
                assert forall|jj: int| 0 <= jj < i + 1 implies #[trigger] set_absorbed(
                    eqf,
                    set1@,
                    jj,
                    new_set@,
                ) || set_screened(eqf, set1@, jj, set2@) by {
                    if jj < i {
                        if set_absorbed(eqf, set1@, jj, pre) {
                            lemma_absorbed_extend(eqf, set1@, jj, pre, new_set@);
                        }
                    } else {
                        if added {
                            let w = new_set@.len() - 1;
                            assert(new_set@[w] == v);
                            assert(0 <= w < new_set@.len() && vstd::pervasive::cloned(
                                set1@[jj],
                                v,
                            ) && (v == new_set@[w] || call_ensures(
                                eqf,
                                (&v, &new_set@[w]),
                                true,
                            )));
                        } else {
                            let w = choose|w: int|
                                0 <= w < pre.len() && #[trigger] call_ensures(
                                    eqf,
                                    (&v, &pre[w]),
                                    true,
                                );
                            assert(0 <= w < new_set@.len() && vstd::pervasive::cloned(
                                set1@[jj],
                                v,
                            ) && (v == new_set@[w] || call_ensures(
                                eqf,
                                (&v, &new_set@[w]),
                                true,
                            )));
                        }
                        assert(set_absorbed(eqf, set1@, jj, new_set@));
                    }
                }
                assert forall|k: int| 0 <= k < new_set@.len() implies #[trigger] set_from(
                    new_set@[k],
                    set1@,
                ) by {
                    if k < pre.len() {
                        assert(new_set@[k] == pre[k]);
                    } else {
                        assert(new_set@[k] == v);
                        assert(vstd::pervasive::cloned(set1@[i as int], new_set@[k]));
                    }
                }
            }
        } else {
            proof {
                // The query rejected a clone of this value against every
                // value of the other set.
                assert(set_screened(eqf, set1@, i as int, set2@)) by {
                    assert(vstd::pervasive::cloned(set1@[i as int], v)
                        && vstd::pervasive::cloned(v, v2));
                    assert(forall|w: int|
                        0 <= w < set2@.len() ==> call_ensures(eqf, (&v2, &set2@[w]), false));
                }
            }
        }
        i = i + 1;
    }
    Some(new_set)
}

/// All values held, as a fresh array of clones in insertion order.
pub fn set_to_array<T: Clone, FH: Fn(&T) -> usize, FE: Fn(&T, &T) -> bool>(
    set: &ValueSet<T, FH, FE>,
) -> (r: Vec<T>)
    ensures
        r@.len() == set@.len(),
        forall|i: int| 0 <= i < r@.len() ==> vstd::pervasive::cloned(set@[i], #[trigger] r@[i]),
{
    let mut array: Vec<T> = Vec::new();
    let mut i: usize = 0;
    while i < set.table.len()
        invariant
            i <= set.table@.len(),
            array@.len() == i,
            forall|k: int|
                0 <= k < i ==> vstd::pervasive::cloned(set@[k], #[trigger] array@[k]),
        decreases set.table@.len() - i,
    {
        array.push(set.table[i].data.clone());
        i = i + 1;
    }
    array
}

} // verus!
