//! A doubly linked list of values.  Entries are addressed by stable
//! handles carrying the entry's value and an identity, and can be walked
//! in both directions.

use crate::arraylist::{sorted_by_key, ArrayListComparable};
use vstd::prelude::*;

verus! {

broadcast use vstd::seq_lib::group_to_multiset_ensures;

/// A handle to one entry: its value and its identity in the list.
#[derive(Clone, Copy, PartialEq, Debug)]
pub struct ListEntry<T> {
    pub data: T,
    pub id: u64,
}

impl<T: ArrayListComparable> ArrayListComparable for ListEntry<T> {
    open spec fn key(&self) -> int {
        self.data.key()
    }

    fn compare(&self, other: &Self) -> (r: i32) {
        self.data.compare(&other.data)
    }
}

/// A doubly linked list: the entries from head to tail.
pub struct List<T> {
    pub items: Vec<ListEntry<T>>,
    pub next_id: u64,
}

/// A walk over a list that can drop the entry it last produced.
pub struct ListIterator<T> {
    /// The position the next value will be read from.
    pub prev_next: Option<usize>,
    /// The position of the last value produced, until it is dropped.
    pub current: Option<usize>,
    pub marker: core::marker::PhantomData<T>,
}

impl<T> List<T> {
    /// The values from head to tail.
    pub open spec fn view(self) -> Seq<T> {
        Seq::new(self.items@.len(), |i: int| self.items@[i].data)
    }

    /// Identities are unique and never reused.
    pub open spec fn wf(self) -> bool {
        &&& forall|i: int|
            0 <= i < self.items@.len() ==> (#[trigger] self.items@[i]).id < self.next_id
        &&& forall|i: int, j: int|
            0 <= i < j < self.items@.len() ==> self.items@[i].id != self.items@[j].id
    }
}

impl<T> Default for List<T> {
    /// An empty list.
    fn default() -> (r: Self)
        ensures
            r@ == Seq::<T>::empty(),
            r.wf(),
    {
        let l = List { items: Vec::new(), next_id: 0 };
        proof {
            assert(l@ =~= Seq::<T>::empty());
        }
        l
    }
}

/// Appends `data` at the tail and hands back the new entry's handle.
pub fn list_append<T: Copy>(list: &mut List<T>, data: T) -> (r: Option<ListEntry<T>>)
    requires
        old(list).wf(),
        old(list).next_id < u64::MAX,
    ensures
        final (list).wf(),
        final (list)@ == old(list)@.push(data),
        r matches Some(e) && e.data == data && e == final (list).items@.last(),
{
    let entry = ListEntry { data, id: list.next_id };
    list.next_id = list.next_id + 1;
    list.items.push(entry);
    proof {
        assert(list@ =~= old(list)@.push(data));
    }
    Some(entry)
}

/// Prepends `data` at the head and hands back the new entry's handle.
pub fn list_prepend<T: Copy>(list: &mut List<T>, data: T) -> (r: Option<ListEntry<T>>)
    requires
        old(list).wf(),
        old(list).next_id < u64::MAX,
        old(list).items@.len() < usize::MAX,
    ensures
        final (list).wf(),
        final (list)@ == old(list)@.insert(0, data),
        r matches Some(e) && e.data == data && e == final (list).items@[0],
{
    let entry = ListEntry { data, id: list.next_id };
    list.next_id = list.next_id + 1;
    list.items.insert(0, entry);
    proof {
        assert(list@ =~= old(list)@.insert(0, data));
    }
    Some(entry)
}

/// The handle of the entry at position `n`, while one exists.
pub fn list_nth_entry<T: Copy>(list: &List<T>, n: usize) -> (r: Option<ListEntry<T>>)
    ensures
        n < list.items@.len() ==> (r matches Some(e) && e == list.items@[n as int]),
        n >= list.items@.len() ==> r is None,
{
    if n < list.items.len() {
        Some(list.items[n])
    } else {
        None
    }
}

/// The value at position `n`, while one exists.
pub fn list_nth_data<T: Copy>(list: &List<T>, n: usize) -> (r: Option<T>)
    ensures
        n < list@.len() ==> (r matches Some(v) && v == list@[n as int]),
        n >= list@.len() ==> r is None,
{
    if n < list.items.len() {
        Some(list.items[n].data)
    } else {
        None
    }
}

/// The number of entries.
pub fn list_length<T>(list: &List<T>) -> (r: usize)
    ensures
        r == list.items@.len(),
{
    list.items.len()
}

/// The value an entry handle carries, while one is given.
pub fn list_data<T: Copy>(listentry: Option<ListEntry<T>>) -> (r: Option<T>)
    ensures
        listentry matches Some(e) ==> (r matches Some(v) && v == e.data),
        listentry is None ==> r is None,
{
    match listentry {
        Some(e) => Some(e.data),
        None => None,
    }
}

/// The handle after `listentry`, while the entry is still present and has
/// a successor.
pub fn list_next<T: Copy>(list: &List<T>, listentry: Option<ListEntry<T>>) -> (r: Option<
    ListEntry<T>,
>)
    ensures
        r matches Some(e) ==> exists|i: int|
            0 <= i < list.items@.len() - 1 && (#[trigger] list.items@[i]).id
                == listentry.unwrap().id && e == list.items@[i + 1],
{
    let entry = match listentry {
        Some(e) => e,
        None => {
            return None;
        },
    };
    let mut i: usize = 0;
    while i < list.items.len()
        invariant
            i <= list.items@.len(),
            listentry matches Some(ee) && ee.id == entry.id,
        decreases list.items@.len() - i,
    {
        if list.items[i].id == entry.id {
            if i + 1 < list.items.len() {
                return Some(list.items[i + 1]);
            } else {
                return None;
            }
        }
        i = i + 1;
    }
    None
}

/// The handle before `listentry`, while the entry is still present and has
/// a predecessor.
pub fn list_prev<T: Copy>(list: &List<T>, listentry: &Option<ListEntry<T>>) -> (r: Option<
    ListEntry<T>,
>)
    ensures
        r matches Some(e) ==> exists|i: int|
            1 <= i < list.items@.len() && (#[trigger] list.items@[i]).id == listentry.unwrap().id
                && e == list.items@[i - 1],
{
    let entry = match listentry {
        Some(e) => e,
        None => {
            return None;
        },
    };
    let mut i: usize = 0;
    while i < list.items.len()
        invariant
            i <= list.items@.len(),
            listentry matches Some(ee) && ee.id == entry.id,
        decreases list.items@.len() - i,
    {
        if list.items[i].id == entry.id {
            if i > 0 {
                return Some(list.items[i - 1]);
            } else {
                return None;
            }
        }
        i = i + 1;
    }
    None
}

/// Removes the entry the handle names, while it is still present; reports
/// 1 exactly when an entry left the list.
pub fn list_remove_entry<T: Copy>(list: &mut List<T>, entry: &ListEntry<T>) -> (r: i32)
    requires
        old(list).wf(),
    ensures
        final (list).wf(),
        r == 0 || r == 1,
        r == 1 ==> (exists|i: int|
            0 <= i < old(list).items@.len() && (#[trigger] old(list).items@[i]).id == entry.id
                && final (list).items@ == old(list).items@.remove(i)),
        r == 0 ==> final (list).items@ == old(list).items@,
{
    let mut i: usize = 0;
    while i < list.items.len()
        invariant
            old(list).wf(),
            list == old(list),
            i <= list.items@.len(),
        decreases list.items@.len() - i,
    {
        if list.items[i].id == entry.id {
            list.items.remove(i);
            proof {
                let s = list.items@;
                let pre = old(list).items@;
                assert(s == pre.remove(i as int));
                assert forall|p: int, q: int| 0 <= p < q < s.len() implies s[p].id != s[q].id by {
                    let pp = if p < i {
                        p
                    } else {
                        p + 1
                    };
                    let qq = if q < i {
                        q
                    } else {
                        q + 1
                    };
                    assert(s[p] == pre[pp] && s[q] == pre[qq]);
                }
                assert forall|p: int| 0 <= p < s.len() implies (#[trigger] s[p]).id
                    < list.next_id by {
                    let pp = if p < i {
                        p
                    } else {
                        p + 1
                    };
                    assert(s[p] == pre[pp]);
                }
            }
            return 1;
        }
        i = i + 1;
    }
    0
}


/// The elements of `s` kept by the decision word `d`: position `i`
/// survives exactly when `d[i]` is false, and the survivors keep their
/// order.
pub open spec fn kept_by<E>(s: Seq<E>, d: Seq<bool>) -> Seq<E>
    decreases s.len(),
{
    if s.len() == 0 {
        Seq::empty()
    } else {
        (if d[0] {
            Seq::empty()
        } else {
            seq![s[0]]
        }).add(kept_by(s.drop_first(), d.drop_first()))
    }
}

/// How many positions the decision word removes.
pub open spec fn removed_count(d: Seq<bool>) -> nat
    decreases d.len(),
{
    if d.len() == 0 {
        0
    } else {
        (if d[0] {
            1nat
        } else {
            0nat
        }) + removed_count(d.drop_first())
    }
}

/// Deciding one more element appends it to the survivors or to the
/// removal count.
pub proof fn lemma_kept_by_push<E>(s: Seq<E>, d: Seq<bool>, e: E, dec: bool)
    requires
        s.len() == d.len(),
    ensures
        kept_by(s.push(e), d.push(dec)) == if dec {
            kept_by(s, d)
        } else {
            kept_by(s, d).push(e)
        },
        removed_count(d.push(dec)) == removed_count(d) + if dec {
            1nat
        } else {
            0nat
        },
    decreases s.len(),
{
    if s.len() == 0 {
        assert(s.push(e).drop_first() =~= s);
        assert(d.push(dec).drop_first() =~= d);
        if dec {
            assert(kept_by(s.push(e), d.push(dec)) =~= kept_by(s, d));
        } else {
            assert(kept_by(s.push(e), d.push(dec)) =~= kept_by(s, d).push(e));
        }
    } else {
        assert(s.push(e).drop_first() =~= s.drop_first().push(e));
        assert(d.push(dec).drop_first() =~= d.drop_first().push(dec));
        lemma_kept_by_push(s.drop_first(), d.drop_first(), e, dec);
        if dec {
            assert(kept_by(s.push(e), d.push(dec)) =~= kept_by(s, d));
        } else {
            assert(kept_by(s.push(e), d.push(dec)) =~= kept_by(s, d).push(e));
        }
    }
}

/// Removes every entry the callback accepts against `data`: the survivors
/// are exactly the entries the callback rejected, in their original order,
/// and the number of entries removed is returned.
pub fn list_remove_data<T: Copy, F: Fn(&T, &T) -> bool>(
    list: &mut List<T>,
    callback: F,
    data: &T,
) -> (r: usize)
    requires
        old(list).wf(),
        forall|a: &T, b: &T| #[trigger] call_requires(callback, (a, b)),
    ensures
        final (list).wf(),
        final (list).items@.len() + r == old(list).items@.len(),
        exists|d: Seq<bool>|
            d.len() == old(list).items@.len() && final (list).items@ == #[trigger] kept_by(
                old(list).items@,
                d,
            ) && r == removed_count(d) && forall|i: int|
                0 <= i < d.len() ==> call_ensures(
                    callback,
                    (&old(list).items@[i].data, data),
                    d[i],
                ),
{
    let mut kept: Vec<ListEntry<T>> = Vec::new();
    let mut removed: usize = 0;
    let mut i: usize = 0;
    let ghost mut decisions: Seq<bool> = Seq::empty();
    while i < list.items.len()
        invariant
            old(list).wf(),
            list == old(list),
            forall|a: &T, b: &T| #[trigger] call_requires(callback, (a, b)),
            i <= list.items@.len(),
            kept@.len() + removed == i,
            decisions.len() == i,
            kept@ == kept_by(list.items@.take(i as int), decisions),
            removed == removed_count(decisions),
            forall|w: int|
                0 <= w < i ==> call_ensures(
                    callback,
                    (&(#[trigger] list.items@[w]).data, data),
                    decisions[w],
                ),
            forall|k: int|
                0 <= k < kept@.len() ==> exists|w: int|
                    0 <= w < i && list.items@[w] == #[trigger] kept@[k],
            forall|p: int, q: int| 0 <= p < q < kept@.len() ==> kept@[p].id != kept@[q].id,
            forall|k: int| 0 <= k < kept@.len() ==> (#[trigger] kept@[k]).id < list.next_id,
        decreases list.items@.len() - i,
    {
        let item = list.items[i];
        let ghost pre_kept = kept@;
        let matched = callback(&item.data, data);
        proof {
            lemma_kept_by_push(list.items@.take(i as int), decisions, item, matched);
            assert(list.items@.take(i + 1) =~= list.items@.take(i as int).push(item));
        }
        if matched {
            removed = removed + 1;
        } else {
            proof {
                assert forall|p: int| 0 <= p < kept@.len() implies kept@[p].id != item.id by {
                    let w = choose|w: int| 0 <= w < i && list.items@[w] == kept@[p];
                    assert(list.items@[w].id != list.items@[i as int].id);
                }
            }
            kept.push(item);
        }
        proof {
            decisions = decisions.push(matched);
        }
        i = i + 1;
    }
    proof {
        assert(list.items@.take(list.items@.len() as int) =~= list.items@);
        assert(kept@ == kept_by(old(list).items@, decisions));
        assert forall|k: int| 0 <= k < kept@.len() implies old(list).items@.contains(
            #[trigger] kept@[k],
        ) by {
            let w = choose|w: int| 0 <= w < list.items@.len() && list.items@[w] == kept@[k];
            assert(old(list).items@[w] == kept@[k]);
        }
    }
    list.items = kept;
    removed
}

/// The first entry the callback accepts against `data`, while there is
/// one.
pub fn list_find_data<T: Copy, F: Fn(&T, &T) -> bool>(
    list: &List<T>,
    callback: F,
    data: &T,
) -> (r: Option<ListEntry<T>>)
    requires
        forall|a: &T, b: &T| #[trigger] call_requires(callback, (a, b)),
    ensures
        r matches Some(e) ==> exists|i: int|
            0 <= i < list.items@.len() && e == #[trigger] list.items@[i] && call_ensures(
                callback,
                (&e.data, data),
                true,
            ),
        r is None ==> forall|i: int|
            0 <= i < list.items@.len() ==> call_ensures(
                callback,
                (&(#[trigger] list.items@[i]).data, data),
                false,
            ),
{
    let mut i: usize = 0;
    while i < list.items.len()
        invariant
            forall|a: &T, b: &T| #[trigger] call_requires(callback, (a, b)),
            i <= list.items@.len(),
            forall|k: int|
                0 <= k < i ==> call_ensures(
                    callback,
                    (&(#[trigger] list.items@[k]).data, data),
                    false,
                ),
        decreases list.items@.len() - i,
    {
        if callback(&list.items[i].data, data) {
            return Some(list.items[i]);
        }
        i = i + 1;
    }
    None
}

/// Starts a walk from the head of the list.
pub fn list_iterate<T>(list: &List<T>, iter: &mut ListIterator<T>)
    ensures
        final (iter).prev_next == Some(0usize),
        final (iter).current is None,
{
    let _ = list;
    iter.prev_next = Some(0);
    iter.current = None;
}

/// Whether the walk has values left to produce.
pub fn list_iter_has_more<T>(list: &List<T>, iter: &ListIterator<T>) -> (r: bool)
    ensures
        r <==> (iter.prev_next matches Some(p) && p < list.items@.len()),
{
    match iter.prev_next {
        Some(p) => p < list.items.len(),
        None => false,
    }
}

/// The next value of the walk, while there is one.
pub fn list_iter_next<T: Copy>(list: &List<T>, iter: &mut ListIterator<T>) -> (r: Option<T>)
    ensures
        match old(iter).prev_next {
            Some(p) => if p < list.items@.len() {
                r matches Some(v) && v == list@[p as int] && final (iter).prev_next == Some(
                    (p + 1) as usize,
                ) && final (iter).current == Some(p)
            } else {
                r is None && final (iter).current is None
            },
            None => r is None,
        },
{
    match iter.prev_next {
        Some(p) => {
            if p < list.items.len() {
                iter.current = Some(p);
                iter.prev_next = Some(p + 1);
                Some(list.items[p].data)
            } else {
                iter.current = None;
                None
            }
        },
        None => {
            iter.current = None;
            None
        },
    }
}

/// Drops the entry the walk last produced, while it has not already been
/// dropped; the walk continues after it.
pub fn list_iter_remove<T: Copy>(list: &mut List<T>, iter: &mut ListIterator<T>)
    requires
        old(list).wf(),
    ensures
        final (list).wf(),
        match old(iter).current {
            Some(c) => if c < old(list).items@.len() {
                final (list).items@ == old(list).items@.remove(c as int) && final (iter).current
                    is None && final (iter).prev_next == Some(c)
            } else {
                final (list).items@ == old(list).items@
            },
            None => final (list).items@ == old(list).items@,
        },
{
    match iter.current {
        Some(c) => {
            if c < list.items.len() {
                list.items.remove(c);
                iter.prev_next = Some(c);
                iter.current = None;
                proof {
                    let s = list.items@;
                    let pre = old(list).items@;
                    assert forall|p: int, q: int| 0 <= p < q < s.len() implies s[p].id
                        != s[q].id by {
                        let pp = if p < c {
                            p
                        } else {
                            p + 1
                        };
                        let qq = if q < c {
                            q
                        } else {
                            q + 1
                        };
                        assert(s[p] == pre[pp] && s[q] == pre[qq]);
                    }
                    assert forall|p: int| 0 <= p < s.len() implies (#[trigger] s[p]).id
                        < list.next_id by {
                        let pp = if p < c {
                            p
                        } else {
                            p + 1
                        };
                        assert(s[p] == pre[pp]);
                    }
                }
            }
        },
        None => {},
    }
}

/// Sorts the list by each value's key, in non-decreasing order, keeping
/// exactly the same values.  An optional comparison callback is accepted
/// for callers that pass one; the values' own ordering decides.  The
/// handle of the last entry is returned; without a callback nothing is
/// touched.
pub fn list_sort_internal<T: Copy + ArrayListComparable, F: Fn(&T, &T) -> i32>(
    list: &mut List<T>,
    compare_func: Option<F>,
) -> (r: Option<ListEntry<T>>)
    requires
        old(list).wf(),
    ensures
        final (list).wf(),
        compare_func is Some ==> final (list).items@.len() == old(list).items@.len()
            && sorted_by_key(final (list).items@) && final (list).items@.to_multiset() == old(
            list,
        ).items@.to_multiset(),
        compare_func is None ==> final (list).items@ == old(list).items@ && r is None,
        compare_func is Some && final (list).items@.len() > 0 ==> (r matches Some(e) && e
            == final (list).items@.last()),
        compare_func is Some && final (list).items@.len() == 0 ==> r is None,
{
    if compare_func.is_none() {
        return None;
    }
    crate::arraylist::arraylist_sort_internal(&mut list.items);
    proof {
        let s = list.items@;
        let pre = old(list).items@;
        assert forall|p: int| 0 <= p < s.len() implies (#[trigger] s[p]).id < list.next_id by {
            assert(s.to_multiset().count(s[p]) > 0);
            assert(pre.to_multiset().count(s[p]) > 0);
            assert(pre.contains(s[p]));
            let w = choose|w: int| 0 <= w < pre.len() && pre[w] == s[p];
            assert(pre[w].id < list.next_id);
        }
        assert forall|p: int, q: int| 0 <= p < q < s.len() implies s[p].id != s[q].id by {
            lemma_list_distinct_ids_after_permutation(pre, s, p, q);
        }
    }
    if list.items.len() > 0 {
        Some(list.items[list.items.len() - 1])
    } else {
        None
    }
}

/// A permutation of entries with pairwise distinct identities keeps them
/// pairwise distinct.
proof fn lemma_list_distinct_ids_after_permutation<T>(
    pre: Seq<ListEntry<T>>,
    s: Seq<ListEntry<T>>,
    p: int,
    q: int,
)
    requires
        s.to_multiset() == pre.to_multiset(),
        forall|i: int, j: int| 0 <= i < j < pre.len() ==> pre[i].id != pre[j].id,
        0 <= p < q < s.len(),
    ensures
        s[p].id != s[q].id,
{
    broadcast use vstd::seq_lib::group_to_multiset_ensures;

    if s[p].id == s[q].id {
        if s[p] == s[q] {
            let r = s.remove(q);
            assert(r.to_multiset() == s.to_multiset().remove(s[q]));
            assert(r[p] == s[p]);
            assert(r.contains(s[p]));
            assert(r.to_multiset().count(s[p]) > 0);
            assert(s.to_multiset().count(s[p]) >= 2);
            assert(pre.to_multiset().count(s[p]) >= 2);
            let v = s[p];
            assert(pre.contains(v));
            let i = choose|i: int| 0 <= i < pre.len() && pre[i] == v;
            let r2 = pre.remove(i);
            assert(r2.to_multiset() == pre.to_multiset().remove(v));
            assert(r2.to_multiset().count(v) >= 1);
            assert(r2.contains(v));
            let j = choose|j: int| 0 <= j < r2.len() && r2[j] == v;
            let jj = if j < i {
                j
            } else {
                j + 1
            };
            assert(pre[jj] == v && pre[i] == v && jj != i);
            assert(pre[i].id == pre[jj].id);
            assert(false);
        } else {
            assert(s.to_multiset().count(s[p]) > 0);
            assert(pre.contains(s[p]));
            assert(s.to_multiset().count(s[q]) > 0);
            assert(pre.contains(s[q]));
            let i = choose|i: int| 0 <= i < pre.len() && pre[i] == s[p];
            let j = choose|j: int| 0 <= j < pre.len() && pre[j] == s[q];
            assert(pre[i].id == pre[j].id && pre[i] != pre[j]);
        }
    }
}

/// Sorts the list in place; see `list_sort_internal`.
pub fn list_sort<T: Copy + ArrayListComparable, F: Fn(&T, &T) -> i32>(
    list: &mut List<T>,
    compare_func: Option<F>,
)
    requires
        old(list).wf(),
    ensures
        final (list).wf(),
        compare_func is Some ==> final (list).items@.len() == old(list).items@.len()
            && sorted_by_key(final (list).items@) && final (list).items@.to_multiset() == old(
            list,
        ).items@.to_multiset(),
        compare_func is None ==> final (list).items@ == old(list).items@,
{
    list_sort_internal(list, compare_func);
}

/// All values, head to tail, as an array; an empty list yields nothing.
pub fn list_to_array<T: Copy>(list: &List<T>) -> (r: Option<Vec<T>>)
    ensures
        list@.len() == 0 ==> r is None,
        list@.len() > 0 ==> (r matches Some(a) && a@ == list@),
{
    if list.items.len() == 0 {
        return None;
    }
    let mut array: Vec<T> = Vec::new();
    let mut i: usize = 0;
    while i < list.items.len()
        invariant
            i <= list.items@.len(),
            array@.len() == i,
            forall|k: int| 0 <= k < i ==> array@[k] == list@[k],
        decreases list.items@.len() - i,
    {
        array.push(list.items[i].data);
        i = i + 1;
    }
    proof {
        assert(array@ =~= list@);
    }
    Some(array)
}

/// Releases the whole list.
pub fn list_free<T>(list: List<T>) {
    let _ = list;
}

} // verus!
