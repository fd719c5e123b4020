//! An automatically resizing array of values, with insertion and removal at
//! arbitrary indices, linear search, and an in-place sort.

use vstd::multiset::Multiset;
use vstd::prelude::*;

verus! {

broadcast use vstd::seq_lib::group_to_multiset_ensures;

/// A value the array list can sort: its ordering is the ordering of an
/// integer key, and `compare` reports that ordering.
pub trait ArrayListComparable: Sized {
    /// The key that decides this value's place in the sorting order.
    spec fn key(&self) -> int;

    /// Three-way comparison, consistent with `key`.
    fn compare(&self, other: &Self) -> (r: i32)
        ensures
            r < 0 <==> self.key() < other.key(),
            r == 0 <==> self.key() == other.key(),
            r > 0 <==> self.key() > other.key(),
    ;
}

impl ArrayListComparable for i32 {
    open spec fn key(&self) -> int {
        *self as int
    }

    fn compare(&self, other: &Self) -> (r: i32) {
        if *self < *other {
            -1
        } else if *self > *other {
            1
        } else {
            0
        }
    }
}

/// A plain integer value for the array list.
#[derive(PartialEq, Eq, Structural, Clone, Copy, Debug)]
pub struct CustomInt(pub i32);

impl ArrayListComparable for CustomInt {
    open spec fn key(&self) -> int {
        self.0 as int
    }

    fn compare(&self, other: &Self) -> (r: i32) {
        if self.0 < other.0 {
            -1
        } else if self.0 > other.0 {
            1
        } else {
            0
        }
    }
}

/// An automatically resizing array: `data` holds the first `length` values.
pub struct ArrayList<T: ArrayListComparable + Clone> {
    pub data: Vec<T>,
    pub length: usize,
    pub _alloced: usize,
}

impl<T: ArrayListComparable + Clone> ArrayList<T> {
    /// The stored values never outrun the book-keeping: `length` is the
    /// number of values and `data` holds exactly those.
    pub open spec fn wf(self) -> bool {
        self.data@.len() == self.length
    }
}

/// The keys of `s` are in non-decreasing order.
pub open spec fn sorted_by_key<T: ArrayListComparable>(s: Seq<T>) -> bool {
    forall|i: int, j: int| 0 <= i < j < s.len() ==> s[i].key() <= s[j].key()
}

/// Creates an array list; a requested length of zero falls back to a
/// default sizing of sixteen slots.
pub fn arraylist_new<T: ArrayListComparable + Clone>(length: usize) -> (r: Option<ArrayList<T>>)
    ensures
        r matches Some(l) && l.wf() && l.length == 0 && l.data@.len() == 0,
{
    let len: usize = if length == 0 {
        16
    } else {
        length
    };
    let data: Vec<T> = Vec::with_capacity(len);
    Some(ArrayList { data, length: 0, _alloced: len })
}

/// Doubles the sizing the array believes it has reserved.
pub fn arraylist_enlarge<T: ArrayListComparable + Clone>(arraylist: &mut ArrayList<T>) -> (r: i32)
    ensures
        r == 0 || r == 1,
        final (arraylist).data@ == old(arraylist).data@,
        final (arraylist).length == old(arraylist).length,
        r == 1 ==> final (arraylist)._alloced == 2 * old(arraylist)._alloced,
{
    if arraylist._alloced > usize::MAX / 2 {
        return 0;
    }
    arraylist._alloced = arraylist._alloced * 2;
    1
}

/// Inserts `data` at `index`, shifting what follows one place up; an index
/// past the end is rejected.
pub fn arraylist_insert<T: ArrayListComparable + Clone>(
    arraylist: &mut ArrayList<T>,
    index: usize,
    data: T,
) -> (r: i32)
    requires
        old(arraylist).wf(),
        old(arraylist).length < usize::MAX,
    ensures
        final (arraylist).wf(),
        r == 0 || r == 1,
        r == 1 <==> index <= old(arraylist).length,
        r == 1 ==> final (arraylist).data@ == old(arraylist).data@.insert(index as int, data)
            && final (arraylist).length == old(arraylist).length + 1,
        r == 0 ==> final (arraylist).data@ == old(arraylist).data@ && final (arraylist).length
            == old(arraylist).length,
{
    if index > arraylist.length {
        return 0;
    }
    if arraylist.length + 1 > arraylist._alloced {
        if arraylist_enlarge(arraylist) == 0 {
            arraylist._alloced = arraylist.length + 1;
        }
    }
    arraylist.data.insert(index, data);
    arraylist.length = arraylist.length + 1;
    1
}

/// Appends `data` at the end.
pub fn arraylist_append<T: ArrayListComparable + Clone>(
    arraylist: &mut ArrayList<T>,
    data: T,
) -> (r: i32)
    requires
        old(arraylist).wf(),
        old(arraylist).length < usize::MAX,
    ensures
        final (arraylist).wf(),
        r == 1,
        final (arraylist).data@ == old(arraylist).data@.push(data),
        final (arraylist).length == old(arraylist).length + 1,
{
    let index = arraylist.length;
    let r = arraylist_insert(arraylist, index, data);
    proof {
        assert(old(arraylist).data@.insert(old(arraylist).length as int, data) =~= old(
            arraylist,
        ).data@.push(data));
    }
    r
}

/// Prepends `data` at the front.
pub fn arraylist_prepend<T: ArrayListComparable + Clone>(
    arraylist: &mut ArrayList<T>,
    data: T,
) -> (r: i32)
    requires
        old(arraylist).wf(),
        old(arraylist).length < usize::MAX,
    ensures
        final (arraylist).wf(),
        r == 1,
        final (arraylist).data@ == old(arraylist).data@.insert(0, data),
        final (arraylist).length == old(arraylist).length + 1,
{
    arraylist_insert(arraylist, 0, data)
}

/// Removes the `length` values starting at `index`; an invalid range is
/// ignored.
pub fn arraylist_remove_range<T: ArrayListComparable + Clone>(
    arraylist: &mut ArrayList<T>,
    index: usize,
    length: usize,
)
    requires
        old(arraylist).wf(),
    ensures
        final (arraylist).wf(),
        index + length <= old(arraylist).length ==> final (arraylist).data@ == old(
            arraylist,
        ).data@.subrange(0, index as int).add(
            old(arraylist).data@.subrange(
                index + length,
                old(arraylist).length as int,
            ),
        ) && final (arraylist).length == old(arraylist).length - length,
        index + length > old(arraylist).length ==> final (arraylist).data@ == old(
            arraylist,
        ).data@ && final (arraylist).length == old(arraylist).length,
{
    if index > arraylist.length || length > arraylist.length - index {
        return ;
    }
    proof {
        assert(old(arraylist).data@ =~= old(arraylist).data@.subrange(0, index as int).add(
            old(arraylist).data@.subrange(index as int, old(arraylist).length as int),
        ));
    }
    let mut removed: usize = 0;
    while removed < length
        invariant
            old(arraylist).wf(),
            removed <= length,
            index + length <= old(arraylist).length,
            arraylist.length == old(arraylist).length,
            arraylist._alloced == old(arraylist)._alloced,
            arraylist.data@ == old(arraylist).data@.subrange(0, index as int).add(
                old(arraylist).data@.subrange(
                    index + removed,
                    old(arraylist).length as int,
                ),
            ),
        decreases length - removed,
    {
        let ghost pre = arraylist.data@;
        proof {
            assert(pre.len() == index + (old(arraylist).length - (index + removed)));
        }
        arraylist.data.remove(index);
        removed = removed + 1;
        proof {
            pre.remove_ensures(index as int);
            assert(arraylist.data@ =~= old(arraylist).data@.subrange(0, index as int).add(
                old(arraylist).data@.subrange(index + removed, old(arraylist).length as int),
            ));
        }
    }
    arraylist.length = arraylist.length - length;
}

/// Removes the one value at `index`; an invalid index is ignored.
pub fn arraylist_remove<T: ArrayListComparable + Clone>(
    arraylist: &mut ArrayList<T>,
    index: usize,
)
    requires
        old(arraylist).wf(),
    ensures
        final (arraylist).wf(),
        index < old(arraylist).length ==> final (arraylist).data@ == old(
            arraylist,
        ).data@.remove(index as int) && final (arraylist).length == old(arraylist).length - 1,
        index >= old(arraylist).length ==> final (arraylist).data@ == old(arraylist).data@
            && final (arraylist).length == old(arraylist).length,
{
    arraylist_remove_range(arraylist, index, 1);
    proof {
        if index < old(arraylist).length {
            assert(old(arraylist).data@.subrange(0, index as int).add(
                old(arraylist).data@.subrange(index + 1, old(arraylist).length as int),
            ) =~= old(arraylist).data@.remove(index as int));
        }
    }
}

/// Forgets every value.
pub fn arraylist_clear<T: ArrayListComparable + Clone>(arraylist: &mut ArrayList<T>)
    ensures
        final (arraylist).wf(),
        final (arraylist).length == 0,
        final (arraylist).data@.len() == 0,
{
    arraylist.data.clear();
    arraylist.length = 0;
}

/// Releases the array list.
pub fn arraylist_free<T: ArrayListComparable + Clone>(arraylist: Option<Box<ArrayList<T>>>) {
    let _ = arraylist;
}

/// The index of the first value the callback accepts against `data`, or -1
/// when it accepts none.
pub fn arraylist_index_of<T: ArrayListComparable + Clone, F: Fn(&T, &T) -> bool>(
    arraylist: &ArrayList<T>,
    callback: F,
    data: &T,
) -> (r: i32)
    requires
        arraylist.wf(),
        arraylist.length <= i32::MAX,
        forall|a: &T, b: &T| #[trigger] call_requires(callback, (a, b)),
    ensures
        r == -1 || 0 <= r < arraylist.length,
        0 <= r ==> call_ensures(callback, (&arraylist.data@[r as int], data), true) && forall|
            k: int,
        |
            0 <= k < r ==> call_ensures(callback, (&arraylist.data@[k], data), false),
        r == -1 ==> forall|k: int|
            0 <= k < arraylist.length ==> call_ensures(
                callback,
                (&arraylist.data@[k], data),
                false,
            ),
{
    let mut i: usize = 0;
    while i < arraylist.length
        invariant
            arraylist.wf(),
            arraylist.length <= i32::MAX,
            i <= arraylist.length,
            forall|a: &T, b: &T| #[trigger] call_requires(callback, (a, b)),
            forall|k: int|
                0 <= k < i ==> call_ensures(callback, (&arraylist.data@[k], data), false),
        decreases arraylist.length - i,
    {
        if callback(&arraylist.data[i], data) {
            return i as i32;
        }
        i = i + 1;
    }
    -1
}

/// Sorts `data` in place by each value's key, in non-decreasing order,
/// keeping exactly the same values.
pub fn arraylist_sort_internal<T: ArrayListComparable + Clone>(data: &mut Vec<T>)
    ensures
        final (data)@.len() == old(data)@.len(),
        sorted_by_key(final (data)@),
        final (data)@.to_multiset() == old(data)@.to_multiset(),
{
    let mut out: Vec<T> = Vec::new();
    while data.len() > 0
        invariant
            sorted_by_key(out@),
            forall|i: int, j: int|
                0 <= i < out@.len() && 0 <= j < data@.len() ==> out@[i].key() <= data@[j].key(),
            out@.to_multiset().add(data@.to_multiset()) == old(data)@.to_multiset(),
            out@.len() + data@.len() == old(data)@.len(),
        decreases data@.len(),
    {
        // Find the position of a least remaining key.
        let mut m: usize = 0;
        let mut i: usize = 1;
        while i < data.len()
            invariant
                data@.len() > 0,
                m < i,
                i <= data@.len(),
                forall|k: int| 0 <= k < i ==> data@[m as int].key() <= data@[k].key(),
            decreases data@.len() - i,
        {
            if data[i].compare(&data[m]) < 0 {
                m = i;
            }
            i = i + 1;
        }
        let ghost pre = data@;
        let x = data.remove(m);
        out.push(x);
        proof {
            assert(pre.remove(m as int).to_multiset() =~= pre.to_multiset().remove(pre[m as int]));
            assert(out@.to_multiset().add(data@.to_multiset()) =~= old(data)@.to_multiset());
            assert forall|j: int| 0 <= j < data@.len() implies out@.last().key()
                <= data@[j].key() by {
                if j < m {
                    assert(data@[j] == pre[j]);
                } else {
                    assert(data@[j] == pre[j + 1]);
                }
            }
        }
    }
    *data = out;
}

/// Sorts the list in place by each value's key.  A comparison callback is
/// accepted for callers that pass one; the values' own ordering decides.
pub fn arraylist_sort<T: ArrayListComparable + Clone, F: Fn(&T, &T) -> i32>(
    arraylist: &mut ArrayList<T>,
    compare_func: F,
)
    requires
        old(arraylist).wf(),
    ensures
        final (arraylist).wf(),
        final (arraylist).length == old(arraylist).length,
        sorted_by_key(final (arraylist).data@),
        final (arraylist).data@.to_multiset() == old(arraylist).data@.to_multiset(),
{
    let _ = compare_func;
    arraylist_sort_internal(&mut arraylist.data);
}

} // verus!
