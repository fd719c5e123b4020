//! An automatically sorted array: values are kept in non-decreasing key
//! order, found by binary search, and located exactly with an equality
//! callback.

use crate::arraylist::{sorted_by_key, ArrayListComparable};
use vstd::multiset::Multiset;
use vstd::prelude::*;

verus! {

broadcast use vstd::seq_lib::group_to_multiset_ensures;

/// A marker for the sorted array's values; the values themselves are any
/// type with a sorting key.
pub struct SortedArrayValue;

/// The comparison callback agrees with the values' sorting keys.
pub open spec fn cmp_agrees<T: ArrayListComparable, F: Fn(&T, &T) -> i32>(f: F) -> bool {
    &&& forall|a: &T, b: &T| #[trigger] call_requires(f, (a, b))
    &&& forall|a: &T, b: &T, r: i32|
        #[trigger] call_ensures(f, (a, b), r) ==> ((r < 0 <==> a.key() < b.key()) && (r == 0
            <==> a.key() == b.key()) && (r > 0 <==> a.key() > b.key()) && r > i32::MIN)
}

/// The equality callback may be called on any pair.
pub open spec fn eq_callable<T, F: Fn(&T, &T) -> bool>(f: F) -> bool {
    forall|a: &T, b: &T| #[trigger] call_requires(f, (a, b))
}

/// A sorted array: `data` holds `length` values in non-decreasing key
/// order.
pub struct SortedArray<T: ArrayListComparable, FEq: Fn(&T, &T) -> bool, FCmp: Fn(&T, &T) -> i32> {
    pub data: Vec<T>,
    pub length: usize,
    pub equ_func: FEq,
    pub cmp_func: FCmp,
}

impl<
    T: ArrayListComparable,
    FEq: Fn(&T, &T) -> bool,
    FCmp: Fn(&T, &T) -> i32,
> SortedArray<T, FEq, FCmp> {
    /// The book-keeping is exact, the order is kept, and the callbacks
    /// behave like the key order.
    pub open spec fn wf(self) -> bool {
        &&& self.data@.len() == self.length
        &&& sorted_by_key(self.data@)
        &&& cmp_agrees(self.cmp_func)
        &&& eq_callable(self.equ_func)
    }

    /// Creates an empty sorted array; the requested length only sizes the
    /// initial reservation.
    pub fn new(length: usize, equ_func: FEq, cmp_func: FCmp) -> (r: Option<
        Box<SortedArray<T, FEq, FCmp>>,
    >)
        ensures
            r matches Some(sa) && sa.length == 0 && sa.data@.len() == 0 && sa.equ_func == equ_func
                && sa.cmp_func == cmp_func,
            r matches Some(sa) && (cmp_agrees(cmp_func) && eq_callable(equ_func) ==> sa.wf()),
    {
        let len: usize = if length == 0 {
            16
        } else {
            length
        };
        let data: Vec<T> = Vec::with_capacity(len);
        Some(Box::new(SortedArray { data, length: 0, equ_func, cmp_func }))
    }
}

/// Creates an empty sorted array with the given callbacks.
pub fn sortedarray_new<T: ArrayListComparable, FEq: Fn(&T, &T) -> bool, FCmp: Fn(&T, &T) -> i32>(
    length: usize,
    equ_func: FEq,
    cmp_func: FCmp,
) -> (r: Option<Box<SortedArray<T, FEq, FCmp>>>)
    ensures
        r matches Some(sa) && sa.length == 0 && sa.data@.len() == 0 && sa.equ_func == equ_func
            && sa.cmp_func == cmp_func,
        r matches Some(sa) && (cmp_agrees(cmp_func) && eq_callable(equ_func) ==> sa.wf()),
{
    SortedArray::new(length, equ_func, cmp_func)
}

/// The position before the first stored value whose key is above that of
/// `data`.
fn insert_position<T: ArrayListComparable, FEq: Fn(&T, &T) -> bool, FCmp: Fn(&T, &T) -> i32>(
    sortedarray: &SortedArray<T, FEq, FCmp>,
    data: &T,
) -> (i: usize)
    requires
        sortedarray.wf(),
    ensures
        i <= sortedarray.length,
        forall|k: int| 0 <= k < i ==> sortedarray.data@[k].key() <= data.key(),
        i < sortedarray.length ==> sortedarray.data@[i as int].key() > data.key(),
{
    let mut i: usize = 0;
    loop
        invariant
            sortedarray.wf(),
            i <= sortedarray.length,
            forall|k: int| 0 <= k < i ==> sortedarray.data@[k].key() <= data.key(),
        decreases sortedarray.length - i,
    {
        if i >= sortedarray.length {
            return i;
        }
        let c = (sortedarray.cmp_func)(&sortedarray.data[i], data);
        if c > 0 {
            return i;
        }
        i = i + 1;
    }
}

/// Inserts `data` at its place in the order; with equal keys already
/// present it lands after them.
pub fn sortedarray_insert<T: ArrayListComparable, FEq: Fn(&T, &T) -> bool, FCmp: Fn(&T, &T) -> i32>(
    sortedarray: &mut SortedArray<T, FEq, FCmp>,
    data: T,
) -> (r: i32)
    requires
        old(sortedarray).wf(),
        old(sortedarray).length < usize::MAX,
    ensures
        r == 1,
        final (sortedarray).wf(),
        final (sortedarray).length == old(sortedarray).length + 1,
        final (sortedarray).data@.to_multiset() == old(sortedarray).data@.to_multiset().insert(
            data,
        ),
        final (sortedarray).equ_func == old(sortedarray).equ_func,
        final (sortedarray).cmp_func == old(sortedarray).cmp_func,
{
    let ghost key = data.key();
    let i = insert_position(sortedarray, &data);
    let ghost pre = sortedarray.data@;
    sortedarray.data.insert(i, data);
    sortedarray.length = sortedarray.length + 1;
    proof {
        vstd::seq_lib::to_multiset_insert(pre, i as int, data);
        assert forall|p: int, q: int|
            0 <= p < q < sortedarray.data@.len() implies sortedarray.data@[p].key()
            <= sortedarray.data@[q].key() by {
            let s = sortedarray.data@;
            if p < i && q > i {
                assert(s[p] == pre[p] && s[q] == pre[q - 1]);
                if q - 1 >= i {
                    assert(pre[q - 1].key() >= key || q - 1 == i);
                }
                if q - 1 == i {
                    assert(s[q].key() > key || s[q].key() == pre[i as int].key());
                }
            }
        }
    }
    1
}

/// The smallest position in `left .. right` whose key is not below that of
/// `data`; `right` when every key there is below it.
pub fn sortedarray_first_index<
    T: ArrayListComparable,
    FEq: Fn(&T, &T) -> bool,
    FCmp: Fn(&T, &T) -> i32,
>(
    sortedarray: &SortedArray<T, FEq, FCmp>,
    data: &T,
    left: usize,
    right: usize,
) -> (r: usize)
    requires
        sortedarray.wf(),
        left <= right <= sortedarray.length,
    ensures
        left <= r <= right,
        forall|k: int| left <= k < r ==> sortedarray.data@[k].key() < data.key(),
        forall|k: int| r <= k < right ==> sortedarray.data@[k].key() >= data.key(),
{
    let mut lo = left;
    let mut hi = right;
    while lo < hi
        invariant
            sortedarray.wf(),
            left <= lo <= hi <= right <= sortedarray.length,
            forall|k: int| left <= k < lo ==> sortedarray.data@[k].key() < data.key(),
            forall|k: int| hi <= k < right ==> sortedarray.data@[k].key() >= data.key(),
        decreases hi - lo,
    {
        let mid = lo + (hi - lo) / 2;
        let c = (sortedarray.cmp_func)(data, &sortedarray.data[mid]);
        if c > 0 {
            lo = mid + 1;
        } else {
            hi = mid;
        }
    }
    lo
}

/// The smallest position in `left .. right` whose key is above that of
/// `data`; `right` when no key there is above it.
pub fn sortedarray_last_index<
    T: ArrayListComparable,
    FEq: Fn(&T, &T) -> bool,
    FCmp: Fn(&T, &T) -> i32,
>(
    sortedarray: &SortedArray<T, FEq, FCmp>,
    data: &T,
    left: usize,
    right: usize,
) -> (r: usize)
    requires
        sortedarray.wf(),
        left <= right <= sortedarray.length,
    ensures
        left <= r <= right,
        forall|k: int| left <= k < r ==> sortedarray.data@[k].key() <= data.key(),
        forall|k: int| r <= k < right ==> sortedarray.data@[k].key() > data.key(),
{
    let mut lo = left;
    let mut hi = right;
    while lo < hi
        invariant
            sortedarray.wf(),
            left <= lo <= hi <= right <= sortedarray.length,
            forall|k: int| left <= k < lo ==> sortedarray.data@[k].key() <= data.key(),
            forall|k: int| hi <= k < right ==> sortedarray.data@[k].key() > data.key(),
        decreases hi - lo,
    {
        let mid = lo + (hi - lo) / 2;
        let c = (sortedarray.cmp_func)(data, &sortedarray.data[mid]);
        if c >= 0 {
            lo = mid + 1;
        } else {
            hi = mid;
        }
    }
    lo
}

/// The value at position `i`, while it exists.
pub fn sortedarray_get<T: ArrayListComparable, FEq: Fn(&T, &T) -> bool, FCmp: Fn(&T, &T) -> i32>(
    array: Option<&SortedArray<T, FEq, FCmp>>,
    i: usize,
) -> (r: Option<&T>)
    requires
        array matches Some(a) ==> a.wf(),
    ensures
        match array {
            Some(a) => if i < a.length {
                r matches Some(v) && *v == a.data@[i as int]
            } else {
                r is None
            },
            None => r is None,
        },
{
    match array {
        Some(a) => {
            if i < a.length {
                Some(&a.data[i])
            } else {
                None
            }
        },
        None => None,
    }
}

/// The number of values held.
pub fn sortedarray_length<T: ArrayListComparable, FEq: Fn(&T, &T) -> bool, FCmp: Fn(&T, &T) -> i32>(
    array: &SortedArray<T, FEq, FCmp>,
) -> (r: usize)
    ensures
        r == array.length,
{
    array.length
}

/// Releases the array.
pub fn sortedarray_free<T: ArrayListComparable, FEq: Fn(&T, &T) -> bool, FCmp: Fn(&T, &T) -> i32>(
    sortedarray: Option<Box<SortedArray<T, FEq, FCmp>>>,
) {
    let _ = sortedarray;
}

/// Removes the `length` values starting at `index`; an invalid range is
/// ignored.
pub fn sortedarray_remove_range<
    T: ArrayListComparable,
    FEq: Fn(&T, &T) -> bool,
    FCmp: Fn(&T, &T) -> i32,
>(
    sortedarray: &mut SortedArray<T, FEq, FCmp>,
    index: usize,
    length: usize,
)
    requires
        old(sortedarray).wf(),
    ensures
        final (sortedarray).wf(),
        final (sortedarray).equ_func == old(sortedarray).equ_func,
        final (sortedarray).cmp_func == old(sortedarray).cmp_func,
        index + length <= old(sortedarray).length ==> final (sortedarray).data@ == old(
            sortedarray,
        ).data@.subrange(0, index as int).add(
            old(sortedarray).data@.subrange(
                index + length,
                old(sortedarray).length as int,
            ),
        ) && final (sortedarray).length == old(sortedarray).length - length,
        index + length > old(sortedarray).length ==> final (sortedarray).data@ == old(
            sortedarray,
        ).data@ && final (sortedarray).length == old(sortedarray).length,
{
    if index > sortedarray.length || length > sortedarray.length - index {
        return ;
    }
    proof {
        assert(old(sortedarray).data@ =~= old(sortedarray).data@.subrange(0, index as int).add(
            old(sortedarray).data@.subrange(index as int, old(sortedarray).length as int),
        ));
    }
    let mut removed: usize = 0;
    while removed < length
        invariant
            old(sortedarray).wf(),
            removed <= length,
            index + length <= old(sortedarray).length,
            sortedarray.length == old(sortedarray).length,
            sortedarray.equ_func == old(sortedarray).equ_func,
            sortedarray.cmp_func == old(sortedarray).cmp_func,
            sortedarray.data@ == old(sortedarray).data@.subrange(0, index as int).add(
                old(sortedarray).data@.subrange(
                    index + removed,
                    old(sortedarray).length as int,
                ),
            ),
        decreases length - removed,
    {
        let ghost pre = sortedarray.data@;
        proof {
            assert(pre.len() == index + (old(sortedarray).length - (index + removed)));
        }
        sortedarray.data.remove(index);
        removed = removed + 1;
        proof {
            pre.remove_ensures(index as int);
            assert(sortedarray.data@ =~= old(sortedarray).data@.subrange(0, index as int).add(
                old(sortedarray).data@.subrange(
                    index + removed,
                    old(sortedarray).length as int,
                ),
            ));
        }
    }
    sortedarray.length = sortedarray.length - length;
    proof {
        let s = sortedarray.data@;
        let o = old(sortedarray).data@;
        assert forall|p: int, q: int| 0 <= p < q < s.len() implies s[p].key() <= s[q].key() by {
            if p < index {
                assert(s[p] == o[p]);
            } else {
                assert(s[p] == o[p + length]);
            }
            if q < index {
                assert(s[q] == o[q]);
            } else {
                assert(s[q] == o[q + length]);
            }
        }
    }
}

/// Removes the one value at `index`; an invalid index is ignored.
pub fn sortedarray_remove<T: ArrayListComparable, FEq: Fn(&T, &T) -> bool, FCmp: Fn(&T, &T) -> i32>(
    sortedarray: &mut SortedArray<T, FEq, FCmp>,
    index: usize,
)
    requires
        old(sortedarray).wf(),
    ensures
        final (sortedarray).wf(),
        final (sortedarray).equ_func == old(sortedarray).equ_func,
        final (sortedarray).cmp_func == old(sortedarray).cmp_func,
        index < old(sortedarray).length ==> final (sortedarray).data@ == old(
            sortedarray,
        ).data@.remove(index as int) && final (sortedarray).length == old(sortedarray).length - 1,
        index >= old(sortedarray).length ==> final (sortedarray).data@ == old(sortedarray).data@
            && final (sortedarray).length == old(sortedarray).length,
{
    sortedarray_remove_range(sortedarray, index, 1);
    proof {
        if index < old(sortedarray).length {
            assert(old(sortedarray).data@.subrange(0, index as int).add(
                old(sortedarray).data@.subrange(index + 1, old(sortedarray).length as int),
            ) =~= old(sortedarray).data@.remove(index as int));
        }
    }
}

/// The position of the first value whose key equals `data`'s and that the
/// equality callback accepts against `data`, or -1 when there is none.
pub fn sortedarray_index_of<
    T: ArrayListComparable,
    FEq: Fn(&T, &T) -> bool,
    FCmp: Fn(&T, &T) -> i32,
>(
    sortedarray: &SortedArray<T, FEq, FCmp>,
    data: &T,
) -> (r: i32)
    requires
        sortedarray.wf(),
        sortedarray.length <= i32::MAX,
    ensures
        r == -1 || 0 <= r < sortedarray.length,
        0 <= r ==> sortedarray.data@[r as int].key() == data.key() && call_ensures(
            sortedarray.equ_func,
            (data, &sortedarray.data@[r as int]),
            true,
        ),
        r == -1 ==> forall|k: int|
            0 <= k < sortedarray.length && (#[trigger] sortedarray.data@[k]).key() == data.key()
                ==> call_ensures(sortedarray.equ_func, (data, &sortedarray.data@[k]), false),
{
    let mut i: usize = 0;
    while i < sortedarray.length
        invariant
            sortedarray.wf(),
            sortedarray.length <= i32::MAX,
            i <= sortedarray.length,
            forall|k: int|
                0 <= k < i && (#[trigger] sortedarray.data@[k]).key() == data.key()
                    ==> call_ensures(
                    sortedarray.equ_func,
                    (data, &sortedarray.data@[k]),
                    false,
                ),
        decreases sortedarray.length - i,
    {
        let c = (sortedarray.cmp_func)(data, &sortedarray.data[i]);
        if c == 0 {
            if (sortedarray.equ_func)(data, &sortedarray.data[i]) {
                return i as i32;
            }
        }
        i = i + 1;
    }
    -1
}

} // verus!
