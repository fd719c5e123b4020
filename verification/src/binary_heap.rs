//! A binary heap in an array: the children of position `i` sit at `2i + 1`
//! and `2i + 2`, and every parent's key comes no later than its children's
//! in the chosen order, so the extremal value always sits at the root.

use crate::arraylist::ArrayListComparable;
use crate::sortedarray::cmp_agrees;
use vstd::multiset::Multiset;
use vstd::prelude::*;

verus! {

broadcast use vstd::seq_lib::group_to_multiset_ensures;

/// Whether the heap hands out the least key first (`Min`) or the greatest
/// (`Max`).
#[derive(PartialEq, Eq, Structural, Clone, Copy, Debug)]
pub enum BinaryHeapType {
    Min,
    Max,
}

/// The key as the heap orders it: `Max` mode reverses the order.
pub open spec fn oriented_key<T: ArrayListComparable>(heap_type: BinaryHeapType, v: T) -> int {
    if heap_type == BinaryHeapType::Min {
        v.key()
    } else {
        -v.key()
    }
}

/// The heap-order property: every position's parent has an oriented key no
/// greater than its own.
pub open spec fn heap_shape<T: ArrayListComparable>(ht: BinaryHeapType, s: Seq<T>) -> bool {
    forall|j: int|
        1 <= j < s.len() ==> oriented_key(ht, s[(j - 1) / 2]) <= oriented_key(
            ht,
            #[trigger] s[j],
        )
}

/// A binary heap: `values` holds `num_values` values in heap order.
pub struct _BinaryHeap<T: ArrayListComparable + Copy, F: Fn(&T, &T) -> i32> {
    pub heap_type: BinaryHeapType,
    pub values: Vec<T>,
    pub num_values: usize,
    pub alloced_size: usize,
    pub compare_func: F,
    /// When `Some(n)`, growing past the reserved size may make at most `n`
    /// further allocations; used to exercise the failure paths.
    pub alloc_limit: Option<usize>,
}

impl<T: ArrayListComparable + Copy, F: Fn(&T, &T) -> i32> _BinaryHeap<T, F> {
    /// The book-keeping is exact, the order property holds, and the
    /// comparator follows the keys.
    pub open spec fn wf(self) -> bool {
        &&& self.values@.len() == self.num_values
        &&& heap_shape(self.heap_type, self.values@)
        &&& cmp_agrees(self.compare_func)
        &&& self.num_values <= self.alloced_size
        &&& self.num_values <= usize::MAX / 2
        &&& self.alloced_size >= 1
    }

    /// The multiset of values held.
    pub open spec fn elems(self) -> Multiset<T> {
        self.values@.to_multiset()
    }
}

/// In a heap-ordered array the root's key comes no later than any other.
proof fn lemma_root_min<T: ArrayListComparable>(ht: BinaryHeapType, s: Seq<T>, j: int)
    requires
        heap_shape(ht, s),
        0 <= j < s.len(),
    ensures
        oriented_key(ht, s[0]) <= oriented_key(ht, s[j]),
    decreases j,
{
    if j > 0 {
        lemma_root_min(ht, s, (j - 1) / 2);
    }
}

/// The mode-oriented comparison of two values through the heap's
/// comparator.
pub fn binary_heap_cmp<T: ArrayListComparable + Copy, F: Fn(&T, &T) -> i32>(
    heap: &_BinaryHeap<T, F>,
    data1: &T,
    data2: &T,
) -> (r: i32)
    requires
        cmp_agrees(heap.compare_func),
    ensures
        r < 0 <==> oriented_key(heap.heap_type, *data1) < oriented_key(heap.heap_type, *data2),
        r == 0 <==> oriented_key(heap.heap_type, *data1) == oriented_key(heap.heap_type, *data2),
        r > 0 <==> oriented_key(heap.heap_type, *data1) > oriented_key(heap.heap_type, *data2),
{
    let c = (heap.compare_func)(data1, data2);
    if heap.heap_type == BinaryHeapType::Min {
        c
    } else {
        -c
    }
}

/// Creates an empty heap with the given mode and comparator and a reserved
/// size of sixteen.
pub fn binary_heap_new<T: ArrayListComparable + Copy, F: Fn(&T, &T) -> i32>(
    heap_type: BinaryHeapType,
    compare_func: F,
) -> (r: Option<_BinaryHeap<T, F>>)
    ensures
        r matches Some(h) && h.heap_type == heap_type && h.compare_func == compare_func
            && h.num_values == 0 && h.elems() =~= Multiset::<T>::empty() && h.alloc_limit is None
            && (cmp_agrees(compare_func) ==> h.wf()),
{
    let values: Vec<T> = Vec::with_capacity(16);
    Some(
        _BinaryHeap {
            heap_type,
            values,
            num_values: 0,
            alloced_size: 16,
            compare_func,
            alloc_limit: None,
        },
    )
}

/// The number of values held.
pub fn binary_heap_num_entries<T: ArrayListComparable + Copy, F: Fn(&T, &T) -> i32>(
    heap: &_BinaryHeap<T, F>,
) -> (r: usize)
    ensures
        r == heap.num_values,
{
    heap.num_values
}

/// Caps the allocations the heap may make when it next needs to grow, or
/// lifts the cap.
pub fn binary_heap_set_alloc_limit<T: ArrayListComparable + Copy, F: Fn(&T, &T) -> i32>(
    heap: &mut _BinaryHeap<T, F>,
    limit: Option<usize>,
)
    ensures
        final (heap).alloc_limit == limit,
        final (heap).heap_type == old(heap).heap_type,
        final (heap).compare_func == old(heap).compare_func,
        final (heap).num_values == old(heap).num_values,
        final (heap).values@ == old(heap).values@,
        final (heap).alloced_size == old(heap).alloced_size,
{
    heap.alloc_limit = limit;
}

/// Releases the heap and its values.
pub fn binary_heap_free<T: ArrayListComparable + Copy, F: Fn(&T, &T) -> i32>(
    heap: _BinaryHeap<T, F>,
) {
    let _ = heap;
}

/// Inserts `value`, restoring the order property by walking it up from the
/// bottom.  When the heap is full, doubling the reserved size counts as one
/// allocation against the allocation limit; on failure nothing changes.
pub fn binary_heap_insert<T: ArrayListComparable + Copy, F: Fn(&T, &T) -> i32>(
    heap: &mut _BinaryHeap<T, F>,
    value: T,
) -> (r: i32)
    requires
        old(heap).wf(),
        old(heap).num_values < usize::MAX / 2,
    ensures
        r == 0 || r == 1,
        final (heap).heap_type == old(heap).heap_type,
        final (heap).compare_func == old(heap).compare_func,
        final (heap).alloc_limit == old(heap).alloc_limit,
        r == 1 ==> final (heap).wf() && final (heap).elems() == old(heap).elems().insert(value)
            && final (heap).num_values == old(heap).num_values + 1,
        r == 0 ==> final (heap).values@ == old(heap).values@ && final (heap).num_values == old(
            heap,
        ).num_values && old(heap).alloc_limit is Some,
        old(heap).alloc_limit is None ==> r == 1,
{
    let ghost ht = heap.heap_type;
    if heap.num_values >= heap.alloced_size {
        match heap.alloc_limit {
            Some(l) => {
                if l < 1 {
                    return 0;
                }
            },
            None => {},
        }
        if heap.alloced_size > usize::MAX / 2 {
            heap.alloced_size = usize::MAX;
        } else {
            heap.alloced_size = heap.alloced_size * 2;
        }
    }
    heap.values.push(value);
    heap.num_values = heap.num_values + 1;
    let ghost pushed = heap.values@;
    let mut idx = heap.num_values - 1;
    while idx > 0
        invariant
            old(heap).wf(),
            old(heap).num_values < usize::MAX / 2,
            cmp_agrees(heap.compare_func),
            heap.heap_type == ht,
            ht == old(heap).heap_type,
            heap.compare_func == old(heap).compare_func,
            heap.alloc_limit == old(heap).alloc_limit,
            heap.num_values == old(heap).num_values + 1,
            heap.alloced_size >= heap.num_values,
            heap.values@.len() == heap.num_values,
            idx < heap.num_values,
            heap.values@.to_multiset() == pushed.to_multiset(),
            pushed.to_multiset() == old(heap).values@.to_multiset().insert(value),
            forall|j: int|
                1 <= j < heap.values@.len() && j != idx ==> oriented_key(
                    ht,
                    heap.values@[(j - 1) / 2],
                ) <= oriented_key(ht, #[trigger] heap.values@[j]),
            idx > 0 ==> forall|c: int|
                1 <= c < heap.values@.len() && (c - 1) / 2 == idx ==> oriented_key(
                    ht,
                    heap.values@[(idx - 1) / 2],
                ) <= oriented_key(ht, #[trigger] heap.values@[c]),
        decreases idx,
    {
        let parent = (idx - 1) / 2;
        let a = heap.values[parent];
        let b = heap.values[idx];
        let c = binary_heap_cmp(heap, &a, &b);
        if c <= 0 {
            proof {
                assert forall|j: int|
                    1 <= j < heap.values@.len() implies oriented_key(
                    ht,
                    heap.values@[(j - 1) / 2],
                ) <= oriented_key(ht, #[trigger] heap.values@[j]) by {}
            }
            return 1;
        }
        let ghost pre = heap.values@;
        heap.values.set(parent, b);
        heap.values.set(idx, a);
        proof {
            assert(heap.values@ =~= pre.update(parent as int, pre[idx as int]).update(
                idx as int,
                pre[parent as int],
            ));
            vstd::seq_lib::lemma_update_is_remove_insert(pre, parent as int, pre[idx as int]);
            assert(heap.values@.to_multiset() =~= pre.to_multiset());
            assert forall|j: int|
                1 <= j < heap.values@.len() && j != parent implies oriented_key(
                ht,
                heap.values@[(j - 1) / 2],
            ) <= oriented_key(ht, #[trigger] heap.values@[j]) by {
                let s = heap.values@;
                if j == idx {
                } else if (j - 1) / 2 == idx {
                    assert(s[j] == pre[j]);
                    assert(oriented_key(ht, pre[(idx - 1) / 2]) <= oriented_key(ht, pre[j]));
                } else if (j - 1) / 2 == parent {
                    assert(s[j] == pre[j]);
                    assert(oriented_key(ht, pre[parent as int]) <= oriented_key(ht, pre[j]));
                    assert(oriented_key(ht, s[(j - 1) / 2]) == oriented_key(ht, pre[idx as int]));
                } else {
                    assert(s[j] == pre[j] && s[(j - 1) / 2] == pre[(j - 1) / 2]);
                }
            }
        }
        idx = parent;
    }
    proof {
        assert(heap_shape(ht, heap.values@));
        assert(heap.values@.to_multiset() == old(heap).values@.to_multiset().insert(value));
    }
    1
}

/// Takes the value whose key comes first in the oriented order, while the
/// heap holds one, restoring the order property by walking the last value
/// down from the root.
#[verifier::rlimit(100)]
pub fn binary_heap_pop<T: ArrayListComparable + Copy, F: Fn(&T, &T) -> i32>(
    heap: &mut _BinaryHeap<T, F>,
) -> (r: Option<T>)
    requires
        old(heap).wf(),
    ensures
        final (heap).heap_type == old(heap).heap_type,
        final (heap).compare_func == old(heap).compare_func,
        final (heap).alloc_limit == old(heap).alloc_limit,
        r is None <==> old(heap).num_values == 0,
        r is None ==> final (heap).values@ == old(heap).values@,
        r matches Some(v) ==> final (heap).wf() && final (heap).num_values == old(heap).num_values
            - 1 && old(heap).elems().count(v) > 0 && final (heap).elems() == old(
            heap,
        ).elems().remove(v) && forall|x: T|
            old(heap).elems().count(x) > 0 ==> oriented_key(old(heap).heap_type, v)
                <= oriented_key(old(heap).heap_type, x),
{
    let ghost ht = heap.heap_type;
    if heap.num_values == 0 {
        return None;
    }
    let result = heap.values[0];
    proof {
        assert forall|x: T| old(heap).elems().count(x) > 0 implies oriented_key(ht, result)
            <= oriented_key(ht, x) by {
            let j = choose|j: int| 0 <= j < old(heap).values@.len() && old(heap).values@[j] == x;
            assert(old(heap).values@.contains(x));
            let jj = choose|jj: int|
                0 <= jj < old(heap).values@.len() && old(heap).values@[jj] == x;
            lemma_root_min(ht, old(heap).values@, jj);
        }
        assert(old(heap).values@.contains(result));
    }
    let last = match heap.values.pop() {
        Some(v) => v,
        None => {
            proof {
                assert(false);
            }
            return None;
        },
    };
    heap.num_values = heap.num_values - 1;
    let ghost popped = heap.values@;
    proof {
        assert(popped == old(heap).values@.drop_last());
    }
    if heap.num_values == 0 {
        proof {
            assert(old(heap).values@.len() == 1);
            assert(result == last);
            assert(old(heap).values@ =~= seq![result]);
            assert(old(heap).values@.to_multiset() =~= heap.values@.to_multiset().insert(result));
            assert(heap.values@.to_multiset() =~= old(heap).values@.to_multiset().remove(result));
        }
        return Some(result);
    }
    heap.values.set(0, last);
    proof {
        // The array now holds everything but the extracted root.
        let s0 = old(heap).values@;
        let n = s0.len() as int;
        assert(heap.values@ =~= s0.drop_last().update(0, s0[n - 1]));
        vstd::seq_lib::lemma_update_is_remove_insert(s0.drop_last(), 0, s0[n - 1]);
        assert(s0.drop_last() =~= s0.remove(n - 1));
        assert(s0.drop_last().to_multiset() =~= s0.to_multiset().remove(s0[n - 1]));
        assert(heap.values@.to_multiset() =~= s0.to_multiset().remove(s0[0]));
        assert forall|j: int|
            1 <= j < heap.values@.len() && (j - 1) / 2 != 0 implies oriented_key(
            ht,
            heap.values@[(j - 1) / 2],
        ) <= oriented_key(ht, #[trigger] heap.values@[j]) by {
            assert(heap.values@[j] == s0[j]);
            assert(heap.values@[(j - 1) / 2] == s0[(j - 1) / 2]);
        }
    }
    let mut idx: usize = 0;
    let ghost target = old(heap).values@.to_multiset().remove(result);
    loop
        invariant
            old(heap).wf(),
            old(heap).num_values >= 1,
            target == old(heap).elems().remove(result),
            old(heap).elems().count(result) > 0,
            forall|x: T|
                old(heap).elems().count(x) > 0 ==> oriented_key(ht, result) <= oriented_key(
                    ht,
                    x,
                ),
            cmp_agrees(heap.compare_func),
            heap.heap_type == ht,
            ht == old(heap).heap_type,
            heap.compare_func == old(heap).compare_func,
            heap.alloc_limit == old(heap).alloc_limit,
            heap.alloced_size == old(heap).alloced_size,
            heap.num_values == old(heap).num_values - 1,
            heap.num_values >= 1,
            heap.values@.len() == heap.num_values,
            idx < heap.num_values,
            heap.values@.to_multiset() == target,
            forall|j: int|
                1 <= j < heap.values@.len() && (j - 1) / 2 != idx ==> oriented_key(
                    ht,
                    heap.values@[(j - 1) / 2],
                ) <= oriented_key(ht, #[trigger] heap.values@[j]),
            idx > 0 ==> forall|j: int|
                1 <= j < heap.values@.len() && (j - 1) / 2 == idx ==> oriented_key(
                    ht,
                    heap.values@[(idx - 1) / 2],
                ) <= oriented_key(ht, #[trigger] heap.values@[j]),
        decreases heap.values@.len() - idx,
    {
        let child1 = idx * 2 + 1;
        let child2 = idx * 2 + 2;
        if child1 >= heap.num_values {
            proof {
                assert forall|j: int|
                    1 <= j < heap.values@.len() implies oriented_key(
                    ht,
                    heap.values@[(j - 1) / 2],
                ) <= oriented_key(ht, #[trigger] heap.values@[j]) by {
                    if (j - 1) / 2 == idx {
                        assert(j == 2 * (idx as int) + 1 || j == 2 * (idx as int) + 2);
                    }
                }
            }
            return Some(result);
        }
        let smaller = if child2 < heap.num_values {
            let ca = heap.values[child1];
            let cb = heap.values[child2];
            if binary_heap_cmp(heap, &cb, &ca) < 0 {
                child2
            } else {
                child1
            }
        } else {
            child1
        };
        proof {
            assert(oriented_key(ht, heap.values@[smaller as int]) <= oriented_key(
                ht,
                heap.values@[child1 as int],
            ));
            assert(child2 < heap.num_values ==> oriented_key(ht, heap.values@[smaller as int])
                <= oriented_key(ht, heap.values@[child2 as int]));
        }
        let a = heap.values[idx];
        let b = heap.values[smaller];
        let c = binary_heap_cmp(heap, &a, &b);
        if c <= 0 {
            proof {
                assert forall|j: int|
                    1 <= j < heap.values@.len() implies oriented_key(
                    ht,
                    heap.values@[(j - 1) / 2],
                ) <= oriented_key(ht, #[trigger] heap.values@[j]) by {
                    if (j - 1) / 2 == idx {
                        assert(j == 2 * (idx as int) + 1 || j == 2 * (idx as int) + 2);
                    }
                }
            }
            return Some(result);
        }
        let ghost pre = heap.values@;
        heap.values.set(idx, b);
        heap.values.set(smaller, a);
        proof {
            assert(heap.values@ =~= pre.update(idx as int, pre[smaller as int]).update(
                smaller as int,
                pre[idx as int],
            ));
            vstd::seq_lib::lemma_update_is_remove_insert(pre, idx as int, pre[smaller as int]);
            assert(heap.values@.to_multiset() =~= pre.to_multiset());
            let s = heap.values@;
            assert forall|j: int|
                1 <= j < s.len() && (j - 1) / 2 != smaller implies oriented_key(
                ht,
                s[(j - 1) / 2],
            ) <= oriented_key(ht, #[trigger] s[j]) by {
                let p = (j - 1) / 2;
                if j == smaller {
                    assert(p == idx);
                    assert(s[j] == pre[idx as int] && s[p] == pre[smaller as int]);
                } else if j == idx {
                    if p != idx && p != smaller {
                        assert(s[p] == pre[p]);
                        assert(oriented_key(ht, pre[p]) <= oriented_key(ht, pre[j]));
                        assert(oriented_key(ht, pre[idx as int]) > oriented_key(
                            ht,
                            pre[smaller as int],
                        ));
                    }
                } else if p == idx {
                    // The other child of `idx`, now compared against the
                    // promoted smaller child.
                    assert(s[j] == pre[j]);
                    assert(s[p] == pre[smaller as int]);
                } else if p == smaller {
                    assert(s[j] == pre[j]);
                    assert(s[p] == pre[idx as int]);
                    assert(oriented_key(ht, pre[(j - 1) / 2]) > oriented_key(
                        ht,
                        pre[idx as int],
                    ) || oriented_key(ht, pre[(j - 1) / 2]) <= oriented_key(ht, pre[j]));
                } else {
                    assert(s[j] == pre[j] && s[p] == pre[p]);
                }
            }
        }
        idx = smaller;
    }
}

} // verus!
