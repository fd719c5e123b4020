use test_project::binomial_heap::{
    binomial_heap_free, binomial_heap_insert, binomial_heap_merge, binomial_heap_new,
    binomial_heap_num_entries, binomial_heap_pop, binomial_heap_set_alloc_limit,
    binomial_tree_merge, binomial_tree_ref, binomial_tree_unref, BinomialHeap,
    BinomialHeapPopResult, BinomialHeapValue, BINOMIAL_HEAP_TYPE_MAX, BINOMIAL_HEAP_TYPE_MIN,
};

const TEST_VALUE: usize = 5000;
const NUM_TEST_VALUES: usize = 10000;

fn int_compare(a: BinomialHeapValue, b: BinomialHeapValue) -> i32 {
    a.0.cmp(&b.0) as i32
}

#[test]
pub fn test_binomial_heap_new_free() {
    for _ in 0..NUM_TEST_VALUES {
        let heap = binomial_heap_new(BINOMIAL_HEAP_TYPE_MIN, int_compare);
        if let Some(h) = heap {
            binomial_heap_free(h);
        }
    }
}

pub fn verify_heap(heap: &mut BinomialHeap<fn(BinomialHeapValue, BinomialHeapValue) -> i32>) {
    let mut num_vals = binomial_heap_num_entries(heap);
    assert_eq!(num_vals, NUM_TEST_VALUES as u64 - 1);

    for i in 0..NUM_TEST_VALUES {
        if i == TEST_VALUE {
            continue;
        }

        let val = binomial_heap_pop(heap);
        assert_eq!(val, BinomialHeapPopResult::Value(BinomialHeapValue(i as i32)));

        num_vals -= 1;
        assert_eq!(binomial_heap_num_entries(heap), num_vals);
    }
}

pub fn generate_heap() -> Option<BinomialHeap<fn(BinomialHeapValue, BinomialHeapValue) -> i32>> {
    let mut test_array = [0; NUM_TEST_VALUES];
    let mut heap = binomial_heap_new(BINOMIAL_HEAP_TYPE_MIN, int_compare as fn(BinomialHeapValue, BinomialHeapValue) -> i32);

    /* Push a load of values onto the heap */
    for i in 0..NUM_TEST_VALUES {
        test_array[i] = i as i32;
        if i != TEST_VALUE {
            assert!(
                binomial_heap_insert(
                    heap.as_mut().unwrap(),
                    BinomialHeapValue(test_array[i])
                ) != 0
            );
        }
    }

    heap
}

#[test]
pub fn test_pop_out_of_memory() {
    let mut i: u64 = 0;

    while i < 6 {
        let mut heap = generate_heap();

        // Pop should fail under a tight allocation limit
        binomial_heap_set_alloc_limit(heap.as_mut().unwrap(), Some(i));
        assert_eq!(
            binomial_heap_pop(heap.as_mut().unwrap()),
            BinomialHeapPopResult::Failure
        );
        binomial_heap_set_alloc_limit(heap.as_mut().unwrap(), None);

        // Check the heap is unharmed
        binomial_heap_free(heap.unwrap());

        i += 1;
    }
}

#[test]
pub fn test_binomial_heap_insert() {
    let mut heap = binomial_heap_new(
        BINOMIAL_HEAP_TYPE_MIN,
        |value1: BinomialHeapValue, value2: BinomialHeapValue| value1.0.cmp(&value2.0) as i32,
    )
    .unwrap();
    let mut test_array = vec![0; NUM_TEST_VALUES];

    for i in 0..NUM_TEST_VALUES {
        test_array[i] = i as i32;
        assert!(binomial_heap_insert(&mut heap, BinomialHeapValue(test_array[i])) != 0);
    }
    assert!(binomial_heap_num_entries(&heap) == NUM_TEST_VALUES as u64);

    binomial_heap_free(heap);
}

#[test]
pub fn test_binomial_heap_test_min_heap() {
    let mut heap = binomial_heap_new(BINOMIAL_HEAP_TYPE_MIN, int_compare).unwrap();
    let mut val: BinomialHeapPopResult;
    let mut test_array = vec![0; NUM_TEST_VALUES];

    /* Push a load of values onto the heap */
    for i in 0..NUM_TEST_VALUES {
        test_array[i] = i as i32;
        assert!(binomial_heap_insert(&mut heap, BinomialHeapValue(test_array[i])) != 0);
    }

    /* Pop values off the heap and check they are in order */
    let mut i = -1;
    while binomial_heap_num_entries(&heap) > 0 {
        val = binomial_heap_pop(&mut heap);

        match val {
            BinomialHeapPopResult::Value(v) => {
                assert_eq!(v.0, i + 1);
                i = v.0;
            }
            _ => panic!("expected a value"),
        }
    }

    /* Test pop on an empty heap */
    val = binomial_heap_pop(&mut heap);
    assert_eq!(val, BinomialHeapPopResult::Empty);

    binomial_heap_free(heap);
}

#[test]
pub fn test_insert_out_of_memory() {
    let mut i: u64 = 0;

    while i < 6 {
        let mut heap = generate_heap();

        // Insert should fail under a tight allocation limit
        let mut test_array = [0; NUM_TEST_VALUES];
        test_array[TEST_VALUE] = TEST_VALUE as i32;
        binomial_heap_set_alloc_limit(heap.as_mut().unwrap(), Some(i));
        assert!(
            binomial_heap_insert(
                heap.as_mut().unwrap(),
                BinomialHeapValue(test_array[TEST_VALUE])
            ) == 0
        );
        binomial_heap_set_alloc_limit(heap.as_mut().unwrap(), None);

        // Check that the heap is unharmed
        verify_heap(heap.as_mut().unwrap());

        binomial_heap_free(heap.unwrap());
        i += 1;
    }
}

#[test]
pub fn test_binomial_heap_small_drain() {
    // Insert 5, 3, 8, 1 into an empty min-forest and drain it.
    let mut heap = binomial_heap_new(BINOMIAL_HEAP_TYPE_MIN, int_compare).unwrap();

    for v in [5, 3, 8, 1] {
        assert!(binomial_heap_insert(&mut heap, BinomialHeapValue(v)) != 0);
    }
    assert_eq!(binomial_heap_num_entries(&heap), 4);

    for v in [1, 3, 5, 8] {
        assert_eq!(
            binomial_heap_pop(&mut heap),
            BinomialHeapPopResult::Value(BinomialHeapValue(v))
        );
    }
    assert_eq!(binomial_heap_pop(&mut heap), BinomialHeapPopResult::Empty);
    assert_eq!(binomial_heap_num_entries(&heap), 0);

    binomial_heap_free(heap);
}

#[test]
pub fn test_binomial_heap_merge_counts() {
    // Merge {1,3,5} into {2,4,6}; the union drains fully sorted.
    let mut a = binomial_heap_new(BINOMIAL_HEAP_TYPE_MIN, int_compare).unwrap();
    let mut b = binomial_heap_new(BINOMIAL_HEAP_TYPE_MIN, int_compare).unwrap();

    for v in [2, 4, 6] {
        assert!(binomial_heap_insert(&mut a, BinomialHeapValue(v)) != 0);
    }
    for v in [1, 3, 5] {
        assert!(binomial_heap_insert(&mut b, BinomialHeapValue(v)) != 0);
    }

    assert_eq!(binomial_heap_merge(&mut a, &b), 1);
    assert_eq!(binomial_heap_num_entries(&a), 6);

    for v in [1, 2, 3, 4, 5, 6] {
        assert_eq!(
            binomial_heap_pop(&mut a),
            BinomialHeapPopResult::Value(BinomialHeapValue(v))
        );
    }
    assert_eq!(binomial_heap_pop(&mut a), BinomialHeapPopResult::Empty);

    binomial_heap_free(a);
    binomial_heap_free(b);
}

#[test]
pub fn test_binomial_heap_pop_fresh() {
    // A freshly created forest reports empty and stays at zero.
    let mut heap = binomial_heap_new(BINOMIAL_HEAP_TYPE_MIN, int_compare).unwrap();
    assert_eq!(binomial_heap_pop(&mut heap), BinomialHeapPopResult::Empty);
    assert_eq!(binomial_heap_num_entries(&heap), 0);
    binomial_heap_free(heap);
}

#[test]
pub fn test_binomial_heap_merge_failure_atomic() {
    // Forcing allocation failure during a merge leaves both inputs with
    // their counts and drainable contents unchanged.
    let mut a = binomial_heap_new(BINOMIAL_HEAP_TYPE_MIN, int_compare).unwrap();
    let mut b = binomial_heap_new(BINOMIAL_HEAP_TYPE_MIN, int_compare).unwrap();

    for v in [2, 4, 6] {
        assert!(binomial_heap_insert(&mut a, BinomialHeapValue(v)) != 0);
    }
    for v in [1, 3, 5] {
        assert!(binomial_heap_insert(&mut b, BinomialHeapValue(v)) != 0);
    }

    // Both forests hold two trees (orders 0 and 1); joining them needs
    // the new root array and two carries, more than this limit allows.
    binomial_heap_set_alloc_limit(&mut a, Some(1));
    assert_eq!(binomial_heap_merge(&mut a, &b), 0);
    binomial_heap_set_alloc_limit(&mut a, None);

    assert_eq!(binomial_heap_num_entries(&a), 3);
    assert_eq!(binomial_heap_num_entries(&b), 3);

    for v in [2, 4, 6] {
        assert_eq!(
            binomial_heap_pop(&mut a),
            BinomialHeapPopResult::Value(BinomialHeapValue(v))
        );
    }
    for v in [1, 3, 5] {
        assert_eq!(
            binomial_heap_pop(&mut b),
            BinomialHeapPopResult::Value(BinomialHeapValue(v))
        );
    }

    binomial_heap_free(a);
    binomial_heap_free(b);
}

#[test]
pub fn test_binomial_heap_insert_failure_atomic() {
    // A failed insert leaves the forest's count and contents unchanged.
    let mut heap = binomial_heap_new(BINOMIAL_HEAP_TYPE_MIN, int_compare).unwrap();
    for v in [7, 9] {
        assert!(binomial_heap_insert(&mut heap, BinomialHeapValue(v)) != 0);
    }

    binomial_heap_set_alloc_limit(&mut heap, Some(0));
    assert_eq!(binomial_heap_insert(&mut heap, BinomialHeapValue(8)), 0);
    binomial_heap_set_alloc_limit(&mut heap, None);

    assert_eq!(binomial_heap_num_entries(&heap), 2);
    assert_eq!(
        binomial_heap_pop(&mut heap),
        BinomialHeapPopResult::Value(BinomialHeapValue(7))
    );
    assert_eq!(
        binomial_heap_pop(&mut heap),
        BinomialHeapPopResult::Value(BinomialHeapValue(9))
    );
    assert_eq!(binomial_heap_pop(&mut heap), BinomialHeapPopResult::Empty);

    binomial_heap_free(heap);
}

#[test]
pub fn test_binomial_heap_test_max_heap() {
    let mut heap = binomial_heap_new(
        BINOMIAL_HEAP_TYPE_MAX,
        |value1: BinomialHeapValue, value2: BinomialHeapValue| value1.0.cmp(&value2.0) as i32,
    )
    .unwrap();
    let mut test_array = vec![0; NUM_TEST_VALUES];

    /* Push a load of values onto the heap */
    for i in 0..NUM_TEST_VALUES {
        test_array[i] = i as i32;
        assert!(binomial_heap_insert(&mut heap, BinomialHeapValue(test_array[i])) != 0);
    }

    /* Pop values off the heap and check they are in order */
    let mut i = NUM_TEST_VALUES as i32;
    while binomial_heap_num_entries(&heap) > 0 {
        let val = binomial_heap_pop(&mut heap);

        match val {
            BinomialHeapPopResult::Value(v) => {
                assert_eq!(v.0, i - 1);
                i = v.0;
            }
            _ => panic!("expected a value"),
        }
    }

    /* Test pop on an empty heap */
    let val = binomial_heap_pop(&mut heap);
    assert_eq!(val, BinomialHeapPopResult::Empty);

    binomial_heap_free(heap);
}

#[test]
pub fn test_binomial_heap_structure() {
    // After every successful insert the forest holds at most one tree per
    // order, the tree in slot k has order k, and the count is the sum of
    // 2^order over the occupied slots.
    let mut heap = binomial_heap_new(BINOMIAL_HEAP_TYPE_MIN, int_compare).unwrap();

    for i in 0..64 {
        assert!(binomial_heap_insert(&mut heap, BinomialHeapValue(i)) != 0);

        let mut weight: u64 = 0;
        for (k, slot) in heap.roots.iter().enumerate() {
            if let Some(tree) = slot {
                assert_eq!(tree.order, k);
                weight += 1u64 << k;
            }
        }
        assert_eq!(weight, binomial_heap_num_entries(&heap));
    }

    binomial_heap_free(heap);
}

#[test]
pub fn test_binomial_tree_handles() {
    let mut heap = binomial_heap_new(BINOMIAL_HEAP_TYPE_MIN, int_compare).unwrap();
    assert!(binomial_heap_insert(&mut heap, BinomialHeapValue(4)) != 0);
    assert!(binomial_heap_insert(&mut heap, BinomialHeapValue(6)) != 0);

    // Two values make one tree of order 1; share and release handles to it.
    let handle = binomial_tree_ref(&heap.roots[1]);
    assert!(handle.is_some());
    assert_eq!(handle.as_ref().unwrap().order, 1);
    assert_eq!(handle.as_ref().unwrap().value, BinomialHeapValue(4));

    // Combining the shared tree with itself gives a tree one order up,
    // leaving the forest's own tree untouched.
    let doubled = binomial_tree_merge(
        &heap,
        handle.as_ref().unwrap(),
        handle.as_ref().unwrap(),
    );
    assert_eq!(doubled.order, 2);
    assert_eq!(doubled.value, BinomialHeapValue(4));
    binomial_tree_unref(Some(doubled));
    binomial_tree_unref(handle);

    assert_eq!(binomial_heap_num_entries(&heap), 2);
    assert_eq!(
        binomial_heap_pop(&mut heap),
        BinomialHeapPopResult::Value(BinomialHeapValue(4))
    );
    binomial_heap_free(heap);
}
