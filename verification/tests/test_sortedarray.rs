use test_project::compare_int::int_compare;
use test_project::sortedarray::{
    sortedarray_free, sortedarray_get, sortedarray_index_of, sortedarray_insert,
    sortedarray_length, sortedarray_remove, sortedarray_remove_range, SortedArray,
};

type IntSortedArray = SortedArray<i32, fn(&i32, &i32) -> bool, fn(&i32, &i32) -> i32>;

pub fn int_equal(a: &i32, b: &i32) -> bool {
    a == b
}

pub fn generate_sortedarray_equ(equ_func: fn(&i32, &i32) -> bool) -> Option<Box<IntSortedArray>> {
    const TEST_SIZE: usize = 20;
    let array: [i32; TEST_SIZE] = [
        10, 12, 12, 1, 2, 3, 6, 7, 2, 23, 13, 23, 23, 34, 31, 9, 0, 0, 0, 0,
    ];

    let mut sortedarray = SortedArray::new(0, equ_func, int_compare as fn(&i32, &i32) -> i32)?;

    for &value in &array[..TEST_SIZE] {
        let data = value;
        sortedarray_insert(&mut sortedarray, data);
    }

    Some(sortedarray)
}

pub fn generate_sortedarray() -> Option<Box<IntSortedArray>> {
    generate_sortedarray_equ(int_equal)
}

pub fn free_sorted_ints(sortedarray: Option<Box<IntSortedArray>>) {
    if let Some(sa) = sortedarray {
        for i in 0..sortedarray_length(&sa) {
            if let Some(_value) = sortedarray_get(Some(&sa), i) {}
        }
    }
}

pub fn check_sorted_prop(sortedarray: &IntSortedArray) {
    for i in 1..sortedarray_length(sortedarray) {
        assert!(
            (sortedarray.cmp_func)(
                sortedarray_get(Some(sortedarray), i - 1).unwrap(),
                sortedarray_get(Some(sortedarray), i).unwrap()
            ) <= 0
        );
    }
}

#[test]
pub fn test_sortedarray_index_of() {
    let sortedarray = generate_sortedarray().expect("failed to generate sorted array");

    for i in 0..20 {
        let data = *sortedarray_get(Some(&sortedarray), i)
            .expect("failed to get element from sorted array");
        let r = sortedarray_index_of(&sortedarray, &data);
        assert!(r >= 0);
        assert_eq!(
            *sortedarray_get(Some(&sortedarray), r as usize)
                .expect("failed to get element from sorted array"),
            data
        );
    }

    free_sorted_ints(Some(sortedarray));
}

#[test]
pub fn test_sortedarray_new_free() {
    /* test normal */
    let sortedarray: Option<Box<IntSortedArray>> =
        SortedArray::new(0, int_equal, int_compare as fn(&i32, &i32) -> i32);
    assert!(sortedarray.is_some());
    sortedarray_free(sortedarray);

    /* freeing null */
    sortedarray_free::<i32, fn(&i32, &i32) -> bool, fn(&i32, &i32) -> i32>(None);
}

#[test]
pub fn test_sortedarray_remove() {
    const TEST_REMOVE_EL: usize = 5;
    let mut sortedarray = generate_sortedarray().expect("failed to create sorted array");

    /* remove an element and check its successor moved down */
    let i = *sortedarray_get(Some(&sortedarray), TEST_REMOVE_EL + 1).expect("index out of bounds");
    sortedarray_remove(&mut sortedarray, TEST_REMOVE_EL);
    assert_eq!(
        *sortedarray_get(Some(&sortedarray), TEST_REMOVE_EL).expect("index out of bounds"),
        i
    );

    check_sorted_prop(&sortedarray);
    free_sorted_ints(Some(sortedarray));
}

#[test]
pub fn test_sortedarray_get() {
    let mut i = 0;

    let arr = generate_sortedarray();

    if let Some(array) = arr {
        while i < sortedarray_length(&array) {
            assert_eq!(
                sortedarray_get(Some(&array), i),
                sortedarray_get(Some(&array), i)
            );
            if let Some(value) = sortedarray_get(Some(&array), i) {
                assert_eq!(*value, *value);
            }
            i += 1;
        }
        free_sorted_ints(Some(array));
    }
}

#[test]
pub fn test_sortedarray_remove_range() {
    const TEST_REMOVE_RANGE: usize = 5;
    const TEST_REMOVE_RANGE_LENGTH: usize = 3;

    let mut sortedarray = generate_sortedarray().expect("failed to generate sorted array");

    /* get values in test range */
    let mut new = vec![0; TEST_REMOVE_RANGE_LENGTH];
    for i in 0..TEST_REMOVE_RANGE_LENGTH {
        if let Some(value) = sortedarray_get(
            Some(&sortedarray),
            TEST_REMOVE_RANGE + TEST_REMOVE_RANGE_LENGTH + i,
        ) {
            new[i] = *value;
        }
    }

    /* remove */
    sortedarray_remove_range(
        &mut sortedarray,
        TEST_REMOVE_RANGE,
        TEST_REMOVE_RANGE_LENGTH,
    );

    /* assert */
    for i in 0..TEST_REMOVE_RANGE_LENGTH {
        if let Some(value) = sortedarray_get(Some(&sortedarray), TEST_REMOVE_RANGE + i) {
            assert_eq!(*value, new[i]);
        }
    }

    check_sorted_prop(&sortedarray);
    free_sorted_ints(Some(sortedarray));
}

#[test]
pub fn test_sortedarray_insert() {
    let mut sortedarray = generate_sortedarray().unwrap();

    for _ in 0..20 {
        let i: i32 = 0;
        sortedarray_insert(&mut sortedarray, i);
    }

    check_sorted_prop(&sortedarray);
    free_sorted_ints(Some(sortedarray));
}
