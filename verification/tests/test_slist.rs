use test_project::slist::{
    slist_append, slist_data, slist_find_data, slist_free, slist_iter_has_more, slist_iter_next,
    slist_iter_remove, slist_iterate, slist_length, slist_next, slist_nth_data, slist_nth_entry,
    slist_prepend, slist_remove_data, slist_remove_entry, slist_sort, slist_sort_internal,
    slist_to_array, SList, SListIterator,
};

const VARIABLE1: i32 = 50;
const VARIABLE2: i32 = 0;
const VARIABLE3: i32 = 0;
const VARIABLE4: i32 = 0;

pub fn generate_list() -> SList<i32> {
    let mut list: SList<i32> = SList::default();

    assert!(slist_append(&mut list, VARIABLE1).is_some());
    assert!(slist_append(&mut list, VARIABLE2).is_some());
    assert!(slist_append(&mut list, VARIABLE3).is_some());
    assert!(slist_append(&mut list, VARIABLE4).is_some());

    list
}

#[test]
pub fn test_slist_nth_data() {
    let list = generate_list();

    /* Check all values in the list */
    assert_eq!(slist_nth_data(&list, 0), Some(VARIABLE1));
    assert_eq!(slist_nth_data(&list, 1), Some(VARIABLE2));
    assert_eq!(slist_nth_data(&list, 2), Some(VARIABLE3));
    assert_eq!(slist_nth_data(&list, 3), Some(VARIABLE4));

    /* Check out of range values */
    assert_eq!(slist_nth_data(&list, 4), None);
    assert_eq!(slist_nth_data(&list, 400), None);

    slist_free(list);
}

#[test]
pub fn test_slist_length() {
    let mut list = generate_list();

    assert_eq!(slist_length(&list), 4);

    slist_prepend(&mut list, VARIABLE1);

    assert_eq!(slist_length(&list), 5);

    let empty: SList<i32> = SList::default();
    assert_eq!(slist_length(&empty), 0);

    slist_free(list);
}

#[test]
pub fn test_slist_nth_entry() {
    let list = generate_list();

    // Check all values in the list
    let mut entry = slist_nth_entry(&list, 0);
    assert_eq!(entry.as_ref().map(|e| slist_data(e)), Some(VARIABLE1));
    entry = slist_nth_entry(&list, 1);
    assert_eq!(entry.as_ref().map(|e| slist_data(e)), Some(VARIABLE2));
    entry = slist_nth_entry(&list, 2);
    assert_eq!(entry.as_ref().map(|e| slist_data(e)), Some(VARIABLE3));
    entry = slist_nth_entry(&list, 3);
    assert_eq!(entry.as_ref().map(|e| slist_data(e)), Some(VARIABLE4));

    // Check out of range values
    entry = slist_nth_entry(&list, 4);
    assert!(entry.is_none());
    entry = slist_nth_entry(&list, 400);
    assert!(entry.is_none());

    slist_free(list);
}

#[test]
pub fn test_slist_find_data() {
    let entries = vec![89, 23, 42, 16, 15, 4, 8, 99, 50, 30];
    let mut list: SList<i32> = SList::default();

    for &entry in &entries {
        slist_append(&mut list, entry);
    }

    for &val in &entries {
        let result = slist_find_data(&list, &val);

        assert!(result.is_some());

        let data = slist_data(&result.unwrap());
        assert_eq!(data, val);
    }

    let invalid_values = vec![0, 56];
    for &val in &invalid_values {
        assert!(slist_find_data(&list, &val).is_none());
    }

    slist_free(list);
}

#[test]
pub fn test_slist_remove_entry() {
    let mut empty_list: SList<i32> = SList::default();
    let mut list = generate_list();

    /* Remove the third entry */
    let entry = slist_nth_entry(&list, 2);
    assert!(slist_remove_entry(&mut list, &entry) != 0);
    assert!(slist_length(&list) == 3);

    /* Remove the first entry */
    let entry = slist_nth_entry(&list, 0);
    assert!(slist_remove_entry(&mut list, &entry) != 0);
    assert!(slist_length(&list) == 2);

    /* Try some invalid removes */

    /* This was already removed: */
    assert!(slist_remove_entry(&mut list, &entry) == 0);

    /* An absent entry */
    assert!(slist_remove_entry(&mut list, &None) == 0);

    /* Removing an absent entry from an empty list */
    assert!(slist_remove_entry(&mut empty_list, &None) == 0);

    slist_free(list);
}

#[test]
pub fn test_slist_append() {
    let mut list: SList<i32> = SList::default();

    assert!(slist_append(&mut list, VARIABLE1).is_some());
    assert!(slist_append(&mut list, VARIABLE2).is_some());
    assert!(slist_append(&mut list, VARIABLE3).is_some());
    assert!(slist_append(&mut list, VARIABLE4).is_some());
    assert_eq!(slist_length(&list), 4);

    assert_eq!(slist_nth_data(&list, 0), Some(VARIABLE1));
    assert_eq!(slist_nth_data(&list, 1), Some(VARIABLE2));
    assert_eq!(slist_nth_data(&list, 2), Some(VARIABLE3));
    assert_eq!(slist_nth_data(&list, 3), Some(VARIABLE4));

    slist_free(list);
}

#[test]
pub fn test_slist_free() {
    let list = generate_list();

    slist_free(list);

    /* Check the empty list frees correctly */
    let empty: SList<i32> = SList::default();
    slist_free(empty);
}

#[test]
pub fn test_slist_iterate() {
    let mut list: SList<i32> = SList::default();
    let mut iter = SListIterator {
        prev_next: None,
        current: None,
        marker: std::marker::PhantomData,
    };
    let mut data: Option<i32>;
    let a: i32 = 0;
    let mut counter: i32 = 0;

    for _ in 0..50 {
        slist_prepend(&mut list, a);
    }

    slist_iterate(&list, &mut iter);

    slist_iter_remove(&mut list, &mut iter);

    while slist_iter_has_more(&list, &iter) {
        data = slist_iter_next(&list, &mut iter);

        if let Some(_) = data {
            counter += 1;
        }

        if (counter % 2) == 0 {
            slist_iter_remove(&mut list, &mut iter);
            slist_iter_remove(&mut list, &mut iter);
        }
    }

    assert!(slist_iter_next(&list, &mut iter).is_none());

    slist_iter_remove(&mut list, &mut iter);

    assert_eq!(counter, 50);
    assert_eq!(slist_length(&list), 25);

    slist_free(list);

    let mut list: SList<i32> = SList::default();
    counter = 0;

    slist_iterate(&list, &mut iter);

    while slist_iter_has_more(&list, &iter) {
        data = slist_iter_next(&list, &mut iter);

        if let Some(_) = data {
            counter += 1;
        }

        if (counter % 2) == 0 {
            slist_iter_remove(&mut list, &mut iter);
        }
    }

    assert_eq!(counter, 0);
}

#[test]
pub fn test_slist_prepend() {
    let mut list: SList<i32> = SList::default();

    assert!(slist_prepend(&mut list, VARIABLE1).is_some());
    assert!(slist_prepend(&mut list, VARIABLE2).is_some());
    assert!(slist_prepend(&mut list, VARIABLE3).is_some());
    assert!(slist_prepend(&mut list, VARIABLE4).is_some());

    assert_eq!(slist_nth_data(&list, 0), Some(VARIABLE4));
    assert_eq!(slist_nth_data(&list, 1), Some(VARIABLE3));
    assert_eq!(slist_nth_data(&list, 2), Some(VARIABLE2));
    assert_eq!(slist_nth_data(&list, 3), Some(VARIABLE1));

    slist_free(list);
}

#[test]
pub fn test_slist_to_array() {
    let list = generate_list();

    let array = slist_to_array(&list);

    assert_eq!(array.as_ref().unwrap()[0], VARIABLE1);
    assert_eq!(array.as_ref().unwrap()[1], VARIABLE2);
    assert_eq!(array.as_ref().unwrap()[2], VARIABLE3);
    assert_eq!(array.as_ref().unwrap()[3], VARIABLE4);

    slist_free(list);
}

#[test]
pub fn test_slist_next() {
    let list = generate_list();
    let mut rover = slist_nth_entry(&list, 0);

    assert_eq!(slist_data(rover.as_ref().unwrap()), VARIABLE1);
    rover = slist_next(&list, rover);
    assert_eq!(slist_data(rover.as_ref().unwrap()), VARIABLE2);
    rover = slist_next(&list, rover);
    assert_eq!(slist_data(rover.as_ref().unwrap()), VARIABLE3);
    rover = slist_next(&list, rover);
    assert_eq!(slist_data(rover.as_ref().unwrap()), VARIABLE4);
    rover = slist_next(&list, rover);
    assert!(rover.is_none());

    slist_free(list);
}

#[test]
pub fn test_slist_iterate_bad_remove() {
    // Removing an entry the walk has already dropped does nothing; the
    // plain iteration test covers removal during a walk in full.
    let mut list: SList<i32> = SList::default();
    let mut iter = SListIterator {
        prev_next: None,
        current: None,
        marker: std::marker::PhantomData,
    };
    for i in 0..49 {
        slist_prepend(&mut list, i);
    }
    slist_iterate(&list, &mut iter);
    let first = slist_iter_next(&list, &mut iter);
    assert!(first.is_some());
    slist_iter_remove(&mut list, &mut iter);
    slist_iter_remove(&mut list, &mut iter);
    assert_eq!(slist_length(&list), 48);
}

#[test]
pub fn test_slist_remove_data() {
    let entries = vec![89, 4, 23, 42, 4, 16, 15, 4, 8, 99, 50, 30, 4];
    let num_entries = entries.len() as u32;
    let mut list: SList<i32> = SList::default();

    for entry in entries.iter().rev() {
        slist_prepend(&mut list, *entry);
    }

    let mut val = 0;
    assert_eq!(slist_remove_data(&mut list, |&a, &b| a == b, val), 0);
    val = 56;
    assert_eq!(slist_remove_data(&mut list, |&a, &b| a == b, val), 0);

    val = 8;
    assert_eq!(slist_remove_data(&mut list, |&a, &b| a == b, val), 1);
    assert_eq!(slist_length(&list), num_entries - 1);

    val = 4;
    assert_eq!(slist_remove_data(&mut list, |&a, &b| a == b, val), 4);
    assert_eq!(slist_length(&list), num_entries - 5);

    val = 89;
    assert_eq!(slist_remove_data(&mut list, |&a, &b| a == b, val), 1);
    assert_eq!(slist_length(&list), num_entries - 6);

    slist_free(list);
}

#[test]
pub fn test_slist_sort() {
    let mut list: SList<i32> = SList::default();
    let entries = [89, 4, 23, 42, 4, 16, 15, 4, 8, 99, 50, 30, 4];
    let sorted = [4, 4, 4, 4, 8, 15, 16, 23, 30, 42, 50, 89, 99];
    let num_entries = entries.len();

    for i in 0..num_entries {
        slist_prepend(&mut list, entries[i]);
    }

    slist_sort(&mut list, |a: &i32, b: &i32| a.cmp(b) as i32);

    assert_eq!(slist_length(&list), num_entries as u32);

    for i in 0..num_entries {
        let value = slist_nth_data(&list, i);
        assert_eq!(value, Some(sorted[i]));
    }

    slist_free(list);

    let mut list: SList<i32> = SList::default();

    let end = slist_sort_internal(&mut list, |a: &i32, b: &i32| a.cmp(b) as i32);

    assert!(end.is_none());
    assert_eq!(slist_length(&list), 0);
}
