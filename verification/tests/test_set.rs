use std::collections::hash_map::DefaultHasher;
use std::hash::{Hash, Hasher};

use test_project::set::{
    set_free, set_insert, set_intersection, set_iter_has_more, set_iter_next, set_iterate,
    set_new, set_num_entries, set_query, set_register_free_function, set_remove,
    set_set_alloc_limit, set_to_array, set_union, SetIterator, ValueSet,
};

type StringSet = ValueSet<String, fn(&String) -> usize, fn(&String, &String) -> bool>;

pub fn generate_set() -> Option<StringSet> {
    let mut set = match set_new(
        string_hash as fn(&String) -> usize,
        string_equal as fn(&String, &String) -> bool,
    ) {
        Some(s) => s,
        None => return None,
    };

    let mut buf = String::with_capacity(10);

    for i in 0..10000usize {
        buf.clear();
        buf.push_str(&i.to_string());
        let value = buf.clone();

        set_insert(&mut set, value);

        assert_eq!(set_num_entries(&set), i + 1);
    }

    set_register_free_function(&mut set, Some(|_: String| {}));

    Some(set)
}

#[test]
pub fn test_set_union() {
    let numbers1 = vec![1, 2, 3, 4, 5, 6, 7];
    let numbers2 = vec![5, 6, 7, 8, 9, 10, 11];
    let result = vec![1, 2, 3, 4, 5, 6, 7, 8, 9, 10, 11];

    // Create the first set
    let mut set1 = set_new(
        int_hash as fn(&i32) -> usize,
        int_equal as fn(&i32, &i32) -> bool,
    )
    .unwrap();

    for number in numbers1.iter() {
        set_insert(&mut set1, *number);
    }

    // Create the second set
    let mut set2 = set_new(
        int_hash as fn(&i32) -> usize,
        int_equal as fn(&i32, &i32) -> bool,
    )
    .unwrap();

    for number in numbers2.iter() {
        set_insert(&mut set2, *number);
    }

    // Perform the union
    let mut result_set = set_union(&set1, &set2).unwrap();

    assert_eq!(set_num_entries(&result_set), 11);

    for number in result.iter() {
        assert_ne!(set_query(&result_set, *number), 0);
    }

    set_free(&mut result_set);

    set_free(&mut set1);
    set_free(&mut set2);
}

#[test]
pub fn test_set_to_array() {
    let mut set = set_new(
        pointer_hash as fn(&i32) -> usize,
        pointer_equal as fn(&i32, &i32) -> bool,
    )
    .unwrap();
    let mut values = [1; 100];

    for i in 0..100 {
        set_insert(&mut set, values[i]);
    }

    let array = set_to_array(&set);

    // Check the array
    for i in 0..array.len() {
        assert_eq!(array[i], 1);
    }
    for i in 0..100 {
        values[i] = 0;
    }

    set_free(&mut set);
}

#[test]
pub fn test_set_out_of_memory() {
    let mut set = match set_new(
        int_hash as fn(&i32) -> usize,
        int_equal as fn(&i32, &i32) -> bool,
    ) {
        Some(s) => s,
        None => return,
    };

    let mut values = [0; 66];

    // Test normal failure, with no allocation allowed at all
    set_set_alloc_limit(&mut set, Some(0));
    values[0] = 0;
    assert!(!set_insert(&mut set, values[0]));
    assert_eq!(set_num_entries(&set), 0);
    set_set_alloc_limit(&mut set, None);

    for i in 0..65 {
        values[i] = i as i32;

        assert!(set_insert(&mut set, values[i]));
        assert_eq!(set_num_entries(&set), i + 1);
    }

    assert_eq!(set_num_entries(&set), 65);

    // Test the 66th insert, again with allocation forbidden
    set_set_alloc_limit(&mut set, Some(0));
    values[65] = 65;

    assert!(!set_insert(&mut set, values[65]));
    assert_eq!(set_num_entries(&set), 65);

    set_free(&mut set);
}

#[test]
pub fn test_set_insert() {
    let mut set = set_new(
        int_hash as fn(&i32) -> usize,
        int_equal as fn(&i32, &i32) -> bool,
    )
    .expect("failed to create set");

    let numbers1 = [1, 2, 3, 4, 5, 6];
    let numbers2 = [5, 6, 7, 8, 9, 10];

    for &num in &numbers1 {
        set_insert(&mut set, num);
    }
    for &num in &numbers2 {
        set_insert(&mut set, num);
    }

    assert_eq!(set_num_entries(&set), 10);

    set_free(&mut set);
}

#[test]
pub fn test_set_query() {
    let mut set = match generate_set() {
        Some(s) => s,
        None => return,
    };

    let mut buf = String::with_capacity(10);

    /* Test all values */
    for i in 0..10000usize {
        buf.clear();
        buf.push_str(&i.to_string());
        assert!(set_query(&set, buf.clone()) != 0);
    }

    /* Test invalid values returning zero */
    assert!(set_query(&set, "-1".to_string()) == 0);
    assert!(set_query(&set, "100001".to_string()) == 0);

    set_free(&mut set);
}

#[test]
pub fn test_set_iterating() {
    let mut set = match generate_set() {
        Some(s) => s,
        None => return,
    };

    let mut iterator = SetIterator {
        set: None,
        next_entry: None,
        next_chain: 0,
    };

    let mut count = 0;
    set_iterate(&set, &mut iterator);

    while set_iter_has_more(&iterator) {
        set_iter_next(&mut iterator);
        count += 1;
    }

    assert!(set_iter_next(&mut iterator).is_none());

    assert_eq!(count, 10000);

    set_free(&mut set);

    let set = match set_new(
        int_hash as fn(&i32) -> usize,
        int_equal as fn(&i32, &i32) -> bool,
    ) {
        Some(s) => s,
        None => return,
    };

    let mut iterator = SetIterator {
        set: None,
        next_entry: None,
        next_chain: 0,
    };

    set_iterate(&set, &mut iterator);

    assert!(!set_iter_has_more(&iterator));

    let mut set = set;
    set_free(&mut set);
}

#[test]
pub fn test_set_intersection() {
    let numbers1 = vec![1, 2, 3, 4, 5, 6, 7];
    let numbers2 = vec![5, 6, 7, 8, 9, 10, 11];
    let result = vec![5, 6, 7];

    // Create the first set
    let mut set1 = set_new(
        int_hash as fn(&i32) -> usize,
        int_equal as fn(&i32, &i32) -> bool,
    )
    .unwrap();

    for num in numbers1.iter() {
        set_insert(&mut set1, *num);
    }

    // Create the second set
    let mut set2 = set_new(
        int_hash as fn(&i32) -> usize,
        int_equal as fn(&i32, &i32) -> bool,
    )
    .unwrap();

    for num in numbers2.iter() {
        set_insert(&mut set2, *num);
    }

    // Perform the intersection
    let result_set = set_intersection(&set1, &set2);

    assert_eq!(set_num_entries(result_set.as_ref().unwrap()), 3);

    for num in result.iter() {
        assert_ne!(set_query(result_set.as_ref().unwrap(), *num), 0);
    }

    // Clean up
    set_free(&mut set1);
    set_free(&mut set2);
    if let Some(mut rs) = result_set {
        set_free(&mut rs);
    }
}

#[test]
pub fn test_set_new_free() {
    let mut set = match set_new(
        int_hash as fn(&i32) -> usize,
        int_equal as fn(&i32, &i32) -> bool,
    ) {
        Some(s) => s,
        None => panic!("failed to create set"),
    };

    set_register_free_function(&mut set, Some(free));

    // Fill the set with many values before freeing
    for i in 0..10000 {
        let value = i;
        set_insert(&mut set, value);
    }

    // Free the set
    set_free(&mut set);
}

#[test]
pub fn test_set_remove() {
    let mut set = match generate_set() {
        Some(s) => s,
        None => return,
    };

    let mut num_entries = set_num_entries(&set);
    assert_eq!(num_entries, 10000);

    /* Remove some entries */
    for i in 4000..6000 {
        let buf = i.to_string();

        /* Check this is in the set */
        assert_ne!(set_query(&set, buf.clone()), 0);

        /* Remove it */
        assert!(set_remove(&mut set, buf.clone()));

        /* Check the number of entries decreases */
        assert_eq!(set_num_entries(&set), num_entries - 1);

        /* Check it is no longer in the set */
        assert_eq!(set_query(&set, buf), 0);

        num_entries -= 1;
    }

    /* Try to remove some invalid entries */
    for i in -1000..-500 {
        let buf = i.to_string();

        assert!(!set_remove(&mut set, buf));
        assert_eq!(set_num_entries(&set), num_entries);
    }

    for i in 50000..51000 {
        let buf = i.to_string();

        assert!(!set_remove(&mut set, buf));
        assert_eq!(set_num_entries(&set), num_entries);
    }

    set_free(&mut set);
}

#[test]
pub fn test_set_iterating_remove() {
    let mut set = generate_set().expect("failed to generate set");
    let mut iterator = SetIterator::<String>::default();
    let mut count = 0;
    let mut removed = 0;

    set_iterate(&set, &mut iterator);

    while set_iter_has_more(&iterator) {
        if let Some(value) = set_iter_next(&mut iterator) {
            if value.parse::<u32>().unwrap() % 100 == 0 {
                set_remove(&mut set, value);
                removed += 1;
            }
            count += 1;
        }
    }

    assert_eq!(count, 10000);
    assert_eq!(removed, 100);
    assert_eq!(set_num_entries(&set), 10000 - removed);

    set_free(&mut set);
}

pub fn pointer_hash(data: &i32) -> usize {
    *data as usize
}

pub fn pointer_equal(a: &i32, b: &i32) -> bool {
    a == b
}

fn free(data: i32) {
    println!("freeing: {}", data);
}

pub fn int_hash(data: &i32) -> usize {
    *data as usize
}

pub fn int_equal(a: &i32, b: &i32) -> bool {
    a == b
}

pub fn string_hash(s: &String) -> usize {
    let mut hasher = DefaultHasher::new();
    s.hash(&mut hasher);
    hasher.finish() as usize
}

pub fn string_equal(a: &String, b: &String) -> bool {
    a == b
}
