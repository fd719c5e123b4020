use test_project::hash_table::{
    hash_table_free, hash_table_insert, hash_table_iter_has_more, hash_table_iter_next,
    hash_table_iterate, hash_table_lookup, hash_table_new, hash_table_num_entries,
    hash_table_register_free_functions, hash_table_remove, HashTable, HashTableIterator,
};

const NUM_TEST_VALUES: usize = 10000;

fn string_hash(value: &String) -> u32 {
    value.chars().fold(0u32, |acc, c| acc.wrapping_add(c as u32))
}

fn string_equal(value1: &String, value2: &String) -> i32 {
    if value1 == value2 {
        1
    } else {
        0
    }
}

fn int_hash(value: &i32) -> u32 {
    *value as u32
}

fn int_equal(value1: &i32, value2: &i32) -> i32 {
    if value1 == value2 {
        1
    } else {
        0
    }
}

type StringTable =
    HashTable<String, String, fn(&String) -> u32, fn(&String, &String) -> i32>;

pub fn generate_hash_table() -> Option<Box<StringTable>> {
    let mut hash_table = match hash_table_new(
        string_hash as fn(&String) -> u32,
        string_equal as fn(&String, &String) -> i32,
    ) {
        Some(table) => table,
        None => return None,
    };

    for i in 0..NUM_TEST_VALUES {
        let value = format!("{}", i);

        hash_table_insert(&mut hash_table, value.clone(), value);
    }

    hash_table_register_free_functions(
        &mut hash_table,
        None::<fn(String)>,
        Some((|_| {}) as fn(String)),
    );

    Some(hash_table)
}

#[test]
pub fn test_hash_iterator_key_pair() {
    let mut hash_table = hash_table_new(
        int_hash as fn(&i32) -> u32,
        int_equal as fn(&i32, &i32) -> i32,
    )
    .expect("failed to create hash table");
    let mut iterator = HashTableIterator {
        hash_table: None,
        next_entry: None,
        next_chain: 0,
    };

    /* Add some values */
    hash_table_insert(&mut hash_table, 1, 1);
    hash_table_insert(&mut hash_table, 2, 2);

    hash_table_iterate(&hash_table, &mut iterator);

    while hash_table_iter_has_more(&iterator) {
        /* Retrieve both key and value */
        let (key, val) = hash_table_iter_next(&mut iterator).unwrap();

        assert_eq!(key, val);
    }

    hash_table_free(hash_table);
}

#[test]
pub fn test_hash_table_insert_lookup() {
    let mut hash_table = match generate_hash_table() {
        Some(table) => table,
        None => return,
    };

    assert_eq!(hash_table_num_entries(&hash_table), NUM_TEST_VALUES as u32);

    for i in 0..NUM_TEST_VALUES {
        let key = format!("{}", i);
        let found_value = hash_table_lookup(&hash_table, &key);

        assert_eq!(found_value, Some(&key));
    }

    /* Missing keys are not found */
    assert!(hash_table_lookup(&hash_table, &"-1".to_string()).is_none());

    /* Overwriting a key keeps one entry for it */
    let key = "12".to_string();
    hash_table_insert(&mut hash_table, key.clone(), "replaced".to_string());
    assert_eq!(hash_table_num_entries(&hash_table), NUM_TEST_VALUES as u32);
    assert_eq!(
        hash_table_lookup(&hash_table, &key),
        Some(&"replaced".to_string())
    );

    hash_table_free(hash_table);
}

#[test]
pub fn test_hash_table_iterating() {
    let hash_table = match generate_hash_table() {
        Some(table) => table,
        None => return,
    };

    let mut iterator = HashTableIterator {
        hash_table: None,
        next_entry: None,
        next_chain: 0,
    };

    let mut count = 0;
    hash_table_iterate(&hash_table, &mut iterator);

    while hash_table_iter_has_more(&iterator) {
        hash_table_iter_next(&mut iterator);
        count += 1;
    }

    assert!(hash_table_iter_next(&mut iterator).is_none());

    assert_eq!(count, NUM_TEST_VALUES);

    hash_table_free(hash_table);
}

#[test]
pub fn test_hash_table_new_free() {
    let mut hash_table = hash_table_new(
        int_hash as fn(&i32) -> u32,
        int_equal as fn(&i32, &i32) -> i32,
    )
    .unwrap();

    assert_eq!(hash_table_num_entries(&hash_table), 0);

    /* Add some values before freeing */
    hash_table_insert(&mut hash_table, 1, 1);
    hash_table_insert(&mut hash_table, 2, 2);
    hash_table_insert(&mut hash_table, 3, 3);
    hash_table_insert(&mut hash_table, 4, 4);

    assert_eq!(hash_table_num_entries(&hash_table), 4);

    hash_table_free(hash_table);
}

#[test]
pub fn test_hash_table_remove() {
    let mut hash_table = match generate_hash_table() {
        Some(table) => table,
        None => return,
    };

    let mut num_entries = hash_table_num_entries(&hash_table);
    assert_eq!(num_entries, NUM_TEST_VALUES as u32);

    /* Remove some entries */
    for i in 4000..6000 {
        let key = format!("{}", i);

        /* Check this is in the table */
        assert!(hash_table_lookup(&hash_table, &key).is_some());

        /* Remove it */
        assert_eq!(hash_table_remove(&mut hash_table, &key), 1);

        /* Check the number of entries decreases */
        assert_eq!(hash_table_num_entries(&hash_table), num_entries - 1);

        /* Check it is no longer in the table */
        assert!(hash_table_lookup(&hash_table, &key).is_none());

        num_entries -= 1;
    }

    /* Try to remove some invalid entries */
    for i in -1000..-500 {
        let key = format!("{}", i);

        assert_eq!(hash_table_remove(&mut hash_table, &key), 0);
        assert_eq!(hash_table_num_entries(&hash_table), num_entries);
    }

    hash_table_free(hash_table);
}
