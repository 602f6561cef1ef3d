use basic_data_structures::hash_table::{HashTable, TableError, FOLD_THRESHOLD};

fn keys_of(table: &HashTable, bucket: usize) -> Vec<String> {
    table.dump()[bucket].1.clone()
}

fn bucket_lengths(table: &HashTable) -> usize {
    table.dump().iter().map(|(_, keys)| keys.len()).sum()
}

#[test]
fn new_table_has_ten_empty_buckets() {
    let table = HashTable::new();
    assert_eq!(table.rows_count(), 10);
    assert_eq!(table.size(), 0);
    let snapshot = table.dump();
    assert_eq!(snapshot.len(), 10);
    for (index, (bucket, keys)) in snapshot.iter().enumerate() {
        assert_eq!(*bucket, index);
        assert!(keys.is_empty());
    }
}

#[test]
fn zero_buckets_are_rejected() {
    assert_eq!(HashTable::new_with_custom_size(0).err(), Some(TableError::ZeroRows));
}

#[test]
fn custom_size_sets_bucket_count() {
    let table = HashTable::new_with_custom_size(7).ok().unwrap();
    assert_eq!(table.rows_count(), 7);
    assert_eq!(table.size(), 0);
    assert_eq!(table.dump().len(), 7);
}

#[test]
fn additive_hash_routes_single_bytes() {
    let mut table = HashTable::new_with_custom_size(5).ok().unwrap();
    table.insert("a".to_string());
    table.insert("b".to_string());
    table.insert("c".to_string());
    assert_eq!(keys_of(&table, 0), Vec::<String>::new());
    assert_eq!(keys_of(&table, 1), Vec::<String>::new());
    assert_eq!(keys_of(&table, 2), vec!["a".to_string()]);
    assert_eq!(keys_of(&table, 3), vec!["b".to_string()]);
    assert_eq!(keys_of(&table, 4), vec!["c".to_string()]);
    assert_eq!(table.size(), 3);
}

#[test]
fn additive_hash_is_byte_sum_modulo_rows() {
    let table = HashTable::new_with_custom_size(30).ok().unwrap();
    // 116 + 101 + 115 + 116 = 448, and 448 % 30 = 28
    assert_eq!(table.hash("test".to_string()), 28);
    assert_eq!(table.hash(String::new()), 0);
}

#[test]
fn weighted_fold_hash_weighs_bytes() {
    let table = HashTable::new_with_custom_size(40).ok().unwrap();
    // 't' = 116 is divisible by 4, 'e' = 101 and 's' = 115 are not:
    // 116 + 101 * 255 + 115 * 255 + 116 = 55312, and 55312 % 40 = 32
    assert_eq!(table.hash_with_string_folding("test".to_string()), 32);
    assert_eq!(table.hash_with_string_folding(String::new()), 0);
}

#[test]
fn weighted_fold_hash_is_used_above_threshold() {
    let mut table = HashTable::new_with_custom_size(40).ok().unwrap();
    table.insert("test".to_string());
    let expected = (116 + 101 * 255 + 115 * 255 + 116) % 40;
    assert_eq!(expected, 32);
    assert_eq!(keys_of(&table, expected), vec!["test".to_string()]);
    assert_eq!(table.size(), 1);
    assert_eq!(bucket_lengths(&table), 1);
}

#[test]
fn threshold_itself_uses_additive_hash() {
    assert_eq!(FOLD_THRESHOLD, 30);
    let mut at = HashTable::new_with_custom_size(30).ok().unwrap();
    at.insert("test".to_string());
    assert_eq!(keys_of(&at, 448 % 30), vec!["test".to_string()]);
    let mut above = HashTable::new_with_custom_size(31).ok().unwrap();
    above.insert("test".to_string());
    assert_eq!(keys_of(&above, 55312 % 31), vec!["test".to_string()]);
}

#[test]
fn hashes_use_utf8_bytes() {
    let table = HashTable::new_with_custom_size(10).ok().unwrap();
    // "é" is the two bytes 195 and 169
    assert_eq!(table.hash("é".to_string()), (195 + 169) % 10);
    assert_eq!(table.hash_with_string_folding("é".to_string()), (195 * 255 + 169 * 255) % 10);
}

#[test]
fn long_key_hash_does_not_overflow() {
    let table = HashTable::new_with_custom_size(997).ok().unwrap();
    let key = "e".repeat(200_000);
    // the weighted sum, 5151000000, does not fit in 32 bits
    let expected = (200_000u64 * 101 * 255) % 997;
    assert_eq!(expected, 497);
    assert_eq!(table.hash_with_string_folding(key) as u64, expected);
}

#[test]
fn duplicate_keys_share_a_bucket_in_insertion_order() {
    let mut table = HashTable::new_with_custom_size(5).ok().unwrap();
    table.insert("a".to_string());
    table.insert("f".to_string());
    table.insert("a".to_string());
    assert_eq!(keys_of(&table, 2), vec!["a".to_string(), "f".to_string(), "a".to_string()]);
    assert_eq!(table.size(), 3);
}

#[test]
fn last_bucket_receives_keys() {
    let mut table = HashTable::new_with_custom_size(5).ok().unwrap();
    table.insert("c".to_string());
    assert_eq!(table.hash("c".to_string()), 4);
    assert_eq!(keys_of(&table, 4), vec!["c".to_string()]);
}

#[test]
fn counter_equals_sum_of_bucket_lengths() {
    let mut table = HashTable::new_with_custom_size(20).ok().unwrap();
    for i in 0..200 {
        table.insert(i.to_string());
    }
    assert_eq!(table.size(), 200);
    assert_eq!(bucket_lengths(&table), 200);
    assert_eq!(table.rows_count(), 20);
    for (bucket, keys) in table.dump() {
        assert!(bucket < 20);
        for key in keys {
            assert_eq!(table.hash(key), bucket);
        }
    }
}

#[test]
fn every_key_sits_in_its_weighted_bucket() {
    let mut table = HashTable::new_with_custom_size(64).ok().unwrap();
    for i in 0..300 {
        table.insert(format!("key-{}", i));
    }
    assert_eq!(table.size(), 300);
    assert_eq!(bucket_lengths(&table), 300);
    for (bucket, keys) in table.dump() {
        for key in keys {
            assert_eq!(table.hash_with_string_folding(key), bucket);
        }
    }
}

#[test]
fn dump_does_not_change_the_table() {
    let mut table = HashTable::new();
    table.insert("x".to_string());
    let first = table.dump();
    let second = table.dump();
    assert_eq!(first, second);
    assert_eq!(table.size(), 1);
}
