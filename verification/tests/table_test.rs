use nsearch::table::{hash_key, StringTable};

#[test]
fn test_string_table_finds_positions() {
    let mut table = StringTable::new();
    assert_eq!(table.push("alpha".to_string()), 0);
    assert_eq!(table.push("beta".to_string()), 1);
    assert_eq!(table.push("gamma".to_string()), 2);
    assert_eq!(table.len(), 3);
    assert_eq!(table.find(&"beta".to_string()), Some(1));
    assert_eq!(table.find(&"delta".to_string()), None);
    assert_eq!(table.key(2), "gamma");
}

#[test]
fn test_string_table_many_keys() {
    let mut table = StringTable::new();
    for i in 0..1000 {
        assert_eq!(table.push(format!("key{}", i)), i);
    }
    for i in 0..1000 {
        assert_eq!(table.find(&format!("key{}", i)), Some(i));
    }
    assert_eq!(table.find(&"key1000".to_string()), None);
}

#[test]
fn test_hash_key_values() {
    assert_eq!(hash_key(""), 0);
    assert_eq!(hash_key("a"), 97);
    assert_eq!(hash_key("ab"), 97 * 31 + 98);
}
