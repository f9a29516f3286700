use bevy_rbrb::table::Table;

#[test]
fn entries_are_kept_in_ascending_order() {
    let mut table: Table<Vec<u8>> = Table::new();
    table.insert("m".to_string(), vec![1]);
    table.insert("a".to_string(), vec![2]);
    table.insert("z".to_string(), vec![3]);
    table.insert("b".to_string(), vec![4]);
    assert_eq!(table.len(), 4);
    let keys: Vec<&str> = (0..table.len()).map(|i| table.key_at(i).as_str()).collect();
    assert_eq!(keys, vec!["a", "b", "m", "z"]);
    assert_eq!(table.value_at(0), &vec![2]);
    assert_eq!(table.value_at(3), &vec![3]);
}

#[test]
fn insert_replaces_the_value_under_a_key() {
    let mut table: Table<Vec<u8>> = Table::new();
    table.insert("k".to_string(), vec![1]);
    table.insert("k".to_string(), vec![2]);
    assert_eq!(table.len(), 1);
    assert_eq!(table.get("k"), Some(&vec![2]));
}

#[test]
fn get_and_find_tell_present_from_absent() {
    let mut table: Table<Vec<u8>> = Table::new();
    assert_eq!(table.get("a"), None);
    assert_eq!(table.find("a"), None);
    table.insert("a".to_string(), vec![]);
    table.insert("c".to_string(), vec![9]);
    assert_eq!(table.find("a"), Some(0));
    assert_eq!(table.find("c"), Some(1));
    assert_eq!(table.find("b"), None);
    assert_eq!(table.find("d"), None);
    assert!(table.contains_key("c"));
    assert!(!table.contains_key(""));
}

#[test]
fn remove_takes_one_entry_out() {
    let mut table: Table<Vec<u8>> = Table::new();
    table.insert("a".to_string(), vec![1]);
    table.insert("b".to_string(), vec![2]);
    table.insert("c".to_string(), vec![3]);
    assert_eq!(table.remove("b"), Some(vec![2]));
    assert_eq!(table.remove("b"), None);
    assert_eq!(table.len(), 2);
    assert_eq!(table.get("a"), Some(&vec![1]));
    assert_eq!(table.get("c"), Some(&vec![3]));
}

#[test]
fn push_appends_a_greater_key() {
    let mut table: Table<Vec<u8>> = Table::new();
    table.push("a".to_string(), vec![1]);
    table.push("b".to_string(), vec![2]);
    assert_eq!(table.len(), 2);
    assert_eq!(table.key_at(1), "b");
    assert_eq!(table.get("b"), Some(&vec![2]));
}
