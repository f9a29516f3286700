use bevy_rbrb::table::Table;
use bevy_rbrb::wire::{
    put_bytes, put_len, put_nested, put_raw, put_str, put_table, take_bytes, take_len, take_nested,
    take_str, take_table,
};

#[test]
fn a_length_is_eight_bytes_least_significant_first() {
    let mut out = Vec::new();
    put_len(&mut out, 0x0102);
    assert_eq!(out, vec![2, 1, 0, 0, 0, 0, 0, 0]);
    assert_eq!(take_len(&out, 0), Some((0x0102, 8)));
    assert_eq!(take_len(&out, 1), None);
}

#[test]
fn a_string_is_its_length_and_its_utf8_bytes() {
    let mut out = vec![0xFF];
    put_str(&mut out, "aé");
    assert_eq!(out, vec![0xFF, 3, 0, 0, 0, 0, 0, 0, 0, b'a', 0xC3, 0xA9]);
    assert_eq!(take_str(&out, 1), Some(("aé".to_string(), 12)));
}

#[test]
fn bytes_that_are_not_utf8_are_no_string() {
    let mut out = Vec::new();
    put_bytes(&mut out, &[0xC3]);
    assert_eq!(take_bytes(&out, 0), Some((vec![0xC3], 9)));
    assert_eq!(take_str(&out, 0), None);
    for bad in [&[0xED, 0xA0, 0x80][..], &[0xC0, 0x80], &[0xF4, 0x90, 0x80, 0x80], &[0x80]] {
        let mut out = Vec::new();
        put_bytes(&mut out, bad);
        assert_eq!(take_str(&out, 0), None);
    }
    let mut out = Vec::new();
    put_bytes(&mut out, &[0xF4, 0x8F, 0xBF, 0xBF]);
    assert_eq!(take_str(&out, 0), Some(("\u{10FFFF}".to_string(), 12)));
}

#[test]
fn a_byte_string_that_is_cut_short_is_refused() {
    let mut out = Vec::new();
    put_bytes(&mut out, &[1, 2, 3]);
    out.pop();
    assert_eq!(take_bytes(&out, 0), None);
    let mut out = Vec::new();
    put_raw(&mut out, &[0xFF; 8]);
    assert_eq!(take_bytes(&out, 0), None);
}

fn sample() -> Table<Vec<u8>> {
    let mut table = Table::new();
    table.insert("b".to_string(), vec![2, 2]);
    table.insert("a".to_string(), vec![1]);
    table
}

#[test]
fn a_table_is_its_count_and_its_entries_in_order() {
    let mut out = Vec::new();
    put_table(&mut out, &sample());
    let expected: Vec<u8> = vec![
        2, 0, 0, 0, 0, 0, 0, 0, // two entries
        1, 0, 0, 0, 0, 0, 0, 0, b'a', 1, 0, 0, 0, 0, 0, 0, 0, 1, //
        1, 0, 0, 0, 0, 0, 0, 0, b'b', 2, 0, 0, 0, 0, 0, 0, 0, 2, 2,
    ];
    assert_eq!(out, expected);
    let (table, end) = take_table(&out, 0).unwrap();
    assert_eq!(end, out.len());
    assert_eq!(table.len(), 2);
    assert_eq!(table.get("a"), Some(&vec![1]));
    assert_eq!(table.get("b"), Some(&vec![2, 2]));
}

#[test]
fn a_table_whose_keys_do_not_ascend_is_refused() {
    let mut out = Vec::new();
    put_len(&mut out, 2);
    put_str(&mut out, "b");
    put_bytes(&mut out, &[]);
    put_str(&mut out, "a");
    put_bytes(&mut out, &[]);
    assert!(take_table(&out, 0).is_none());

    let mut out = Vec::new();
    put_len(&mut out, 2);
    put_str(&mut out, "a");
    put_bytes(&mut out, &[]);
    put_str(&mut out, "a");
    put_bytes(&mut out, &[]);
    assert!(take_table(&out, 0).is_none());
}

#[test]
fn a_table_with_fewer_entries_than_it_counts_is_refused() {
    let mut out = Vec::new();
    put_len(&mut out, 3);
    put_str(&mut out, "a");
    put_bytes(&mut out, &[]);
    assert!(take_table(&out, 0).is_none());
    let mut out = Vec::new();
    put_raw(&mut out, &[0xFF; 8]);
    assert!(take_table(&out, 0).is_none());
}

#[test]
fn a_table_of_tables_is_read_back() {
    let mut nested: Table<Table<Vec<u8>>> = Table::new();
    nested.insert("y".to_string(), sample());
    nested.insert("x".to_string(), Table::new());
    let mut out = vec![7];
    put_nested(&mut out, &nested);
    let (back, end) = take_nested(&out, 1).unwrap();
    assert_eq!(end, out.len());
    assert_eq!(back.len(), 2);
    assert_eq!(back.key_at(0), "x");
    assert_eq!(back.value_at(0).len(), 0);
    assert_eq!(back.value_at(1).get("b"), Some(&vec![2, 2]));
    let mut again = vec![7];
    put_nested(&mut again, &back);
    assert_eq!(again, out);
}
