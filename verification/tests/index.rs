use sudachi::dic::build::index::{read_word_id_list, write_varint32, IndexBuilder};
use sudachi::dic::lexicon::trie::{Trie, TrieEntry};
use sudachi::dic::word_id::WordId;

fn make_trie(data: Vec<u8>) -> Trie {
    Trie::from_bytes(&data)
}

/// Every list of the table, one after the other, flattened.
fn all_entries(table: &[u8]) -> Vec<u32> {
    let mut out = Vec::new();
    let mut pos = 0;
    while pos < table.len() {
        let (ids, end) = read_word_id_list(table, pos).expect("readable");
        out.extend(ids);
        pos = end;
    }
    out
}

#[test]
fn build_index_1() {
    let mut bldr = IndexBuilder::new();
    bldr.add("test", WordId::new(0, 0));
    let _ = bldr.build_word_id_table(&[]).unwrap();

    let trie = make_trie(bldr.build_trie().unwrap());
    let mut iter = trie.common_prefix_iterator(b"test", 0);
    assert_eq!(iter.next(), Some(TrieEntry { value: 0, end: 4 }));
    assert_eq!(iter.next(), None);
}

#[test]
fn build_index_2() {
    let mut bldr = IndexBuilder::new();
    bldr.add("test", WordId::new(0, 0));
    bldr.add("tes", WordId::new(0, 1));
    let _ = bldr.build_word_id_table(&[]).unwrap();

    let trie = make_trie(bldr.build_trie().unwrap());
    let mut iter = trie.common_prefix_iterator(b"test", 0);
    assert_eq!(iter.next(), Some(TrieEntry { value: 2, end: 3 }));
    assert_eq!(iter.next(), Some(TrieEntry { value: 0, end: 4 }));
    assert_eq!(iter.next(), None);
}

#[test]
fn word_id_table_includes_non_indexed_entries() {
    let mut bldr = IndexBuilder::new();
    bldr.add("a", WordId::new(0, 4));
    bldr.add("b", WordId::new(0, 8));

    let table = bldr
        .build_word_id_table(&[WordId::new(0, 12), WordId::new(0, 16)])
        .unwrap();

    assert_eq!(all_entries(&table), vec![4, 8, 12, 16]);
}

#[test]
fn lists_are_delta_coded_varints() {
    let mut bldr = IndexBuilder::new();
    bldr.add("x", WordId::new(0, 300));
    bldr.add("x", WordId::new(0, 301));
    bldr.add("x", WordId::new(1, 5));
    let table = bldr.build_word_id_table(&[]).unwrap();
    // count 3; 300 = 0xac 0x02; +1; 5 - 301 saturates at 0
    assert_eq!(table, vec![3, 0xac, 0x02, 1, 0]);
    let (ids, end) = read_word_id_list(&table, 0).unwrap();
    assert_eq!(ids, vec![300, 301, 301]);
    assert_eq!(end, table.len());
}

#[test]
fn varints_use_seven_bits_per_byte() {
    let mut out = Vec::new();
    write_varint32(&mut out, 0);
    write_varint32(&mut out, 127);
    write_varint32(&mut out, 128);
    write_varint32(&mut out, u32::MAX);
    assert_eq!(out, vec![0, 127, 0x80, 0x01, 0xff, 0xff, 0xff, 0xff, 0x0f]);
}

#[test]
fn trie_without_table_is_refused() {
    let mut bldr = IndexBuilder::new();
    bldr.add("a", WordId::new(0, 1));
    assert!(bldr.build_trie().is_err());
}

#[test]
fn trie_keys_are_sorted_and_found() {
    let mut bldr = IndexBuilder::new();
    for (i, k) in ["東京都", "京都", "東京", "あ"].iter().enumerate() {
        bldr.add(k, WordId::new(0, i as u32));
    }
    let table = bldr.build_word_id_table(&[]).unwrap();
    let trie = make_trie(bldr.build_trie().unwrap());
    let found: Vec<(u32, usize)> = trie
        .common_prefix_search("東京都".as_bytes(), 0)
        .iter()
        .map(|e| (e.value, e.end))
        .collect();
    assert_eq!(found.len(), 2);
    let (ids, _) = read_word_id_list(&table, found[0].0 as usize).unwrap();
    assert_eq!(ids, vec![2]);
    let (ids, _) = read_word_id_list(&table, found[1].0 as usize).unwrap();
    assert_eq!(ids, vec![0]);
}
