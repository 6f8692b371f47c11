use sudachi::analysis::mode::Mode;
use sudachi::dic::build::lexicon::entry::ResolvedLexiconEntry;
use sudachi::dic::build::lexicon::string_store::StringStore;
use sudachi::dic::build::lexicon::ResolvedWordRef;
use sudachi::dic::lexicon::strings::{CompactedStrings, StringPointer};

fn entry(headword: &str, reading: &str) -> ResolvedLexiconEntry {
    ResolvedLexiconEntry {
        left_id: 0,
        right_id: 0,
        cost: 0,
        index_form: headword.to_string(),
        headword: None,
        reference_id: None,
        dic_form: ResolvedWordRef::SelfRef,
        norm_form: ResolvedWordRef::SelfRef,
        pos: 0,
        splits_a: Vec::new(),
        splits_b: Vec::new(),
        splits_c: Vec::new(),
        reading: reading.to_string(),
        splitting: Mode::C,
        word_structure: Vec::new(),
        synonym_groups: Vec::new(),
        user_data: String::new(),
    }
}

fn read_back(store: &StringStore, s: &str) -> String {
    let mut bytes = Vec::new();
    let n = store.write(&mut bytes).expect("written");
    assert_eq!(n, bytes.len());
    let strings = CompactedStrings::from_bytes(&bytes);
    let p = store.resolve(s);
    let decoded = StringPointer::decode(p.encode());
    assert_eq!(decoded, p);
    strings.get_string(decoded).expect("readable")
}

#[test]
fn every_string_reads_back() {
    let entries = vec![
        entry("東京都", "トウキョウト"),
        entry("東京", "トウキョウ"),
        entry("京都", "キョウト"),
        entry("a", ""),
        entry("𠮟る", "シカル"),
    ];
    let store = StringStore::from_entries(&entries).expect("built");
    for s in ["東京都", "東京", "京都", "a", "", "トウキョウト", "トウキョウ", "キョウト", "𠮟る", "シカル"] {
        assert_eq!(read_back(&store, s), s);
    }
}

#[test]
fn substrings_share_the_place_of_their_string() {
    let entries = vec![entry("東京都", "東京"), entry("京都", "都")];
    let store = StringStore::from_entries(&entries).expect("built");
    let mut bytes = Vec::new();
    store.write(&mut bytes).expect("written");
    // only the longest string is placed; the others point into it
    assert_eq!(bytes.len(), 2 * 3);
    let whole = store.resolve("東京都");
    let part = store.resolve("京都");
    assert_eq!(part.offset, whole.offset + 1);
    assert_eq!(part.length, 2);
    assert_eq!(store.resolve("").length, 0);
}

#[test]
fn long_strings_are_aligned() {
    let long = "x".repeat(40);
    let entries = vec![entry("ab", ""), entry(&long, "")];
    let store = StringStore::from_entries(&entries).expect("built");
    let p = store.resolve(&long);
    assert_eq!(p.length, 40);
    assert_eq!(p.offset % 16, 0);
    assert_eq!(read_back(&store, &long), long);
    assert_eq!(read_back(&store, "ab"), "ab");
}

#[test]
fn string_longer_than_a_pointer_allows_is_refused() {
    let long = "y".repeat(4115);
    let entries = vec![entry(&long, "")];
    assert!(StringStore::from_entries(&entries).is_err());
    let fits = "y".repeat(4114);
    let entries = vec![entry(&fits, "")];
    assert!(StringStore::from_entries(&entries).is_ok());
}
