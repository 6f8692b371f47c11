use sudachi::dic::build::lexicon::{WordRef as BuildWordRef, WordRefResolver};
use sudachi::dic::build::resolve::{ChainedResolver, RawDictResolver, ResolverEntryView};
use sudachi::dic::word_id::WordRef as DicWordRef;

struct TestEntry {
    headword: &'static str,
    reading: &'static str,
    pos_id: u16,
    reference_id: Option<&'static str>,
}

impl ResolverEntryView for TestEntry {
    fn headword(&self) -> &str {
        self.headword
    }

    fn reading(&self) -> &str {
        self.reading
    }

    fn pos_id(&self) -> u16 {
        self.pos_id
    }

    fn reference_id(&self) -> Option<&str> {
        self.reference_id
    }
}

struct StubResolver {
    by_line_ref: Option<DicWordRef>,
    by_headword: Option<DicWordRef>,
    by_entry_key: Option<DicWordRef>,
}

impl WordRefResolver for StubResolver {
    fn resolve_by_line_ref(&self, _line_ref: DicWordRef) -> Option<DicWordRef> {
        self.by_line_ref
    }

    fn resolve_by_headword(&self, _headword: &str) -> Option<DicWordRef> {
        self.by_headword
    }

    fn resolve_entry_key(
        &self,
        _headword: &str,
        _pos: u16,
        _reading: Option<&str>,
        _reference_id: Option<&str>,
    ) -> Option<DicWordRef> {
        self.by_entry_key
    }
}

#[test]
fn chained_resolver_prioritizes_first_resolver() {
    let first = StubResolver {
        by_line_ref: Some(DicWordRef::new(true, 3)),
        by_headword: Some(DicWordRef::new(true, 1)),
        by_entry_key: Some(DicWordRef::new(true, 2)),
    };
    let second = StubResolver {
        by_line_ref: Some(DicWordRef::new(false, 3)),
        by_headword: Some(DicWordRef::new(false, 1)),
        by_entry_key: Some(DicWordRef::new(false, 2)),
    };
    let chained = ChainedResolver::new(first, second);

    assert_eq!(
        chained.resolve(&BuildWordRef::LineRef(DicWordRef::new(true, 0))),
        Some(DicWordRef::new(true, 3))
    );
    assert_eq!(
        chained.resolve(&BuildWordRef::Headword("京都".to_string())),
        Some(DicWordRef::new(true, 1))
    );
    assert_eq!(
        chained.resolve(&BuildWordRef::EntryKey {
            headword: "京都".to_string(),
            pos: 0,
            reading: Some("キョウト".to_string()),
            reference_id: Some("kyoto".to_string()),
        }),
        Some(DicWordRef::new(true, 2))
    );
}

#[test]
fn raw_resolver_resolves_entry_key_to_first_duplicate_in_csv_order() {
    let entries = vec![
        TestEntry {
            headword: "京都",
            reading: "キョウト",
            pos_id: 0,
            reference_id: None,
        },
        TestEntry {
            headword: "京都",
            reading: "キョウト",
            pos_id: 0,
            reference_id: None,
        },
        TestEntry {
            headword: "京都",
            reading: "ミヤコ",
            pos_id: 1,
            reference_id: None,
        },
    ];
    let line_to_wref = vec![
        DicWordRef::new(true, 11),
        DicWordRef::new(true, 27),
        DicWordRef::new(true, 42),
    ];
    let resolver = RawDictResolver::new(&entries, line_to_wref.clone(), false).unwrap();

    assert_eq!(
        resolver.resolve_entry_key("京都", 0, Some("キョウト"), None),
        Some(line_to_wref[0])
    );
}

#[test]
fn raw_resolver_resolves_headword_to_first_duplicate_in_csv_order() {
    let entries = vec![
        TestEntry {
            headword: "京都",
            reading: "キョウト",
            pos_id: 0,
            reference_id: None,
        },
        TestEntry {
            headword: "京都",
            reading: "ミヤコ",
            pos_id: 1,
            reference_id: None,
        },
        TestEntry {
            headword: "京都",
            reading: "キョウト",
            pos_id: 2,
            reference_id: None,
        },
    ];
    let line_to_wref = vec![
        DicWordRef::new(true, 11),
        DicWordRef::new(true, 27),
        DicWordRef::new(true, 42),
    ];
    let resolver = RawDictResolver::new(&entries, line_to_wref.clone(), false).unwrap();

    assert_eq!(resolver.resolve_by_headword("京都"), Some(line_to_wref[0]));
}

#[test]
fn raw_resolver_resolves_line_refs_in_csv_order() {
    let entries = vec![
        TestEntry {
            headword: "京都",
            reading: "キョウト",
            pos_id: 0,
            reference_id: None,
        },
        TestEntry {
            headword: "東京",
            reading: "トウキョウ",
            pos_id: 1,
            reference_id: None,
        },
        TestEntry {
            headword: "大阪",
            reading: "オオサカ",
            pos_id: 2,
            reference_id: None,
        },
    ];
    let line_to_wref = vec![
        DicWordRef::new(true, 11),
        DicWordRef::new(true, 27),
        DicWordRef::new(true, 42),
    ];
    let resolver = RawDictResolver::new(&entries, line_to_wref.clone(), false).unwrap();

    assert_eq!(
        resolver.resolve_by_line_ref(DicWordRef::new(true, 0)),
        Some(line_to_wref[0])
    );
    assert_eq!(
        resolver.resolve_by_line_ref(DicWordRef::new(true, 1)),
        Some(line_to_wref[1])
    );
    assert_eq!(
        resolver.resolve_by_line_ref(DicWordRef::new(true, 2)),
        Some(line_to_wref[2])
    );
}

#[test]
fn raw_resolver_resolves_reference_id_directly() {
    let entries = vec![
        TestEntry {
            headword: "京都",
            reading: "キョウト",
            pos_id: 0,
            reference_id: Some("kyoto-1"),
        },
        TestEntry {
            headword: "京都",
            reading: "キョウト",
            pos_id: 0,
            reference_id: Some("kyoto-2"),
        },
    ];
    let line_to_wref = vec![DicWordRef::new(true, 11), DicWordRef::new(true, 27)];
    let resolver = RawDictResolver::new(&entries, line_to_wref.clone(), false).unwrap();

    assert_eq!(
        resolver.resolve_entry_key("京都", 0, Some("キョウト"), Some("kyoto-2")),
        Some(line_to_wref[1])
    );
}

#[test]
fn raw_resolver_rejects_duplicate_reference_ids() {
    let entries = vec![
        TestEntry {
            headword: "京都",
            reading: "キョウト",
            pos_id: 0,
            reference_id: Some("kyoto"),
        },
        TestEntry {
            headword: "東京",
            reading: "トウキョウ",
            pos_id: 1,
            reference_id: Some("kyoto"),
        },
    ];

    assert!(RawDictResolver::new(
        &entries,
        vec![DicWordRef::new(true, 1), DicWordRef::new(true, 2)],
        false
    )
    .is_err());
}

#[test]
fn raw_resolver_misses_and_user_line_refs() {
    let entries = vec![TestEntry {
        headword: "京都",
        reading: "京都",
        pos_id: 0,
        reference_id: Some("k"),
    }];
    let resolver = RawDictResolver::new(&entries, vec![DicWordRef::new(false, 5)], true).unwrap();
    // a reading equal to the head word is not kept for matching
    assert_eq!(
        resolver.resolve_entry_key("京都", 0, None, None),
        Some(DicWordRef::new(false, 5))
    );
    assert_eq!(resolver.resolve_entry_key("京都", 0, Some("京都"), None), None);
    assert_eq!(resolver.resolve_entry_key("京都", 1, None, Some("k")), None);
    assert_eq!(resolver.resolve_by_headword("大阪"), None);
    // a user resolver answers only user line references
    assert_eq!(resolver.resolve_by_line_ref(DicWordRef::new(true, 0)), None);
    assert_eq!(
        resolver.resolve_by_line_ref(DicWordRef::new(false, 0)),
        Some(DicWordRef::new(false, 5))
    );
    assert_eq!(resolver.resolve_by_line_ref(DicWordRef::new(false, 1)), None);
    assert_eq!(resolver.resolve(&BuildWordRef::SelfRef), None);
}
