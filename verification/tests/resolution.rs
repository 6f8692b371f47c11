use sudachi::analysis::mode::Mode;
use sudachi::dic::build::lexicon::entry::ParsedLexiconEntry;
use sudachi::dic::build::lexicon::resolution::resolve_entry;
use sudachi::dic::build::lexicon::{ResolvedWordRef, WordRef, WordRefResolver};
use sudachi::dic::word_id::WordRef as DicWordRef;

struct HeadwordOnly {
    known: &'static str,
    target: DicWordRef,
}

impl WordRefResolver for HeadwordOnly {
    fn resolve_by_line_ref(&self, _line_ref: DicWordRef) -> Option<DicWordRef> {
        None
    }

    fn resolve_by_headword(&self, headword: &str) -> Option<DicWordRef> {
        if headword == self.known {
            Some(self.target)
        } else {
            None
        }
    }

    fn resolve_entry_key(
        &self,
        _headword: &str,
        _pos: u16,
        _reading: Option<&str>,
        _reference_id: Option<&str>,
    ) -> Option<DicWordRef> {
        None
    }
}

fn entry(norm: WordRef, splits_a: Vec<WordRef>) -> ParsedLexiconEntry {
    ParsedLexiconEntry {
        left_id: 1,
        right_id: 2,
        cost: 300,
        index_form: "x".to_string(),
        headword: None,
        reference_id: None,
        dic_form: WordRef::SelfRef,
        norm_form: norm,
        pos: 0,
        splits_a,
        splits_b: Vec::new(),
        splits_c: Vec::new(),
        reading: "x".to_string(),
        splitting: Mode::C,
        word_structure: Vec::new(),
        synonym_groups: Vec::new(),
        user_data: String::new(),
    }
}

#[test]
fn resolve_entry_resolves_splits_and_counts_them() {
    let resolver = HeadwordOnly { known: "a", target: DicWordRef::new(true, 7) };
    let e = entry(WordRef::SelfRef, vec![WordRef::Headword("a".to_string()), WordRef::Headword("a".to_string())]);
    let (resolved, count, phantom) = resolve_entry(e, &resolver, &Vec::new(), 0, false).unwrap();
    assert_eq!(count, 2);
    assert!(phantom.is_none());
    assert_eq!(resolved.norm_form, ResolvedWordRef::SelfRef);
    assert_eq!(resolved.splits_a, vec![DicWordRef::new(true, 7), DicWordRef::new(true, 7)]);
    assert_eq!(resolved.cost, 300);
}

#[test]
fn resolve_entry_makes_phantom_for_unknown_normalized_form() {
    let resolver = HeadwordOnly { known: "a", target: DicWordRef::new(true, 7) };
    let e = entry(WordRef::Headword("b".to_string()), Vec::new());
    let (resolved, count, phantom) = resolve_entry(e, &resolver, &Vec::new(), 64, true).unwrap();
    assert_eq!(count, 1);
    assert_eq!(phantom.as_deref(), Some("b"));
    assert_eq!(resolved.norm_form, ResolvedWordRef::Ref(DicWordRef::new(false, 8)));
}

#[test]
fn resolve_entry_finds_earlier_phantom() {
    let resolver = HeadwordOnly { known: "a", target: DicWordRef::new(true, 7) };
    let e = entry(WordRef::Headword("b".to_string()), Vec::new());
    let phantom = vec![("b".to_string(), DicWordRef::new(true, 5))];
    let (resolved, _, ph) = resolve_entry(e, &resolver, &phantom, 64, false).unwrap();
    assert!(ph.is_none());
    assert_eq!(resolved.norm_form, ResolvedWordRef::Ref(DicWordRef::new(true, 5)));
}

#[test]
fn resolve_entry_fails_on_unknown_split() {
    let resolver = HeadwordOnly { known: "a", target: DicWordRef::new(true, 7) };
    let e = entry(WordRef::SelfRef, vec![WordRef::Headword("zz".to_string())]);
    match resolve_entry(e, &resolver, &Vec::new(), 0, false) {
        Err(msg) => assert_eq!(msg, "zz"),
        Ok(_) => panic!("expected an error"),
    }
}
