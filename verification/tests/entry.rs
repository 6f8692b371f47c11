use sudachi::analysis::mode::Mode;
use sudachi::dic::build::error::BuildFailure;
use sudachi::dic::build::lexicon::entry::{variable_layout, ResolvedLexiconEntry};
use sudachi::dic::build::lexicon::ResolvedWordRef;
use sudachi::dic::word_id::WordRef;

#[test]
fn variable_layout_names_the_first_field_too_large() {
    let l = variable_layout(1, false, 2, true, 2, false, 0, 3, 4).unwrap();
    assert_eq!(l.splits_b_len, 2);
    assert!(l.split_a_eq_b);
    match variable_layout(0, false, 128, false, 200, false, 0, 0, 0) {
        Err(BuildFailure::InvalidFieldSize { actual, expected, field }) => {
            assert_eq!((actual, expected, field.as_str()), (128, 127, "splits_b"));
        }
        _ => panic!("expected an error"),
    }
    match variable_layout(0, false, 0, false, 0, false, 0, 0, 40000) {
        Err(BuildFailure::InvalidFieldSize { actual, expected, field }) => {
            assert_eq!((actual, expected, field.as_str()), (40000, 32767, "user_data"));
        }
        _ => panic!("expected an error"),
    }
    assert!(variable_layout(127, false, 127, false, 127, false, 127, 127, 32767).is_ok());
}

#[test]
fn entry_layout_notes_repeated_splits() {
    let r = |e: u32| WordRef::new(true, e);
    let entry = ResolvedLexiconEntry {
        left_id: 1,
        right_id: 2,
        cost: 3,
        index_form: "東京".to_string(),
        headword: None,
        reference_id: None,
        dic_form: ResolvedWordRef::SelfRef,
        norm_form: ResolvedWordRef::SelfRef,
        pos: 4,
        splits_a: vec![r(5), r(6)],
        splits_b: vec![r(5), r(6)],
        splits_c: vec![r(7)],
        reading: "トウキョウ".to_string(),
        splitting: Mode::C,
        word_structure: vec![r(5), r(6)],
        synonym_groups: vec![10],
        user_data: "𠮟x".to_string(),
    };
    let l = entry.variable_layout().unwrap();
    assert_eq!(l.splits_c_len, 1);
    assert!(!l.split_b_eq_c);
    assert!(l.split_a_eq_b);
    assert!(l.word_structure_eq_a);
    assert_eq!(l.synonym_groups_len, 1);
    assert_eq!(l.user_data_units, 3);
}
