use sudachi::analysis::created::{CreatedWords, HasWord};

#[test]
fn simple() {
    let mask = CreatedWords::single(1);
    assert_eq!(mask.has_word(1), HasWord::Yes);
}

#[test]
fn add() {
    let mask1 = CreatedWords::single(5);
    let mask2 = mask1.add_word(10);
    assert_eq!(mask2.has_word(5), HasWord::Yes);
    assert_eq!(mask2.has_word(10), HasWord::Yes);
    assert_eq!(mask2.has_word(15), HasWord::No);
}

#[test]
fn long_value_present() {
    let mask1 = CreatedWords::single(100);
    assert_eq!(HasWord::No, mask1.has_word(62));
    assert_eq!(HasWord::No, mask1.has_word(63));
    assert_eq!(HasWord::Maybe, mask1.has_word(64));
}

#[test]
fn long_value_absent() {
    let mask1 = CreatedWords::single(62);
    assert_eq!(HasWord::Yes, mask1.has_word(62));
    assert_eq!(HasWord::No, mask1.has_word(63));
    assert_eq!(HasWord::No, mask1.has_word(64));
}

#[test]
fn created_words_union_keeps_both_sides() {
    let a = CreatedWords::single(3);
    let b = CreatedWords::single(7);
    let c = a.add(b);
    assert_eq!(c.has_word(3), HasWord::Yes);
    assert_eq!(c.has_word(7), HasWord::Yes);
    assert_eq!(c.has_word(4), HasWord::No);
    assert!(CreatedWords::empty().is_empty());
    assert!(c.not_empty());
}
