use sudachi::dic::build::util::java_string_hash;
use sudachi::dic::lexicon::{user_word_cost, USER_DICT_COST_PER_MORPH};

#[test]
fn java_hash_matches_known_values() {
    assert_eq!(java_string_hash(""), 0);
    assert_eq!(java_string_hash("a"), 97);
    assert_eq!(java_string_hash("ab"), 97 * 31 + 98);
    assert_eq!(java_string_hash("hello"), 99162322);
    // wraps around like Java's int arithmetic
    assert_eq!(java_string_hash("polygenelubricants"), i32::MIN);
}

#[test]
fn java_hash_counts_utf16_units() {
    // U+20B9F is the surrogate pair D842 DF9F
    let expected = (0xD842i32).wrapping_mul(31).wrapping_add(0xDF9F);
    assert_eq!(java_string_hash("𠮟"), expected);
}

#[test]
fn user_word_cost_is_clamped() {
    assert_eq!(USER_DICT_COST_PER_MORPH, -20);
    assert_eq!(user_word_cost(1000, 2), 960);
    assert_eq!(user_word_cost(0, 0), 0);
    assert_eq!(user_word_cost(40000, 1), i16::MAX);
    assert_eq!(user_word_cost(-40000, 1), i16::MIN);
    assert_eq!(user_word_cost(i32::MIN, 3), i16::MIN);
}
