use sudachi::dic::category_type::CategoryType;

#[test]
fn format() {
    assert_eq!("GREEK", CategoryType::greek().to_debug_string());
    assert_eq!(
        "SPACE | GREEK",
        CategoryType::greek().union(CategoryType::space()).to_debug_string()
    );
}

#[test]
fn ct_size() {
    assert_eq!(4, std::mem::size_of::<CategoryType>())
}

#[test]
fn count() {
    let c1 = CategoryType::greek().union(CategoryType::kanji());
    assert_eq!(c1.count(), 2);
    let c2 = CategoryType::user1()
        .union(CategoryType::user2())
        .union(CategoryType::user3());
    assert_eq!(c2.count(), 3);
}

#[test]
fn iter_is_correct_3() {
    let ct = CategoryType::greek()
        .union(CategoryType::kanji())
        .union(CategoryType::user1());
    let mut iter = ct.iter().into_iter();
    assert_eq!(iter.next(), Some(CategoryType::kanji()));
    assert_eq!(iter.next(), Some(CategoryType::greek()));
    assert_eq!(iter.next(), Some(CategoryType::user1()));
    assert_eq!(iter.next(), None);
}

#[test]
fn iter_keeps_unnamed_bits_last() {
    let ct = CategoryType::from_bits_retain(0x0001_8002);
    let got: Vec<u32> = ct.iter().iter().map(|c| c.bits()).collect();
    assert_eq!(got, vec![2, 0x0001_8000]);
    assert!(CategoryType::empty().iter().is_empty());
}
