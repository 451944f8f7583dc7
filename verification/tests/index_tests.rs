use rust_hic::Index;
use rust_hic::IndexError;
use rust_hic::index::index_cmp;

#[test]
fn single_element_index_compares_for_equality() {
    let i1 = Index::make_leaf("ABC");
    let i2 = Index::make_leaf("ABC");
    assert_eq!(i1, i2);
}

#[test]
fn two_element_index_compares_for_equality() {
    let i1 = Index::make_category("ABC", "xyz").unwrap();
    let i2 = Index::make_category("ABC", "xyz").unwrap();
    assert_eq!(i1, i2);
}

#[test]
fn single_element_index_compare_inequality() {
    let i1 = Index::make_leaf("A00");
    let i2 = Index::make_leaf("A01");
    assert!(i1 < i2);

    let i1 = Index::make_leaf("i212");
    let i2 = Index::make_leaf("i222");
    assert!(i1 < i2);
}

/// As far as sorting goes, priority should be given to the first
/// index (the start of the range).
#[test]
fn two_element_index_compare_inequality_first_element() {
    let i1 = Index::make_category("A00", "Z00").unwrap();
    let i2 = Index::make_category("A01", "X00").unwrap();
    assert!(i1 < i2);
}

#[test]
fn two_element_index_compare_inequality_second_element() {
    let i1 = Index::make_category("I00", "I01").unwrap();
    let i2 = Index::make_category("I00", "I02").unwrap();
    assert!(i2 > i1);
}

#[test]
fn category_with_end_before_start_is_malformed() {
    assert_eq!(
        Index::make_category("B00", "A00"),
        Err(IndexError::MalformedIndex)
    );
}

#[test]
fn leaf_precedes_category_with_equal_start() {
    let i1 = Index::make_leaf("A00");
    let i2 = Index::make_category("A00", "A09").unwrap();
    assert!(i1 < i2);
    assert!(i2 > i1);
}

#[test]
fn index_cmp_is_consistent_with_operators() {
    let a = Index::make_category("A00", "Z00").unwrap();
    let b = Index::make_category("A01", "X00").unwrap();
    assert_eq!(index_cmp(&a, &b), std::cmp::Ordering::Less);
    assert_eq!(index_cmp(&b, &a), std::cmp::Ordering::Greater);
    let a2 = Index::make_category("A00", "Z00").unwrap();
    assert_eq!(index_cmp(&a, &a2), std::cmp::Ordering::Equal);
}
