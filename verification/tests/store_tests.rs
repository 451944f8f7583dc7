use rust_hic::ClinicalCodeStore;
use rust_hic::CodeError;

#[test]
fn interning_twice_returns_the_same_reference() {
    let mut store = ClinicalCodeStore::new();
    let r1 = store.intern("A00", "Cholera");
    let r2 = store.intern("A00", "Cholera");
    assert_eq!(r1, r2);
    assert_eq!(store.len(), 1);
    let c1 = store.clinical_code_from(&r1).unwrap();
    assert_eq!(c1.name().as_str(), "A00");
    assert_eq!(c1.docs().as_str(), "Cholera");
    let c2 = store.clinical_code_from(&r2).unwrap();
    assert_eq!(c2.name().as_str(), "A00");
    assert_eq!(c2.docs().as_str(), "Cholera");
}

#[test]
fn interning_keeps_the_first_docs() {
    let mut store = ClinicalCodeStore::new();
    let r1 = store.intern("A00", "Cholera");
    let r2 = store.intern("A00", "Something else");
    assert_eq!(r1, r2);
    let c = store.clinical_code_from(&r2).unwrap();
    assert_eq!(c.docs().as_str(), "Cholera");
}

#[test]
fn distinct_names_get_distinct_references() {
    let mut store = ClinicalCodeStore::new();
    let r1 = store.intern("A00", "Cholera");
    let r2 = store.intern("A01", "Typhoid");
    assert_ne!(r1, r2);
    assert_eq!(store.len(), 2);
}

#[test]
fn foreign_reference_is_code_not_found() {
    let mut store_a = ClinicalCodeStore::new();
    let r = store_a.intern("A00", "Cholera");
    let store_b = ClinicalCodeStore::new();
    assert!(matches!(
        store_b.clinical_code_from(&r),
        Err(CodeError::CodeNotFound)
    ));
}
