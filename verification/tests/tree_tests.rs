use rust_hic::ClinicalCodeStore;
use rust_hic::ClinicalCodeTree;
use rust_hic::CodeError;
use rust_hic::ParseError;

const DESCRIPTION: &str = "C;A00;A09;chapter1\nL;A00;Cholera;intestinal\nL;A01;Typhoid;\nE\n";

fn resolve_names(tree: &ClinicalCodeTree, group: &str) -> Vec<String> {
    let mut store = ClinicalCodeStore::new();
    let refs = tree.codes_in_group(group, &mut store).unwrap();
    refs.iter()
        .map(|r| store.clinical_code_from(r).unwrap().name().clone())
        .collect()
}

#[test]
fn tagged_leaf_resolves_to_its_code() {
    let input = "C;A00;A09;\nL;A00;Cholera;intestinal\nL;A01;Typhoid;\nE\n";
    let tree = ClinicalCodeTree::from_reader(input).unwrap();
    let mut store = ClinicalCodeStore::new();
    let refs = tree.codes_in_group("intestinal", &mut store).unwrap();
    assert_eq!(refs.len(), 1);
    let code = store.clinical_code_from(&refs[0]).unwrap();
    assert_eq!(code.name().as_str(), "A00");
    assert_eq!(code.docs().as_str(), "Cholera");
}

#[test]
fn tag_on_parent_category_covers_the_subtree() {
    let tree = ClinicalCodeTree::from_reader(DESCRIPTION).unwrap();
    let names = resolve_names(&tree, "chapter1");
    assert_eq!(names, vec!["A00".to_string(), "A01".to_string()]);
}

#[test]
fn groups_lists_exactly_the_tags_in_the_description() {
    let tree = ClinicalCodeTree::from_reader(DESCRIPTION).unwrap();
    let mut groups: Vec<String> = tree.groups().clone();
    groups.sort();
    assert_eq!(groups, vec!["chapter1".to_string(), "intestinal".to_string()]);
}

#[test]
fn resolution_is_deterministic_across_fresh_stores() {
    let tree = ClinicalCodeTree::from_reader(DESCRIPTION).unwrap();
    let first = resolve_names(&tree, "chapter1");
    let second = resolve_names(&tree, "chapter1");
    assert_eq!(first, second);
}

#[test]
fn undefined_group_is_rejected_and_store_untouched() {
    let tree = ClinicalCodeTree::from_reader(DESCRIPTION).unwrap();
    let mut store = ClinicalCodeStore::new();
    let r = tree.codes_in_group("no_such_group", &mut store);
    assert!(matches!(r, Err(CodeError::GroupNotFound)));
    assert_eq!(store.len(), 0);
}

#[test]
fn group_code_table_returns_parallel_columns() {
    let tree = ClinicalCodeTree::from_reader(DESCRIPTION).unwrap();
    let mut store = ClinicalCodeStore::new();
    let (names, docs) = tree.group_code_table("chapter1", &mut store).unwrap();
    assert_eq!(names, vec!["A00".to_string(), "A01".to_string()]);
    assert_eq!(docs, vec!["Cholera".to_string(), "Typhoid".to_string()]);
}

#[test]
fn empty_description_parses_to_an_empty_tree() {
    let tree = ClinicalCodeTree::from_reader("").unwrap();
    assert!(tree.groups().is_empty());
}

#[test]
fn nested_categories_inherit_tags_from_the_outermost() {
    let input = "C;A00;B99;all\nC;A00;A09;\nL;A00;Cholera;\nE\nL;B00;Other;\nE\n";
    let tree = ClinicalCodeTree::from_reader(input).unwrap();
    let names = resolve_names(&tree, "all");
    assert_eq!(names, vec!["A00".to_string(), "B00".to_string()]);
}

#[test]
fn malformed_line_is_a_syntax_error() {
    let r = ClinicalCodeTree::from_reader("X;what\n");
    assert_eq!(r.err(), Some(ParseError::Syntax));
}

#[test]
fn category_range_reversed_is_malformed() {
    let r = ClinicalCodeTree::from_reader("C;B00;A00;\nL;B00;x;\nE\n");
    assert_eq!(r.err(), Some(ParseError::MalformedRange));
}

#[test]
fn out_of_order_siblings_are_rejected() {
    let r = ClinicalCodeTree::from_reader("C;A00;A09;\nL;A01;x;\nL;A00;y;\nE\n");
    assert_eq!(r.err(), Some(ParseError::SiblingOrder));
}

#[test]
fn overlapping_sibling_ranges_are_rejected() {
    let r = ClinicalCodeTree::from_reader(
        "C;A00;A09;\nL;A00;x;\nE\nC;A05;A20;\nL;A06;y;\nE\n",
    );
    assert_eq!(r.err(), Some(ParseError::SiblingOrder));
}

#[test]
fn empty_category_is_rejected() {
    let r = ClinicalCodeTree::from_reader("C;A00;A09;\nE\n");
    assert_eq!(r.err(), Some(ParseError::EmptyCategory));
}

#[test]
fn duplicate_code_name_is_rejected() {
    let r = ClinicalCodeTree::from_reader("C;A00;A09;\nL;A00;x;\nL;A00;y;\nE\n");
    assert_eq!(r.err(), Some(ParseError::DuplicateName));
}

#[test]
fn close_without_open_is_rejected() {
    let r = ClinicalCodeTree::from_reader("E\n");
    assert_eq!(r.err(), Some(ParseError::UnmatchedEnd));
}

#[test]
fn unclosed_category_is_rejected() {
    let r = ClinicalCodeTree::from_reader("C;A00;A09;\nL;A00;x;\n");
    assert_eq!(r.err(), Some(ParseError::UnclosedCategory));
}

#[test]
fn empty_tag_in_tag_list_is_a_syntax_error() {
    let r = ClinicalCodeTree::from_reader("C;A00;A09;good,\nL;A00;x;\nE\n");
    assert_eq!(r.err(), Some(ParseError::Syntax));
}
