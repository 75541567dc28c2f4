use dpll::Assignment;

#[test]
fn new_assignment_binds_nothing() {
    let assignment = Assignment::new();
    assert!(assignment.is_empty());
    assert_eq!(assignment.len(), 0);
    assert_eq!(assignment.get("a"), None);
    assert!(!assignment.contains_key("a"));
    assert!(assignment.entries().is_empty());
}

#[test]
fn insert_binds_and_reports_no_previous_value() {
    let mut assignment = Assignment::new();
    assert_eq!(assignment.insert("a".to_string(), true), None);
    assert_eq!(assignment.get("a"), Some(true));
    assert!(assignment.contains_key("a"));
    assert!(!assignment.contains_key("b"));
    assert_eq!(assignment.len(), 1);
    assert!(!assignment.is_empty());
}

#[test]
fn insert_replaces_and_reports_the_previous_value() {
    let mut assignment = Assignment::new();
    assignment.insert("a".to_string(), true);
    assignment.insert("b".to_string(), false);
    assert_eq!(assignment.insert("a".to_string(), false), Some(true));
    assert_eq!(assignment.get("a"), Some(false));
    assert_eq!(assignment.get("b"), Some(false));
    assert_eq!(assignment.len(), 2);
}

#[test]
fn entries_list_each_binding_once() {
    let mut assignment = Assignment::new();
    assignment.insert("x".to_string(), true);
    assignment.insert("y".to_string(), false);
    assignment.insert("x".to_string(), false);
    let mut pairs = assignment.entries();
    pairs.sort();
    assert_eq!(pairs, vec![("x".to_string(), false), ("y".to_string(), false)]);
}

#[test]
fn clone_is_independent_of_its_source() {
    let mut source = Assignment::new();
    source.insert("a".to_string(), true);
    let mut copy = source.clone();
    copy.insert("b".to_string(), false);
    copy.insert("a".to_string(), false);
    assert_eq!(source.get("a"), Some(true));
    assert_eq!(source.get("b"), None);
    assert_eq!(source.len(), 1);
    assert_eq!(copy.get("a"), Some(false));
    assert_eq!(copy.get("b"), Some(false));
    assert_eq!(copy.len(), 2);
}

#[test]
fn names_are_compared_character_by_character() {
    let mut assignment = Assignment::new();
    assignment.insert("ab".to_string(), true);
    assert_eq!(assignment.get("a"), None);
    assert_eq!(assignment.get("abc"), None);
    assert_eq!(assignment.get("ba"), None);
    assert_eq!(assignment.get("ab"), Some(true));
    assert_eq!(assignment.get(""), None);
}

#[test]
fn names_outside_ascii_are_told_apart() {
    let mut assignment = Assignment::new();
    assignment.insert("é".to_string(), true);
    assignment.insert("e".to_string(), false);
    assert_eq!(assignment.get("é"), Some(true));
    assert_eq!(assignment.get("e"), Some(false));
    assert_eq!(assignment.get("è"), None);
    assert_eq!(assignment.len(), 2);
}
