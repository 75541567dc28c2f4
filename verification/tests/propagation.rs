use dpll::{parse2, pick_literal, unit_propagate, Assignment, CNF};

fn shape(cnf: &CNF) -> Vec<Vec<(String, bool)>> {
    cnf.iter()
        .map(|clause| clause.iter().map(|l| (l.name.clone(), l.negated)).collect())
        .collect()
}

#[test]
fn formula_without_unit_clause_is_returned_as_it_is() {
    let mut assignment = Assignment::new();
    let rest = unit_propagate(parse2("{a,b},{-a,c}"), &mut assignment).unwrap();
    assert_eq!(shape(&rest), shape(&parse2("{a,b},{-a,c}")));
    assert!(assignment.is_empty());
}

#[test]
fn formula_without_unit_clause_is_not_simplified() {
    let mut assignment = Assignment::new();
    assignment.insert("a".to_string(), true);
    let rest = unit_propagate(parse2("{a,b},{-a,c}"), &mut assignment).unwrap();
    assert_eq!(shape(&rest), shape(&parse2("{a,b},{-a,c}")));
    assert_eq!(assignment.len(), 1);
}

#[test]
fn unit_clause_forces_its_literal() {
    let mut assignment = Assignment::new();
    let rest = unit_propagate(parse2("{a},{-a,b,c},{a,d}"), &mut assignment).unwrap();
    assert_eq!(shape(&rest), shape(&parse2("{b,c}")));
    assert_eq!(assignment.get("a"), Some(true));
    assert_eq!(assignment.len(), 1);
}

#[test]
fn propagation_runs_to_a_fixed_point() {
    let mut assignment = Assignment::new();
    let rest = unit_propagate(parse2("{a},{-a,b},{-b,-c},{c,d,e}"), &mut assignment).unwrap();
    assert_eq!(shape(&rest), shape(&parse2("{d,e}")));
    assert_eq!(assignment.get("a"), Some(true));
    assert_eq!(assignment.get("b"), Some(true));
    assert_eq!(assignment.get("c"), Some(false));
    assert_eq!(assignment.len(), 3);
}

#[test]
fn first_unit_clause_is_resolved_first() {
    // Resolving `b` first turns `{-b}` into a conflict before `a` is seen.
    let mut assignment = Assignment::new();
    assert!(unit_propagate(parse2("{x,y},{b},{a},{-b}"), &mut assignment).is_none());
    assert_eq!(assignment.get("b"), Some(true));
    assert_eq!(assignment.get("a"), None);
    assert_eq!(assignment.len(), 1);
}

#[test]
fn unit_clause_against_an_existing_binding_is_a_conflict() {
    let mut assignment = Assignment::new();
    assignment.insert("a".to_string(), false);
    assert!(unit_propagate(parse2("{a},{b}"), &mut assignment).is_none());
    assert_eq!(assignment.get("a"), Some(false));
    assert_eq!(assignment.len(), 1);
}

#[test]
fn unit_clause_that_agrees_with_an_existing_binding_is_confirmed() {
    let mut assignment = Assignment::new();
    assignment.insert("a".to_string(), false);
    let rest = unit_propagate(parse2("{-a},{a,b,c}"), &mut assignment).unwrap();
    assert_eq!(shape(&rest), shape(&parse2("{b,c}")));
    assert_eq!(assignment.get("a"), Some(false));
    assert_eq!(assignment.len(), 1);
}

#[test]
fn simplification_conflict_ends_propagation() {
    let mut assignment = Assignment::new();
    assert!(unit_propagate(parse2("{a},{-a}"), &mut assignment).is_none());
    assert_eq!(assignment.get("a"), Some(true));
    assert_eq!(assignment.len(), 1);
}

#[test]
fn propagating_the_empty_formula_does_nothing() {
    let mut assignment = Assignment::new();
    let rest = unit_propagate(Vec::new(), &mut assignment).unwrap();
    assert!(rest.is_empty());
    assert!(assignment.is_empty());
}

#[test]
fn pick_takes_the_first_literal_of_the_first_clause() {
    let picked = pick_literal(&parse2("{-a,b},{c}"), &Assignment::new()).unwrap();
    assert_eq!(picked.name, "a");
    assert!(picked.negated);
}

#[test]
fn pick_skips_bound_variables_in_scan_order() {
    let mut assignment = Assignment::new();
    assignment.insert("a".to_string(), true);
    assignment.insert("b".to_string(), false);
    let picked = pick_literal(&parse2("{a,b},{-b,a},{b,-c,d},{e}"), &assignment).unwrap();
    assert_eq!(picked.name, "c");
    assert!(picked.negated);
}

#[test]
fn pick_finds_nothing_when_every_variable_is_bound() {
    let mut assignment = Assignment::new();
    assignment.insert("a".to_string(), true);
    assignment.insert("b".to_string(), false);
    assert!(pick_literal(&parse2("{a,b},{-b,a}"), &assignment).is_none());
}

#[test]
fn pick_finds_nothing_in_the_empty_formula() {
    assert!(pick_literal(&Vec::new(), &Assignment::new()).is_none());
    let only_empty: CNF = vec![Vec::new(), Vec::new()];
    assert!(pick_literal(&only_empty, &Assignment::new()).is_none());
}
