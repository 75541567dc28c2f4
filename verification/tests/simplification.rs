use dpll::simplify::{any_clause_empty, is_clause_true, literal_value, prune_clause};
use dpll::{parse2, simplify, Assignment, Literal, CNF};

fn shape(cnf: &CNF) -> Vec<Vec<(String, bool)>> {
    cnf.iter()
        .map(|clause| clause.iter().map(|l| (l.name.clone(), l.negated)).collect())
        .collect()
}

fn bind(pairs: &[(&str, bool)]) -> Assignment {
    let mut assignment = Assignment::new();
    for (name, value) in pairs {
        assignment.insert(name.to_string(), *value);
    }
    assignment
}

#[test]
fn literal_value_follows_polarity() {
    let assignment = bind(&[("a", true), ("b", false)]);
    assert_eq!(literal_value(&Literal::new("a", false), &assignment), Some(true));
    assert_eq!(literal_value(&Literal::new("a", true), &assignment), Some(false));
    assert_eq!(literal_value(&Literal::new("b", false), &assignment), Some(false));
    assert_eq!(literal_value(&Literal::new("b", true), &assignment), Some(true));
    assert_eq!(literal_value(&Literal::new("c", false), &assignment), None);
    assert_eq!(literal_value(&Literal::new("c", true), &assignment), None);
}

#[test]
fn clause_is_true_when_one_literal_is() {
    let assignment = bind(&[("a", false), ("b", true)]);
    let cnf = parse2("{a,b},{a,-b},{a,c},{-a}");
    assert!(is_clause_true(&cnf[0], &assignment));
    assert!(!is_clause_true(&cnf[1], &assignment));
    assert!(!is_clause_true(&cnf[2], &assignment));
    assert!(is_clause_true(&cnf[3], &assignment));
    assert!(!is_clause_true(&Vec::new(), &assignment));
}

#[test]
fn pruning_removes_exactly_the_false_literals() {
    let assignment = bind(&[("a", false), ("b", true)]);
    let cnf = parse2("{a,c,-b,d,-a}");
    let pruned = prune_clause(&cnf[0], &assignment);
    assert_eq!(
        shape(&vec![pruned]),
        vec![vec![("c".to_string(), false), ("d".to_string(), false), ("a".to_string(), true)]]
    );
}

#[test]
fn any_clause_empty_finds_an_empty_clause() {
    assert!(!any_clause_empty(&Vec::new()));
    assert!(!any_clause_empty(&parse2("{a},{b,c}")));
    let cnf: CNF = vec![vec![Literal::new("a", false)], Vec::new()];
    assert!(any_clause_empty(&cnf));
}

#[test]
fn satisfied_clauses_are_dropped_and_false_literals_removed() {
    let assignment = bind(&[("a", true)]);
    let reduced = simplify(parse2("{a,b},{-a,c},{b,c}"), &assignment).unwrap();
    assert_eq!(
        shape(&reduced),
        vec![
            vec![("c".to_string(), false)],
            vec![("b".to_string(), false), ("c".to_string(), false)],
        ]
    );
}

#[test]
fn negative_binding_satisfies_negated_literals() {
    let assignment = bind(&[("a", false)]);
    let reduced = simplify(parse2("{a,b},{-a,c},{b,c}"), &assignment).unwrap();
    assert_eq!(
        shape(&reduced),
        vec![
            vec![("b".to_string(), false)],
            vec![("b".to_string(), false), ("c".to_string(), false)],
        ]
    );
}

#[test]
fn undecided_literals_stay_untouched() {
    let assignment = bind(&[("z", true)]);
    let reduced = simplify(parse2("{a,-b},{c}"), &assignment).unwrap();
    assert_eq!(
        shape(&reduced),
        vec![
            vec![("a".to_string(), false), ("b".to_string(), true)],
            vec![("c".to_string(), false)],
        ]
    );
}

#[test]
fn clause_with_only_false_literals_is_a_conflict() {
    let assignment = bind(&[("a", false), ("b", true)]);
    assert!(simplify(parse2("{c},{a,-b}"), &assignment).is_none());
}

#[test]
fn clause_with_a_true_literal_is_dropped_even_if_others_are_false() {
    let assignment = bind(&[("a", false), ("b", true)]);
    let reduced = simplify(parse2("{a,b}"), &assignment).unwrap();
    assert!(reduced.is_empty());
}

#[test]
fn empty_clause_in_the_input_is_a_conflict() {
    let cnf: CNF = vec![Vec::new()];
    assert!(simplify(cnf, &Assignment::new()).is_none());
}

#[test]
fn empty_formula_simplifies_to_itself() {
    let reduced = simplify(Vec::new(), &bind(&[("a", true)])).unwrap();
    assert!(reduced.is_empty());
}

#[test]
fn simplifying_twice_changes_nothing_more() {
    let assignments = [
        bind(&[]),
        bind(&[("a", true)]),
        bind(&[("a", false), ("c", true)]),
        bind(&[("b", false), ("d", false)]),
    ];
    for text in ["{a,b},{-a,c},{-b,-c}", "{a,b},{b,c},{-a,-b},{-c,d}", "{a},{b,c,d}"] {
        for assignment in &assignments {
            if let Some(once) = simplify(parse2(text), assignment) {
                let expected = shape(&once);
                let twice = simplify(once, assignment).unwrap();
                assert_eq!(shape(&twice), expected);
            }
        }
    }
}

#[test]
fn simplified_formula_holds_no_decided_variable() {
    let assignment = bind(&[("a", true), ("c", false)]);
    let reduced = simplify(parse2("{a,b},{-a,c,d},{b,-c},{d,e}"), &assignment).unwrap();
    for clause in &reduced {
        assert!(!clause.is_empty());
        for literal in clause {
            assert!(!assignment.contains_key(&literal.name));
        }
    }
    assert_eq!(
        shape(&reduced),
        vec![
            vec![("d".to_string(), false)],
            vec![("d".to_string(), false), ("e".to_string(), false)],
        ]
    );
}
