use dpll::{dpll, parse2, Assignment, Literal, CNF};

#[test]
fn test_formula_1() {
    let cnf = parse2("{a}");
    let mut assignment = Assignment::new();
    let result = dpll(cnf, &mut assignment);
    assert!(result.is_some());
}

#[test]
fn test_formula_2() {
    let cnf = parse2("{a},{b}");
    let mut assignment = Assignment::new();
    let result = dpll(cnf, &mut assignment);
    assert!(result.is_some());
}

#[test]
fn test_formula_3() {
    let cnf = parse2("{a,b}");
    let mut assignment = Assignment::new();
    let result = dpll(cnf, &mut assignment);
    assert!(result.is_some());
}

#[test]
fn test_formula_4() {
    let cnf = parse2("{-a,b}");
    let mut assignment = Assignment::new();
    let result = dpll(cnf, &mut assignment);
    assert!(result.is_some());
}

#[test]
fn test_formula_5() {
    let cnf = parse2("{a},{-a}");
    let mut assignment = Assignment::new();
    let result = dpll(cnf, &mut assignment);
    assert!(result.is_none());
}

#[test]
fn test_formula_6() {
    let cnf = parse2("{a,b},{-a,c},{-b,-c}");
    let mut assignment = Assignment::new();
    let result = dpll(cnf, &mut assignment);
    assert!(result.is_some());
}

#[test]
fn test_formula_7() {
    let cnf = parse2("{a,b},{b,c},{-a,-b},{-c,d}");
    let mut assignment = Assignment::new();
    let result = dpll(cnf, &mut assignment);
    assert!(result.is_some());
}

#[test]
fn test_formula_8() {
    let cnf = parse2("{a,b},{-a,b},{a,-b},{-a,-b}");
    let mut assignment = Assignment::new();
    let result = dpll(cnf, &mut assignment);
    assert!(result.is_none());
}

fn solve_text(text: &str) -> Option<Assignment> {
    let mut assignment = Assignment::new();
    dpll(parse2(text), &mut assignment)
}

#[test]
fn single_unit_clause_binds_its_variable_to_true() {
    let model = solve_text("{a}").unwrap();
    assert_eq!(model.get("a"), Some(true));
    assert_eq!(model.len(), 1);
}

#[test]
fn negated_unit_clause_binds_its_variable_to_false() {
    let model = solve_text("{-a}").unwrap();
    assert_eq!(model.get("a"), Some(false));
    assert_eq!(model.len(), 1);
}

#[test]
fn opposite_unit_clauses_conflict() {
    assert!(solve_text("{a},{-a}").is_none());
}

#[test]
fn first_branch_tries_true_on_the_first_variable() {
    let model = solve_text("{a,b}").unwrap();
    assert_eq!(model.get("a"), Some(true));
    assert_eq!(model.get("b"), None);
    assert_eq!(model.len(), 1);
}

#[test]
fn branch_on_negated_literal_still_tries_true_first() {
    let model = solve_text("{-a,b}").unwrap();
    assert_eq!(model.get("a"), Some(true));
    assert_eq!(model.get("b"), Some(true));
    assert_eq!(model.len(), 2);
}

#[test]
fn three_clause_formula_has_the_expected_model() {
    let model = solve_text("{a,b},{-a,c},{-b,-c}").unwrap();
    assert_eq!(model.get("a"), Some(true));
    assert_eq!(model.get("c"), Some(true));
    assert_eq!(model.get("b"), Some(false));
    assert_eq!(model.len(), 3);
}

#[test]
fn four_clause_formula_has_the_expected_model() {
    let model = solve_text("{a,b},{b,c},{-a,-b},{-c,d}").unwrap();
    assert_eq!(model.get("a"), Some(true));
    assert_eq!(model.get("b"), Some(false));
    assert_eq!(model.get("c"), Some(true));
    assert_eq!(model.get("d"), Some(true));
    assert_eq!(model.len(), 4);
}

#[test]
fn all_polarities_of_two_variables_are_unsatisfiable() {
    assert!(solve_text("{a,b},{-a,b},{a,-b},{-a,-b}").is_none());
}

#[test]
fn second_branch_is_taken_when_the_first_fails() {
    // With a = true the two unit clauses on b clash, so a must be false.
    let model = solve_text("{a,c},{-a,b},{-a,-b}").unwrap();
    assert_eq!(model.get("a"), Some(false));
    assert_eq!(model.get("c"), Some(true));
    assert_eq!(model.get("b"), None);
    assert_eq!(model.len(), 2);
}

#[test]
fn empty_formula_is_satisfied_by_the_empty_assignment() {
    let mut assignment = Assignment::new();
    let model = dpll(Vec::new(), &mut assignment).unwrap();
    assert!(model.is_empty());
    assert_eq!(model.len(), 0);
    assert!(assignment.is_empty());
}

#[test]
fn formula_with_an_empty_clause_is_unsatisfiable() {
    let mut assignment = Assignment::new();
    let cnf: CNF = vec![vec![Literal::new("a", false)], Vec::new()];
    assert!(dpll(cnf, &mut assignment).is_none());
    assert!(assignment.is_empty());
}

#[test]
fn formula_that_is_only_an_empty_clause_is_unsatisfiable() {
    let mut assignment = Assignment::new();
    let cnf: CNF = vec![Vec::new()];
    assert!(dpll(cnf, &mut assignment).is_none());
}

#[test]
fn caller_assignment_receives_first_node_propagation_only() {
    let mut assignment = Assignment::new();
    let model = dpll(parse2("{a},{b,c}"), &mut assignment).unwrap();
    assert_eq!(assignment.get("a"), Some(true));
    assert_eq!(assignment.len(), 1);
    assert_eq!(model.get("a"), Some(true));
    assert_eq!(model.get("b"), Some(true));
    assert_eq!(model.get("c"), None);
    assert_eq!(model.len(), 2);
}

#[test]
fn caller_assignment_is_untouched_when_only_branching_decides() {
    let mut assignment = Assignment::new();
    let model = dpll(parse2("{a,b}"), &mut assignment).unwrap();
    assert!(assignment.is_empty());
    assert_eq!(model.get("a"), Some(true));
}

#[test]
fn search_respects_bindings_it_is_handed() {
    let mut assignment = Assignment::new();
    assignment.insert("a".to_string(), false);
    let model = dpll(parse2("{a,b}"), &mut assignment).unwrap();
    assert_eq!(model.get("a"), Some(false));
    assert_eq!(model.get("b"), Some(true));
    assert_eq!(model.len(), 2);
    assert_eq!(assignment.get("b"), Some(true));
}

#[test]
fn search_fails_when_handed_bindings_rule_out_every_model() {
    let mut assignment = Assignment::new();
    assignment.insert("a".to_string(), false);
    assignment.insert("b".to_string(), false);
    assert!(dpll(parse2("{a,b}"), &mut assignment).is_none());
    assert_eq!(assignment.len(), 2);
}

#[test]
fn handed_bindings_that_satisfy_every_clause_are_the_answer() {
    let mut assignment = Assignment::new();
    assignment.insert("a".to_string(), true);
    assignment.insert("z".to_string(), false);
    let model = dpll(parse2("{a,b},{a,c}"), &mut assignment).unwrap();
    assert_eq!(model.get("a"), Some(true));
    assert_eq!(model.get("z"), Some(false));
    assert_eq!(model.len(), 2);
}

fn literal_holds(literal: &Literal, model: &Assignment) -> bool {
    match model.get(&literal.name) {
        Some(value) => value != literal.negated,
        None => false,
    }
}

fn model_satisfies(cnf: &CNF, model: &Assignment) -> bool {
    cnf.iter().all(|clause| clause.iter().any(|literal| literal_holds(literal, model)))
}

#[test]
fn returned_models_satisfy_every_clause() {
    for text in [
        "{a}",
        "{a},{b}",
        "{a,b}",
        "{-a,b}",
        "{a,b},{-a,c},{-b,-c}",
        "{a,b},{b,c},{-a,-b},{-c,d}",
        "{a,c},{-a,b},{-a,-b}",
        "{x,y,z},{-x,-y},{-y,-z},{-x,-z},{y,z}",
    ] {
        let model = solve_text(text).unwrap();
        assert!(model_satisfies(&parse2(text), &model), "{}", text);
    }
}

#[test]
fn repeated_runs_give_the_same_answer() {
    for text in ["{a,b},{-a,c},{-b,-c}", "{a,b},{-a,b},{a,-b},{-a,-b}", "{p,q,r},{-p,-q},{-r}"] {
        let first = solve_text(text);
        let second = solve_text(text);
        assert_eq!(first.is_some(), second.is_some());
        if let (Some(first), Some(second)) = (first, second) {
            let mut first = first.entries();
            let mut second = second.entries();
            first.sort();
            second.sort();
            assert_eq!(first, second);
        }
    }
}

#[test]
fn models_bind_only_variables_of_the_formula() {
    for text in ["{a,b}", "{a,b},{-a,c},{-b,-c}", "{a,b},{b,c},{-a,-b},{-c,d}"] {
        let cnf = parse2(text);
        let model = solve_text(text).unwrap();
        for (name, _) in model.entries() {
            assert!(cnf.iter().any(|clause| clause.iter().any(|literal| literal.name == name)));
        }
    }
}

fn names() -> [&'static str; 3] {
    ["a", "b", "c"]
}

fn brute_force_satisfiable(cnf: &CNF) -> bool {
    for bits in 0..8u32 {
        let mut total = Assignment::new();
        for (position, name) in names().iter().enumerate() {
            total.insert(name.to_string(), bits & (1 << position) != 0);
        }
        if model_satisfies(cnf, &total) {
            return true;
        }
    }
    false
}

fn clause_from_code(code: usize) -> Vec<Literal> {
    // Each variable is absent, plain or negated: 27 clauses over three names.
    let mut clause = Vec::new();
    let mut rest = code;
    for name in names() {
        match rest % 3 {
            1 => clause.push(Literal::new(name, false)),
            2 => clause.push(Literal::new(name, true)),
            _ => {}
        }
        rest /= 3;
    }
    clause
}

#[test]
fn search_agrees_with_exhaustive_enumeration_on_small_formulas() {
    for first in 0..27 {
        for second in 0..27 {
            for third in 0..27 {
                let cnf: CNF = vec![
                    clause_from_code(first),
                    clause_from_code(second),
                    clause_from_code(third),
                ];
                let expected = brute_force_satisfiable(&cnf);
                let mut assignment = Assignment::new();
                let copy: CNF = cnf.iter().map(|clause| clause.to_vec()).collect();
                let model = dpll(copy, &mut assignment);
                assert_eq!(model.is_some(), expected);
                if let Some(model) = model {
                    assert!(model_satisfies(&cnf, &model));
                }
            }
        }
    }
}

#[test]
fn pigeonhole_with_three_pigeons_and_two_holes_is_unsatisfiable() {
    let text = "{p1a,p1b},{p2a,p2b},{p3a,p3b},\
                {-p1a,-p2a},{-p1a,-p3a},{-p2a,-p3a},\
                {-p1b,-p2b},{-p1b,-p3b},{-p2b,-p3b}";
    assert!(solve_text(text).is_none());
}

fn next_random(state: &mut u64) -> u64 {
    *state = state.wrapping_mul(6364136223846793005).wrapping_add(1442695040888963407);
    *state >> 33
}

fn satisfiable_by_enumeration(cnf: &CNF, variables: &[&str]) -> bool {
    for bits in 0..(1u32 << variables.len()) {
        let mut total = Assignment::new();
        for (position, name) in variables.iter().enumerate() {
            total.insert(name.to_string(), bits & (1 << position) != 0);
        }
        if model_satisfies(cnf, &total) {
            return true;
        }
    }
    false
}

#[test]
fn search_agrees_with_exhaustive_enumeration_on_generated_formulas() {
    let variables = ["p", "q", "r", "s", "t", "u"];
    let mut state = 2024u64;
    for _ in 0..5000 {
        let clauses = 1 + next_random(&mut state) % 14;
        let mut cnf: CNF = Vec::new();
        for _ in 0..clauses {
            let width = 1 + next_random(&mut state) % 3;
            let mut clause = Vec::new();
            for _ in 0..width {
                let name = variables[(next_random(&mut state) % 6) as usize];
                clause.push(Literal::new(name, next_random(&mut state) % 2 == 0));
            }
            cnf.push(clause);
        }
        let expected = satisfiable_by_enumeration(&cnf, &variables);
        let copy: CNF = cnf.iter().map(|clause| clause.to_vec()).collect();
        let mut assignment = Assignment::new();
        let model = dpll(copy, &mut assignment);
        assert_eq!(model.is_some(), expected);
        if let Some(model) = model {
            assert!(model_satisfies(&cnf, &model));
            for (name, _) in model.entries() {
                assert!(variables.contains(&name.as_str()));
            }
        }
    }
}

#[test]
fn long_implication_chain_is_propagated_from_one_unit_clause() {
    let mut text = String::from("{x0}");
    for i in 0..40 {
        text.push_str(&format!(",{{-x{},x{}}}", i, i + 1));
    }
    let mut assignment = Assignment::new();
    let model = dpll(parse2(&text), &mut assignment).unwrap();
    assert_eq!(model.len(), 41);
    for i in 0..=40 {
        assert_eq!(model.get(&format!("x{}", i)), Some(true));
    }
    assert_eq!(assignment.len(), 41);
}

#[test]
fn deep_branching_reaches_a_model() {
    // No unit clause ever appears on the first branch: every clause is
    // satisfied by setting its first variable to true.
    let mut text = String::new();
    for i in 0..30 {
        if i > 0 {
            text.push(',');
        }
        text.push_str(&format!("{{y{},z{}}}", i, i));
    }
    let model = solve_text(&text).unwrap();
    assert_eq!(model.len(), 30);
    for i in 0..30 {
        assert_eq!(model.get(&format!("y{}", i)), Some(true));
        assert_eq!(model.get(&format!("z{}", i)), None);
    }
}
