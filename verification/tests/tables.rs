use truth_tables::expr::{Expr, Operation};
use truth_tables::lexer::Lexer;
use truth_tables::parser::Parser;
use truth_tables::solver::{find_variables, solve, solve_for_table, TruthTable};
use truth_tables::table::get_truth_table;

fn parse_str(s: &str) -> Expr {
    let lexer = Lexer::new(s.to_string());
    let mut parser = Parser::from_lexer(lexer);
    parser.parse().expect("the expression should parse")
}

fn table_of(s: &str) -> TruthTable {
    solve_for_table(parse_str(s))
}

fn row_value(row: &[bool]) -> usize {
    row.iter().fold(0, |acc, b| 2 * acc + usize::from(*b))
}

#[test]
fn enumerate_zero_variables() {
    let rows = get_truth_table(0);
    assert_eq!(rows, vec![Vec::<bool>::new()]);
}

#[test]
fn enumerate_one_variable() {
    assert_eq!(get_truth_table(1), vec![vec![true], vec![false]]);
}

#[test]
fn enumerate_three_variables() {
    let rows = get_truth_table(3);
    assert_eq!(rows.len(), 8);
    assert_eq!(rows[0], vec![true, true, true]);
    assert_eq!(rows[7], vec![false, false, false]);
    for (i, row) in rows.iter().enumerate() {
        assert_eq!(row.len(), 3);
        assert_eq!(row_value(row), 7 - i);
    }
    for i in 0..rows.len() {
        for j in 0..rows.len() {
            if i != j {
                assert_ne!(rows[i], rows[j]);
            }
        }
    }
}

#[test]
fn conjunction_table() {
    let t = table_of("a ∧ b");
    assert_eq!(t.input_vars, vec!['a', 'b']);
    assert_eq!(
        t.inputs,
        vec![
            vec![true, true],
            vec![true, false],
            vec![false, true],
            vec![false, false]
        ]
    );
    assert_eq!(t.outputs, vec![true, false, false, false]);
}

#[test]
fn conditional_table() {
    let t = table_of("a → b");
    assert_eq!(t.outputs, vec![true, false, true, true]);
}

#[test]
fn disjunction_table() {
    let t = table_of("a ∨ b");
    assert_eq!(t.outputs, vec![true, true, true, false]);
}

#[test]
fn equality_table() {
    let t = table_of("a = b");
    assert_eq!(t.outputs, vec![true, false, false, true]);
}

#[test]
fn inequality_table() {
    let t = table_of("a ≢ b");
    assert_eq!(t.outputs, vec![false, true, true, false]);
}

#[test]
fn negation_table() {
    let t = table_of("¬a");
    assert_eq!(t.input_vars, vec!['a']);
    assert_eq!(t.inputs, vec![vec![true], vec![false]]);
    assert_eq!(t.outputs, vec![false, true]);
}

#[test]
fn constant_expression_gives_one_row() {
    let t = table_of("T ∧ F");
    assert_eq!(t.input_vars, Vec::<char>::new());
    assert_eq!(t.inputs, vec![Vec::<bool>::new()]);
    assert_eq!(t.outputs, vec![false]);
}

#[test]
fn table_size_is_two_to_the_variable_count() {
    let t = table_of("a → b ∧ c");
    assert_eq!(t.input_vars, vec!['a', 'b', 'c']);
    assert_eq!(t.inputs.len(), 8);
    assert_eq!(t.outputs.len(), 8);
}

#[test]
fn input_vars_are_sorted_and_distinct() {
    let t = table_of("c ∨ a ∨ b ∨ a");
    assert_eq!(t.input_vars, vec!['a', 'b', 'c']);
}

#[test]
fn find_variables_collects_each_symbol_once() {
    let e = parse_str("b & a & b & ¬a");
    assert_eq!(find_variables(&e), vec!['a', 'b']);
}

#[test]
fn find_variables_of_constants_is_empty() {
    let e = parse_str("T | F");
    assert_eq!(find_variables(&e), Vec::<char>::new());
}

#[test]
fn solve_under_one_assignment() {
    let e = parse_str("a → b");
    let vars = vec!['a', 'b'];
    assert!(solve(&e, &vars, &vec![false, false]));
    assert!(!solve(&e, &vars, &vec![true, false]));
}

#[test]
fn both_sides_of_a_conditional_count() {
    // material implication: false antecedent makes the whole true
    let e = Expr::Operation(
        Operation::Conditional,
        Box::new(Expr::False),
        Box::new(Expr::Variable('z')),
    );
    let t = solve_for_table(e);
    assert_eq!(t.outputs, vec![true, true]);
}
