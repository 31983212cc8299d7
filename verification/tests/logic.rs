use superperm_sat::formula::Formula;
use superperm_sat::literal::Literal;
use superperm_sat::logic::Logic;
use superperm_sat::variable::Variable;

fn positive(number: usize) -> Literal {
    Literal::positive(Variable::new(number))
}

fn negative(number: usize) -> Literal {
    Literal::negative(Variable::new(number))
}

fn dimacs(formula: &Formula) -> Vec<String> {
    let formatted = formula.dimacs();

    let mut strings = formatted.lines().skip(1).map(String::from).collect::<Vec<_>>();

    strings.sort();

    strings
}

#[test]
fn it_builds_the_struct_with_a_mutable_reference_to_the_formula() {
    let formula = Formula::new();
    let logic = Logic::new(formula);

    let formatted = logic.formula.dimacs();
    assert_eq!(formatted, "p cnf 0 0\n");
}

#[test]
fn it_adds_a_clause_for_each_literal() {
    let formula = Formula::new();
    let mut logic = Logic::new(formula);

    logic.tautology(&[positive(123), negative(456), positive(789)]);

    assert_eq!(dimacs(&logic.formula), &["-456 0", "123 0", "789 0"]);
}

#[test]
fn it_adds_a_clause_for_each_negated_literal() {
    let formula = Formula::new();
    let mut logic = Logic::new(formula);

    logic.contradiction(&[positive(123), negative(456), positive(789)]);

    assert_eq!(dimacs(&logic.formula), &["-123 456 -789 0"]);
}

#[test]
fn it_adds_clauses_that_the_condition_implies_the_consequent() {
    let formula = Formula::new();
    let mut logic = Logic::new(formula);

    let condition = &[positive(111), negative(222)];
    let consequent = &[negative(333), positive(444)];

    logic.implies(condition, consequent);

    // (if a then b) is equivalent to
    // (a implies b) which is equivalent to
    // (not a or b)

    assert_eq!(dimacs(&logic.formula), &["-111 222 -333 0", "-111 222 444 0"]);
}

#[test]
fn it_combines_the_literals() {
    let a = vec![positive(111), negative(222)];
    let b = vec![negative(333)];

    let expected = vec![positive(111), negative(222), negative(333)];

    assert_eq!(Logic::and(&a, &b), expected);
}

#[test]
fn it_negates_the_literals() {
    let literals = vec![positive(123), negative(456)];
    let expected = vec![negative(123), positive(456)];

    assert_eq!(Logic::negate(&literals), expected);
}
