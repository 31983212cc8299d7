use superperm_sat::literal::Literal;
use superperm_sat::variable::Variable;

type Subject = Literal;

#[test]
fn it_builds_a_literal() {
    let variable = Variable::new(123);
    let subject = Subject::new(variable, true);

    assert_eq!(subject.variable, variable);
    assert_eq!(subject.positive, true);
}

#[test]
fn it_builds_a_positive_literal() {
    let variable = Variable::new(123);
    let subject = Subject::positive(variable);

    assert_eq!(subject.variable, variable);
    assert_eq!(subject.positive, true);
}

#[test]
fn it_builds_a_negative_literal() {
    let variable = Variable::new(123);
    let subject = Subject::negative(variable);

    assert_eq!(subject.variable, variable);
    assert_eq!(subject.positive, false);
}

#[test]
fn it_builds_a_new_literal_that_is_negated() {
    let variable = Variable::new(123);

    let positive = Subject::positive(variable);
    let negative = Subject::negative(variable);

    assert_eq!(positive.negate(), negative);
    assert_eq!(negative.negate(), positive);
}

#[test]
fn it_formats_the_literal_as_dimacs() {
    let variable = Variable::new(123);

    let positive = Subject::positive(variable);
    let negative = Subject::negative(variable);

    assert_eq!(positive.dimacs(), "123");
    assert_eq!(negative.dimacs(), "-123");
}
