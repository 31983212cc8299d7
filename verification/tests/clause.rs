use superperm_sat::clause::Clause;
use superperm_sat::literal::Literal;
use superperm_sat::variable::Variable;

#[test]
fn it_builds_a_clause() {
    let subject = Clause::new();

    assert_eq!(subject.literals.len(), 0);
}

#[test]
fn it_formats_the_clause_as_dimacs() {
    let mut subject = Clause::new();

    let a = Variable::new(123);
    let b = Variable::new(456);

    subject.add(Literal::positive(a));
    subject.add(Literal::negative(b));

    let formatted = subject.dimacs();
    assert_eq!(formatted, "123 -456 0");
}

#[test]
fn it_deduplicates_a_repeated_literal() {
    let mut subject = Clause::new();

    let a = Variable::new(123);

    subject.add(Literal::positive(a));
    subject.add(Literal::positive(a));

    assert_eq!(subject.literals.len(), 1);
    assert_eq!(subject.dimacs(), "123 0");
}

#[test]
fn it_renders_the_same_literals_identically_whatever_the_order() {
    let a = Variable::new(7);
    let b = Variable::new(3);

    let mut first = Clause::new();
    first.add(Literal::positive(a));
    first.add(Literal::negative(b));

    let mut second = Clause::new();
    second.add(Literal::negative(b));
    second.add(Literal::positive(a));

    assert_eq!(first.dimacs(), second.dimacs());
    assert_eq!(first.dimacs(), "-3 7 0");
}
