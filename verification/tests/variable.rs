use superperm_sat::variable::Variable;

#[test]
fn it_builds_a_variable() {
    let subject = Variable::new(123);

    assert_eq!(subject.number, 123);
}

#[test]
fn it_formats_the_variables_number() {
    let subject = Variable::new(123);
    let formatted = subject.dimacs();

    assert_eq!(formatted, "123");
}
