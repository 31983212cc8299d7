use superperm_sat::binary::Binary;
use superperm_sat::literal::Literal;
use superperm_sat::variable::Variable;

type Subject = Binary;

fn literal(variable: Variable, positive: bool) -> Literal {
    Literal::new(variable, positive)
}

#[test]
fn it_uses_the_variables_to_build_the_struct_according_to_the_decimals_binary_representation() {
    let bit0 = Variable::new(123);
    let bit1 = Variable::new(456);

    let variables = vec![bit0, bit1];

    let zero = Subject::from_decimal(0, &variables);
    let one = Subject::from_decimal(1, &variables);
    let two = Subject::from_decimal(2, &variables);
    let three = Subject::from_decimal(3, &variables);

    assert_eq!(zero.bits, [literal(bit0, false), literal(bit1, false)]);
    assert_eq!(one.bits, [literal(bit0, true), literal(bit1, false)]);
    assert_eq!(two.bits, [literal(bit0, false), literal(bit1, true)]);
    assert_eq!(three.bits, [literal(bit0, true), literal(bit1, true)]);
}

#[test]
fn it_round_trips_every_value_that_fits_in_the_variables() {
    let variables = vec![Variable::new(10), Variable::new(20), Variable::new(30)];

    for value in 0..8usize {
        let subject = Subject::from_decimal(value, &variables);
        let mut reassembled: usize = 0;
        for (i, bit) in subject.bits.iter().enumerate() {
            if bit.positive {
                reassembled += 1 << i;
            }
        }
        assert_eq!(reassembled, value);
    }
}
