use vstd::prelude::*;
use crate::render::dec_seq;
use crate::variable::Variable;

verus! {

/// A signed reference to a variable: the variable together with a polarity.
#[derive(Debug, Clone, Copy, PartialEq, Eq, Structural)]
pub struct Literal {
    pub variable: Variable,
    pub positive: bool,
}

/// The strict total order on literals used to canonicalize clauses: by
/// variable number first, with the negative polarity before the positive.
pub open spec fn lit_lt(a: Literal, b: Literal) -> bool {
    a.variable.number < b.variable.number || (a.variable.number == b.variable.number
        && !a.positive && b.positive)
}

/// The DIMACS rendering of a literal: the variable's decimal number, prefixed
/// with '-' when the polarity is negative.
pub open spec fn lit_chars(l: Literal) -> Seq<char> {
    if l.positive {
        dec_seq(l.variable.number as nat)
    } else {
        seq!['-'] + dec_seq(l.variable.number as nat)
    }
}

impl Literal {
    pub fn new(variable: Variable, positive: bool) -> (r: Self)
        ensures
            r == (Literal { variable, positive }),
    {
        Self { variable, positive }
    }

    pub fn positive(variable: Variable) -> (r: Self)
        ensures
            r == (Literal { variable, positive: true }),
    {
        Self::new(variable, true)
    }

    pub fn negative(variable: Variable) -> (r: Self)
        ensures
            r == (Literal { variable, positive: false }),
    {
        Self::new(variable, false)
    }

    /// The same variable with the opposite polarity.
    pub fn negate(&self) -> (r: Self)
        ensures
            r == (Literal { variable: self.variable, positive: !self.positive }),
    {
        Self::new(self.variable, !self.positive)
    }

    /// The literal as it appears in DIMACS output.
    pub fn dimacs(&self) -> (r: String)
        ensures
            r@ == lit_chars(*self),
    {
        if self.positive {
            crate::render::decimal_string(self.variable.number)
        } else {
            let mut out = String::from_str("-");
            proof {
                reveal_strlit("-");
            }
            crate::render::push_decimal(&mut out, self.variable.number);
            proof {
                assert(out@ =~= lit_chars(*self));
            }
            out
        }
    }
}

} // verus!
