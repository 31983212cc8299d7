use vstd::prelude::*;

verus! {

/// A propositional variable: a positive integer identifier, unique within one
/// formula, assigned consecutively starting at 1.
#[derive(Debug, Clone, Copy, PartialEq, Eq, Structural)]
pub struct Variable {
    pub number: usize,
}

impl Variable {
    pub fn new(number: usize) -> (r: Self)
        ensures
            r.number == number,
    {
        Self { number }
    }

    /// The variable's number in decimal, as it appears in DIMACS output.
    pub fn dimacs(&self) -> (r: String)
        ensures
            r@ == crate::render::dec_seq(self.number as nat),
    {
        crate::render::decimal_string(self.number)
    }
}

} // verus!
