use vstd::prelude::*;
use crate::arith;

verus! {

pub struct Utility {}

impl Utility {
    /// The factorial of `n`.  The bound on `n` keeps the result well inside
    /// the machine word on every supported platform; alphabets anywhere near
    /// that size are far beyond what the search can handle anyway.
    pub fn factorial(n: usize) -> (r: usize)
        requires
            n <= 12,
        ensures
            r == arith::factorial(n as nat),
        decreases n,
    {
        match n {
            0 => 1,
            _ => {
                let rest = Self::factorial(n - 1);
                proof {
                    arith::lemma_factorial_12();
                    arith::lemma_factorial_mono(n as nat, 12);
                    assert(n * rest == arith::factorial(n as nat));
                }
                n * rest
            },
        }
    }
}

} // verus!
