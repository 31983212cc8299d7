use vstd::prelude::*;
use crate::bounds::{Bounds, Span};
use crate::formula::Formula;
use crate::register::Register;

verus! {

/// The waste counter: one register per time step from the first position
/// that can waste a symbol to the end of the string, with widths taken from
/// the feasibility windows.
pub struct Counter {
    pub registers: Vec<Register>,
}

/// How many literals the first `k` registers hold together.
pub open spec fn base_vars(rs: Seq<Register>, k: int) -> int
    decreases k,
{
    if k <= 0 {
        0
    } else {
        base_vars(rs, k - 1) + rs[k - 1].literals@.len()
    }
}

/// The counter's literals are the variables allocated right after the first
/// `v0`: register `k`'s literal for its `j`-th represented count is the
/// positive literal of variable `v0 + base_vars(k) + j + 1`.
pub open spec fn counter_fresh(rs: Seq<Register>, v0: int) -> bool {
    forall|k: int, j: int|
        0 <= k < rs.len() && 0 <= j < rs[k].literals@.len() ==> rs[k].literals@[j]
            == (crate::literal::Literal {
            variable: crate::variable::Variable { number: (v0 + base_vars(rs, k) + j + 1) as usize },
            positive: true,
        })
}

/// Counting literals only looks at the registers before `k`.
pub proof fn lemma_base_vars_push(rs: Seq<Register>, x: Register, k: int)
    requires
        0 <= k <= rs.len(),
    ensures
        base_vars(rs.push(x), k) == base_vars(rs, k),
    decreases k,
{
    if k > 0 {
        lemma_base_vars_push(rs, x, k - 1);
    }
}

/// How the registers of a counter built for `bounds` relate to it: one well
/// formed register per eligible time step, its range the admissible window
/// of its position.
pub open spec fn counter_matches(c: Counter, bounds: Bounds) -> bool {
    &&& c.registers@.len() == bounds.length_of_string - (bounds.n - 1)
    &&& forall|k: int|
        0 <= k < c.registers@.len() ==> (#[trigger] c.registers@[k]).wf()
            && bounds.span_ok(
            bounds.n - 1 + k,
            Span { start: c.registers@[k].start, end: c.registers@[k].end },
        )
}

impl Counter {
    /// One register per feasibility window.
    pub fn new(bounds: &Bounds, formula: &mut Formula) -> (r: Self)
        requires
            old(formula).wf(),
            bounds.inv(),
            bounds.waste_ok(),
            old(formula).variables@.len() + (bounds.length_of_string + 1)
                * (bounds.max_permutations@.len() + 1) <= usize::MAX,
        ensures
            counter_matches(r, *bounds),
            counter_fresh(r.registers@, old(formula).variables@.len() as int),
            final(formula).wf(),
            final(formula).clauses == old(formula).clauses,
            final(formula).variables@.len() == old(formula).variables@.len() + base_vars(
                r.registers@,
                r.registers@.len() as int,
            ),
    {
        let spans = bounds.wasted_symbol_ranges();
        let mut registers: Vec<Register> = Vec::new();
        let mut k: usize = 0;
        while k < spans.len()
            invariant
                formula.wf(),
                formula.clauses == old(formula).clauses,
                bounds.inv(),
                0 <= k <= spans@.len(),
                spans@.len() == bounds.length_of_string - (bounds.n - 1),
                forall|j: int|
                    0 <= j < spans@.len() ==> bounds.span_ok(bounds.n - 1 + j, #[trigger] spans@[j]),
                registers@.len() == k,
                old(formula).variables@.len() + (bounds.length_of_string + 1)
                    * (bounds.max_permutations@.len() + 1) <= usize::MAX,
                formula.variables@.len() <= old(formula).variables@.len() + k
                    * (bounds.max_permutations@.len() + 1),
                formula.variables@.len() >= old(formula).variables@.len(),
                forall|j: int|
                    0 <= j < k ==> (#[trigger] registers@[j]).wf() && bounds.span_ok(
                        bounds.n - 1 + j,
                        Span { start: registers@[j].start, end: registers@[j].end },
                    ),
                counter_fresh(registers@, old(formula).variables@.len() as int),
                formula.variables@.len() == old(formula).variables@.len() + base_vars(
                    registers@,
                    registers@.len() as int,
                ),
            decreases spans@.len() - k,
        {
            let span = spans[k];
            proof {
                assert(bounds.span_ok(bounds.n - 1 + k, span));
                assert(span.start <= span.end <= bounds.max_permutations@.len());
                assert(k * (bounds.max_permutations@.len() + 1) + (
                bounds.max_permutations@.len() + 1) <= (bounds.length_of_string + 1) * (
                bounds.max_permutations@.len() + 1)) by (nonlinear_arith)
                    requires
                        0 <= k < bounds.length_of_string + 1,
                        bounds.max_permutations@.len() >= 0,
                ;
                assert((k + 1) * (bounds.max_permutations@.len() + 1) == k * (
                bounds.max_permutations@.len() + 1) + (bounds.max_permutations@.len() + 1))
                    by (nonlinear_arith);
            }
            let ghost rs0 = registers@;
            let ghost v0 = old(formula).variables@.len() as int;
            let register = Register::new(span, formula);
            registers.push(register);
            proof {
                assert forall|p: int| 0 <= p <= rs0.len() implies base_vars(registers@, p)
                    == base_vars(rs0, p) by {
                    lemma_base_vars_push(rs0, register, p);
                }
                assert(base_vars(registers@, registers@.len() as int) == base_vars(
                    rs0,
                    rs0.len() as int,
                ) + register.literals@.len());
                assert forall|p: int, j: int|
                    0 <= p < registers@.len() && 0 <= j
                        < registers@[p].literals@.len() implies registers@[p].literals@[j] == (
                crate::literal::Literal {
                    variable: crate::variable::Variable {
                        number: (v0 + base_vars(registers@, p) + j + 1) as usize,
                    },
                    positive: true,
                }) by {
                    if p < rs0.len() {
                        assert(registers@[p] == rs0[p]);
                    } else {
                        assert(registers@[p] == register);
                    }
                }
            }
            k += 1;
        }
        Self { registers }
    }

    pub fn register(&self, index: usize) -> (r: &Register)
        requires
            index < self.registers@.len(),
        ensures
            r == &self.registers@[index as int],
    {
        &self.registers[index]
    }
}

} // verus!
