use vstd::prelude::*;
use crate::bounds::Span;
use crate::formula::Formula;
use crate::literal::Literal;
use crate::variable::Variable;

verus! {

/// The literal bank for one time step's waste counter over an inclusive
/// count range.  Count 0 gets no literal: all literals false means "no waste
/// yet".
#[derive(Debug, PartialEq, Eq)]
pub struct Register {
    pub start: usize,
    pub end: usize,
    pub literals: Vec<Literal>,
}

impl Register {
    /// The first count that owns a literal: the range start, but never 0.
    pub open spec fn first_count(&self) -> int {
        if self.start >= 1 {
            self.start as int
        } else {
            1
        }
    }

    /// One positive literal per count from `first_count` to `end`.
    pub open spec fn wf(&self) -> bool {
        &&& self.start <= self.end
        &&& self.literals@.len() == (if self.end == 0 {
            0int
        } else {
            self.end - self.first_count() + 1
        })
        &&& forall|k: int| 0 <= k < self.literals@.len() ==> (#[trigger] self.literals@[k]).positive
    }

    /// The literal owned by `count`, when the register has one.
    pub open spec fn spec_literal_for(&self, count: int) -> Option<Literal> {
        if self.first_count() <= count <= self.end {
            Some(self.literals@[count - self.first_count()])
        } else {
            None
        }
    }

    /// Allocates one fresh positive literal per count in the span, skipping
    /// count 0.
    pub fn new(range: Span, formula: &mut Formula) -> (r: Self)
        requires
            old(formula).wf(),
            range.start <= range.end,
            old(formula).variables@.len() + range.end + 1 <= usize::MAX,
        ensures
            r.wf(),
            r.start == range.start,
            r.end == range.end,
            final(formula).wf(),
            final(formula).clauses == old(formula).clauses,
            final(formula).variables@.len() == old(formula).variables@.len()
                + r.literals@.len(),
            forall|k: int|
                0 <= k < r.literals@.len() ==> (#[trigger] r.literals@[k]) == (Literal {
                    variable: Variable { number: (old(formula).variables@.len() + k + 1) as usize },
                    positive: true,
                }),
    {
        let mut literals: Vec<Literal> = Vec::new();
        let first: usize = if range.start >= 1 {
            range.start
        } else {
            1
        };
        let mut count: usize = first;
        while count <= range.end
            invariant
                formula.wf(),
                formula.clauses == old(formula).clauses,
                first == (if range.start >= 1 {
                    range.start as int
                } else {
                    1int
                }),
                first <= count <= range.end + 1,
                old(formula).variables@.len() + range.end + 1 <= usize::MAX,
                literals@.len() == count - first,
                formula.variables@.len() == old(formula).variables@.len() + literals@.len(),
                forall|k: int|
                    0 <= k < literals@.len() ==> (#[trigger] literals@[k]) == (Literal {
                        variable: Variable {
                            number: (old(formula).variables@.len() + k + 1) as usize,
                        },
                        positive: true,
                    }),
            decreases range.end + 1 - count,
        {
            let variable = formula.new_variable();
            literals.push(Literal::positive(variable));
            count += 1;
        }

        Self { start: range.start, end: range.end, literals }
    }

    pub fn start(&self) -> (r: usize)
        ensures
            r == self.start,
    {
        self.start
    }

    pub fn end(&self) -> (r: usize)
        ensures
            r == self.end,
    {
        self.end
    }

    /// The literal for the given count, or none when the count is outside
    /// the range or is the literal-free count 0.
    pub fn literal_for_count(&self, count: usize) -> (r: Option<Literal>)
        requires
            self.wf(),
        ensures
            r == self.spec_literal_for(count as int),
    {
        match self.index(count) {
            Some(i) => {
                if i < self.literals.len() {
                    Some(self.literals[i])
                } else {
                    None
                }
            },
            None => None,
        }
    }

    /// The position of a count's literal in the bank: counts below the first
    /// represented one have none.
    fn index(&self, count: usize) -> (r: Option<usize>)
        ensures
            count >= self.first_count() ==> r == Some((count - self.first_count()) as usize),
            count < self.first_count() ==> r is None,
    {
        let start = if self.start >= 1 {
            self.start
        } else {
            1
        };

        count.checked_sub(start)
    }
}

} // verus!
