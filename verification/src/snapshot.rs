use vstd::prelude::*;
use vstd::arithmetic::power2::pow2;
use crate::arith::{factorial, falling, lemma_falling_le_factorial, lemma_falling_step};
use crate::formula::Formula;
use crate::rank::{blocks_fresh, blocks_width, lemma_blocks_width_push, InvalidRange, Rank};
use crate::state::{name_index, valid_name, State};

verus! {

/// How many states the rank at position `index` of a snapshot holds: the
/// falling factorial counting the prefixes of length `index + 1`, plus one
/// dead state for every rank but the first.
pub open spec fn rank_states(index: int, n: nat) -> nat {
    falling(n, (index + 1) as nat) + (if index == 0 {
        0nat
    } else {
        1nat
    })
}

/// One time step of the automaton: `n` ranks, one per prefix length.
#[derive(Debug, PartialEq, Eq)]
pub struct Snapshot {
    pub ranks: Vec<Rank>,
}

impl Snapshot {
    /// The alphabet size is the rank count.
    pub open spec fn n(&self) -> nat {
        self.ranks@.len()
    }

    pub open spec fn inv(&self) -> bool {
        &&& 1 <= self.n() <= 12
        &&& forall|i: int| 0 <= i < self.n() ==> (#[trigger] self.ranks@[i]).wf()
        &&& forall|i: int|
            0 <= i < self.n() ==> (#[trigger] self.ranks@[i]).states@.len() == rank_states(
                i,
                self.n(),
            )
    }

    /// Builds the `n` ranks of one time step, allocating their variable
    /// blocks from the formula.
    pub fn new(n: usize, formula: &mut Formula) -> (r: Self)
        requires
            old(formula).wf(),
            1 <= n <= 12,
            old(formula).variables@.len() + 32 * n <= usize::MAX,
        ensures
            r.inv(),
            r.n() == n,
            final(formula).wf(),
            final(formula).clauses == old(formula).clauses,
            final(formula).variables@.len() <= old(formula).variables@.len() + 32 * n,
            final(formula).variables@.len() == old(formula).variables@.len() + blocks_width(
                r.ranks@,
                r.ranks@.len() as int,
            ),
            blocks_fresh(r.ranks@, old(formula).variables@.len() as int),
    {
        let mut ranks: Vec<Rank> = Vec::new();
        let mut i: usize = 0;
        while i < n
            invariant
                formula.wf(),
                formula.clauses == old(formula).clauses,
                1 <= n <= 12,
                0 <= i <= n,
                ranks@.len() == i,
                formula.variables@.len() <= old(formula).variables@.len() + 32 * i,
                formula.variables@.len() == old(formula).variables@.len() + blocks_width(
                    ranks@,
                    ranks@.len() as int,
                ),
                blocks_fresh(ranks@, old(formula).variables@.len() as int),
                old(formula).variables@.len() + 32 * n <= usize::MAX,
                forall|k: int| 0 <= k < i ==> (#[trigger] ranks@[k]).wf(),
                forall|k: int|
                    0 <= k < i ==> (#[trigger] ranks@[k]).states@.len() == rank_states(k, n as nat),
            decreases n - i,
        {
            let count = Self::number_of_states(i, n);
            proof {
                lemma_falling_le_factorial(n as nat, (i + 1) as nat);
                crate::arith::lemma_factorial_mono(n as nat, 12);
                crate::arith::lemma_factorial_12();
            }
            let ghost rs0 = ranks@;
            let ghost v0 = old(formula).variables@.len() as int;
            let rank = Rank::new(count, formula);
            ranks.push(rank);
            proof {
                assert forall|p: int| 0 <= p <= rs0.len() implies blocks_width(ranks@, p)
                    == blocks_width(rs0, p) by {
                    lemma_blocks_width_push(rs0, rank, p);
                }
                assert(blocks_width(ranks@, ranks@.len() as int) == blocks_width(
                    rs0,
                    rs0.len() as int,
                ) + rank.variables@.len());
                assert forall|p: int, j: int|
                    0 <= p < ranks@.len() && 0 <= j
                        < ranks@[p].variables@.len() implies ranks@[p].variables@[j] == (
                crate::variable::Variable {
                    number: (v0 + blocks_width(ranks@, p) + j + 1) as usize,
                }) by {
                    if p < rs0.len() {
                        assert(ranks@[p] == rs0[p]);
                    } else {
                        assert(ranks@[p] == rank);
                    }
                }
            }
            i += 1;
        }
        Self { ranks }
    }

    /// The state for a name, in the rank of the name's length.
    pub fn state(&self, name: &[usize]) -> (r: &State)
        requires
            self.inv(),
            1 <= name@.len() <= self.n(),
            valid_name(name@, self.n()),
        ensures
            r == &self.ranks@[name@.len() - 1].states@[name_index(name@, self.n())],
    {
        let rank = &self.ranks[name.len() - 1];
        let n = self.ranks.len();

        proof {
            if crate::state::is_prefix_name(name@, self.n()) {
                crate::state::lemma_index_in_range(name@, self.n());
            }
        }
        rank.state(name, n)
    }

    /// One invalid index range per rank.
    pub fn invalid_ranges(&self) -> (r: Vec<InvalidRange>)
        requires
            self.inv(),
        ensures
            r@.len() == self.n(),
            forall|i: int|
                0 <= i < self.n() ==> {
                    &&& (#[trigger] r@[i]).start == self.ranks@[i].states@.len()
                    &&& r@[i].end == pow2(self.ranks@[i].variables@.len() as nat)
                    &&& r@[i].variables@ == self.ranks@[i].variables@
                },
    {
        let mut out: Vec<InvalidRange> = Vec::new();
        let mut i: usize = 0;
        while i < self.ranks.len()
            invariant
                self.inv(),
                0 <= i <= self.n(),
                out@.len() == i,
                forall|k: int|
                    0 <= k < i ==> {
                        &&& (#[trigger] out@[k]).start == self.ranks@[k].states@.len()
                        &&& out@[k].end == pow2(self.ranks@[k].variables@.len() as nat)
                        &&& out@[k].variables@ == self.ranks@[k].variables@
                    },
            decreases self.ranks@.len() - i,
        {
            out.push(self.ranks[i].invalid_range());
            i += 1;
        }
        out
    }

    /// The state count of each rank, in rank order.
    pub fn max_states(&self) -> (r: Vec<usize>)
        ensures
            r@.len() == self.n(),
            forall|i: int| 0 <= i < self.n() ==> r@[i] == (#[trigger] self.ranks@[i]).states@.len(),
    {
        let mut out: Vec<usize> = Vec::new();
        let mut i: usize = 0;
        while i < self.ranks.len()
            invariant
                0 <= i <= self.ranks@.len(),
                out@.len() == i,
                forall|k: int|
                    0 <= k < i ==> out@[k] == (#[trigger] self.ranks@[k]).states@.len(),
            decreases self.ranks@.len() - i,
        {
            out.push(self.ranks[i].states.len());
            i += 1;
        }
        out
    }

    /// How many states the rank at `index` holds: the falling-factorial
    /// product of prefix counts, plus the dead state for every rank but the
    /// first.
    pub fn number_of_states(index: usize, n: usize) -> (r: usize)
        requires
            index < n <= 12,
        ensures
            r == rank_states(index as int, n as nat),
            1 <= r <= 0x40000000,
    {
        let mut product: usize = 1;
        let mut i: usize = 0;
        proof {
            crate::arith::lemma_factorial_12();
            crate::arith::lemma_factorial_mono(n as nat, 12);
        }
        while i <= index
            invariant
                index < n <= 12,
                0 <= i <= index + 1,
                product == falling(n as nat, i as nat),
                factorial(n as nat) <= 479001600,
            decreases index + 1 - i,
        {
            proof {
                lemma_falling_step(n as nat, i as nat);
                lemma_falling_le_factorial(n as nat, (i + 1) as nat);
            }
            product = product * (n - i);
            i += 1;
        }
        proof {
            lemma_falling_le_factorial(n as nat, (index + 1) as nat);
        }
        match index {
            0 => product,
            _ => product + 1,
        }
    }
}

} // verus!
