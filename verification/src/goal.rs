use vstd::prelude::*;
use vstd::arithmetic::power2::pow2;
use crate::arith::{factorial, falling, lemma_falling_times_factorial};
use crate::formula::Formula;
use crate::rank::{blocks_fresh, blocks_width, lemma_blocks_width_push, InvalidRange, Rank};
use crate::state::{is_prefix_name, name_index, State};
use crate::utility::Utility;

verus! {

/// The "seen" tracker: one rank per permutation of the full alphabet, each
/// holding one state per string position, used as a monotone "this
/// permutation has occurred by time t" counter.
pub struct Goal {
    pub ranks: Vec<Rank>,
}

impl Goal {
    pub open spec fn inv(&self, n: nat, length: nat) -> bool {
        &&& self.ranks@.len() == factorial(n)
        &&& forall|i: int| 0 <= i < self.ranks@.len() ==> (#[trigger] self.ranks@[i]).wf()
        &&& forall|i: int|
            0 <= i < self.ranks@.len() ==> (#[trigger] self.ranks@[i]).states@.len() == length
    }

    /// One rank per permutation, each sized by the string length; no dead
    /// state is reserved, this is a plain counter.
    pub fn new(n: usize, length_of_string: usize, formula: &mut Formula) -> (r: Self)
        requires
            old(formula).wf(),
            1 <= n <= 12,
            1 <= length_of_string <= 0x4000_0000,
            old(formula).variables@.len() + 32 * factorial(n as nat) <= usize::MAX,
        ensures
            r.inv(n as nat, length_of_string as nat),
            final(formula).wf(),
            final(formula).clauses == old(formula).clauses,
            final(formula).variables@.len() == old(formula).variables@.len() + blocks_width(
                r.ranks@,
                r.ranks@.len() as int,
            ),
            blocks_fresh(r.ranks@, old(formula).variables@.len() as int),
    {
        let count = Utility::factorial(n);
        let mut ranks: Vec<Rank> = Vec::new();
        let mut i: usize = 0;
        while i < count
            invariant
                formula.wf(),
                formula.clauses == old(formula).clauses,
                1 <= length_of_string <= 0x4000_0000,
                0 <= i <= count,
                count == factorial(n as nat),
                ranks@.len() == i,
                old(formula).variables@.len() + 32 * count <= usize::MAX,
                formula.variables@.len() <= old(formula).variables@.len() + 32 * i,
                formula.variables@.len() == old(formula).variables@.len() + blocks_width(
                    ranks@,
                    ranks@.len() as int,
                ),
                blocks_fresh(ranks@, old(formula).variables@.len() as int),
                forall|k: int|
                    0 <= k < i ==> (#[trigger] ranks@[k]).wf() && ranks@[k].states@.len()
                        == length_of_string,
            decreases count - i,
        {
            proof {
                assert(32 * i + 32 <= 32 * count) by (nonlinear_arith)
                    requires
                        i < count,
                ;
            }
            let ghost rs0 = ranks@;
            let ghost v0 = old(formula).variables@.len() as int;
            let rank = Rank::new(length_of_string, formula);
            ranks.push(rank);
            proof {
                assert forall|p: int| 0 <= p <= rs0.len() implies blocks_width(ranks@, p)
                    == blocks_width(rs0, p) by {
                    lemma_blocks_width_push(rs0, rank, p);
                }
                assert(blocks_width(ranks@, ranks@.len() as int) == blocks_width(
                    rs0,
                    rs0.len() as int,
                ) + rank.variables@.len());
                assert forall|p: int, j: int|
                    0 <= p < ranks@.len() && 0 <= j
                        < ranks@[p].variables@.len() implies ranks@[p].variables@[j] == (
                crate::variable::Variable {
                    number: (v0 + blocks_width(ranks@, p) + j + 1) as usize,
                }) by {
                    if p < rs0.len() {
                        assert(ranks@[p] == rs0[p]);
                    } else {
                        assert(ranks@[p] == rank);
                    }
                }
            }
            i += 1;
        }
        Self { ranks }
    }

    /// The rank tracking one full permutation, looked up by the
    /// permutation's index among its peers.
    pub fn subgoal(&self, name: &[usize]) -> (r: &Rank)
        requires
            2 <= name@.len() <= 12,
            is_prefix_name(name@, name@.len() as nat),
            self.ranks@.len() >= factorial(name@.len() as nat),
        ensures
            r == &self.ranks@[name_index(name@, name@.len() as nat) - 1],
    {
        proof {
            crate::state::lemma_index_in_range(name@, name@.len() as nat);
            lemma_falling_times_factorial(name@.len() as nat, name@.len() as nat);
            assert(falling(name@.len() as nat, name@.len() as nat) * 1 == falling(
                name@.len() as nat,
                name@.len() as nat,
            )) by (nonlinear_arith);
        }
        let index = State::index(name, name.len()) - 1;

        &self.ranks[index]
    }

    /// One invalid index range per permutation rank.
    pub fn invalid_ranges(&self) -> (r: Vec<InvalidRange>)
        requires
            forall|i: int| 0 <= i < self.ranks@.len() ==> (#[trigger] self.ranks@[i]).wf(),
        ensures
            r@.len() == self.ranks@.len(),
            forall|i: int|
                0 <= i < self.ranks@.len() ==> {
                    &&& (#[trigger] r@[i]).start == self.ranks@[i].states@.len()
                    &&& r@[i].end == pow2(self.ranks@[i].variables@.len() as nat)
                    &&& r@[i].variables@ == self.ranks@[i].variables@
                },
    {
        let mut out: Vec<InvalidRange> = Vec::new();
        let mut i: usize = 0;
        while i < self.ranks.len()
            invariant
                forall|k: int| 0 <= k < self.ranks@.len() ==> (#[trigger] self.ranks@[k]).wf(),
                0 <= i <= self.ranks@.len(),
                out@.len() == i,
                forall|k: int|
                    0 <= k < i ==> {
                        &&& (#[trigger] out@[k]).start == self.ranks@[k].states@.len()
                        &&& out@[k].end == pow2(self.ranks@[k].variables@.len() as nat)
                        &&& out@[k].variables@ == self.ranks@[k].variables@
                    },
            decreases self.ranks@.len() - i,
        {
            out.push(self.ranks[i].invalid_range());
            i += 1;
        }
        out
    }
}

} // verus!
