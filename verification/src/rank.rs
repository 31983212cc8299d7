use vstd::prelude::*;
use vstd::arithmetic::power2::{lemma2_to64, lemma_pow2_strictly_increases, pow2};
use crate::binary::encodes;
use crate::formula::Formula;
use crate::state::{name_index, valid_name, State};
use crate::variable::Variable;

verus! {

/// A half-open range of state indices whose bit patterns exist in a rank's
/// binary encoding but name no state, together with the rank's variables:
/// these patterns must be excluded elsewhere.
#[derive(Debug, PartialEq, Eq)]
pub struct InvalidRange {
    pub start: usize,
    pub end: usize,
    pub variables: Vec<Variable>,
}

/// All the states of one prefix length at one time step, sharing one minimal
/// block of variables.
#[derive(Debug, PartialEq, Eq)]
pub struct Rank {
    pub variables: Vec<Variable>,
    pub states: Vec<State>,
}

impl Rank {
    /// The variable block is as narrow as possible for the state count, and
    /// state `i` is the binary encoding of `i` over the shared block.
    pub open spec fn wf(&self) -> bool {
        &&& 1 <= self.variables@.len() < 32
        &&& 1 <= self.states@.len() <= pow2(self.variables@.len() as nat)
        &&& (self.variables@.len() == 1 || pow2((self.variables@.len() - 1) as nat)
            < self.states@.len())
        &&& forall|i: int|
            0 <= i < self.states@.len() ==> encodes(
                (#[trigger] self.states@[i]).binary.bits@,
                i as nat,
                self.variables@,
            )
    }

    /// Allocates `ceil(log2(number_of_states))` fresh variables and builds
    /// one state per index over them.
    pub fn new(number_of_states: usize, formula: &mut Formula) -> (r: Self)
        requires
            old(formula).wf(),
            1 <= number_of_states <= 0x4000_0000,
            old(formula).variables@.len() + 32 <= usize::MAX,
        ensures
            r.wf(),
            final(formula).wf(),
            final(formula).clauses == old(formula).clauses,
            r.states@.len() == number_of_states,
            final(formula).variables@.len() == old(formula).variables@.len()
                + r.variables@.len(),
            forall|k: int|
                0 <= k < r.variables@.len() ==> (#[trigger] r.variables@[k]).number == old(
                    formula,
                ).variables@.len() + k + 1,
    {
        let number_of_variables = Self::log_2_ceil(number_of_states);

        let mut variables: Vec<Variable> = Vec::new();
        let mut i: usize = 0;
        while i < number_of_variables
            invariant
                formula.wf(),
                formula.clauses == old(formula).clauses,
                i <= number_of_variables < 32,
                old(formula).variables@.len() + 32 <= usize::MAX,
                formula.variables@.len() == old(formula).variables@.len() + i,
                variables@.len() == i,
                forall|k: int|
                    0 <= k < i ==> (#[trigger] variables@[k]).number == old(
                        formula,
                    ).variables@.len() + k + 1,
            decreases number_of_variables - i,
        {
            variables.push(formula.new_variable());
            i += 1;
        }

        let mut states: Vec<State> = Vec::new();
        let mut s: usize = 0;
        while s < number_of_states
            invariant
                1 <= number_of_variables < 32,
                variables@.len() == number_of_variables,
                pow2(number_of_variables as nat) >= number_of_states,
                s <= number_of_states,
                states@.len() == s,
                forall|k: int|
                    0 <= k < s ==> encodes(
                        (#[trigger] states@[k]).binary.bits@,
                        k as nat,
                        variables@,
                    ),
            decreases number_of_states - s,
        {
            states.push(State::new(s, &variables));
            s += 1;
        }

        Self { variables, states }
    }

    /// The state for a name, looked up by its index.
    pub fn state(&self, name: &[usize], n: usize) -> (r: &State)
        requires
            self.wf(),
            1 <= n <= 12,
            valid_name(name@, n as nat),
            name_index(name@, n as nat) < self.states@.len(),
        ensures
            r == &self.states@[name_index(name@, n as nat)],
    {
        self.state_by_index(State::index(name, n))
    }

    pub fn state_by_index(&self, index: usize) -> (r: &State)
        requires
            index < self.states@.len(),
        ensures
            r == &self.states@[index as int],
    {
        &self.states[index]
    }

    /// The bit patterns past the last state: `[state_count, 2^width)`.
    pub fn invalid_range(&self) -> (r: InvalidRange)
        requires
            self.wf(),
        ensures
            r.start == self.states@.len(),
            r.end == pow2(self.variables@.len() as nat),
            r.variables@ == self.variables@,
    {
        let min_invalid = self.states.len();
        let max_invalid = Self::capacity(self.variables.len());

        InvalidRange { start: min_invalid, end: max_invalid, variables: copy_variables(&self.variables) }
    }

    /// The least width whose capacity covers the state count.
    pub fn log_2_ceil(number: usize) -> (r: usize)
        requires
            1 <= number <= 0x4000_0000,
        ensures
            1 <= r < 32,
            pow2(r as nat) >= number,
            r == 1 || pow2((r - 1) as nat) < number,
    {
        let mut bits: usize = 1;

        proof {
            lemma2_to64();
        }
        while Self::capacity(bits) < number
            invariant
                1 <= number <= 0x4000_0000,
                1 <= bits < 32,
                bits == 1 || pow2((bits - 1) as nat) < number,
            decreases 32 - bits,
        {
            proof {
                assert(pow2(bits as nat) < number);
                lemma2_to64();
                if bits >= 31 {
                    lemma_pow2_strictly_increases(30, bits as nat);
                    assert(pow2(30) == 0x40000000);
                }
            }
            bits += 1;
        }

        bits
    }

    /// The number of bit patterns a block of `bits` variables can hold.
    pub fn capacity(bits: usize) -> (r: usize)
        requires
            bits < 32,
        ensures
            r == pow2(bits as nat),
    {
        proof {
            vstd::bits::lemma_u32_pow2_no_overflow(bits as nat);
            vstd::bits::lemma_usize_shl_is_mul(1, bits);
        }
        1usize << bits
    }
}

/// The minimal-width characterization in `wf` pins the width: two widths
/// that both satisfy it for the same state count are equal, so a rank's
/// block width is a function of its state count alone.
pub proof fn lemma_width_determined(w1: nat, w2: nat, count: nat)
    requires
        1 <= w1,
        1 <= w2,
        pow2(w1) >= count,
        pow2(w2) >= count,
        w1 == 1 || pow2((w1 - 1) as nat) < count,
        w2 == 1 || pow2((w2 - 1) as nat) < count,
    ensures
        w1 == w2,
{
    if w1 < w2 {
        if w1 < w2 - 1 {
            lemma_pow2_strictly_increases(w1, (w2 - 1) as nat);
        }
        assert(pow2((w2 - 1) as nat) >= count);
    }
    if w2 < w1 {
        if w2 < w1 - 1 {
            lemma_pow2_strictly_increases(w2, (w1 - 1) as nat);
        }
        assert(pow2((w1 - 1) as nat) >= count);
    }
}

/// The total width of the first `k` variable blocks of a list of ranks.
pub open spec fn blocks_width(ranks: Seq<Rank>, k: int) -> int
    decreases k,
{
    if k <= 0 {
        0
    } else {
        blocks_width(ranks, k - 1) + ranks[k - 1].variables@.len()
    }
}

/// The ranks' blocks are the variables allocated right after the first `v0`:
/// rank `k`'s variable `j` carries number `v0 + blocks_width(k) + j + 1`, so
/// consecutive ranks hold consecutive, disjoint blocks.
pub open spec fn blocks_fresh(ranks: Seq<Rank>, v0: int) -> bool {
    forall|k: int, j: int|
        0 <= k < ranks.len() && 0 <= j < ranks[k].variables@.len() ==> ranks[k].variables@[j]
            == (Variable { number: (v0 + blocks_width(ranks, k) + j + 1) as usize })
}

/// Widths only look at the ranks before `k`.
pub proof fn lemma_blocks_width_push(ranks: Seq<Rank>, x: Rank, k: int)
    requires
        0 <= k <= ranks.len(),
    ensures
        blocks_width(ranks.push(x), k) == blocks_width(ranks, k),
    decreases k,
{
    if k > 0 {
        lemma_blocks_width_push(ranks, x, k - 1);
    }
}

/// An element-wise copy of a variable block.
pub(crate) fn copy_variables(v: &Vec<Variable>) -> (r: Vec<Variable>)
    ensures
        r@ == v@,
{
    let mut out: Vec<Variable> = Vec::new();
    let mut i: usize = 0;
    while i < v.len()
        invariant
            i <= v@.len(),
            out@ == v@.take(i as int),
        decreases v@.len() - i,
    {
        out.push(v[i]);
        proof {
            assert(out@ =~= v@.take(i as int + 1));
        }
        i += 1;
    }
    proof {
        assert(v@.take(v@.len() as int) =~= v@);
    }
    out
}


} // verus!
