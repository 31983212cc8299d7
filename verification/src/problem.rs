use vstd::prelude::*;
use itertools::Itertools;
use crate::bounds::Bounds;
use crate::goal::Goal;
use crate::literal::Literal;
use crate::counter::{counter_fresh, counter_matches, Counter};
use crate::logic::{
    canon, implication_list, insert_all, lemma_insert_all_append, lemma_insert_all_contains,
    lemma_insert_all_origin, lemma_insert_all_prefix, lemma_prefix_contains, neg_all, unit_list,
    within_emitted, Logic,
};
use crate::machine::Machine;
use crate::rank::Rank;
use crate::state::{digits_used, is_prefix_name, name_index, radix, sum_digits};
use crate::variable::Variable;
use vstd::arithmetic::power2::pow2;

verus! {

/// A sequence of `k` distinct symbols from the alphabet `{1..n}`.
pub open spec fn is_k_permutation(s: Seq<usize>, k: nat, n: nat) -> bool {
    &&& s.len() == k
    &&& forall|i: int| 0 <= i < s.len() ==> 1 <= #[trigger] s[i] <= n
    &&& forall|i: int, j: int| 0 <= i < j < s.len() ==> s[i] != s[j]
}

/// Relies on itertools' `Itertools::permutations`: over the distinct input
/// `1..=n` it yields every k-length permutation of the symbols, each exactly
/// once.
#[verifier::external_body]
fn permutations_of_symbols(n: usize, k: usize) -> (r: Vec<Vec<usize>>)
    requires
        1 <= k <= n,
    ensures
        forall|i: int|
            0 <= i < r@.len() ==> is_k_permutation((#[trigger] r@[i])@, k as nat, n as nat),
        forall|i: int, j: int| 0 <= i < j < r@.len() ==> r@[i]@ != r@[j]@,
        forall|s: Seq<usize>|
            #[trigger] is_k_permutation(s, k as nat, n as nat) ==> exists|i: int|
                0 <= i < r@.len() && (#[trigger] r@[i])@ == s,
{
    (1..=n).permutations(k).collect()
}

/// The unit clauses forcing the dead states of ranks `1..r` at time 0.
pub open spec fn dead_start_emitted(m: Machine, r: int) -> Seq<Seq<Literal>>
    decreases r,
{
    if r <= 1 {
        Seq::<Seq<Literal>>::empty()
    } else {
        dead_start_emitted(m, r - 1) + unit_list(
            m.snapshots@[0].ranks@[r - 1].states@[0].binary.bits@,
        )
    }
}

/// The unit clauses forcing the single-symbol states spelling out the first
/// `t` symbols of the string.
pub open spec fn start_emitted(m: Machine, symbols: Seq<usize>, t: int) -> Seq<Seq<Literal>>
    decreases t,
{
    if t <= 0 {
        Seq::<Seq<Literal>>::empty()
    } else {
        start_emitted(m, symbols, t - 1) + unit_list(
            m.snapshots@[t - 1].ranks@[0].states@[symbols[t - 1] - 1].binary.bits@,
        )
    }
}

/// The symbols `1, 2, ..., n` in order.
pub open spec fn ascending(n: nat) -> Seq<usize> {
    Seq::new(n, |i: int| (i + 1) as usize)
}

/// A single-symbol name ranks to the symbol shifted to start at zero.
proof fn lemma_single_symbol_index(s: usize, n: nat)
    requires
        2 <= n,
        1 <= s <= n,
    ensures
        name_index(seq![s], n) == s - 1,
{
    let nm = seq![s];
    assert(!crate::state::is_dead_name(nm)) by {
        assert(nm[0] != 0);
    }
    assert(digits_used(nm, n) == 1);
    reveal_with_fuel(sum_digits, 3);
    reveal_with_fuel(crate::state::count_in_range, 2);
    assert(crate::state::count_smaller(nm, 0) == 0);
    assert(crate::state::digit(nm, 0) == s - 1);
    assert(radix(n, 1, 0) == crate::arith::falling((n - 1) as nat, 0));
    assert(crate::arith::falling((n - 1) as nat, 0) == 1);
    assert(sum_digits(nm, n, 0, 1) == (s - 1) * 1);
    assert((s - 1) * 1 == s - 1) by (nonlinear_arith);
}

/// The literals encoding the number `v` over a rank's variables, bit by bit.
pub open spec fn encode_lits(v: int, vars: Seq<Variable>) -> Seq<Literal> {
    Seq::new(
        vars.len(),
        |i: int| Literal { variable: vars[i], positive: crate::arith::bit(v as nat, i as nat) },
    )
}

/// The clauses excluding the encodings of the numbers in `[from, upto)`.
pub open spec fn numbers_excluded(from: int, upto: int, vars: Seq<Variable>) -> Seq<Seq<Literal>>
    decreases upto - from,
{
    if upto <= from {
        Seq::<Seq<Literal>>::empty()
    } else {
        numbers_excluded(from, upto - 1, vars) + seq![canon(neg_all(encode_lits(upto - 1, vars)))]
    }
}

/// The clauses excluding every bit pattern of a rank that names no state.
pub open spec fn rank_excluded(r: Rank) -> Seq<Seq<Literal>> {
    numbers_excluded(
        r.states@.len() as int,
        pow2(r.variables@.len() as nat) as int,
        r.variables@,
    )
}

/// The exclusion clauses of the machine's first `flat` ranks, in time-major
/// order.
pub open spec fn machine_excluded(m: Machine, n: int, flat: int) -> Seq<Seq<Literal>>
    decreases flat,
{
    if flat <= 0 {
        Seq::<Seq<Literal>>::empty()
    } else {
        machine_excluded(m, n, flat - 1) + rank_excluded(
            m.snapshots@[(flat - 1) / n].ranks@[(flat - 1) % n],
        )
    }
}

/// The exclusion clauses of the goal's first `k` permutation ranks.
pub open spec fn goal_excluded(g: Goal, k: int) -> Seq<Seq<Literal>>
    decreases k,
{
    if k <= 0 {
        Seq::<Seq<Literal>>::empty()
    } else {
        goal_excluded(g, k - 1) + rank_excluded(g.ranks@[k - 1])
    }
}

/// The alias literal introduced for the k-th eligible time step when the
/// formula held `v0` variables.
pub open spec fn wasted_literal(v0: int, k: int) -> Literal {
    Literal { variable: Variable { number: (v0 + k + 1) as usize }, positive: true }
}

/// The per-step alias literals naming "this position wasted a symbol".
pub open spec fn wasted_literals(v0: int, count: int) -> Seq<Literal> {
    Seq::new(count as nat, |k: int| wasted_literal(v0, k))
}

/// What naming a conjunction emits: the conjunction implies the alias and
/// the alias implies the conjunction.
pub open spec fn alias_emitted(bits: Seq<Literal>, lit: Literal) -> Seq<Seq<Literal>> {
    implication_list(bits, seq![lit]) + implication_list(seq![lit], bits)
}

/// The alias clauses for the first `t` eligible time steps: each aliases the
/// dead state of the next-to-last rank at its position.
pub open spec fn wasted_emitted(m: Machine, n: int, v0: int, t: int) -> Seq<Seq<Literal>>
    decreases t,
{
    if t <= 0 {
        Seq::<Seq<Literal>>::empty()
    } else {
        wasted_emitted(m, n, v0, t - 1) + alias_emitted(
            m.snapshots@[n - 1 + t - 1].ranks@[n - 1].states@[0].binary.bits@,
            wasted_literal(v0, t - 1),
        )
    }
}

/// Every body of `items` is present in `vs`.
pub open spec fn views_include(vs: Seq<Seq<Literal>>, items: Seq<Seq<Literal>>) -> bool {
    forall|i: int| 0 <= i < items.len() ==> vs.contains(#[trigger] items[i])
}

/// Presence survives any later insertions.
proof fn lemma_include_monotone(
    a: Seq<Seq<Literal>>,
    b: Seq<Seq<Literal>>,
    items: Seq<Seq<Literal>>,
)
    requires
        a.is_prefix_of(b),
        views_include(a, items),
    ensures
        views_include(b, items),
{
    assert forall|i: int| 0 <= i < items.len() implies b.contains(#[trigger] items[i]) by {
        lemma_prefix_contains(a, b, items[i]);
    }
}

proof fn lemma_prefix_trans(a: Seq<Seq<Literal>>, b: Seq<Seq<Literal>>, c: Seq<Seq<Literal>>)
    requires
        a.is_prefix_of(b),
        b.is_prefix_of(c),
    ensures
        a.is_prefix_of(c),
{
    assert(forall|i: int| 0 <= i < a.len() ==> a[i] == b[i] && b[i] == c[i]);
}

/// The clauses tying the machine's full-permutation state at time `t` to the
/// goal's per-time tracker state for that permutation.
pub open spec fn once_clauses(m: Machine, g: Goal, n: nat, name: Seq<usize>, t: int) -> Seq<
    Seq<Literal>,
> {
    implication_list(
        m.snapshots@[t].ranks@[n - 1].states@[name_index(name, n)].binary.bits@,
        g.ranks@[name_index(name, n) - 1].states@[t].binary.bits@,
    )
}

/// Some permutation and some time give rise to the body `v`.
pub open spec fn once_origin(
    m: Machine,
    g: Goal,
    n: nat,
    length: int,
    v: Seq<Literal>,
) -> bool {
    exists|name: Seq<usize>, t: int|
        is_k_permutation(name, n, n) && 1 <= t < length && #[trigger] once_clauses(
            m,
            g,
            n,
            name,
            t,
        ).contains(v)
}

/// The clauses tying a state at time `t` to its predecessor and its input
/// symbol: the state named `(from, symbol)` holds exactly when `from` held
/// one step earlier and `symbol` is read now.
pub open spec fn transition_clauses(m: Machine, n: nat, t: int, name: Seq<usize>) -> Seq<
    Seq<Literal>,
> {
    let r = name.len() as int;
    let from_bits = m.snapshots@[t - 1].ranks@[r - 2].states@[name_index(name.take(r - 1), n)].binary.bits@;
    let to_bits = m.snapshots@[t].ranks@[r - 1].states@[name_index(name, n)].binary.bits@;
    let sym_bits = m.snapshots@[t].ranks@[0].states@[name[r - 1] - 1].binary.bits@;
    implication_list(to_bits, from_bits + sym_bits) + implication_list(from_bits + sym_bits, to_bits)
}

/// Some transition gives rise to the body `v`.
pub open spec fn transition_origin(m: Machine, n: nat, length: int, v: Seq<Literal>) -> bool {
    exists|name: Seq<usize>, t: int|
        2 <= name.len() <= n && is_k_permutation(name, name.len(), n) && 1 <= t < length
            && #[trigger] transition_clauses(m, n, t, name).contains(v)
}

/// Assembles all constraint families into the owned formula: it reads the
/// shape of the machine, goal and bounds to decide which literals to relate,
/// and never changes them.
pub struct Problem {
    pub n: usize,
    pub length_of_string: usize,
    pub machine: Machine,
    pub goal: Goal,
    pub bounds: Bounds,
    pub logic: Logic,
}

impl Problem {
    pub open spec fn wf(&self) -> bool {
        &&& 2 <= self.n <= 12
        &&& self.n <= self.length_of_string
        &&& self.machine.inv(self.n as nat)
        &&& self.machine.snapshots@.len() == self.length_of_string
        &&& self.goal.inv(self.n as nat, self.length_of_string as nat)
        &&& self.bounds.n == self.n
        &&& self.bounds.length_of_string == self.length_of_string
        &&& self.logic.wf()
    }

    /// The parts other than the formula never change.
    pub open spec fn same_shape(&self, other: &Self) -> bool {
        &&& self.n == other.n
        &&& self.length_of_string == other.length_of_string
        &&& self.machine == other.machine
        &&& self.goal == other.goal
        &&& self.bounds == other.bounds
    }

    pub fn new(
        n: usize,
        length_of_string: usize,
        machine: Machine,
        goal: Goal,
        bounds: Bounds,
        logic: Logic,
    ) -> (r: Self)
        ensures
            r.n == n,
            r.length_of_string == length_of_string,
            r.machine == machine,
            r.goal == goal,
            r.bounds == bounds,
            r.logic == logic,
    {
        Self { n, length_of_string, machine, goal, bounds, logic }
    }

    /// At time 0 only single-symbol prefixes can be active: every dead state
    /// of ranks two and up is forced true (its index is 0, so all its
    /// literals are negative).
    pub fn the_machine_starts_in_the_dead_states(&mut self)
        requires
            old(self).wf(),
        ensures
            final(self).wf(),
            final(self).same_shape(old(self)),
            final(self).logic.formula.variables == old(self).logic.formula.variables,
            final(self).logic.formula.views() == insert_all(
                old(self).logic.formula.views(),
                dead_start_emitted(old(self).machine, old(self).n as int),
            ),
    {
        let ghost vs0 = self.logic.formula.views();
        let ghost m = self.machine;
        let mut rank: usize = 1;
        while rank < self.n
            invariant
                self.wf(),
                *old(self) == (Problem { logic: old(self).logic, ..*self }),
                m == self.machine,
                1 <= rank <= self.n,
                self.logic.formula.variables == old(self).logic.formula.variables,
                self.logic.formula.views() == insert_all(
                    vs0,
                    dead_start_emitted(m, rank as int),
                ),
                vs0 == old(self).logic.formula.views(),
            decreases self.n - rank,
        {
            let name = Self::dead_state_name(rank);
            proof {
                assert(crate::state::is_dead_name(name@));
                assert(name_index(name@, self.n as nat) == 0);
                assert(self.machine.snapshots@[0].inv());
            }
            let dead_state = self.machine.at_time(0).state(name.as_slice());
            let ghost emitted = unit_list(m.snapshots@[0].ranks@[rank as int].states@[0].binary.bits@);

            self.logic.tautology(dead_state.literals().as_slice());
            proof {
                lemma_insert_all_append(vs0, dead_start_emitted(m, rank as int), emitted);
                assert(dead_start_emitted(m, rank as int + 1) == dead_start_emitted(
                    m,
                    rank as int,
                ) + emitted);
            }
            rank += 1;
        }
    }

    /// Symmetry breaking: the string starts with the symbols `1..n` in
    /// ascending order.
    pub fn the_string_starts_with_ascending_numbers(&mut self)
        requires
            old(self).wf(),
        ensures
            final(self).wf(),
            final(self).same_shape(old(self)),
            final(self).logic.formula.variables == old(self).logic.formula.variables,
            final(self).logic.formula.views() == insert_all(
                old(self).logic.formula.views(),
                start_emitted(
                    old(self).machine,
                    ascending(old(self).n as nat),
                    old(self).n as int,
                ),
            ),
    {
        let mut symbols: Vec<usize> = Vec::new();
        let mut s: usize = 1;
        while s <= self.n
            invariant
                2 <= self.n <= 12,
                1 <= s <= self.n + 1,
                symbols@.len() == s - 1,
                forall|i: int| 0 <= i < s - 1 ==> symbols@[i] == i + 1,
            decreases self.n + 1 - s,
        {
            symbols.push(s);
            s += 1;
        }
        proof {
            assert(symbols@ =~= ascending(self.n as nat));
        }
        self.the_string_starts_with(symbols.as_slice());
    }

    /// Forces the single-symbol state spelling `symbols[t]` at each time `t`.
    pub fn the_string_starts_with(&mut self, symbols: &[usize])
        requires
            old(self).wf(),
            symbols@.len() <= old(self).length_of_string,
            forall|i: int| 0 <= i < symbols@.len() ==> 1 <= #[trigger] symbols@[i] <= old(self).n,
        ensures
            final(self).wf(),
            final(self).same_shape(old(self)),
            final(self).logic.formula.variables == old(self).logic.formula.variables,
            final(self).logic.formula.views() == insert_all(
                old(self).logic.formula.views(),
                start_emitted(old(self).machine, symbols@, symbols@.len() as int),
            ),
    {
        let ghost vs0 = self.logic.formula.views();
        let ghost m = self.machine;
        let mut time: usize = 0;
        while time < symbols.len()
            invariant
                self.wf(),
                *old(self) == (Problem { logic: old(self).logic, ..*self }),
                m == self.machine,
                symbols@.len() <= self.length_of_string,
                forall|i: int| 0 <= i < symbols@.len() ==> 1 <= #[trigger] symbols@[i] <= self.n,
                0 <= time <= symbols@.len(),
                self.logic.formula.variables == old(self).logic.formula.variables,
                self.logic.formula.views() == insert_all(
                    vs0,
                    start_emitted(m, symbols@, time as int),
                ),
                vs0 == old(self).logic.formula.views(),
            decreases symbols@.len() - time,
        {
            let symbol = symbols[time];
            let mut name: Vec<usize> = Vec::new();
            name.push(symbol);
            proof {
                assert(name@ =~= seq![symbol]);
                lemma_single_symbol_index(symbol, self.n as nat);
                assert(is_prefix_name(name@, self.n as nat));
                assert(self.machine.snapshots@[time as int].inv());
                assert(self.machine.snapshots@[time as int].ranks@[0].states@.len()
                    == crate::snapshot::rank_states(0, self.n as nat));
                crate::arith::lemma_falling_step(self.n as nat, 0);
                assert(crate::arith::falling(self.n as nat, 1) == self.n * 1) by {
                    reveal_with_fuel(crate::arith::falling, 2);
                }
            }
            let start_state = self.machine.at_time(time).state(name.as_slice());
            let ghost emitted = unit_list(
                m.snapshots@[time as int].ranks@[0].states@[symbols@[time as int] - 1].binary.bits@,
            );
            self.logic.tautology(start_state.literals().as_slice());
            proof {
                lemma_insert_all_append(vs0, start_emitted(m, symbols@, time as int), emitted);
                assert(start_emitted(m, symbols@, time as int + 1) == start_emitted(
                    m,
                    symbols@,
                    time as int,
                ) + emitted);
            }
            time += 1;
        }
    }


    /// No bit pattern may name a state that does not exist: for every
    /// invalid index of every rank, of the machine and of the goal, one
    /// clause excludes that index's encoding.
    pub fn all_binary_representations_map_to_states(&mut self)
        requires
            old(self).wf(),
        ensures
            final(self).wf(),
            final(self).same_shape(old(self)),
            final(self).logic.formula.variables == old(self).logic.formula.variables,
            final(self).logic.formula.views() == insert_all(
                old(self).logic.formula.views(),
                machine_excluded(
                    old(self).machine,
                    old(self).n as int,
                    old(self).length_of_string * old(self).n,
                ) + goal_excluded(old(self).goal, old(self).goal.ranks@.len() as int),
            ),
    {
        let ghost vs0 = self.logic.formula.views();
        let ghost m = self.machine;
        let ghost g = self.goal;
        let ghost nn = self.n as int;

        proof {
            assert(self.machine.spec_n() == nn);
        }
        let ranges = self.machine.invalid_ranges();
        let mut j: usize = 0;
        while j < ranges.len()
            invariant
                self.wf(),
                *old(self) == (Problem { logic: old(self).logic, ..*self }),
                m == self.machine,
                nn == self.n as int,
                0 <= j <= ranges@.len(),
                ranges@.len() == self.length_of_string * self.n,
                self.machine.snapshots@.len() == self.length_of_string,
                forall|s: int, k: int|
                    0 <= s < self.machine.snapshots@.len() && 0 <= k < self.n ==> {
                        &&& (#[trigger] ranges@[s * nn + k]).start
                            == self.machine.snapshots@[s].ranks@[k].states@.len()
                        &&& ranges@[s * nn + k].end == pow2(
                            self.machine.snapshots@[s].ranks@[k].variables@.len() as nat,
                        )
                        &&& ranges@[s * nn + k].variables@
                            == self.machine.snapshots@[s].ranks@[k].variables@
                    },
                self.logic.formula.variables == old(self).logic.formula.variables,
                self.logic.formula.views() == insert_all(vs0, machine_excluded(m, nn, j as int)),
                vs0 == old(self).logic.formula.views(),
            decreases ranges@.len() - j,
        {
            let ghost s_idx = j as int / nn;
            let ghost k_idx = j as int % nn;
            proof {
                vstd::arithmetic::div_mod::lemma_fundamental_div_mod(j as int, nn);
                vstd::arithmetic::div_mod::lemma_mod_bound(j as int, nn);
                vstd::arithmetic::div_mod::lemma_div_pos_is_pos(j as int, nn);
                assert(0 <= k_idx < nn);
                assert(j as int == s_idx * nn + k_idx);
                assert(s_idx < self.machine.snapshots@.len()) by (nonlinear_arith)
                    requires
                        j as int == s_idx * nn + k_idx,
                        j < self.machine.snapshots@.len() * nn,
                        0 <= k_idx < nn,
                        0 <= s_idx,
                ;
                assert(self.machine.snapshots@[s_idx].inv());
                assert(self.machine.snapshots@[s_idx].ranks@[k_idx].wf());
            }
            let ghost rank = m.snapshots@[s_idx].ranks@[k_idx];
            let start = ranges[j].start;
            let end = ranges[j].end;
            let ghost base = machine_excluded(m, nn, j as int);
            let mut number: usize = start;
            proof {
                assert(numbers_excluded(start as int, start as int, rank.variables@)
                    =~= Seq::<Seq<Literal>>::empty());
            }
            while number < end
                invariant
                    self.wf(),
                    *old(self) == (Problem { logic: old(self).logic, ..*self }),
                    m == self.machine,
                    j < ranges@.len(),
                    rank == m.snapshots@[s_idx].ranks@[k_idx],
                    rank.wf(),
                    start == ranges@[j as int].start,
                    end == ranges@[j as int].end,
                    start == rank.states@.len(),
                    end == pow2(rank.variables@.len() as nat),
                    ranges@[j as int].variables@ == rank.variables@,
                    start <= number <= end,
                    self.logic.formula.variables == old(self).logic.formula.variables,
                    self.logic.formula.views() == insert_all(
                        vs0,
                        base + numbers_excluded(start as int, number as int, rank.variables@),
                    ),
                    vs0 == old(self).logic.formula.views(),
                decreases end - number,
            {
                let binary = crate::binary::Binary::from_decimal(
                    number,
                    ranges[j].variables.as_slice(),
                );
                proof {
                    assert(binary.bits@ =~= encode_lits(number as int, rank.variables@));
                }
                self.logic.contradiction(binary.bits.as_slice());
                proof {
                    reveal_with_fuel(insert_all, 3);
                    let ghost ne0 = numbers_excluded(start as int, number as int, rank.variables@);
                    let ghost part = seq![canon(neg_all(encode_lits(number as int, rank.variables@)))];
                    lemma_insert_all_append(vs0, base + ne0, part);
                    assert((base + ne0) + part =~= base + (ne0 + part));
                    lemma_insert_all_append(vs0, base, ne0);
                    assert(numbers_excluded(start as int, number as int + 1, rank.variables@) == ne0
                        + part);
                    lemma_insert_all_append(
                        vs0,
                        base,
                        numbers_excluded(start as int, number as int + 1, rank.variables@),
                    );
                }
                number += 1;
            }
            proof {
                assert(number == end);
                assert(machine_excluded(m, nn, j as int + 1) == base + rank_excluded(rank));
                assert(rank_excluded(rank) == numbers_excluded(
                    start as int,
                    end as int,
                    rank.variables@,
                ));
                lemma_insert_all_append(
                    vs0,
                    base,
                    numbers_excluded(start as int, end as int, rank.variables@),
                );
            }
            j += 1;
        }
        let ghost mx = machine_excluded(m, nn, (self.length_of_string * self.n) as int);

        let goal_ranges = self.goal.invalid_ranges();
        let mut k: usize = 0;
        while k < goal_ranges.len()
            invariant
                self.wf(),
                *old(self) == (Problem { logic: old(self).logic, ..*self }),
                g == self.goal,
                0 <= k <= goal_ranges@.len(),
                goal_ranges@.len() == g.ranks@.len(),
                forall|i: int|
                    0 <= i < g.ranks@.len() ==> {
                        &&& (#[trigger] goal_ranges@[i]).start == g.ranks@[i].states@.len()
                        &&& goal_ranges@[i].end == pow2(g.ranks@[i].variables@.len() as nat)
                        &&& goal_ranges@[i].variables@ == g.ranks@[i].variables@
                    },
                self.logic.formula.variables == old(self).logic.formula.variables,
                self.logic.formula.views() == insert_all(vs0, mx + goal_excluded(g, k as int)),
                vs0 == old(self).logic.formula.views(),
                mx == machine_excluded(m, (old(self).n) as int, (old(self).length_of_string * old(self).n) as int),
                m == old(self).machine,
            decreases goal_ranges@.len() - k,
        {
            let ghost rank = g.ranks@[k as int];
            proof {
                assert(rank.wf());
            }
            let start = goal_ranges[k].start;
            let end = goal_ranges[k].end;
            let ghost base = mx + goal_excluded(g, k as int);
            let mut number: usize = start;
            proof {
                assert(numbers_excluded(start as int, start as int, rank.variables@)
                    =~= Seq::<Seq<Literal>>::empty());
            }
            while number < end
                invariant
                    self.wf(),
                    *old(self) == (Problem { logic: old(self).logic, ..*self }),
                    g == self.goal,
                    k < goal_ranges@.len(),
                    rank == g.ranks@[k as int],
                    rank.wf(),
                    start == goal_ranges@[k as int].start,
                    end == goal_ranges@[k as int].end,
                    start == rank.states@.len(),
                    end == pow2(rank.variables@.len() as nat),
                    goal_ranges@[k as int].variables@ == rank.variables@,
                    start <= number <= end,
                    self.logic.formula.variables == old(self).logic.formula.variables,
                    self.logic.formula.views() == insert_all(
                        vs0,
                        base + numbers_excluded(start as int, number as int, rank.variables@),
                    ),
                    vs0 == old(self).logic.formula.views(),
                decreases end - number,
            {
                let binary = crate::binary::Binary::from_decimal(
                    number,
                    goal_ranges[k].variables.as_slice(),
                );
                proof {
                    assert(binary.bits@ =~= encode_lits(number as int, rank.variables@));
                }
                self.logic.contradiction(binary.bits.as_slice());
                proof {
                    reveal_with_fuel(insert_all, 3);
                    let ghost ne0 = numbers_excluded(start as int, number as int, rank.variables@);
                    let ghost part = seq![canon(neg_all(encode_lits(number as int, rank.variables@)))];
                    lemma_insert_all_append(vs0, base + ne0, part);
                    assert((base + ne0) + part =~= base + (ne0 + part));
                    lemma_insert_all_append(vs0, base, ne0);
                    assert(numbers_excluded(start as int, number as int + 1, rank.variables@) == ne0
                        + part);
                    lemma_insert_all_append(
                        vs0,
                        base,
                        numbers_excluded(start as int, number as int + 1, rank.variables@),
                    );
                }
                number += 1;
            }
            proof {
                assert(number == end);
                assert(goal_excluded(g, k as int + 1) == goal_excluded(g, k as int) + rank_excluded(
                    rank,
                ));
                assert((mx + goal_excluded(g, k as int)) + rank_excluded(rank) =~= mx + (
                goal_excluded(g, k as int) + rank_excluded(rank)));
                lemma_insert_all_append(
                    vs0,
                    mx,
                    goal_excluded(g, k as int) + rank_excluded(rank),
                );
                lemma_insert_all_append(vs0, mx, goal_excluded(g, k as int));
                lemma_insert_all_append(
                    vs0,
                    mx + goal_excluded(g, k as int),
                    rank_excluded(rank),
                );
                assert(rank_excluded(rank) == numbers_excluded(
                    start as int,
                    end as int,
                    rank.variables@,
                ));
            }
            k += 1;
        }
        proof {
            lemma_insert_all_append(vs0, mx, goal_excluded(g, g.ranks@.len() as int));
        }
    }


    /// Bounds the cumulative waste: aliases, per eligible time step, the
    /// dead state of the rank that a wasted symbol leaves active, and feeds
    /// those per-step event literals to the sequential-counter encoding.
    pub fn the_number_of_wasted_symbols_is_within_bounds(&mut self)
        requires
            old(self).wf(),
            old(self).bounds.inv(),
            old(self).bounds.waste_ok(),
            old(self).logic.formula.variables@.len() + (old(self).length_of_string - (old(self).n
                - 1)) + (old(self).length_of_string + 1) * (
            old(self).bounds.max_permutations@.len() + 1) <= usize::MAX,
        ensures
            final(self).wf(),
            final(self).same_shape(old(self)),
            exists|c: Counter|
                {
                    &&& #[trigger] counter_matches(c, old(self).bounds)
                    &&& counter_fresh(
                        c.registers@,
                        old(self).logic.formula.variables@.len() + (old(self).length_of_string - (
                        old(self).n - 1)),
                    )
                    &&& final(self).logic.formula.views() == insert_all(
                        insert_all(
                            old(self).logic.formula.views(),
                            wasted_emitted(
                                old(self).machine,
                                old(self).n as int,
                                old(self).logic.formula.variables@.len() as int,
                                old(self).length_of_string - (old(self).n - 1),
                            ),
                        ),
                        within_emitted(
                            c,
                            wasted_literals(
                                old(self).logic.formula.variables@.len() as int,
                                old(self).length_of_string - (old(self).n - 1),
                            ),
                        ),
                    )
                },
    {
        proof {
            assert((self.length_of_string + 1) * (self.bounds.max_permutations@.len() + 1)
                >= self.length_of_string + 1) by (nonlinear_arith)
                requires
                    self.length_of_string >= 0,
                    self.bounds.max_permutations@.len() >= 0,
            ;
        }
        let wasted_symbols = self.literals_for_wasted_symbols();
        self.logic.within(&self.bounds, wasted_symbols.as_slice());
    }

    /// One alias literal per time step from the first position that can
    /// waste a symbol: a fresh name for "the next-to-last rank is dead
    /// here", in time order.
    pub fn literals_for_wasted_symbols(&mut self) -> (r: Vec<Literal>)
        requires
            old(self).wf(),
            old(self).logic.formula.variables@.len() + old(self).length_of_string <= usize::MAX,
        ensures
            final(self).wf(),
            final(self).same_shape(old(self)),
            r@ == wasted_literals(
                old(self).logic.formula.variables@.len() as int,
                old(self).length_of_string - (old(self).n - 1),
            ),
            final(self).logic.formula.variables@.len() == old(self).logic.formula.variables@.len()
                + (old(self).length_of_string - (old(self).n - 1)),
            final(self).logic.formula.views() == insert_all(
                old(self).logic.formula.views(),
                wasted_emitted(
                    old(self).machine,
                    old(self).n as int,
                    old(self).logic.formula.variables@.len() as int,
                    old(self).length_of_string - (old(self).n - 1),
                ),
            ),
    {
        let ghost vs0 = self.logic.formula.views();
        let ghost v0 = self.logic.formula.variables@.len() as int;
        let ghost m = self.machine;
        let ghost nn = self.n as int;
        let mut out: Vec<Literal> = Vec::new();
        let first = self.n - 1;
        let mut time: usize = first;
        while time < self.length_of_string
            invariant
                self.wf(),
                *old(self) == (Problem { logic: old(self).logic, ..*self }),
                m == self.machine,
                nn == self.n as int,
                first == self.n - 1,
                first <= time <= self.length_of_string,
                v0 + self.length_of_string <= usize::MAX,
                out@.len() == time - first,
                out@ == wasted_literals(v0, time - first),
                self.logic.formula.variables@.len() == v0 + (time - first),
                self.logic.formula.views() == insert_all(
                    vs0,
                    wasted_emitted(m, nn, v0, time - first),
                ),
                vs0 == old(self).logic.formula.views(),
                v0 == old(self).logic.formula.variables@.len(),
            decreases self.length_of_string - time,
        {
            let last_rank = self.n - 1;
            let name = Self::dead_state_name(last_rank);
            proof {
                assert(crate::state::is_dead_name(name@));
                assert(name_index(name@, self.n as nat) == 0);
                assert(self.machine.snapshots@[time as int].inv());
            }
            let snapshot = self.machine.at_time(time);
            let dead_state = snapshot.state(name.as_slice());
            let ghost bits = m.snapshots@[time as int].ranks@[nn - 1].states@[0].binary.bits@;
            let ghost k = time - first;
            let ghost we0 = wasted_emitted(m, nn, v0, k as int);

            let literal = self.logic.alias(dead_state.literals().as_slice());
            out.push(literal);
            proof {
                assert(literal == wasted_literal(v0, k as int));
                assert(out@ =~= wasted_literals(v0, k as int + 1));
                lemma_insert_all_append(
                    vs0,
                    we0,
                    implication_list(bits, seq![literal]),
                );
                lemma_insert_all_append(
                    vs0,
                    we0 + implication_list(bits, seq![literal]),
                    implication_list(seq![literal], bits),
                );
                assert((we0 + implication_list(bits, seq![literal])) + implication_list(
                    seq![literal],
                    bits,
                ) =~= we0 + alias_emitted(bits, wasted_literal(v0, k as int)));
                assert(wasted_emitted(m, nn, v0, k as int + 1) == we0 + alias_emitted(
                    bits,
                    wasted_literal(v0, k as int),
                ));
            }
            time += 1;
        }
        out
    }


    /// The tracker follows the automaton: whenever the machine is in a
    /// full-permutation state at a time, the goal's state for that
    /// permutation at that time holds too.  The added clauses are exactly
    /// the implications over every full permutation and every time past the
    /// first.
    pub fn each_permutation_appears_at_most_once(&mut self)
        requires
            old(self).wf(),
        ensures
            final(self).wf(),
            final(self).same_shape(old(self)),
            final(self).logic.formula.variables == old(self).logic.formula.variables,
            old(self).logic.formula.views().is_prefix_of(final(self).logic.formula.views()),
            forall|name: Seq<usize>, t: int|
                is_k_permutation(name, old(self).n as nat, old(self).n as nat) && 1 <= t < old(
                    self,
                ).length_of_string ==> views_include(
                    final(self).logic.formula.views(),
                    #[trigger] once_clauses(
                        old(self).machine,
                        old(self).goal,
                        old(self).n as nat,
                        name,
                        t,
                    ),
                ),
            forall|v: Seq<Literal>|
                final(self).logic.formula.views().contains(v) ==> old(
                    self,
                ).logic.formula.views().contains(v) || once_origin(
                    old(self).machine,
                    old(self).goal,
                    old(self).n as nat,
                    old(self).length_of_string as int,
                    v,
                ),
    {
        let ghost vs0 = self.logic.formula.views();
        let ghost m = self.machine;
        let ghost g = self.goal;
        let ghost nn = self.n as nat;
        let ghost length = self.length_of_string as int;

        let names = permutations_of_symbols(self.n, self.n);
        let mut pi: usize = 0;
        while pi < names.len()
            invariant
                self.wf(),
                *old(self) == (Problem { logic: old(self).logic, ..*self }),
                m == self.machine,
                g == self.goal,
                nn == self.n as nat,
                length == self.length_of_string as int,
                0 <= pi <= names@.len(),
                forall|i: int|
                    0 <= i < names@.len() ==> is_k_permutation((#[trigger] names@[i])@, nn, nn),
                self.logic.formula.variables == old(self).logic.formula.variables,
                vs0.is_prefix_of(self.logic.formula.views()),
                vs0 == old(self).logic.formula.views(),
                forall|j: int, t: int|
                    0 <= j < pi && 1 <= t < length ==> views_include(
                        self.logic.formula.views(),
                        #[trigger] once_clauses(m, g, nn, names@[j]@, t),
                    ),
                forall|v: Seq<Literal>|
                    self.logic.formula.views().contains(v) ==> vs0.contains(v) || once_origin(
                        m,
                        g,
                        nn,
                        length,
                        v,
                    ),
            decreases names@.len() - pi,
        {
            let ghost name = names@[pi as int]@;
            let mut time: usize = 1;
            let ghost vs_perm = self.logic.formula.views();
            while time < self.length_of_string
                invariant
                    self.wf(),
                    *old(self) == (Problem { logic: old(self).logic, ..*self }),
                    m == self.machine,
                    g == self.goal,
                    nn == self.n as nat,
                    length == self.length_of_string as int,
                    pi < names@.len(),
                    name == names@[pi as int]@,
                    is_k_permutation(name, nn, nn),
                    1 <= time <= self.length_of_string,
                    self.logic.formula.variables == old(self).logic.formula.variables,
                    vs_perm.is_prefix_of(self.logic.formula.views()),
                    vs0.is_prefix_of(vs_perm),
                    vs0 == old(self).logic.formula.views(),
                    forall|t: int|
                        1 <= t < time ==> views_include(
                            self.logic.formula.views(),
                            #[trigger] once_clauses(m, g, nn, name, t),
                        ),
                    forall|j: int, t: int|
                        0 <= j < pi && 1 <= t < length ==> views_include(
                            vs_perm,
                            #[trigger] once_clauses(m, g, nn, names@[j]@, t),
                        ),
                    forall|v: Seq<Literal>|
                        self.logic.formula.views().contains(v) ==> vs0.contains(v) || once_origin(
                            m,
                            g,
                            nn,
                            length,
                            v,
                        ),
                decreases self.length_of_string - time,
            {
                let name_slice = names[pi].as_slice();
                proof {
                    assert(is_prefix_name(name, nn));
                    assert(self.machine.snapshots@[time as int].inv());
                    crate::state::lemma_index_in_range(name, nn);
                    crate::arith::lemma_falling_times_factorial(nn, nn);
                    assert(crate::arith::falling(nn, nn) * 1 == crate::arith::falling(nn, nn))
                        by (nonlinear_arith);
                }
                let machine_state = self.machine.at_time(time).state(name_slice);
                let goal_state = self.goal.subgoal(name_slice).state_by_index(time);
                let ghost before = self.logic.formula.views();

                self.logic.implies(
                    machine_state.literals().as_slice(),
                    goal_state.literals().as_slice(),
                );
                proof {
                    let items = once_clauses(m, g, nn, name, time as int);
                    assert(self.logic.formula.views() == insert_all(before, items));
                    lemma_insert_all_prefix(before, items);
                    lemma_prefix_trans(vs_perm, before, self.logic.formula.views());
                    assert forall|i: int| 0 <= i < items.len() implies self.logic.formula.views()
                        .contains(#[trigger] items[i]) by {
                        lemma_insert_all_contains(before, items, i);
                    }
                    assert forall|t: int|
                        1 <= t < time + 1 implies views_include(
                        self.logic.formula.views(),
                        #[trigger] once_clauses(m, g, nn, name, t),
                    ) by {
                        if t < time {
                            lemma_include_monotone(
                                before,
                                self.logic.formula.views(),
                                once_clauses(m, g, nn, name, t),
                            );
                        }
                    }
                    assert forall|v: Seq<Literal>|
                        self.logic.formula.views().contains(v) implies vs0.contains(v)
                        || once_origin(m, g, nn, length, v) by {
                        lemma_insert_all_origin(before, items, v);
                        if items.contains(v) {
                            assert(once_clauses(m, g, nn, name, time as int).contains(v));
                        }
                    }
                }
                time += 1;
            }
            proof {
                assert forall|j: int, t: int|
                    0 <= j < pi + 1 && 1 <= t < length implies views_include(
                    self.logic.formula.views(),
                    #[trigger] once_clauses(m, g, nn, names@[j]@, t),
                ) by {
                    if j < pi {
                        lemma_include_monotone(
                            vs_perm,
                            self.logic.formula.views(),
                            once_clauses(m, g, nn, names@[j]@, t),
                        );
                    }
                }
                lemma_prefix_trans(vs0, vs_perm, self.logic.formula.views());
            }
            pi += 1;
        }
        proof {
            assert forall|name: Seq<usize>, t: int|
                is_k_permutation(name, nn, nn) && 1 <= t < length implies views_include(
                self.logic.formula.views(),
                #[trigger] once_clauses(m, g, nn, name, t),
            ) by {
                let i = choose|i: int| 0 <= i < names@.len() && (#[trigger] names@[i])@ == name;
                assert(views_include(
                    self.logic.formula.views(),
                    once_clauses(m, g, nn, names@[i]@, t),
                ));
            }
        }
    }


    /// The deterministic transition relation, in both directions: for every
    /// time past the first and every prefix of length two or more, the state
    /// named `(from, symbol)` holds exactly when `from` held at the previous
    /// time and `symbol` is active now.
    pub fn the_machine_changes_state_when_it_reads_input(&mut self)
        requires
            old(self).wf(),
        ensures
            final(self).wf(),
            final(self).same_shape(old(self)),
            final(self).logic.formula.variables == old(self).logic.formula.variables,
            old(self).logic.formula.views().is_prefix_of(final(self).logic.formula.views()),
            forall|name: Seq<usize>, t: int|
                2 <= name.len() <= old(self).n && is_k_permutation(
                    name,
                    name.len(),
                    old(self).n as nat,
                ) && 1 <= t < old(self).length_of_string ==> views_include(
                    final(self).logic.formula.views(),
                    #[trigger] transition_clauses(old(self).machine, old(self).n as nat, t, name),
                ),
            forall|v: Seq<Literal>|
                final(self).logic.formula.views().contains(v) ==> old(
                    self,
                ).logic.formula.views().contains(v) || transition_origin(
                    old(self).machine,
                    old(self).n as nat,
                    old(self).length_of_string as int,
                    v,
                ),
    {
        let ghost vs0 = self.logic.formula.views();
        let ghost m = self.machine;
        let ghost nn = self.n as nat;
        let ghost length = self.length_of_string as int;

        let mut time: usize = 1;
        while time < self.length_of_string
            invariant
                self.wf(),
                *old(self) == (Problem { logic: old(self).logic, ..*self }),
                m == self.machine,
                nn == self.n as nat,
                length == self.length_of_string as int,
                1 <= time <= self.length_of_string,
                self.logic.formula.variables == old(self).logic.formula.variables,
                vs0.is_prefix_of(self.logic.formula.views()),
                vs0 == old(self).logic.formula.views(),
                forall|name: Seq<usize>, t: int|
                    2 <= name.len() <= nn && is_k_permutation(name, name.len(), nn) && 1 <= t
                        < time ==> views_include(
                        self.logic.formula.views(),
                        #[trigger] transition_clauses(m, nn, t, name),
                    ),
                forall|v: Seq<Literal>|
                    self.logic.formula.views().contains(v) ==> vs0.contains(v)
                        || transition_origin(m, nn, length, v),
            decreases self.length_of_string - time,
        {
            let ghost vs_time = self.logic.formula.views();
            let mut rank: usize = 2;
            while rank <= self.n
                invariant
                    self.wf(),
                    *old(self) == (Problem { logic: old(self).logic, ..*self }),
                    m == self.machine,
                    nn == self.n as nat,
                    length == self.length_of_string as int,
                    1 <= time < self.length_of_string,
                    2 <= rank <= self.n + 1,
                    self.logic.formula.variables == old(self).logic.formula.variables,
                    vs_time.is_prefix_of(self.logic.formula.views()),
                    vs0.is_prefix_of(vs_time),
                    vs0 == old(self).logic.formula.views(),
                    forall|name: Seq<usize>, t: int|
                        2 <= name.len() <= nn && is_k_permutation(name, name.len(), nn) && 1 <= t
                            < time ==> views_include(
                            vs_time,
                            #[trigger] transition_clauses(m, nn, t, name),
                        ),
                    forall|name: Seq<usize>|
                        2 <= name.len() < rank && #[trigger] is_k_permutation(
                            name,
                            name.len(),
                            nn,
                        ) ==> views_include(
                            self.logic.formula.views(),
                            transition_clauses(m, nn, time as int, name),
                        ),
                    forall|v: Seq<Literal>|
                        self.logic.formula.views().contains(v) ==> vs0.contains(v)
                            || transition_origin(m, nn, length, v),
                decreases self.n + 1 - rank,
            {
                let ghost vs_rank = self.logic.formula.views();
                let names = permutations_of_symbols(self.n, rank);
                let mut pi: usize = 0;
                while pi < names.len()
                    invariant
                        self.wf(),
                        *old(self) == (Problem { logic: old(self).logic, ..*self }),
                        m == self.machine,
                        nn == self.n as nat,
                        length == self.length_of_string as int,
                        1 <= time < self.length_of_string,
                        2 <= rank <= self.n,
                        0 <= pi <= names@.len(),
                        forall|i: int|
                            0 <= i < names@.len() ==> is_k_permutation(
                                (#[trigger] names@[i])@,
                                rank as nat,
                                nn,
                            ),
                        self.logic.formula.variables == old(self).logic.formula.variables,
                        vs_rank.is_prefix_of(self.logic.formula.views()),
                        vs0.is_prefix_of(vs_rank),
                        vs0 == old(self).logic.formula.views(),
                        forall|j: int|
                            0 <= j < pi ==> views_include(
                                self.logic.formula.views(),
                                #[trigger] transition_clauses(m, nn, time as int, names@[j]@),
                            ),
                        forall|v: Seq<Literal>|
                            self.logic.formula.views().contains(v) ==> vs0.contains(v)
                                || transition_origin(m, nn, length, v),
                    decreases names@.len() - pi,
                {
                    let ghost name = names@[pi as int]@;
                    let to_name = names[pi].as_slice();
                    let last = rank - 1;
                    let mut from_name: Vec<usize> = Vec::new();
                    let mut q: usize = 0;
                    while q < last
                        invariant
                            0 <= q <= last,
                            last < to_name@.len(),
                            from_name@ == to_name@.take(q as int),
                        decreases last - q,
                    {
                        from_name.push(to_name[q]);
                        proof {
                            assert(from_name@ =~= to_name@.take(q as int + 1));
                        }
                        q += 1;
                    }
                    let mut symbol_name: Vec<usize> = Vec::new();
                    symbol_name.push(to_name[last]);
                    proof {
                        assert(name == to_name@);
                        assert(from_name@ == name.take(rank as int - 1));
                        assert(symbol_name@ =~= seq![name[rank as int - 1]]);
                        assert(is_prefix_name(name, nn));
                        assert(is_prefix_name(from_name@, nn)) by {
                            assert(forall|i: int|
                                0 <= i < rank - 1 ==> name.take(rank as int - 1)[i] == name[i]);
                        }
                        lemma_single_symbol_index(name[rank as int - 1] as usize, nn);
                        assert(self.machine.snapshots@[time as int].inv());
                        assert(self.machine.snapshots@[time as int - 1].inv());
                        crate::arith::lemma_falling_step(nn, 0);
                        reveal_with_fuel(crate::arith::falling, 2);
                    }
                    let previous_time = self.machine.at_time(time - 1);
                    let current_time = self.machine.at_time(time);
                    let travel_from = previous_time.state(from_name.as_slice());
                    let travel_to = current_time.state(to_name);
                    let on_symbol = current_time.state(symbol_name.as_slice());

                    let transition = Logic::and(
                        travel_from.literals().as_slice(),
                        on_symbol.literals().as_slice(),
                    );
                    let ghost before = self.logic.formula.views();
                    let ghost items = transition_clauses(m, nn, time as int, name);

                    self.logic.implies(travel_to.literals().as_slice(), transition.as_slice());
                    let ghost mid = self.logic.formula.views();
                    self.logic.implies(transition.as_slice(), travel_to.literals().as_slice());
                    proof {
                        let r = name.len() as int;
                        let from_bits = m.snapshots@[time - 1].ranks@[r - 2].states@[name_index(
                            name.take(r - 1),
                            nn,
                        )].binary.bits@;
                        let to_bits = m.snapshots@[time as int].ranks@[r - 1].states@[name_index(
                            name,
                            nn,
                        )].binary.bits@;
                        let sym_bits = m.snapshots@[time as int].ranks@[0].states@[name[r - 1]
                            - 1].binary.bits@;
                        assert(transition@ == from_bits + sym_bits);
                        assert(mid == insert_all(before, implication_list(
                            to_bits,
                            from_bits + sym_bits,
                        )));
                        assert(self.logic.formula.views() == insert_all(
                            mid,
                            implication_list(from_bits + sym_bits, to_bits),
                        ));
                        lemma_insert_all_append(
                            before,
                            implication_list(to_bits, from_bits + sym_bits),
                            implication_list(from_bits + sym_bits, to_bits),
                        );
                        assert(self.logic.formula.views() == insert_all(before, items));
                        lemma_insert_all_prefix(before, items);
                        lemma_prefix_trans(vs_rank, before, self.logic.formula.views());
                        assert forall|i: int|
                            0 <= i < items.len() implies self.logic.formula.views().contains(
                            #[trigger] items[i],
                        ) by {
                            lemma_insert_all_contains(before, items, i);
                        }
                        assert forall|j: int|
                            0 <= j < pi + 1 implies views_include(
                            self.logic.formula.views(),
                            #[trigger] transition_clauses(m, nn, time as int, names@[j]@),
                        ) by {
                            if j < pi {
                                lemma_include_monotone(
                                    before,
                                    self.logic.formula.views(),
                                    transition_clauses(m, nn, time as int, names@[j]@),
                                );
                            }
                        }
                        assert forall|v: Seq<Literal>|
                            self.logic.formula.views().contains(v) implies vs0.contains(v)
                            || transition_origin(m, nn, length, v) by {
                            lemma_insert_all_origin(before, items, v);
                            if items.contains(v) {
                                assert(transition_clauses(m, nn, time as int, name).contains(v));
                            }
                        }
                    }
                    pi += 1;
                }
                proof {
                    assert forall|name: Seq<usize>|
                        2 <= name.len() < rank + 1 && #[trigger] is_k_permutation(
                        name,
                        name.len(),
                        nn,
                    ) implies views_include(
                        self.logic.formula.views(),
                        transition_clauses(m, nn, time as int, name),
                    ) by {
                        if name.len() < rank {
                            lemma_include_monotone(
                                vs_rank,
                                self.logic.formula.views(),
                                transition_clauses(m, nn, time as int, name),
                            );
                        } else {
                            assert(is_k_permutation(name, rank as nat, nn));
                            let i = choose|i: int|
                                0 <= i < names@.len() && (#[trigger] names@[i])@ == name;
                            assert(views_include(
                                self.logic.formula.views(),
                                transition_clauses(m, nn, time as int, names@[i]@),
                            ));
                        }
                    }
                    lemma_prefix_trans(vs0, vs_rank, self.logic.formula.views());
                }
                rank += 1;
            }
            proof {
                assert forall|name: Seq<usize>, t: int|
                    2 <= name.len() <= nn && is_k_permutation(name, name.len(), nn) && 1 <= t
                        < time + 1 implies views_include(
                    self.logic.formula.views(),
                    #[trigger] transition_clauses(m, nn, t, name),
                ) by {
                    if t < time {
                        lemma_include_monotone(
                            vs_time,
                            self.logic.formula.views(),
                            transition_clauses(m, nn, t, name),
                        );
                    }
                }
                lemma_prefix_trans(vs0, vs_time, self.logic.formula.views());
            }
            time += 1;
        }
    }

    /// The all-zero name of the dead state in the rank holding prefixes of
    /// length `rank + 1`.  The first rank has no dead state.
    pub fn dead_state_name(rank: usize) -> (r: Vec<usize>)
        requires
            rank >= 1,
            rank < usize::MAX,
        ensures
            r@.len() == rank + 1,
            forall|i: int| 0 <= i < r@.len() ==> r@[i] == 0,
    {
        let mut name: Vec<usize> = Vec::new();
        let mut i: usize = 0;
        while i < rank + 1
            invariant
                i <= rank + 1,
                rank < usize::MAX,
                name@.len() == i,
                forall|k: int| 0 <= k < i ==> name@[k] == 0,
            decreases rank + 1 - i,
        {
            name.push(0);
            i += 1;
        }
        name
    }
}

} // verus!
