use vstd::prelude::*;
use vstd::arithmetic::power2::pow2;
use crate::formula::Formula;
use crate::rank::{blocks_fresh, blocks_width, InvalidRange};
use crate::snapshot::Snapshot;

verus! {

/// The total width of one snapshot's variable blocks.
pub open spec fn snapshot_width(s: Snapshot) -> int {
    blocks_width(s.ranks@, s.ranks@.len() as int)
}

/// The total width of the first `s` snapshots' blocks.
pub open spec fn machine_base(snapshots: Seq<Snapshot>, s: int) -> int
    decreases s,
{
    if s <= 0 {
        0
    } else {
        machine_base(snapshots, s - 1) + snapshot_width(snapshots[s - 1])
    }
}

/// Widths only look at the snapshots before `s`.
pub proof fn lemma_machine_base_push(snapshots: Seq<Snapshot>, x: Snapshot, s: int)
    requires
        0 <= s <= snapshots.len(),
    ensures
        machine_base(snapshots.push(x), s) == machine_base(snapshots, s),
    decreases s,
{
    if s > 0 {
        lemma_machine_base_push(snapshots, x, s - 1);
    }
}

/// The automaton over the whole string: one snapshot per string position.
#[derive(Debug, PartialEq, Eq)]
pub struct Machine {
    pub snapshots: Vec<Snapshot>,
}

impl Machine {
    /// Every snapshot is well formed and has one rank per alphabet symbol.
    pub open spec fn inv(&self, n: nat) -> bool {
        forall|s: int|
            0 <= s < self.snapshots@.len() ==> (#[trigger] self.snapshots@[s]).inv()
                && self.snapshots@[s].n() == n
    }

    /// Builds one snapshot per string position, allocating all their
    /// variables from the formula.
    pub fn new(n: usize, length_of_string: usize, formula: &mut Formula) -> (r: Self)
        requires
            old(formula).wf(),
            1 <= n <= 12,
            old(formula).variables@.len() + 32 * n * length_of_string <= usize::MAX,
        ensures
            r.inv(n as nat),
            r.snapshots@.len() == length_of_string,
            final(formula).wf(),
            final(formula).clauses == old(formula).clauses,
            final(formula).variables@.len() <= old(formula).variables@.len() + 32 * n
                * length_of_string,
            final(formula).variables@.len() == old(formula).variables@.len() + machine_base(
                r.snapshots@,
                r.snapshots@.len() as int,
            ),
            forall|s: int|
                0 <= s < r.snapshots@.len() ==> blocks_fresh(
                    (#[trigger] r.snapshots@[s]).ranks@,
                    old(formula).variables@.len() + machine_base(r.snapshots@, s),
                ),
    {
        let mut snapshots: Vec<Snapshot> = Vec::new();
        let mut t: usize = 0;
        while t < length_of_string
            invariant
                formula.wf(),
                formula.clauses == old(formula).clauses,
                1 <= n <= 12,
                0 <= t <= length_of_string,
                snapshots@.len() == t,
                old(formula).variables@.len() + 32 * n * length_of_string <= usize::MAX,
                formula.variables@.len() <= old(formula).variables@.len() + 32 * n * t,
                formula.variables@.len() == old(formula).variables@.len() + machine_base(
                    snapshots@,
                    snapshots@.len() as int,
                ),
                forall|s: int|
                    0 <= s < t ==> blocks_fresh(
                        (#[trigger] snapshots@[s]).ranks@,
                        old(formula).variables@.len() + machine_base(snapshots@, s),
                    ),
                forall|s: int|
                    0 <= s < t ==> (#[trigger] snapshots@[s]).inv() && snapshots@[s].n() == n,
            decreases length_of_string - t,
        {
            proof {
                assert(32 * n * t + 32 * n <= 32 * n * length_of_string && 32 * n * (t + 1) == 32
                    * n * t + 32 * n) by (nonlinear_arith)
                    requires
                        t < length_of_string,
                        n >= 1,
                ;
            }
            let ghost ss0 = snapshots@;
            let ghost v0 = old(formula).variables@.len() as int;
            let snapshot = Snapshot::new(n, formula);
            snapshots.push(snapshot);
            proof {
                assert forall|p: int| 0 <= p <= ss0.len() implies machine_base(snapshots@, p)
                    == machine_base(ss0, p) by {
                    lemma_machine_base_push(ss0, snapshot, p);
                }
                assert(machine_base(snapshots@, snapshots@.len() as int) == machine_base(
                    ss0,
                    ss0.len() as int,
                ) + snapshot_width(snapshot));
                assert forall|p: int| 0 <= p < snapshots@.len() implies blocks_fresh(
                    (#[trigger] snapshots@[p]).ranks@,
                    v0 + machine_base(snapshots@, p),
                ) by {
                    if p < ss0.len() {
                        assert(snapshots@[p] == ss0[p]);
                    } else {
                        assert(snapshots@[p] == snapshot);
                    }
                }
            }
            t += 1;
        }
        Self { snapshots }
    }

    /// The snapshot for one string position.
    pub fn at_time(&self, point_in_time: usize) -> (r: &Snapshot)
        requires
            point_in_time < self.snapshots@.len(),
        ensures
            r == &self.snapshots@[point_in_time as int],
    {
        &self.snapshots[point_in_time]
    }

    /// The rank count shared by every snapshot: the alphabet size, or 0 for
    /// an empty machine.
    pub open spec fn spec_n(&self) -> nat {
        if self.snapshots@.len() == 0 {
            0
        } else {
            self.snapshots@[0].n()
        }
    }

    /// Every rank's invalid index range, across all snapshots in time order.
    pub fn invalid_ranges(&self) -> (r: Vec<InvalidRange>)
        requires
            self.inv(self.spec_n()),
        ensures
            r@.len() == self.snapshots@.len() * self.spec_n(),
            forall|s: int, k: int|
                0 <= s < self.snapshots@.len() && 0 <= k < self.spec_n() ==> {
                    &&& (#[trigger] r@[s * self.spec_n() + k]).start
                        == self.snapshots@[s].ranks@[k].states@.len()
                    &&& r@[s * self.spec_n() + k].end == pow2(
                        self.snapshots@[s].ranks@[k].variables@.len() as nat,
                    )
                    &&& r@[s * self.spec_n() + k].variables@
                        == self.snapshots@[s].ranks@[k].variables@
                },
    {
        if self.snapshots.len() == 0 {
            let out: Vec<InvalidRange> = Vec::new();
            return out;
        }
        let n = self.snapshots[0].ranks.len();
        proof {
            assert(n == self.spec_n());
        }
        let mut out: Vec<InvalidRange> = Vec::new();
        let mut s: usize = 0;
        while s < self.snapshots.len()
            invariant
                self.inv(n as nat),
                n == self.spec_n(),
                self.snapshots@.len() > 0,
                0 <= s <= self.snapshots@.len(),
                out@.len() == s * n,
                forall|p: int, k: int|
                    0 <= p < s && 0 <= k < n ==> {
                        &&& (#[trigger] out@[p * n + k]).start
                            == self.snapshots@[p].ranks@[k].states@.len()
                        &&& out@[p * n + k].end == pow2(
                            self.snapshots@[p].ranks@[k].variables@.len() as nat,
                        )
                        &&& out@[p * n + k].variables@ == self.snapshots@[p].ranks@[k].variables@
                    },
            decreases self.snapshots@.len() - s,
        {
            let part = self.snapshots[s].invalid_ranges();
            let ghost before = out@;
            let mut k: usize = 0;
            proof {
                assert(s * n + n == (s + 1) * n) by (nonlinear_arith);
            }
            while k < part.len()
                invariant
                    0 <= k <= part@.len(),
                    out@.len() == before.len() + k,
                    forall|j: int|
                        0 <= j < k ==> {
                            &&& (#[trigger] out@[before.len() + j]).start == part@[j].start
                            &&& out@[before.len() + j].end == part@[j].end
                            &&& out@[before.len() + j].variables@ == part@[j].variables@
                        },
                    forall|j: int| 0 <= j < before.len() ==> out@[j] == before[j],
                decreases part@.len() - k,
            {
                let item = InvalidRange {
                    start: part[k].start,
                    end: part[k].end,
                    variables: crate::rank::copy_variables(&part[k].variables),
                };
                out.push(item);
                k += 1;
            }
            proof {
                assert(out@.len() == s * n + n);
                assert forall|p: int, k2: int| 0 <= p < s + 1 && 0 <= k2 < n implies {
                    &&& (#[trigger] out@[p * n + k2]).start
                        == self.snapshots@[p].ranks@[k2].states@.len()
                    &&& out@[p * n + k2].end == pow2(
                        self.snapshots@[p].ranks@[k2].variables@.len() as nat,
                    )
                    &&& out@[p * n + k2].variables@ == self.snapshots@[p].ranks@[k2].variables@
                } by {
                    if p < s {
                        assert(0 <= p * n + k2 < s * n) by (nonlinear_arith)
                            requires
                                0 <= p < s,
                                0 <= k2 < n,
                        ;
                        assert(out@[p * n + k2] == before[p * n + k2]);
                    } else {
                        assert(p * n + k2 == before.len() + k2);
                    }
                }
            }
            s += 1;
        }
        proof {
            assert(out@.len() == self.snapshots@.len() * n);
        }
        out
    }

    /// The state counts of every rank, across all snapshots in time order.
    pub fn max_states(&self) -> (r: Vec<usize>)
        ensures
            r@.len() == flat_counts(self.snapshots@).len(),
            r@ == flat_counts(self.snapshots@),
    {
        let mut out: Vec<usize> = Vec::new();
        let mut s: usize = 0;
        while s < self.snapshots.len()
            invariant
                0 <= s <= self.snapshots@.len(),
                out@ == flat_counts(self.snapshots@.take(s as int)),
            decreases self.snapshots@.len() - s,
        {
            let mut part = self.snapshots[s].max_states();
            let ghost before = out@;
            let mut k: usize = 0;
            while k < part.len()
                invariant
                    0 <= k <= part@.len(),
                    out@ == before + part@.take(k as int),
                decreases part@.len() - k,
            {
                out.push(part[k]);
                proof {
                    assert(out@ =~= before + part@.take(k as int + 1));
                }
                k += 1;
            }
            proof {
                assert(part@.take(part@.len() as int) =~= part@);
                assert(part@ =~= snapshot_counts(self.snapshots@[s as int]));
                lemma_flat_counts_step(self.snapshots@, s as int);
                assert(self.snapshots@.take(s as int + 1).drop_last() =~= self.snapshots@.take(
                    s as int,
                ));
            }
            s += 1;
        }
        proof {
            assert(self.snapshots@.take(self.snapshots@.len() as int) =~= self.snapshots@);
        }
        out
    }
}

/// The per-rank state counts of one snapshot.
pub open spec fn snapshot_counts(s: Snapshot) -> Seq<usize> {
    Seq::new(s.ranks@.len(), |i: int| s.ranks@[i].states@.len() as usize)
}

/// The concatenation of every snapshot's per-rank state counts.
pub open spec fn flat_counts(snapshots: Seq<Snapshot>) -> Seq<usize>
    decreases snapshots.len(),
{
    if snapshots.len() == 0 {
        Seq::<usize>::empty()
    } else {
        flat_counts(snapshots.drop_last()) + snapshot_counts(snapshots.last())
    }
}

proof fn lemma_flat_counts_step(snapshots: Seq<Snapshot>, s: int)
    requires
        0 <= s < snapshots.len(),
    ensures
        flat_counts(snapshots.take(s + 1)) == flat_counts(snapshots.take(s + 1).drop_last())
            + snapshot_counts(snapshots[s]),
{
    assert(snapshots.take(s + 1).last() == snapshots[s]);
}


} // verus!
