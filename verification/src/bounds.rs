use vstd::prelude::*;
use crate::arith::factorial;
use crate::utility::Utility;

verus! {

/// An inclusive range of admissible waste counts.
#[derive(Debug, Clone, Copy, PartialEq, Eq, Structural)]
pub struct Span {
    pub start: usize,
    pub end: usize,
}

impl Span {
    pub fn new(start: usize, end: usize) -> (r: Self)
        ensures
            r == (Span { start, end }),
    {
        Self { start, end }
    }
}

/// The position of the first entry of `maxp` that reaches `permutations`, or
/// the length of `maxp` when none does.
pub open spec fn min_wasted_from(maxp: Seq<usize>, permutations: int, i: int) -> int
    decreases maxp.len() - i,
{
    if i < 0 || i >= maxp.len() {
        maxp.len() as int
    } else if maxp[i] >= permutations {
        i
    } else {
        min_wasted_from(maxp, permutations, i + 1)
    }
}

/// The feasibility-window computation: given the best proven-achievable
/// permutation counts per waste budget, it bounds how many symbols may have
/// been wasted by each string position.
pub struct Bounds {
    pub n: usize,
    pub length_of_string: usize,
    pub max_permutations: Vec<usize>,
}

impl Bounds {
    /// The basic shape the window computation relies on: a workable alphabet
    /// size, proven counts that never exceed the number of permutations, and
    /// a string long enough for the final goal to be defined.
    pub open spec fn inv(&self) -> bool {
        &&& 2 <= self.n <= 12
        &&& forall|i: int|
            0 <= i < self.max_permutations@.len() ==> (#[trigger] self.max_permutations@[i])
                <= factorial(self.n as nat)
        &&& self.length_of_string >= self.n + self.max_permutations@.len() - 1
        &&& self.length_of_string >= self.n
    }

    pub open spec fn spec_goal_index(&self) -> int {
        self.length_of_string - 1
    }

    pub open spec fn spec_goal_wasted(&self) -> int {
        self.max_permutations@.len() as int
    }

    /// How many permutations are complete by `index` when `w` symbols have
    /// been wasted; negative means that position cannot have been reached.
    pub open spec fn spec_current(&self, index: int, w: int) -> int {
        index - (self.n - 1) - w + 1
    }

    pub open spec fn spec_goal_permutations(&self) -> int {
        self.spec_current(self.spec_goal_index(), self.spec_goal_wasted())
    }

    pub open spec fn spec_min_wasted(&self, permutations: int) -> int {
        min_wasted_from(self.max_permutations@, permutations, 0)
    }

    /// The most permutations plausibly already banked when the w-th waste
    /// was spent.
    pub open spec fn spec_checkpoint(&self, w: int, current: int) -> int {
        if w == 0 {
            0
        } else if self.max_permutations@[w - 1] <= current {
            self.max_permutations@[w - 1] as int
        } else {
            current
        }
    }

    /// How many permutations the surplus waste could still add past
    /// `current`.
    pub open spec fn spec_added(&self, surplus: int, current: int) -> int {
        let remainder = factorial(self.n as nat) - current;
        if surplus >= self.max_permutations@.len() {
            remainder
        } else if self.max_permutations@[surplus] <= remainder {
            self.max_permutations@[surplus] as int
        } else {
            remainder
        }
    }

    /// Whether a waste count `w` at string position `index` is consistent
    /// with still reaching the goal.
    pub open spec fn admissible(&self, index: int, w: int) -> bool {
        let current = self.spec_current(index, w);
        &&& 0 <= w <= self.spec_goal_wasted()
        &&& current >= 0
        &&& w >= self.spec_min_wasted(current)
        &&& self.spec_checkpoint(w, current) + self.spec_added(
            self.spec_goal_wasted() - w,
            self.spec_checkpoint(w, current),
        ) >= self.spec_goal_permutations()
    }

    /// What `allowed_waste` returns: the admissible counts at `index` lie
    /// between the span's bounds, which are themselves admissible.
    pub open spec fn span_ok(&self, index: int, s: Span) -> bool {
        &&& self.admissible(index, s.start as int)
        &&& self.admissible(index, s.end as int)
        &&& forall|w: int| self.admissible(index, w) ==> s.start <= w <= s.end
    }

    /// Whether some waste count is admissible at `index`.
    pub open spec fn has_admissible(&self, index: int) -> bool {
        exists|w: int| self.admissible(index, w)
    }

    /// Every string position from the first possible waste onward admits at
    /// least one waste count.
    pub open spec fn waste_ok(&self) -> bool {
        forall|idx: int|
            self.n - 1 <= idx < self.length_of_string ==> #[trigger] self.has_admissible(idx)
    }

    pub fn new(n: usize, length_of_string: usize, max_permutations: &[usize]) -> (r: Self)
        ensures
            r.n == n,
            r.length_of_string == length_of_string,
            r.max_permutations@ == max_permutations@,
    {
        let max_permutations = slice_to_vec(max_permutations);

        Self { n, length_of_string, max_permutations }
    }

    /// The inclusive range from the smallest to the largest admissible waste
    /// count at `index`.  The admissible set is in fact contiguous; this
    /// range form relies only on its minimum and maximum.
    pub fn allowed_waste(&self, index: usize) -> (r: Span)
        requires
            self.inv(),
            self.has_admissible(index as int),
        ensures
            self.span_ok(index as int, r),
    {
        let mut lo: usize = 0;
        let mut hi: usize = 0;
        let mut found = false;

        let goal_wasted = self.goal_wasted_symbols();
        let goal_perms = self.goal_permutations();
        let mut w: usize = 0;
        while w <= goal_wasted
            invariant
                self.inv(),
                0 <= w <= goal_wasted + 1,
                goal_wasted == self.spec_goal_wasted(),
                goal_perms == self.spec_goal_permutations(),
                !found ==> forall|x: int| 0 <= x < w ==> !self.admissible(index as int, x),
                found ==> self.admissible(index as int, lo as int),
                found ==> self.admissible(index as int, hi as int),
                found ==> lo <= hi < w,
                found ==> forall|x: int|
                    0 <= x < w && self.admissible(index as int, x) ==> lo <= x <= hi,
            decreases goal_wasted + 1 - w,
        {
            let current = match self.number_of_permutations(index, w) {
                Some(p) => p,
                None => {
                    w += 1;
                    continue ;
                },
            };

            if w >= self.minimum_wasted_symbols(current) {
                let checkpoint = self.max_perms_at_last_waste(w, current);
                let surplus = goal_wasted - w;
                proof {
                    assert(checkpoint <= factorial(self.n as nat));
                    crate::arith::lemma_factorial_12();
                    crate::arith::lemma_factorial_mono(self.n as nat, 12);
                }
                let additional = self.max_perms_added(surplus, checkpoint);
                proof {
                    assert(additional <= factorial(self.n as nat) - checkpoint);
                }
                let furthest = checkpoint + additional;

                if furthest >= goal_perms {
                    proof {
                        assert(self.admissible(index as int, w as int));
                    }
                    if !found {
                        lo = w;
                        found = true;
                    }
                    hi = w;
                }
            }
            w += 1;
        }
        proof {
            let wit = choose|x: int| self.admissible(index as int, x);
            assert(0 <= wit <= goal_wasted);
            assert(found);
        }
        Span { start: lo, end: hi }
    }

    /// Whether any waste count is admissible at `index`: the executable
    /// form of `has_admissible`, for callers that must test feasibility
    /// before building constraints.
    pub fn has_admissible_waste(&self, index: usize) -> (r: bool)
        requires
            self.inv(),
        ensures
            r == self.has_admissible(index as int),
    {
        let goal_wasted = self.goal_wasted_symbols();
        let goal_perms = self.goal_permutations();
        let mut w: usize = 0;
        while w <= goal_wasted
            invariant
                self.inv(),
                0 <= w <= goal_wasted + 1,
                goal_wasted == self.spec_goal_wasted(),
                goal_perms == self.spec_goal_permutations(),
                forall|x: int| 0 <= x < w ==> !self.admissible(index as int, x),
            decreases goal_wasted + 1 - w,
        {
            let current = match self.number_of_permutations(index, w) {
                Some(p) => p,
                None => {
                    w += 1;
                    continue ;
                },
            };

            if w >= self.minimum_wasted_symbols(current) {
                let checkpoint = self.max_perms_at_last_waste(w, current);
                let surplus = goal_wasted - w;
                proof {
                    assert(checkpoint <= factorial(self.n as nat));
                    crate::arith::lemma_factorial_12();
                    crate::arith::lemma_factorial_mono(self.n as nat, 12);
                }
                let additional = self.max_perms_added(surplus, checkpoint);
                proof {
                    assert(additional <= factorial(self.n as nat) - checkpoint);
                }
                let furthest = checkpoint + additional;

                if furthest >= goal_perms {
                    proof {
                        assert(self.admissible(index as int, w as int));
                    }
                    return true;
                }
            }
            w += 1;
        }
        proof {
            if self.has_admissible(index as int) {
                let wit = choose|x: int| self.admissible(index as int, x);
                assert(0 <= wit <= goal_wasted);
            }
        }
        false
    }

    /// Whether every position from the first possible waste onward admits
    /// some waste count: the executable form of `waste_ok`.  A caller that
    /// cannot establish feasibility by other means checks it here and fails
    /// loudly rather than encode with an empty window.
    pub fn waste_windows_feasible(&self) -> (r: bool)
        requires
            self.inv(),
        ensures
            r == self.waste_ok(),
    {
        let mut idx: usize = self.n - 1;
        while idx < self.length_of_string
            invariant
                self.inv(),
                self.n - 1 <= idx <= self.length_of_string,
                forall|p: int| self.n - 1 <= p < idx ==> #[trigger] self.has_admissible(p),
            decreases self.length_of_string - idx,
        {
            if !self.has_admissible_waste(idx) {
                return false;
            }
            idx += 1;
        }
        true
    }

    /// One admissible-waste span per string position that can waste a
    /// symbol, in time order.
    pub fn wasted_symbol_ranges(&self) -> (r: Vec<Span>)
        requires
            self.inv(),
            self.waste_ok(),
        ensures
            r@.len() == self.length_of_string - (self.n - 1),
            forall|k: int|
                0 <= k < r@.len() ==> self.span_ok(self.n - 1 + k, #[trigger] r@[k]),
    {
        let mut out: Vec<Span> = Vec::new();
        let first = self.n - 1;
        let mut time: usize = first;
        while time < self.length_of_string
            invariant
                self.inv(),
                self.waste_ok(),
                first == self.n - 1,
                first <= time <= self.length_of_string,
                out@.len() == time - first,
                forall|k: int|
                    0 <= k < out@.len() ==> self.span_ok(self.n - 1 + k, #[trigger] out@[k]),
            decreases self.length_of_string - time,
        {
            let span = self.allowed_waste(time);
            out.push(span);
            time += 1;
        }
        out
    }

    /// The most permutations that can have been banked when the last of
    /// `wasted_symbols` wastes was spent.
    pub fn max_perms_at_last_waste(&self, wasted_symbols: usize, current_permutations: usize) -> (r:
        usize)
        requires
            wasted_symbols == 0 || wasted_symbols - 1 < self.max_permutations@.len(),
        ensures
            r == self.spec_checkpoint(wasted_symbols as int, current_permutations as int),
    {
        if wasted_symbols == 0 {
            return 0;
        }

        let last_waste = wasted_symbols - 1;
        let max_permutations = self.max_permutations[last_waste];

        if max_permutations <= current_permutations {
            max_permutations
        } else {
            current_permutations
        }
    }

    /// The most permutations the given surplus of wastes could still add.
    pub fn max_perms_added(&self, wasted_symbols: usize, current_permutations: usize) -> (r: usize)
        requires
            self.n <= 12,
            current_permutations <= factorial(self.n as nat),
        ensures
            r == self.spec_added(wasted_symbols as int, current_permutations as int),
    {
        let all_permutations = Utility::factorial(self.n);
        let remainder = all_permutations - current_permutations;

        if wasted_symbols >= self.max_permutations.len() {
            return remainder;
        }

        let max_permutations = self.max_permutations[wasted_symbols];

        if max_permutations <= remainder {
            max_permutations
        } else {
            remainder
        }
    }

    /// The string position at which the goal must hold.
    pub fn goal_index(&self) -> (r: usize)
        requires
            self.length_of_string >= 1,
        ensures
            r == self.spec_goal_index(),
    {
        self.length_of_string - 1
    }

    /// The waste budget of the goal: one more than the largest budget with a
    /// proven count.
    pub fn goal_wasted_symbols(&self) -> (r: usize)
        ensures
            r == self.spec_goal_wasted(),
    {
        self.max_permutations.len()
    }

    /// The permutation count the goal asks for.
    pub fn goal_permutations(&self) -> (r: usize)
        requires
            self.n >= 2,
            self.length_of_string >= self.n + self.max_permutations@.len() - 1,
            self.length_of_string >= 1,
        ensures
            r == self.spec_goal_permutations(),
    {
        let r = self.number_of_permutations(self.goal_index(), self.goal_wasted_symbols());
        match r {
            Some(p) => p,
            None => {
                proof {
                    assert(false);
                }
                0
            },
        }
    }

    /// The count of "organic" permutation completions possible by `index`
    /// given `wasted_symbols` wasted positions, or none when the position
    /// cannot have been reached yet.
    pub fn number_of_permutations(&self, index: usize, wasted_symbols: usize) -> (r: Option<usize>)
        requires
            self.n >= 1,
            self.n + wasted_symbols >= 2,
            self.n - 1 + wasted_symbols <= usize::MAX,
        ensures
            self.spec_current(index as int, wasted_symbols as int) >= 0 ==> r == Some(
                (self.spec_current(index as int, wasted_symbols as int)) as usize,
            ),
            self.spec_current(index as int, wasted_symbols as int) < 0 ==> r is None,
    {
        let leading_symbols = self.n - 1;
        let total_waste = leading_symbols + wasted_symbols;

        index.checked_sub(total_waste - 1)
    }

    /// The least waste budget whose proven ceiling could have produced the
    /// given permutation count.
    pub fn minimum_wasted_symbols(&self, permutations: usize) -> (r: usize)
        ensures
            r == self.spec_min_wasted(permutations as int),
    {
        let len = self.max_permutations.len();
        let mut i: usize = 0;
        while i < len
            invariant
                len == self.max_permutations@.len(),
                0 <= i <= len,
                min_wasted_from(self.max_permutations@, permutations as int, 0)
                    == min_wasted_from(self.max_permutations@, permutations as int, i as int),
            decreases len - i,
        {
            if self.max_permutations[i] >= permutations {
                return i;
            }
            i += 1;
        }
        len
    }
}

/// An element-wise copy of a slice of counts.
fn slice_to_vec(s: &[usize]) -> (r: Vec<usize>)
    ensures
        r@ == s@,
{
    let mut out: Vec<usize> = Vec::new();
    let mut i: usize = 0;
    while i < s.len()
        invariant
            i <= s@.len(),
            out@ == s@.take(i as int),
        decreases s@.len() - i,
    {
        out.push(s[i]);
        proof {
            assert(out@ =~= s@.take(i as int + 1));
        }
        i += 1;
    }
    proof {
        assert(s@.take(s@.len() as int) =~= s@);
    }
    out
}

} // verus!
