use vstd::prelude::*;
use vstd::arithmetic::div_mod::lemma_div_multiples_vanish;
use vstd::set_lib::{lemma_int_range, lemma_len_subset};
use crate::arith::{factorial, falling, lemma_factorial_pos, lemma_falling_le_factorial, lemma_falling_times_factorial};
use crate::binary::{encodes, Binary};
use crate::literal::Literal;
use crate::utility::Utility;
use crate::variable::Variable;
use vstd::arithmetic::power2::pow2;

verus! {

/// A dead name is all zeros: the sentinel for "no permutation prefix is
/// active".
pub open spec fn is_dead_name(name: Seq<usize>) -> bool {
    forall|i: int| 0 <= i < name.len() ==> name[i] == 0
}

/// A real state name: a nonempty sequence of distinct symbols from `1..=n`,
/// no longer than `n`.
pub open spec fn is_prefix_name(name: Seq<usize>, n: nat) -> bool {
    &&& 1 <= name.len() <= n
    &&& forall|i: int| 0 <= i < name.len() ==> 1 <= #[trigger] name[i] <= n
    &&& forall|i: int, j: int| 0 <= i < j < name.len() ==> name[i] != name[j]
}

pub open spec fn valid_name(name: Seq<usize>, n: nat) -> bool {
    is_dead_name(name) || is_prefix_name(name, n)
}

/// How many of the first `j` symbols lie in the half-open value range
/// `[lo, hi)`.
pub open spec fn count_in_range(name: Seq<usize>, j: int, lo: int, hi: int) -> nat
    decreases j,
{
    if j <= 0 {
        0
    } else {
        count_in_range(name, j - 1, lo, hi) + (if lo <= name[j - 1] < hi {
            1nat
        } else {
            0nat
        })
    }
}

/// How many symbols before position `i` are smaller than the symbol at `i`.
pub open spec fn count_smaller(name: Seq<usize>, i: int) -> nat {
    count_in_range(name, i, 1, name[i] as int)
}

/// The mixed-radix digit at position `i`: the symbol reduced by the count of
/// smaller symbols already placed, shifted to start at zero.
pub open spec fn digit(name: Seq<usize>, i: int) -> int {
    name[i] - count_smaller(name, i) - 1
}

/// The weight of digit `i`: the number of ways to fill the remaining
/// positions, a falling factorial.
pub open spec fn radix(n: nat, len: nat, i: int) -> nat {
    falling((n - 1 - i) as nat, (len - 1 - i) as nat)
}

/// How many digits the ranking consumes: at most the first `n - 1` positions
/// are relevant, since the last symbol of a full permutation is forced.
pub open spec fn digits_used(name: Seq<usize>, n: nat) -> int {
    if name.len() <= n - 1 {
        name.len() as int
    } else {
        n - 1
    }
}

/// The weighted digit sum over positions `[i, j)`.
pub open spec fn sum_digits(name: Seq<usize>, n: nat, i: int, j: int) -> int
    decreases j - i,
{
    if j <= i {
        0
    } else {
        sum_digits(name, n, i, j - 1) + digit(name, j - 1) * radix(n, name.len(), j - 1)
    }
}

/// Index 0 is reserved for the dead state in every rank except the first.
pub open spec fn dead_offset(name: Seq<usize>) -> int {
    if name.len() == 1 {
        0
    } else {
        1
    }
}

/// The index of a named state: 0 for a dead name, otherwise the mixed-radix
/// rank of the prefix among all prefixes of its length, shifted past the dead
/// slot where one exists.
pub open spec fn name_index(name: Seq<usize>, n: nat) -> int {
    if is_dead_name(name) {
        0
    } else {
        sum_digits(name, n, 0, digits_used(name, n)) + dead_offset(name)
    }
}

/// A state of the automaton: a binary encoding of its index over its rank's
/// shared variables.
#[derive(Debug, PartialEq, Eq)]
pub struct State {
    pub binary: Binary,
}

impl State {
    pub fn new(index: usize, variables: &[Variable]) -> (r: Self)
        requires
            variables@.len() < 32,
            (index as nat) < pow2(variables@.len() as nat),
        ensures
            encodes(r.binary.bits@, index as nat, variables@),
    {
        Self { binary: Binary::from_decimal(index, variables) }
    }

    pub fn literals(&self) -> (r: &Vec<Literal>)
        ensures
            r == &self.binary.bits,
    {
        &self.binary.bits
    }

    /// Ranks a state name: the dead name maps to 0; a prefix of length `r`
    /// maps to its lexicographic rank among the r-permutations of `{1..n}`,
    /// plus one when rank `r` reserves index 0 for the dead state.
    pub fn index(name: &[usize], n: usize) -> (r: usize)
        requires
            1 <= n <= 12,
            valid_name(name@, n as nat),
        ensures
            r == name_index(name@, n as nat),
    {
        if Self::is_dead_state(name) {
            return 0;
        }
        let ghost nm = name@;
        let ghost nn = n as nat;
        let len = name.len();
        proof {
            assert(is_prefix_name(nm, nn)) by {
                if is_dead_name(nm) {
                    assert(nm[0] == 0);
                }
            }
        }
        let l: usize = if len <= n - 1 {
            len
        } else {
            n - 1
        };
        let divisor = Utility::factorial(n - len);
        let mut sum: usize = 0;
        let mut i: usize = 0;
        proof {
            lemma_sum_bound(nm, nn, 0);
            lemma_falling_le_factorial(nn, len as nat);
            crate::arith::lemma_factorial_mono(nn, 12);
            crate::arith::lemma_factorial_12();
            lemma_factorial_pos((nn - len) as nat);
        }
        while i < l
            invariant
                1 <= n <= 12,
                nn == n as nat,
                is_prefix_name(nm, nn),
                nm.len() == len,
                l == digits_used(nm, nn),
                l <= n - 1,
                0 <= i <= l,
                divisor == factorial((n - len) as nat),
                divisor >= 1,
                sum == sum_digits(nm, nn, 0, i as int),
                sum_digits(nm, nn, 0, l as int) < falling(nn, len as nat),
                falling(nn, len as nat) <= 479001600,
                name@ == nm,
            decreases l - i,
        {
            let mut smaller: usize = 0;
            let mut j: usize = 0;
            while j < i
                invariant
                    0 <= j <= i < nm.len(),
                    name@ == nm,
                    is_prefix_name(nm, nn),
                    smaller == count_in_range(nm, j as int, 1, nm[i as int] as int),
                    smaller <= j,
                decreases i - j,
            {
                if name[j] < name[i] {
                    smaller += 1;
                }
                j += 1;
            }
            let fpos = Utility::factorial(n - i - 1);
            let radix_i = fpos / divisor;
            proof {
                reveal_with_fuel(sum_digits, 3);
                lemma_radix_exact(nn, len as nat, i as int);
                assert(radix_i == radix(nn, len as nat, i as int));
                lemma_digit_bounds(nm, nn, i as int);
                lemma_sum_split(nm, nn, 0, i as int, l as int);
                lemma_sum_split(nm, nn, i as int, i as int + 1, l as int);
                lemma_sum_bound(nm, nn, i as int + 1);
                assert(sum_digits(nm, nn, i as int, i as int + 1) == digit(nm, i as int) * radix(
                    nn,
                    len as nat,
                    i as int,
                ));
                assert(sum_digits(nm, nn, 0, i as int + 1) <= sum_digits(nm, nn, 0, l as int));
            }
            let d = name[i] - smaller - 1;
            proof {
                assert(d == digit(nm, i as int));
                assert(radix_i * d == digit(nm, i as int) * radix(nn, len as nat, i as int))
                    by (nonlinear_arith)
                    requires
                        radix_i == radix(nn, len as nat, i as int),
                        d == digit(nm, i as int),
                ;
                assert(sum + radix_i * d == sum_digits(nm, nn, 0, i as int + 1));
                assert(sum + radix_i * d < 479001600);
            }
            sum += radix_i * d;
            i += 1;
        }
        sum + Self::dead_state_offset(name)
    }

    /// How many of the first `i` symbols are smaller than the one at `i`.
    pub fn count_smaller(name: &[usize], i: usize) -> (r: usize)
        requires
            i < name@.len(),
            forall|p: int| 0 <= p < name@.len() ==> 1 <= #[trigger] name@[p],
        ensures
            r == count_smaller(name@, i as int),
    {
        let mut smaller: usize = 0;
        let mut j: usize = 0;
        while j < i
            invariant
                0 <= j <= i < name@.len(),
                forall|p: int| 0 <= p < name@.len() ==> 1 <= #[trigger] name@[p],
                smaller == count_in_range(name@, j as int, 1, name@[i as int] as int),
                smaller <= j,
            decreases i - j,
        {
            if name[j] < name[i] {
                smaller += 1;
            }
            j += 1;
        }
        smaller
    }

    /// Whether the name is the all-zero dead sentinel.
    pub fn is_dead_state(name: &[usize]) -> (r: bool)
        ensures
            r == is_dead_name(name@),
    {
        let mut i: usize = 0;
        while i < name.len()
            invariant
                0 <= i <= name@.len(),
                forall|k: int| 0 <= k < i ==> name@[k] == 0,
            decreases name@.len() - i,
        {
            if name[i] != 0 {
                return false;
            }
            i += 1;
        }
        true
    }

    /// Ranks longer than one reserve index 0 for their dead state.
    pub fn dead_state_offset(name: &[usize]) -> (r: usize)
        ensures
            r == dead_offset(name@),
    {
        match name.len() {
            1 => 0,
            _ => 1,
        }
    }
}

/// The exec division of factorials computes the falling-factorial radix.
proof fn lemma_radix_exact(n: nat, len: nat, i: int)
    requires
        0 <= i,
        i < len <= n,
        i < n - 1 || len < n,
        i <= n - 1,
    ensures
        factorial((n - 1 - i) as nat) / factorial((n - len) as nat) == radix(n, len, i),
{
    let a = (n - 1 - i) as nat;
    let b = (n - len) as nat;
    assert(b <= a);
    lemma_falling_times_factorial(a, (a - b) as nat);
    lemma_factorial_pos(b);
    assert((a - (a - b)) as nat == b);
    assert(falling(a, (a - b) as nat) * factorial(b) == factorial(a));
    lemma_div_multiples_vanish(falling(a, (a - b) as nat) as int, factorial(b) as int);
    assert((factorial(b) * falling(a, (a - b) as nat)) as int / factorial(b) as int == falling(
        a,
        (a - b) as nat,
    ));
    assert(factorial(b) * falling(a, (a - b) as nat) == falling(a, (a - b) as nat) * factorial(b))
        by (nonlinear_arith);
    assert((a - b) as nat == (len - 1 - i) as nat);
}

/// Counting over `[lo, hi)` splits at any midpoint.
proof fn lemma_count_split(name: Seq<usize>, j: int, lo: int, mid: int, hi: int)
    requires
        lo <= mid <= hi,
        j <= name.len(),
    ensures
        count_in_range(name, j, lo, hi) == count_in_range(name, j, lo, mid) + count_in_range(
            name,
            j,
            mid,
            hi,
        ),
    decreases j,
{
    if j > 0 {
        lemma_count_split(name, j - 1, lo, mid, hi);
    }
}

/// When no symbol among the first `j` lies in `[lo, hi)`, the count is zero.
proof fn lemma_count_none(name: Seq<usize>, j: int, lo: int, hi: int)
    requires
        j <= name.len(),
        forall|p: int| 0 <= p < j ==> !(lo <= #[trigger] name[p] < hi),
    ensures
        count_in_range(name, j, lo, hi) == 0,
    decreases j,
{
    if j > 0 {
        lemma_count_none(name, j - 1, lo, hi);
    }
}

/// When every symbol among the first `j` lies in `[lo, hi)`, the count is `j`.
proof fn lemma_count_all(name: Seq<usize>, j: int, lo: int, hi: int)
    requires
        0 <= j <= name.len(),
        forall|p: int| 0 <= p < j ==> lo <= #[trigger] name[p] < hi,
    ensures
        count_in_range(name, j, lo, hi) == j,
    decreases j,
{
    if j > 0 {
        lemma_count_all(name, j - 1, lo, hi);
    }
}

/// The set of distinct symbol values drawn from the first `j` positions that
/// lie in `[lo, hi)`.
spec fn value_set(name: Seq<usize>, j: int, lo: int, hi: int) -> Set<int> {
    Set::new(|v: int| lo <= v < hi && exists|p: int| 0 <= p < j && name[p] == v)
}

/// For distinct symbols, the range count equals the cardinality of the value
/// set, which the range itself bounds.
proof fn lemma_count_card(name: Seq<usize>, j: int, lo: int, hi: int)
    requires
        lo <= hi,
        0 <= j <= name.len(),
        forall|p: int, q: int| 0 <= p < q < j ==> name[p] != name[q],
    ensures
        count_in_range(name, j, lo, hi) <= hi - lo,
    decreases j,
{
    lemma_count_card_set(name, j, lo, hi);
    let vs = value_set(name, j, lo, hi);
    let range = vstd::set_lib::set_int_range(lo, hi);
    lemma_int_range(lo, hi);
    assert(vs.subset_of(range));
    lemma_len_subset(vs, range);
}

proof fn lemma_count_card_set(name: Seq<usize>, j: int, lo: int, hi: int)
    requires
        lo <= hi,
        0 <= j <= name.len(),
        forall|p: int, q: int| 0 <= p < q < j ==> name[p] != name[q],
    ensures
        value_set(name, j, lo, hi).finite(),
        count_in_range(name, j, lo, hi) == value_set(name, j, lo, hi).len(),
    decreases j,
{
    let vs = value_set(name, j, lo, hi);
    if j == 0 {
        assert(vs =~= Set::<int>::empty());
    } else {
        lemma_count_card_set(name, j - 1, lo, hi);
        let prev = value_set(name, j - 1, lo, hi);
        let v = name[j - 1] as int;
        if lo <= v < hi {
            assert(vs =~= prev.insert(v));
            assert(!prev.contains(v));
        } else {
            assert(vs =~= prev);
        }
    }
}

/// Each digit is at least zero and small enough that its weighted value fits
/// under the next radix.
pub proof fn lemma_digit_bounds(name: Seq<usize>, n: nat, i: int)
    requires
        is_prefix_name(name, n),
        0 <= i < digits_used(name, n),
    ensures
        0 <= digit(name, i) <= n - 1 - i,
{
    let v = name[i] as int;
    assert(count_smaller(name, i) <= v - 1) by {
        lemma_count_card(name, i, 1, v);
    }
    assert(count_in_range(name, i, 1, n as int + 1) == i) by {
        lemma_count_all(name, i, 1, n as int + 1);
    }
    lemma_count_split(name, i, 1, v, n as int + 1);
    lemma_count_split(name, i, v, v + 1, n as int + 1);
    assert(count_in_range(name, i, v, v + 1) == 0) by {
        lemma_count_none(name, i, v, v + 1);
    }
    assert(count_in_range(name, i, v + 1, n as int + 1) <= n - v) by {
        lemma_count_card(name, i, v + 1, n as int + 1);
    }
}

/// The weighted digit sums split at any midpoint.
pub proof fn lemma_sum_split(name: Seq<usize>, n: nat, i: int, m: int, j: int)
    requires
        i <= m <= j,
    ensures
        sum_digits(name, n, i, j) == sum_digits(name, n, i, m) + sum_digits(name, n, m, j),
    decreases j - m,
{
    if m < j {
        lemma_sum_split(name, n, i, m, j - 1);
        assert(sum_digits(name, n, m, j) == sum_digits(name, n, m, j - 1) + digit(name, j - 1)
            * radix(n, name.len(), j - 1));
    }
}

/// The weighted sum of the digits from position `i` on stays below the
/// falling factorial that counts the remaining choices: the tail can never
/// carry into digit `i - 1`.
pub proof fn lemma_sum_bound(name: Seq<usize>, n: nat, i: int)
    requires
        is_prefix_name(name, n),
        0 <= i <= digits_used(name, n),
    ensures
        0 <= sum_digits(name, n, i, digits_used(name, n)) < falling(
            (n - i) as nat,
            (name.len() - i) as nat,
        ),
    decreases digits_used(name, n) - i,
{
    let len = name.len();
    let l = digits_used(name, n);
    if i == l {
        if len <= n - 1 {
            assert(falling((n - i) as nat, (len - i) as nat) == 1);
        } else {
            assert(len == n && l == n - 1);
            assert(falling(1, 1) == 1);
        }
    } else {
        lemma_sum_bound(name, n, i + 1);
        lemma_digit_bounds(name, n, i);
        lemma_sum_split(name, n, i, i + 1, l);
        reveal_with_fuel(sum_digits, 3);
        let d = digit(name, i);
        let r = radix(n, len as nat, i) as int;
        let tail = sum_digits(name, n, i + 1, l);
        assert(sum_digits(name, n, i, i + 1) == d * r);
        assert(radix(n, len as nat, i + 1 - 1) == falling((n - 1 - i) as nat, (len - 1 - i) as nat));
        assert(tail < falling((n - i - 1) as nat, (len - i - 1) as nat));
        assert(falling((n - i) as nat, (len - i) as nat) == (n - i) * falling(
            (n - i - 1) as nat,
            (len - i - 1) as nat,
        ));
        assert(r == falling((n - 1 - i) as nat, (len - 1 - i) as nat));
        assert(d * r >= 0) by (nonlinear_arith)
            requires
                d >= 0 && r >= 0,
        ;
        assert(d * r <= (n - 1 - i) * r) by (nonlinear_arith)
            requires
                d <= n - 1 - i && r >= 0,
        ;
        assert((n - 1 - i) * r + r == (n - i) * r) by (nonlinear_arith);
    }
}

/// A real prefix name is never ranked into the dead slot, and its index stays
/// within its rank: the ranking lands in `[dead_offset, falling + dead_offset)`.
pub proof fn lemma_index_in_range(name: Seq<usize>, n: nat)
    requires
        is_prefix_name(name, n),
    ensures
        dead_offset(name) <= name_index(name, n) < falling(n, name.len()) + dead_offset(name),
{
    assert(!is_dead_name(name)) by {
        assert(name[0] >= 1);
    }
    lemma_sum_bound(name, n, 0);
}

/// Range counts only look at the symbols before the given position.
proof fn lemma_count_prefix_eq(a: Seq<usize>, b: Seq<usize>, j: int, lo: int, hi: int)
    requires
        0 <= j <= a.len(),
        j <= b.len(),
        forall|p: int| 0 <= p < j ==> a[p] == b[p],
    ensures
        count_in_range(a, j, lo, hi) == count_in_range(b, j, lo, hi),
    decreases j,
{
    if j > 0 {
        lemma_count_prefix_eq(a, b, j - 1, lo, hi);
    }
}

/// With equal prefixes before position `i`, a larger symbol at `i` yields a
/// strictly larger digit: the digit determines the symbol.
proof fn lemma_digit_strict(a: Seq<usize>, b: Seq<usize>, n: nat, i: int)
    requires
        is_prefix_name(a, n),
        is_prefix_name(b, n),
        a.len() == b.len(),
        0 <= i < digits_used(a, n),
        forall|p: int| 0 <= p < i ==> a[p] == b[p],
        a[i] < b[i],
    ensures
        digit(a, i) < digit(b, i),
{
    let va = a[i] as int;
    let vb = b[i] as int;
    lemma_count_prefix_eq(b, a, i, 1, vb);
    assert(count_smaller(b, i) == count_in_range(a, i, 1, vb));
    lemma_count_split(a, i, 1, va, vb);
    lemma_count_split(a, i, va, va + 1, vb);
    lemma_count_none(a, i, va, va + 1);
    lemma_count_card(a, i, va + 1, vb);
    assert(count_in_range(a, i, 1, vb) <= count_smaller(a, i) + (vb - va - 1));
}

/// Equal digit sums over a suffix force the symbols of that suffix to agree,
/// position by position: each digit is recovered from the sum because the
/// remaining tail cannot reach the digit's own radix.
proof fn lemma_sum_determines(a: Seq<usize>, b: Seq<usize>, n: nat, i: int)
    requires
        is_prefix_name(a, n),
        is_prefix_name(b, n),
        a.len() == b.len(),
        0 <= i <= digits_used(a, n),
        forall|p: int| 0 <= p < i ==> a[p] == b[p],
        sum_digits(a, n, i, digits_used(a, n)) == sum_digits(b, n, i, digits_used(b, n)),
    ensures
        forall|p: int| 0 <= p < digits_used(a, n) ==> a[p] == b[p],
    decreases digits_used(a, n) - i,
{
    let l = digits_used(a, n);
    assert(l == digits_used(b, n));
    if i < l {
        let len = a.len();
        let r = radix(n, len as nat, i) as int;
        let da = digit(a, i);
        let db = digit(b, i);
        let ta = sum_digits(a, n, i + 1, l);
        let tb = sum_digits(b, n, i + 1, l);
        lemma_sum_split(a, n, i, i + 1, l);
        lemma_sum_split(b, n, i, i + 1, l);
        reveal_with_fuel(sum_digits, 3);
        assert(sum_digits(a, n, i, l) == da * r + ta);
        assert(sum_digits(b, n, i, l) == db * r + tb);
        lemma_sum_bound(a, n, i + 1);
        lemma_sum_bound(b, n, i + 1);
        assert(radix(n, len as nat, i) == falling((n - i - 1) as nat, (len - i - 1) as nat));
        assert(0 <= ta < r && 0 <= tb < r);
        lemma_digit_bounds(a, n, i);
        lemma_digit_bounds(b, n, i);
        assert(da == db) by {
            if da < db {
                assert(da * r + ta < db * r + tb) by (nonlinear_arith)
                    requires
                        da < db,
                        0 <= ta < r,
                        0 <= tb,
                ;
            }
            if db < da {
                assert(db * r + tb < da * r + ta) by (nonlinear_arith)
                    requires
                        db < da,
                        0 <= tb < r,
                        0 <= ta,
                ;
            }
        }
        assert(a[i] == b[i]) by {
            if a[i] < b[i] {
                lemma_digit_strict(a, b, n, i);
            }
            if b[i] < a[i] {
                lemma_digit_strict(b, a, n, i);
            }
        }
        assert(ta == tb);
        lemma_sum_determines(a, b, n, i + 1);
    }
}

/// When all other symbols agree, the last symbol of a full permutation is
/// forced: only one value of `{1..n}` is left unused.
proof fn lemma_last_symbol_determined(a: Seq<usize>, b: Seq<usize>, n: nat)
    requires
        is_prefix_name(a, n),
        is_prefix_name(b, n),
        a.len() == n,
        b.len() == n,
        forall|p: int| 0 <= p < n - 1 ==> a[p] == b[p],
    ensures
        a[n - 1] == b[n - 1],
{
    if a[n - 1] != b[n - 1] {
        let c = a + seq![b[n - 1]];
        assert(c.len() == n + 1);
        assert(forall|p: int| 0 <= p < n ==> c[p] == a[p]);
        assert(c[n as int] == b[n - 1]);
        assert(forall|p: int, q: int| 0 <= p < q < c.len() ==> c[p] != c[q]) by {
            assert forall|p: int, q: int| 0 <= p < q < c.len() implies c[p] != c[q] by {
                if q == n {
                    if p < n - 1 {
                        assert(c[p] == b[p]);
                    }
                }
            }
        }
        lemma_count_all(c, n as int + 1, 1, n as int + 1);
        lemma_count_card(c, n as int + 1, 1, n as int + 1);
    }
}

/// The ranking is injective: two prefix names of the same length with the
/// same index are the same name.  Together with `lemma_index_in_range`, each
/// length-r rank maps its names one-to-one into the index range it owns.
pub proof fn lemma_index_injective(a: Seq<usize>, b: Seq<usize>, n: nat)
    requires
        is_prefix_name(a, n),
        is_prefix_name(b, n),
        a.len() == b.len(),
        name_index(a, n) == name_index(b, n),
    ensures
        a == b,
{
    assert(!is_dead_name(a)) by {
        assert(a[0] >= 1);
    }
    assert(!is_dead_name(b)) by {
        assert(b[0] >= 1);
    }
    let l = digits_used(a, n);
    assert(sum_digits(a, n, 0, l) == sum_digits(b, n, 0, l));
    lemma_sum_determines(a, b, n, 0);
    if a.len() == n {
        lemma_last_symbol_determined(a, b, n);
    }
    assert(a =~= b);
}


/// The value relabeling that frees the slot `v`: values at or above `v` move
/// up by one.
spec fn shift_val(x: usize, v: usize) -> int {
    if x >= v {
        x + 1
    } else {
        x as int
    }
}

/// A whole name relabeled to free the slot `v`.
spec fn shift_from(s: Seq<usize>, v: usize) -> Seq<usize> {
    s.map_values(|x: usize| shift_val(x, v) as usize)
}

/// Counting over a name with one symbol prepended: the head contributes its
/// own indicator.
proof fn lemma_count_cons(head: usize, t: Seq<usize>, j: int, lo: int, hi: int)
    requires
        0 <= j <= t.len(),
    ensures
        count_in_range(seq![head] + t, j + 1, lo, hi) == count_in_range(t, j, lo, hi) + (if lo
            <= head < hi {
            1nat
        } else {
            0nat
        }),
    decreases j,
{
    let name = seq![head] + t;
    if j == 0 {
        reveal_with_fuel(count_in_range, 3);
        assert(name[0] == head);
    } else {
        lemma_count_cons(head, t, j - 1, lo, hi);
        assert(name[j] == t[j - 1]);
    }
}

/// Relabeling preserves range counts: the shifted values compare below the
/// shifted bound exactly as the originals compare below the original bound.
proof fn lemma_count_shift(t: Seq<usize>, v: usize, j: int, x: usize)
    requires
        0 <= j <= t.len(),
        forall|p: int| 0 <= p < t.len() ==> 1 <= #[trigger] t[p],
        v <= usize::MAX,
        forall|p: int| 0 <= p < t.len() ==> #[trigger] t[p] < usize::MAX,
    ensures
        count_in_range(shift_from(t, v), j, 1, shift_val(x, v)) == count_in_range(t, j, 1, x as int),
    decreases j,
{
    if j > 0 {
        lemma_count_shift(t, v, j - 1, x);
        assert(shift_from(t, v)[j - 1] == shift_val(t[j - 1], v) as usize);
    }
}


/// Prepending a fresh symbol `v` and relabeling the rest leaves every later
/// digit unchanged: the relabeling absorbs exactly the shift that the new
/// smaller-symbol count introduces.
proof fn lemma_digit_shift(t: Seq<usize>, v: usize, n: nat, i: int)
    requires
        1 <= i <= t.len(),
        1 <= v,
        v < usize::MAX,
        forall|p: int| 0 <= p < t.len() ==> 1 <= #[trigger] t[p],
        forall|p: int| 0 <= p < t.len() ==> #[trigger] t[p] < usize::MAX,
    ensures
        digit(seq![v] + shift_from(t, v), i) == digit(t, i - 1),
    decreases i,
{
    let name = seq![v] + shift_from(t, v);
    let x = t[i - 1];
    assert(name[i] == shift_val(x, v) as usize);
    lemma_count_cons(v, shift_from(t, v), i - 1, 1, shift_val(x, v));
    lemma_count_shift(t, v, i - 1, x);
    assert(count_smaller(name, i) == count_in_range(name, i, 1, shift_val(x, v)));
    assert(count_smaller(name, i) == count_in_range(t, i - 1, 1, x as int) + (if 1 <= v
        < shift_val(x, v) {
        1nat
    } else {
        0nat
    }));
    assert((1 <= v < shift_val(x, v)) == (x >= v));
}

/// The weighted digit sum of the relabeled tail equals the sum the shorter
/// name has over the one-smaller alphabet.
proof fn lemma_sum_shift(t: Seq<usize>, v: usize, n: nat, m: int)
    requires
        0 <= m <= t.len(),
        1 <= v,
        v < usize::MAX,
        2 <= n,
        forall|p: int| 0 <= p < t.len() ==> 1 <= #[trigger] t[p],
        forall|p: int| 0 <= p < t.len() ==> #[trigger] t[p] < usize::MAX,
    ensures
        sum_digits(seq![v] + shift_from(t, v), n, 1, 1 + m) == sum_digits(
            t,
            (n - 1) as nat,
            0,
            m,
        ),
    decreases m,
{
    let name = seq![v] + shift_from(t, v);
    assert(name.len() == 1 + t.len());
    if m > 0 {
        lemma_sum_shift(t, v, n, m - 1);
        lemma_digit_shift(t, v, n, m);
        assert(radix(n, name.len() as nat, m) == falling((n - 1 - m) as nat, (name.len() - 1
            - m) as nat));
        assert(radix((n - 1) as nat, t.len() as nat, m - 1) == falling(
            (n - 1 - m) as nat,
            (name.len() - 1 - m) as nat,
        ));
    }
}


/// Every weighted digit sum below the falling factorial is realized by some
/// prefix name of the right length.
proof fn lemma_sum_exists(n: nat, r: nat, s: int)
    requires
        1 <= r <= n,
        n <= 12,
        0 <= s < falling(n, r),
    ensures
        exists|name: Seq<usize>|
            is_prefix_name(name, n) && name.len() == r && #[trigger] sum_digits(
                name,
                n,
                0,
                digits_used(name, n),
            ) == s,
    decreases r,
{
    if r == 1 {
        if n == 1 {
            let name = seq![1usize];
            assert(falling(1, 1) == 1) by {
                crate::arith::lemma_falling_step(1, 0);
                assert(falling(1, 0) == 1);
                assert(falling(1, 0) * (1 - 0) == 1) by (nonlinear_arith)
                    requires
                        falling(1, 0) == 1,
                ;
            }
            assert(is_prefix_name(name, n));
            assert(digits_used(name, n) == 0);
            assert(sum_digits(name, n, 0, 0) == 0);
        } else {
            let name = seq![(s + 1) as usize];
            assert(falling(n, 1) == n) by {
                reveal_with_fuel(falling, 3);
                assert(falling(n, 1) == n * falling((n - 1) as nat, 0));
                assert(falling((n - 1) as nat, 0) == 1);
                assert(n * falling((n - 1) as nat, 0) == n) by (nonlinear_arith)
                    requires
                        falling((n - 1) as nat, 0) == 1,
                ;
            }
            assert(is_prefix_name(name, n));
            assert(digits_used(name, n) == 1);
            reveal_with_fuel(sum_digits, 3);
            reveal_with_fuel(count_in_range, 2);
            assert(count_smaller(name, 0) == 0);
            assert(digit(name, 0) == s);
            assert(radix(n, 1, 0) == falling((n - 1) as nat, 0));
            assert(falling((n - 1) as nat, 0) == 1);
            assert(sum_digits(name, n, 0, 1) == s * 1);
            assert(s * 1 == s) by (nonlinear_arith);
        }
    } else {
        let big_r = falling((n - 1) as nat, (r - 1) as nat) as int;
        lemma_falling_le_factorial((n - 1) as nat, (r - 1) as nat);
        assert(big_r >= 1);
        let d0 = s / big_r;
        let s2 = s % big_r;
        vstd::arithmetic::div_mod::lemma_fundamental_div_mod(s, big_r);
        vstd::arithmetic::div_mod::lemma_mod_bound(s, big_r);
        vstd::arithmetic::div_mod::lemma_div_pos_is_pos(s, big_r);
        assert(falling(n, r) == n * big_r);
        assert(d0 < n) by (nonlinear_arith)
            requires
                s == big_r * d0 + s2,
                0 <= s2,
                s < n * big_r,
                big_r >= 1,
                d0 >= 0,
        ;
        let v = (d0 + 1) as usize;
        lemma_sum_exists((n - 1) as nat, (r - 1) as nat, s2);
        let t = choose|t: Seq<usize>|
            is_prefix_name(t, (n - 1) as nat) && t.len() == r - 1 && #[trigger] sum_digits(
                t,
                (n - 1) as nat,
                0,
                digits_used(t, (n - 1) as nat),
            ) == s2;
        let name = seq![v] + shift_from(t, v);
        assert(name.len() == r);
        assert(forall|p: int|
            0 <= p < t.len() ==> 1 <= #[trigger] t[p] && t[p] <= n - 1 && t[p] < usize::MAX);

        assert(is_prefix_name(name, n)) by {
            assert(name[0] == v);
            assert(forall|p: int|
                1 <= p < name.len() ==> #[trigger] name[p] == shift_val(t[p - 1], v) as usize);
            assert forall|p: int| 0 <= p < name.len() implies 1 <= #[trigger] name[p] <= n by {
                if p >= 1 {
                    assert(name[p] == shift_val(t[p - 1], v) as usize);
                }
            }
            assert forall|p: int, q: int| 0 <= p < q < name.len() implies name[p] != name[q] by {
                if p == 0 {
                    assert(name[q] == shift_val(t[q - 1], v) as usize);
                } else {
                    assert(name[p] == shift_val(t[p - 1], v) as usize);
                    assert(name[q] == shift_val(t[q - 1], v) as usize);
                    assert(t[p - 1] != t[q - 1]);
                }
            }
        }

        let l = digits_used(name, n);
        let l2 = digits_used(t, (n - 1) as nat);
        assert(l == 1 + l2);
        lemma_sum_split(name, n, 0, 1, l);
        reveal_with_fuel(sum_digits, 3);
        reveal_with_fuel(count_in_range, 2);
        assert(count_smaller(name, 0) == 0);
        assert(digit(name, 0) == d0);
        assert(radix(n, r, 0) == big_r);
        assert(sum_digits(name, n, 0, 1) == d0 * big_r);
        lemma_sum_shift(t, v, n, l2);
        assert(sum_digits(name, n, 1, l) == s2);
        assert(d0 * big_r == big_r * d0) by (nonlinear_arith);
        assert(sum_digits(name, n, 0, l) == s);
    }
}

/// Together with `lemma_index_injective` and `lemma_index_in_range`, the
/// ranking is a bijection: every index a rank reserves for real states is
/// the index of exactly one prefix name of that rank's length.
pub proof fn lemma_index_surjective(n: nat, r: nat, idx: int)
    requires
        1 <= r <= n,
        n <= 12,
        (if r == 1 {
            0int
        } else {
            1int
        }) <= idx < falling(n, r) + (if r == 1 {
            0int
        } else {
            1int
        }),
    ensures
        exists|name: Seq<usize>|
            is_prefix_name(name, n) && name.len() == r && #[trigger] name_index(name, n) == idx,
{
    let off: int = if r == 1 {
        0
    } else {
        1
    };
    lemma_sum_exists(n, r, idx - off);
    let name = choose|name: Seq<usize>|
        is_prefix_name(name, n) && name.len() == r && #[trigger] sum_digits(
            name,
            n,
            0,
            digits_used(name, n),
        ) == idx - off;
    assert(!is_dead_name(name)) by {
        assert(name[0] >= 1);
    }
    assert(dead_offset(name) == off);
    assert(name_index(name, n) == idx);
}


/// `a` is lexicographically below `b` with the first difference at `i`.
pub open spec fn lex_less_at(a: Seq<usize>, b: Seq<usize>, i: int) -> bool {
    &&& 0 <= i < a.len()
    &&& a[i] < b[i]
    &&& forall|p: int| 0 <= p < i ==> a[p] == b[p]
}

/// The strict lexicographic order on equal-length names.
pub open spec fn lex_less(a: Seq<usize>, b: Seq<usize>) -> bool {
    exists|i: int| #[trigger] lex_less_at(a, b, i)
}

/// Names that agree on their first `m` symbols have the same weighted digit
/// sum over those positions.
proof fn lemma_sum_prefix_eq(a: Seq<usize>, b: Seq<usize>, n: nat, m: int)
    requires
        a.len() == b.len(),
        0 <= m <= a.len(),
        forall|p: int| 0 <= p < m ==> a[p] == b[p],
    ensures
        sum_digits(a, n, 0, m) == sum_digits(b, n, 0, m),
    decreases m,
{
    if m > 0 {
        lemma_sum_prefix_eq(a, b, n, m - 1);
        lemma_count_prefix_eq(a, b, m - 1, 1, a[m - 1] as int);
        assert(digit(a, m - 1) == digit(b, m - 1));
    }
}

/// The ranking respects lexicographic order: of two prefix names of the same
/// length, the lexicographically smaller one gets the strictly smaller index.
pub proof fn lemma_index_lex_monotone(a: Seq<usize>, b: Seq<usize>, n: nat)
    requires
        is_prefix_name(a, n),
        is_prefix_name(b, n),
        a.len() == b.len(),
        lex_less(a, b),
    ensures
        name_index(a, n) < name_index(b, n),
{
    let i = choose|i: int| lex_less_at(a, b, i);
    let len = a.len();
    let l = digits_used(a, n);
    assert(l == digits_used(b, n));
    assert(i < l) by {
        if i >= l {
            assert(len == n && i == n - 1);
            lemma_last_symbol_determined(a, b, n);
        }
    }
    assert(!is_dead_name(a)) by {
        assert(a[0] >= 1);
    }
    assert(!is_dead_name(b)) by {
        assert(b[0] >= 1);
    }
    lemma_sum_split(a, n, 0, i, l);
    lemma_sum_split(b, n, 0, i, l);
    lemma_sum_prefix_eq(a, b, n, i);
    lemma_digit_strict(a, b, n, i);
    let r = radix(n, len as nat, i) as int;
    let da = digit(a, i);
    let db = digit(b, i);
    lemma_sum_split(a, n, i, i + 1, l);
    lemma_sum_split(b, n, i, i + 1, l);
    reveal_with_fuel(sum_digits, 3);
    assert(sum_digits(a, n, i, i + 1) == da * r);
    assert(sum_digits(b, n, i, i + 1) == db * r);
    lemma_sum_bound(a, n, i + 1);
    lemma_sum_bound(b, n, i + 1);
    let ta = sum_digits(a, n, i + 1, l);
    let tb = sum_digits(b, n, i + 1, l);
    assert(radix(n, len as nat, i) == falling((n - 1 - i) as nat, (len - 1 - i) as nat));
    assert(0 <= ta < r && 0 <= tb);
    lemma_digit_bounds(a, n, i);
    assert(da * r + ta < db * r + tb) by (nonlinear_arith)
        requires
            da < db,
            0 <= ta < r,
            0 <= tb,
    ;
}

} // verus!
