use vstd::prelude::*;
use vstd::arithmetic::div_mod::{lemma_div_denominator, lemma_fundamental_div_mod};
use vstd::arithmetic::power2::{lemma2_to64, lemma_pow2_adds, pow2};

verus! {

/// The factorial function.
pub open spec fn factorial(n: nat) -> nat
    decreases n,
{
    if n == 0 {
        1
    } else {
        n * factorial((n - 1) as nat)
    }
}

/// The falling factorial: `n * (n-1) * ... * (n-k+1)`, the number of
/// k-permutations of n symbols.
pub open spec fn falling(n: nat, k: nat) -> nat
    decreases k,
{
    if k == 0 || n == 0 {
        1
    } else {
        n * falling((n - 1) as nat, (k - 1) as nat)
    }
}

pub proof fn lemma_factorial_pos(n: nat)
    ensures
        factorial(n) >= 1,
    decreases n,
{
    if n > 0 {
        lemma_factorial_pos((n - 1) as nat);
        assert(n * factorial((n - 1) as nat) >= 1) by (nonlinear_arith)
            requires
                n >= 1,
                factorial((n - 1) as nat) >= 1,
        ;
    }
}

pub proof fn lemma_factorial_mono(a: nat, b: nat)
    requires
        a <= b,
    ensures
        factorial(a) <= factorial(b),
    decreases b,
{
    lemma_factorial_pos(a);
    if a < b {
        lemma_factorial_mono(a, (b - 1) as nat);
        assert(factorial(b) == b * factorial((b - 1) as nat));
        assert(b * factorial((b - 1) as nat) >= 1 * factorial((b - 1) as nat)) by (nonlinear_arith)
            requires
                b >= 1,
                factorial((b - 1) as nat) >= 0,
        ;
    }
}

/// The falling factorial times the factorial of what remains is the full
/// factorial.
pub proof fn lemma_falling_times_factorial(n: nat, k: nat)
    requires
        k <= n,
    ensures
        falling(n, k) * factorial((n - k) as nat) == factorial(n),
    decreases k,
{
    if k == 0 {
        lemma_factorial_pos(n);
        assert(falling(n, k) == 1);
        assert(falling(n, k) * factorial((n - k) as nat) == factorial(n));
    } else {
        let a = falling((n - 1) as nat, (k - 1) as nat);
        let b = factorial((n - k) as nat);
        lemma_falling_times_factorial((n - 1) as nat, (k - 1) as nat);
        assert(a * b == factorial((n - 1) as nat));
        assert(falling(n, k) == n * a);
        assert(factorial(n) == n * factorial((n - 1) as nat));
        assert(falling(n, k) * factorial((n - k) as nat) == factorial(n)) by (nonlinear_arith)
            requires
                a * b == factorial((n - 1) as nat),
                falling(n, k) == n * a,
                factorial(n) == n * factorial((n - 1) as nat),
                b == factorial((n - k) as nat),
        ;
    }
}

/// The falling factorial is at most the full factorial.
pub proof fn lemma_falling_le_factorial(n: nat, k: nat)
    requires
        k <= n,
    ensures
        1 <= falling(n, k) <= factorial(n),
{
    lemma_falling_times_factorial(n, k);
    lemma_factorial_pos((n - k) as nat);
    let f = falling(n, k);
    let r = factorial((n - k) as nat);
    assert(f >= 1) by {
        if f == 0 {
            assert(f * r == 0) by (nonlinear_arith)
                requires
                    f == 0,
            ;
            lemma_factorial_pos(n);
        }
    }
    assert(f * r >= f * 1) by (nonlinear_arith)
        requires
            f >= 0 && r >= 1,
    ;
}

/// Extending a falling factorial by one more factor multiplies in the next
/// smaller term.
pub proof fn lemma_falling_step(n: nat, k: nat)
    requires
        k < n,
    ensures
        falling(n, k + 1) == falling(n, k) * (n - k),
    decreases k,
{
    if k == 0 {
        reveal_with_fuel(falling, 3);
        assert(falling(n, 1) == n * falling((n - 1) as nat, 0));
        assert(falling(n, 1) == n);
        assert(falling(n, 0) * (n - 0) == n) by (nonlinear_arith)
            requires
                falling(n, 0) == 1,
        ;
    } else {
        lemma_falling_step((n - 1) as nat, (k - 1) as nat);
        let a = falling((n - 1) as nat, (k - 1) as nat);
        assert(falling((n - 1) as nat, k) == a * (n - k));
        assert(falling(n, k + 1) == n * falling((n - 1) as nat, k));
        assert(falling(n, k) == n * a);
        assert(falling(n, k + 1) == falling(n, k) * (n - k)) by (nonlinear_arith)
            requires
                falling(n, k + 1) == n * falling((n - 1) as nat, k),
                falling((n - 1) as nat, k) == a * (n - k),
                falling(n, k) == n * a,
        ;
    }
}

/// The factorial values the library actually uses stay well inside a
/// 32-bit machine word.
pub proof fn lemma_factorial_12()
    ensures
        factorial(12) == 479001600,
{
    assert(factorial(0) == 1);
    assert(factorial(1) == 1);
    assert(factorial(2) == 2);
    assert(factorial(3) == 6);
    assert(factorial(4) == 24);
    assert(factorial(5) == 120);
    assert(factorial(6) == 720);
    assert(factorial(7) == 5040);
    assert(factorial(8) == 40320);
    assert(factorial(9) == 362880);
    assert(factorial(10) == 3628800);
    assert(factorial(11) == 39916800);
    assert(factorial(12) == 479001600);
}

/// Bit `i` of a natural number, least significant bit first.
pub open spec fn bit(v: nat, i: nat) -> bool {
    (v / pow2(i)) % 2 == 1
}

/// The value encoded by a bit sequence, least significant bit first.
pub open spec fn bits_value(s: Seq<bool>) -> nat
    decreases s.len(),
{
    if s.len() == 0 {
        0
    } else {
        (if s[0] {
            1nat
        } else {
            0nat
        }) + 2 * bits_value(s.drop_first())
    }
}

/// Halving a number shifts its bits down by one position.
pub proof fn lemma_bit_halving(v: nat, i: nat)
    ensures
        bit(v, i + 1) == bit(v / 2, i),
{
    lemma_pow2_adds(1, i);
    lemma2_to64();
    assert(pow2(i + 1) == 2 * pow2(i));
    vstd::arithmetic::power2::lemma_pow2_pos(i);
    lemma_div_denominator(v as int, 2, pow2(i) as int);
    assert(v / (2 * pow2(i)) == (v / 2) / pow2(i));
}

/// Reassembling the bits of a value below `pow2(k)` gives the value back.
pub proof fn lemma_bits_value_round_trip(v: nat, k: nat)
    requires
        v < pow2(k),
    ensures
        bits_value(Seq::new(k, |i: int| bit(v, i as nat))) == v,
    decreases k,
{
    let s = Seq::new(k, |i: int| bit(v, i as nat));
    if k == 0 {
        lemma2_to64();
        assert(pow2(0) == 1);
        assert(v == 0);
    } else {
        lemma2_to64();
        assert(pow2(0) == 1);
        assert(s[0] == bit(v, 0));
        assert(v / pow2(0) == v);
        assert(s[0] == (v % 2 == 1));
        let h = v / 2;
        assert(h < pow2((k - 1) as nat)) by {
            lemma_pow2_adds(1, (k - 1) as nat);
            assert(pow2(k) == 2 * pow2((k - 1) as nat));
            lemma_fundamental_div_mod(v as int, 2);
        }
        lemma_bits_value_round_trip(h, (k - 1) as nat);
        let t = Seq::new((k - 1) as nat, |i: int| bit(h, i as nat));
        assert(s.drop_first() =~= t) by {
            assert forall|i: int| 0 <= i < k - 1 implies s.drop_first()[i] == t[i] by {
                lemma_bit_halving(v, i as nat);
            }
        }
        lemma_fundamental_div_mod(v as int, 2);
        assert(bits_value(s) == (if s[0] {
            1nat
        } else {
            0nat
        }) + 2 * bits_value(t));
        assert(v % 2 == 1 || v % 2 == 0);
    }
}

} // verus!
