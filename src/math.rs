use vstd::prelude::*;
use vstd::arithmetic::div_mod::lemma_div_multiples_vanish;

verus! {

/// Number of decimal digits of a non-negative integer (zero has one digit).
pub open spec fn digit_count(n: nat) -> nat
    decreases n,
{
    if n < 10 {
        1
    } else {
        1 + digit_count(n / 10)
    }
}

pub open spec fn abs(n: int) -> nat {
    if n < 0 {
        (-n) as nat
    } else {
        n as nat
    }
}

/// The falling factorial `n (n - 1) ... (n - k + 1)`: the number of ordered
/// choices of `k` of `n` objects.
pub open spec fn falling(n: int, k: nat) -> int
    decreases k,
{
    if k == 0 {
        1
    } else {
        falling(n, (k - 1) as nat) * (n - k + 1)
    }
}

pub open spec fn factorial(k: nat) -> int
    decreases k,
{
    if k == 0 {
        1
    } else {
        factorial((k - 1) as nat) * k
    }
}

/// The number of `k`-element subsets of `n` objects, by Pascal's rule.
pub open spec fn binomial(n: nat, k: nat) -> nat
    decreases n,
{
    if k == 0 {
        1
    } else if n == 0 {
        0
    } else {
        binomial((n - 1) as nat, (k - 1) as nat) + binomial((n - 1) as nat, k)
    }
}

/// The smaller of `k` and `n - k`.
pub open spec fn smaller_side(n: int, k: int) -> int {
    if k <= n - k {
        k
    } else {
        n - k
    }
}

proof fn lemma_falling_grows(n: int, j: nat, k: nat)
    requires
        j <= k,
        k <= n,
    ensures
        0 <= falling(n, j) <= falling(n, k),
    decreases k,
{
    if k > j {
        lemma_falling_grows(n, j, (k - 1) as nat);
        let f = falling(n, (k - 1) as nat);
        assert(f <= f * (n - k + 1)) by (nonlinear_arith)
            requires
                f >= 0,
                n - k + 1 >= 1,
        ;
    } else if k > 0 {
        lemma_falling_grows(n, 0, (k - 1) as nat);
        let f = falling(n, (k - 1) as nat);
        assert(0 <= f * (n - k + 1)) by (nonlinear_arith)
            requires
                f >= 0,
                n - k + 1 >= 0,
        ;
    }
}

proof fn lemma_factorial_below_falling(n: int, k: nat)
    requires
        2 * k <= n,
    ensures
        1 <= factorial(k) <= falling(n, k),
    decreases k,
{
    if k > 0 {
        lemma_factorial_below_falling(n, (k - 1) as nat);
        let a = factorial((k - 1) as nat);
        let b = falling(n, (k - 1) as nat);
        assert(1 <= a * k <= b * (n - k + 1)) by (nonlinear_arith)
            requires
                1 <= a <= b,
                1 <= k <= n - k + 1,
        ;
    }
}

spec fn pow10(k: nat) -> int
    decreases k,
{
    if k == 0 {
        1
    } else {
        10 * pow10((k - 1) as nat)
    }
}

proof fn lemma_digit_count_below(m: nat, k: nat)
    requires
        k >= 1,
        m < pow10(k),
    ensures
        digit_count(m) <= k,
    decreases k,
{
    if m >= 10 {
        if k == 1 {
            assert(pow10(1) == 10 * pow10(0));
        } else {
            assert(m / 10 < pow10((k - 1) as nat));
            lemma_digit_count_below(m / 10, (k - 1) as nat);
        }
    }
}

/// Past `n` the falling factorial of `n` has met the factor zero.
pub proof fn lemma_falling_past_end(n: int, k: nat)
    requires
        0 <= n < k,
    ensures
        falling(n, k) == 0,
    decreases k,
{
    let f = falling(n, (k - 1) as nat);
    if k > n + 1 {
        lemma_falling_past_end(n, (k - 1) as nat);
    }
    assert(falling(n, k) == f * (n - k + 1));
    if k == n + 1 {
        assert(f * 0 == 0) by (nonlinear_arith);
    } else {
        assert(0 * (n - k + 1) == 0) by (nonlinear_arith);
    }
}

proof fn lemma_falling_shift(n: int, k: nat)
    ensures
        falling(n + 1, k + 1) == (n + 1) * falling(n, k),
    decreases k,
{
    let k1 = (k + 1) as nat;
    assert(falling(n + 1, k1) == falling(n + 1, k) * (n - k + 1));
    if k > 0 {
        lemma_falling_shift(n, (k - 1) as nat);
        let f = falling(n, (k - 1) as nat);
        let g = falling(n + 1, k);
        assert(g == (n + 1) * f);
        assert(falling(n, k) == f * (n - k + 1));
        assert(g * (n - k + 1) == (n + 1) * (f * (n - k + 1))) by (nonlinear_arith)
            requires
                g == (n + 1) * f,
        ;
    } else {
        assert(falling(n + 1, 0) == 1);
        assert(falling(n, 0) == 1);
    }
}

proof fn lemma_binomial_falling(n: nat, k: nat)
    ensures
        binomial(n, k) * factorial(k) == falling(n as int, k),
    decreases n,
{
    if k == 0 {
    } else if n == 0 {
        lemma_falling_past_end(0, k);
        assert(binomial(n, k) == 0);
    } else {
        let m = (n - 1) as nat;
        let j = (k - 1) as nat;
        lemma_binomial_falling(m, j);
        lemma_binomial_falling(m, k);
        lemma_falling_shift(m as int, j);
        let b1 = binomial(m, j);
        let b2 = binomial(m, k);
        let fj = factorial(j);
        let f = falling(m as int, j);
        assert(factorial(k) == fj * k);
        assert(falling(m as int, k) == f * (m - k + 1));
        assert(binomial(n, k) == b1 + b2);
        assert((b1 + b2) * (fj * k) == k * (b1 * fj) + b2 * (fj * k)) by (nonlinear_arith);
        assert(k * f + f * (m - k + 1) == (m + 1) * f) by (nonlinear_arith);
        assert(falling(m as int + 1, (j + 1) as nat) == (m + 1) * f);
        assert(m as int + 1 == n as int && (j + 1) as nat == k);
        assert(b1 * fj == f);
        assert(b2 * factorial(k) == falling(m as int, k));
        assert(k * (b1 * fj) == k * f);
        assert(b2 * (fj * k) == f * (m - k + 1));
        assert(binomial(n, k) * factorial(k) == (b1 + b2) * (fj * k));
        assert(falling(n as int, k) == (m + 1) * f);
    }
}

proof fn lemma_falling_factorial(n: nat, k: nat)
    requires
        k <= n,
    ensures
        falling(n as int, k) * factorial((n - k) as nat) == factorial(n),
    decreases k,
{
    if k > 0 {
        lemma_falling_factorial(n, (k - 1) as nat);
        let f = falling(n as int, (k - 1) as nat);
        let g = factorial((n - k) as nat);
        assert(factorial((n - k + 1) as nat) == g * (n - k + 1));
        assert(f * (n - k + 1) * g == f * (g * (n - k + 1))) by (nonlinear_arith);
    }
}

/// Choosing `k` of `n` objects is choosing the `n - k` left behind.
pub proof fn lemma_binomial_symmetric(n: nat, k: nat)
    requires
        k <= n,
    ensures
        binomial(n, k) == binomial(n, (n - k) as nat),
{
    let j = (n - k) as nat;
    lemma_binomial_falling(n, k);
    lemma_binomial_falling(n, j);
    lemma_falling_factorial(n, k);
    lemma_falling_factorial(n, j);
    lemma_factorial_positive(k);
    lemma_factorial_positive(j);
    let b1 = binomial(n, k) as int;
    let b2 = binomial(n, j) as int;
    let fk = factorial(k);
    let fj = factorial(j);
    assert(b1 * fk * fj == b2 * fj * fk);
    assert(b1 == b2) by (nonlinear_arith)
        requires
            b1 * fk * fj == b2 * fj * fk,
            fk >= 1,
            fj >= 1,
    ;
}

/// Returns the number of decimal digits of `n`, ignoring its sign.
pub fn digits10(n: i64) -> (r: i64)
    ensures
        r == digit_count(abs(n as int)),
{
    let mut m: u64 = if n < 0 {
        (-(n + 1)) as u64 + 1
    } else {
        n as u64
    };
    let mut d: i64 = 1;
    proof {
        reveal_with_fuel(pow10, 21);
        assert(pow10(20) == 100000000000000000000);
        lemma_digit_count_below(m as nat, 20);
    }
    while m >= 10
        invariant
            1 <= d <= 20,
            digit_count(abs(n as int)) == d - 1 + digit_count(m as nat),
            d + digit_count(m as nat) <= 21,
        decreases m,
    {
        assert(digit_count((m / 10) as nat) >= 1);
        m = m / 10;
        d = d + 1;
    }
    d
}

/// Returns the number of ordered choices of `k` of `n` objects.
pub fn permutation(n: i64, k: i64) -> (r: i64)
    requires
        0 <= k <= n,
        falling(n as int, k as nat) <= i64::MAX,
    ensures
        r == falling(n as int, k as nat),
{
    let mut p: i64 = 1;
    let mut j: i64 = 0;
    while j < k
        invariant
            0 <= j <= k <= n,
            falling(n as int, k as nat) <= i64::MAX,
            p == falling(n as int, j as nat),
        decreases k - j,
    {
        proof {
            lemma_falling_grows(n as int, (j + 1) as nat, k as nat);
        }
        p = p * (n - j);
        j = j + 1;
    }
    p
}

/// Returns the number of `k`-element subsets of `n` objects.
pub fn combination(n: i64, k: i64) -> (r: i64)
    requires
        0 <= k <= n,
        falling(n as int, smaller_side(n as int, k as int) as nat) <= i64::MAX,
    ensures
        r == binomial(n as nat, k as nat),
{
    let ghost k0 = k;
    let k = if k <= n - k {
        k
    } else {
        n - k
    };
    let num = permutation(n, k);
    let mut den: i64 = 1;
    let mut i: i64 = 0;
    proof {
        lemma_factorial_below_falling(n as int, k as nat);
    }
    while i < k
        invariant
            0 <= i <= k,
            2 * k <= n,
            den == factorial(i as nat),
            factorial(k as nat) <= i64::MAX,
        decreases k - i,
    {
        proof {
            lemma_factorial_grows(i as nat, k as nat);
        }
        den = den * (i + 1);
        i = i + 1;
    }
    proof {
        lemma_binomial_falling(n as nat, k as nat);
        lemma_binomial_symmetric(n as nat, k0 as nat);
        let b = binomial(n as nat, k as nat) as int;
        lemma_div_multiples_vanish(b, den as int);
        assert(b * factorial(k as nat) == den * b) by (nonlinear_arith)
            requires
                den == factorial(k as nat),
        ;
    }
    num / den
}

proof fn lemma_factorial_grows(j: nat, k: nat)
    requires
        j < k,
    ensures
        1 <= factorial(j) <= factorial((j + 1) as nat) <= factorial(k),
    decreases k,
{
    if k > j + 1 {
        lemma_factorial_grows(j, (k - 1) as nat);
        let f = factorial((k - 1) as nat);
        assert(f <= f * k) by (nonlinear_arith)
            requires
                f >= 1,
                k >= 1,
        ;
    } else {
        lemma_factorial_positive(j);
        let f = factorial(j);
        assert(f <= f * (j + 1)) by (nonlinear_arith)
            requires
                f >= 1,
        ;
    }
}

proof fn lemma_factorial_positive(k: nat)
    ensures
        factorial(k) >= 1,
    decreases k,
{
    if k > 0 {
        lemma_factorial_positive((k - 1) as nat);
        let f = factorial((k - 1) as nat);
        assert(f * k >= 1) by (nonlinear_arith)
            requires
                f >= 1,
                k >= 1,
        ;
    }
}

} // verus!
