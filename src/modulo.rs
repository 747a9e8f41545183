use vstd::prelude::*;
use vstd::arithmetic::div_mod::{
    lemma_fundamental_div_mod_converse,
    lemma_mul_mod_noop_general,
    lemma_small_mod,
};
use vstd::arithmetic::power::{pow as power, lemma_pow1, lemma_pow_adds, lemma_pow_multiplies, lemma_pow_mod_noop};
use crate::math::{falling, factorial, lemma_falling_past_end, smaller_side};

verus! {

/// `m` is a prime number.
pub open spec fn prime(m: int) -> bool {
    &&& m >= 2
    &&& forall|d: int| 2 <= d < m ==> #[trigger] (m % d) != 0
}

/// `y` raised to `m - 2`, modulo `m`: by Fermat's little theorem the inverse
/// of `y` modulo a prime `m` that does not divide `y`.
pub open spec fn fermat_inverse(y: int, m: int) -> int {
    power(y, (m - 2) as nat) % m
}

/// `x` times the Fermat inverse of `y`, modulo `m`.
pub open spec fn quotient(x: int, y: int, m: int) -> int {
    (x * fermat_inverse(y, m)) % m
}

/// Returns `x` + `y` mod `modulo`.
pub fn add(x: u32, y: u32, modulo: u32) -> (r: u32)
    requires
        x < modulo,
        y < modulo,
    ensures
        r == (x + y) % (modulo as int),
{
    let sum = x as u64 + y as u64;
    if sum < modulo as u64 {
        proof {
            lemma_small_mod(sum as nat, modulo as nat);
        }
        sum as u32
    } else {
        proof {
            lemma_fundamental_div_mod_converse(sum as int, modulo as int, 1, sum - modulo);
        }
        (sum - modulo as u64) as u32
    }
}

/// Returns `x` - `y` mod `modulo`.
pub fn sub(x: u32, y: u32, modulo: u32) -> (r: u32)
    requires
        x < modulo,
        y < modulo,
    ensures
        r == (x - y) % (modulo as int),
{
    if x >= y {
        proof {
            lemma_small_mod((x - y) as nat, modulo as nat);
        }
        x - y
    } else {
        proof {
            lemma_fundamental_div_mod_converse(x - y, modulo as int, -1, modulo - (y - x));
        }
        modulo - (y - x)
    }
}

/// Returns `x` * `y` mod `modulo`.
pub fn mul(x: u32, y: u32, modulo: u32) -> (r: u32)
    requires
        modulo > 0,
    ensures
        r == (x * y) % (modulo as int),
{
    assert(x * y <= u32::MAX * u32::MAX) by (nonlinear_arith);
    ((x as u64 * y as u64) % modulo as u64) as u32
}

proof fn lemma_pow_halves(p: int, y: nat)
    ensures
        power(p, y) == power(p * p, y / 2) * (if y % 2 == 1 {
            p
        } else {
            1
        }),
{
    let h = y / 2;
    let e = y % 2;
    lemma_pow_adds(p, 2 * h, e);
    lemma_pow_multiplies(p, 2, h);
    lemma_pow_adds(p, 1, 1);
    lemma_pow1(p);
    assert(y == 2 * h + e);
}

proof fn lemma_pow_step(ret: int, p: int, y: nat, m: int)
    requires
        m > 0,
    ensures
        ((if y % 2 == 1 {
            (ret * p) % m
        } else {
            ret
        }) * power((p * p) % m, y / 2)) % m == (ret * power(p, y)) % m,
{
    let h = y / 2;
    let q = p * p;
    let a = power(q % m, h);
    let b = power(q, h);
    lemma_pow_halves(p, y);
    lemma_pow_mod_noop(q, h, m);
    if y % 2 == 1 {
        lemma_mul_mod_noop_general(ret * p, a, m);
        lemma_mul_mod_noop_general(ret * p, b, m);
        assert((ret * p) * b == ret * (b * p)) by (nonlinear_arith);
    } else {
        lemma_mul_mod_noop_general(ret, a, m);
        lemma_mul_mod_noop_general(ret, b, m);
    }
}

/// Returns `x`^`y` mod `modulo`.
pub fn pow(x: u32, y: u32, modulo: u32) -> (r: u32)
    requires
        modulo > 0,
    ensures
        r == power(x as int, y as nat) % (modulo as int),
{
    let mut p = x;
    let mut ret: u32 = 1 % modulo;
    let mut e = y;
    proof {
        reveal_with_fuel(power, 1);
        lemma_mul_mod_noop_general(1, power(x as int, y as nat), modulo as int);
    }
    while e != 0
        invariant
            modulo > 0,
            ret < modulo,
            (ret * power(p as int, e as nat)) % (modulo as int) == power(x as int, y as nat)
                % (modulo as int),
        decreases e,
    {
        proof {
            lemma_pow_step(ret as int, p as int, e as nat, modulo as int);
        }
        assert(e & 1 == e % 2) by (bit_vector);
        assert(e >> 1 == e / 2) by (bit_vector);
        if e & 1 == 1 {
            ret = crate::modulo::mul(ret, p, modulo);
        }
        p = crate::modulo::mul(p, p, modulo);
        e = e >> 1;
    }
    proof {
        reveal_with_fuel(power, 1);
        lemma_small_mod(ret as nat, modulo as nat);
    }
    ret
}

/// Returns 1 / `x`.
fn reciprocal(x: u32, modulo: u32) -> (r: u32)
    requires
        prime(modulo as int),
    ensures
        r == fermat_inverse(x as int, modulo as int),
{
    pow(x, modulo - 2, modulo)
}

/// Returns `x` / `y` mod `modulo`.
pub fn div(x: u32, y: u32, modulo: u32) -> (r: u32)
    requires
        prime(modulo as int),
    ensures
        r == quotient(x as int, y as int, modulo as int),
{
    crate::modulo::mul(x, reciprocal(y, modulo), modulo)
}

/// Returns `n`P`k` mod `modulo`.
pub fn permutation(n: u32, k: u32, modulo: u32) -> (r: u32)
    requires
        modulo > 0,
    ensures
        r == falling(n as int, k as nat) % (modulo as int),
{
    let mut p: u32 = 1 % modulo;
    let mut i: u32 = 0;
    proof {
        lemma_small_mod(0, 1);
    }
    while i < k
        invariant
            modulo > 0,
            i <= k,
            p == falling(n as int, i as nat) % (modulo as int),
        decreases k - i,
    {
        let f = if i <= n {
            n - i
        } else {
            0
        };
        proof {
            if i > n {
                lemma_falling_past_end(n as int, i as nat);
                lemma_falling_past_end(n as int, (i + 1) as nat);
            }
            lemma_mul_mod_noop_general(falling(n as int, i as nat), f as int, modulo as int);
        }
        p = crate::modulo::mul(p, f, modulo);
        i = i + 1;
    }
    p
}

/// Returns `n`C`k` mod `modulo`.
pub fn combination(n: u32, k: u32, modulo: u32) -> (r: u32)
    requires
        k <= n,
        prime(modulo as int),
    ensures
        ({
            let j = smaller_side(n as int, k as int) as nat;
            r == quotient(falling(n as int, j) % (modulo as int), factorial(j) % (modulo as int), modulo as int)
        }),
{
    let k = if k <= n - k {
        k
    } else {
        n - k
    };
    let num = permutation(n, k, modulo);
    let mut den: u32 = 1;
    let mut i: u32 = 0;
    proof {
        lemma_small_mod(1, modulo as nat);
    }
    while i < k
        invariant
            prime(modulo as int),
            i <= k <= n,
            den == factorial(i as nat) % (modulo as int),
        decreases k - i,
    {
        proof {
            lemma_mul_mod_noop_general(factorial(i as nat), (i + 1) as int, modulo as int);
        }
        den = crate::modulo::mul(den, i + 1, modulo);
        i = i + 1;
    }
    div(num, den, modulo)
}

} // verus!
