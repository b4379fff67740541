//! The arithmetic of the integers modulo a prime: congruences, primes, and
//! Fermat's little theorem, which makes `a^(q-2)` the inverse of `a`.

use vstd::arithmetic::div_mod::{
    lemma_add_mod_noop, lemma_fundamental_div_mod, lemma_mod_multiples_basic,
    lemma_mul_mod_noop_general, lemma_small_mod, lemma_sub_mod_noop,
};
use vstd::arithmetic::power::{lemma0_pow, lemma_pow0, lemma_pow_mod_noop, pow};
use vstd::prelude::*;

verus! {

/// `q` is a prime number.
pub open spec fn is_prime(q: int) -> bool {
    &&& q >= 2
    &&& forall|d: int| 1 < d < q ==> #[trigger] (q % d) != 0
}

/// `a` and `b` leave the same remainder modulo `q`.
pub open spec fn congruent(a: int, b: int, q: int) -> bool {
    a % q == b % q
}

/// The inverse of `a` in the field of `q` elements, taken as the power
/// `a^(q-2)`, which is the inverse when `q` is prime and `a` is not zero.
pub open spec fn field_inverse(a: int, q: int) -> int {
    pow(a, (q - 2) as nat) % q
}

/// Congruences may be added.
pub proof fn lemma_congruent_add(a: int, b: int, c: int, d: int, q: int)
    requires
        q > 0,
        congruent(a, b, q),
        congruent(c, d, q),
    ensures
        congruent(a + c, b + d, q),
{
    lemma_add_mod_noop(a, c, q);
    lemma_add_mod_noop(b, d, q);
}

/// Congruences may be subtracted.
pub proof fn lemma_congruent_sub(a: int, b: int, c: int, d: int, q: int)
    requires
        q > 0,
        congruent(a, b, q),
        congruent(c, d, q),
    ensures
        congruent(a - c, b - d, q),
{
    lemma_sub_mod_noop(a, c, q);
    lemma_sub_mod_noop(b, d, q);
}

/// Congruences may be multiplied.
pub proof fn lemma_congruent_mul(a: int, b: int, c: int, d: int, q: int)
    requires
        q > 0,
        congruent(a, b, q),
        congruent(c, d, q),
    ensures
        congruent(a * c, b * d, q),
{
    lemma_mul_mod_noop_general(a, c, q);
    lemma_mul_mod_noop_general(b, d, q);
}

/// A number is congruent to its remainder.
pub proof fn lemma_congruent_remainder(a: int, q: int)
    requires
        q > 0,
    ensures
        congruent(a % q, a, q),
{
    vstd::arithmetic::div_mod::lemma_mod_twice(a, q);
}

/// A multiple of `q` is congruent to zero.
pub proof fn lemma_multiple_vanishes(k: int, q: int)
    requires
        q > 0,
    ensures
        (q * k) % q == 0,
        (k * q) % q == 0,
{
    lemma_mod_multiples_basic(k, q);
    assert(q * k == k * q) by (nonlinear_arith);
}

/// The only multiple of `q` strictly between `-q` and `q` is zero.
pub proof fn lemma_small_multiple_is_zero(d: int, q: int)
    requires
        q > 0,
        -q < d < q,
        d % q == 0,
    ensures
        d == 0,
{
    if d > 0 {
        lemma_small_mod(d as nat, q as nat);
    } else if d < 0 {
        lemma_small_mod((-d) as nat, q as nat);
        vstd::arithmetic::div_mod::lemma_mod_equivalence(0, -d, q);
        vstd::arithmetic::div_mod::lemma_mod_equivalence(d, 0, q);
        lemma_small_mod(0, q as nat);
    }
}

/// The negative of what is not zero modulo `q` is not zero either.
pub proof fn lemma_negation_nonzero(a: int, q: int)
    requires
        q > 0,
        a % q != 0,
    ensures
        (-a) % q != 0,
{
    vstd::arithmetic::div_mod::lemma_mod_equivalence(0, a, q);
    vstd::arithmetic::div_mod::lemma_mod_equivalence(a, 0, q);
    lemma_small_mod(0, q as nat);
}

/// What `q` divides is `q` times its quotient.
proof fn lemma_divisible_is_multiple(x: int, q: int)
    requires
        q > 0,
        x % q == 0,
    ensures
        x == q * (x / q),
{
    lemma_fundamental_div_mod(x, q);
}

/// If a prime divides `r * b` for some `r` strictly between 0 and the
/// prime, it divides `b`.
proof fn lemma_prime_descent(p: int, r: int, b: int)
    requires
        is_prime(p),
        0 < r < p,
        (r * b) % p == 0,
    ensures
        b % p == 0,
    decreases r,
{
    if r == 1 {
        assert(r * b == b) by (nonlinear_arith)
            requires
                r == 1,
        ;
    } else {
        let s = p % r;
        let k = p / r;
        assert(s != 0);
        lemma_fundamental_div_mod(p, r);
        assert(0 < s < r) by {
            vstd::arithmetic::div_mod::lemma_mod_pos_bound(p, r);
        }
        let t = (r * b) / p;
        lemma_divisible_is_multiple(r * b, p);
        assert(s * b == p * (b - k * t)) by (nonlinear_arith)
            requires
                p == r * k + s,
                r * b == p * t,
        ;
        lemma_multiple_vanishes(b - k * t, p);
        lemma_prime_descent(p, s, b);
    }
}

/// Euclid's lemma: a prime that divides a product divides a factor.
pub proof fn lemma_prime_divides_product(p: int, a: int, b: int)
    requires
        is_prime(p),
        (a * b) % p == 0,
    ensures
        a % p == 0 || b % p == 0,
{
    let r = a % p;
    if r != 0 {
        lemma_mul_mod_noop_general(a, b, p);
        vstd::arithmetic::div_mod::lemma_mod_bound(a, p);
        lemma_prime_descent(p, r, b);
    }
}

/// The binomial coefficient, by Pascal's rule.
pub open spec fn binom(n: nat, k: nat) -> nat
    decreases n,
{
    if k == 0 {
        1
    } else if n == 0 {
        0
    } else {
        binom((n - 1) as nat, (k - 1) as nat) + binom((n - 1) as nat, k)
    }
}

/// There is no way to choose more than there is.
proof fn lemma_binom_beyond(n: nat, k: nat)
    requires
        k > n,
    ensures
        binom(n, k) == 0,
    decreases n,
{
    if n > 0 {
        lemma_binom_beyond((n - 1) as nat, (k - 1) as nat);
        lemma_binom_beyond((n - 1) as nat, k);
    }
}

/// There is one way to choose all.
proof fn lemma_binom_all(n: nat)
    ensures
        binom(n, n) == 1,
    decreases n,
{
    if n > 0 {
        lemma_binom_all((n - 1) as nat);
        lemma_binom_beyond((n - 1) as nat, n);
    }
}

/// The absorption identity: `k * C(n, k) == n * C(n-1, k-1)`.
proof fn lemma_binom_absorption(n: nat, k: nat)
    requires
        n >= 1,
        k >= 1,
    ensures
        k * binom(n, k) == n * binom((n - 1) as nat, (k - 1) as nat),
    decreases n,
{
    let n1 = (n - 1) as nat;
    let k1 = (k - 1) as nat;
    if n == 1 {
        if k == 1 {
            assert(binom(0, 1) == 0);
            assert(binom(0, 0) == 1);
            assert(binom(1, 1) == 1);
        } else {
            lemma_binom_beyond(1, k);
            lemma_binom_beyond(0, k1);
        }
    } else {
        let n2 = (n - 2) as nat;
        lemma_binom_absorption(n1, k);
        assert(binom(n, k) == binom(n1, k1) + binom(n1, k));
        if k == 1 {
            assert(binom(n1, 0) == 1);
            assert(binom(n2, 0) == 1);
            assert(k * binom(n, k) == n * binom(n1, k1)) by (nonlinear_arith)
                requires
                    k == 1,
                    binom(n, k) == binom(n1, k1) + binom(n1, k),
                    binom(n1, k1) == 1,
                    k * binom(n1, k) == n1 * 1,
                    n1 == n - 1,
            ;
        } else {
            let k2 = (k - 2) as nat;
            lemma_binom_absorption(n1, k1);
            assert(binom(n1, k1) == binom(n2, k2) + binom(n2, k1));
            assert(k * binom(n, k) == n * binom(n1, k1)) by (nonlinear_arith)
                requires
                    binom(n, k) == binom(n1, k1) + binom(n1, k),
                    binom(n1, k1) == binom(n2, k2) + binom(n2, k1),
                    k * binom(n1, k) == n1 * binom(n2, k1),
                    k1 * binom(n1, k1) == n1 * binom(n2, k2),
                    n1 == n - 1,
                    k1 == k - 1,
            ;
        }
    }
}

/// A prime divides its binomial coefficients, but for the first and the last.
proof fn lemma_prime_divides_binom(p: nat, k: nat)
    requires
        is_prime(p as int),
        0 < k < p,
    ensures
        binom(p, k) % p == 0,
{
    lemma_binom_absorption(p, k);
    let c = binom((p - 1) as nat, (k - 1) as nat);
    lemma_multiple_vanishes(c as int, p as int);
    assert((k as int * binom(p, k) as int) % (p as int) == 0) by {
        assert(k as int * binom(p, k) as int == p as int * c as int);
    }
    lemma_prime_divides_product(p as int, k as int, binom(p, k) as int);
    lemma_small_mod(k, p);
}

/// The first `j` terms of the binomial expansion of `(a + 1)^n`.
pub open spec fn binomial_sum(a: int, n: nat, j: nat) -> int
    decreases j,
{
    if j == 0 {
        0
    } else {
        binomial_sum(a, n, (j - 1) as nat) + binom(n, (j - 1) as nat) * pow(a, (j - 1) as nat)
    }
}

/// Pascal's rule, summed.
proof fn lemma_binomial_sum_step(a: int, n: nat, j: nat)
    ensures
        binomial_sum(a, n + 1, j + 1) == a * binomial_sum(a, n, j) + binomial_sum(a, n, j + 1),
    decreases j,
{
    reveal(pow);
    if j == 0 {
        assert(binomial_sum(a, n + 1, 0) == 0);
        assert(binomial_sum(a, n, 0) == 0);
        assert(binomial_sum(a, n + 1, 1) == binomial_sum(a, n + 1, 0) + binom(n + 1, 0) * pow(a, 0));
        assert(binomial_sum(a, n, 1) == binomial_sum(a, n, 0) + binom(n, 0) * pow(a, 0));
        assert(a * 0 == 0);
    } else {
        let j1 = (j - 1) as nat;
        lemma_binomial_sum_step(a, n, j1);
        let s_j1 = binomial_sum(a, n, j1);
        let s_j = binomial_sum(a, n, j);
        let s_jp = binomial_sum(a, n, j + 1);
        let t_j = binomial_sum(a, n + 1, j);
        let t_jp = binomial_sum(a, n + 1, j + 1);
        let pj1 = pow(a, j1);
        let pj = pow(a, j);
        assert(pj == a * pj1);
        assert(binom(n + 1, j) == binom(n, j1) + binom(n, j));
        assert(t_j == a * s_j1 + s_j);
        assert(t_jp == t_j + binom(n + 1, j) * pj);
        assert(s_j == s_j1 + binom(n, j1) * pj1);
        assert(s_jp == s_j + binom(n, j) * pj);
        assert(t_jp == a * s_j + s_jp) by (nonlinear_arith)
            requires
                t_jp == t_j + (binom(n, j1) + binom(n, j)) * pj,
                t_j == a * s_j1 + s_j,
                s_j == s_j1 + binom(n, j1) * pj1,
                s_jp == s_j + binom(n, j) * pj,
                pj == a * pj1,
        ;
    }
}

/// The binomial theorem for `(a + 1)^n`.
proof fn lemma_binomial_theorem(a: int, n: nat)
    ensures
        pow(a + 1, n) == binomial_sum(a, n, n + 1),
    decreases n,
{
    reveal(pow);
    if n == 0 {
        assert(binomial_sum(a, 0, 0) == 0);
        assert(binomial_sum(a, 0, 1) == binomial_sum(a, 0, 0) + binom(0, 0) * pow(a, 0));
    } else {
        let n1 = (n - 1) as nat;
        lemma_binomial_theorem(a, n1);
        lemma_binomial_sum_step(a, n1, n);
        lemma_binom_beyond(n1, n);
        let s = binomial_sum(a, n1, n);
        assert(binomial_sum(a, n1, n + 1) == s + binom(n1, n) * pow(a, n));
        assert(binomial_sum(a, n1, n + 1) == s) by (nonlinear_arith)
            requires
                binomial_sum(a, n1, n + 1) == s + binom(n1, n) * pow(a, n),
                binom(n1, n) == 0,
        ;
        assert(pow(a + 1, n) == (a + 1) * pow(a + 1, n1));
        assert((a + 1) * s == a * s + s) by (nonlinear_arith);
    }
}

/// Modulo a prime `p`, the expansion of `(a + 1)^p` short of its last term
/// is 1.
proof fn lemma_binomial_sum_mod_prime(a: int, p: nat, j: nat)
    requires
        is_prime(p as int),
        1 <= j <= p,
    ensures
        congruent(binomial_sum(a, p, j), 1, p as int),
    decreases j,
{
    reveal(pow);
    if j == 1 {
        assert(binomial_sum(a, p, 0) == 0);
        assert(binomial_sum(a, p, 1) == binomial_sum(a, p, 0) + binom(p, 0) * pow(a, 0));
    } else {
        let j1 = (j - 1) as nat;
        lemma_binomial_sum_mod_prime(a, p, j1);
        lemma_prime_divides_binom(p, j1);
        let term = binom(p, j1) * pow(a, j1);
        lemma_congruent_mul(binom(p, j1) as int, 0, pow(a, j1), pow(a, j1), p as int);
        assert(0 * pow(a, j1) == 0);
        lemma_congruent_add(binomial_sum(a, p, j1), 1, term, 0, p as int);
    }
}

/// Modulo a prime `p`, `(a + 1)^p` is `a^p + 1`.
proof fn lemma_power_of_successor(a: int, p: nat)
    requires
        is_prime(p as int),
    ensures
        congruent(pow(a + 1, p), pow(a, p) + 1, p as int),
{
    lemma_binomial_theorem(a, p);
    lemma_binomial_sum_mod_prime(a, p, p);
    lemma_binom_all(p);
    let s = binomial_sum(a, p, p);
    assert(binomial_sum(a, p, p + 1) == s + binom(p, p) * pow(a, p));
    assert(binom(p, p) * pow(a, p) == pow(a, p)) by (nonlinear_arith)
        requires
            binom(p, p) == 1,
    ;
    lemma_congruent_add(s, 1, pow(a, p), pow(a, p), p as int);
}

/// Fermat's little theorem: modulo a prime `p`, `a^p` is `a`.
proof fn lemma_fermat_power(a: nat, p: nat)
    requires
        is_prime(p as int),
    ensures
        congruent(pow(a as int, p), a as int, p as int),
    decreases a,
{
    if a == 0 {
        lemma0_pow(p);
    } else {
        let b = (a - 1) as nat;
        lemma_fermat_power(b, p);
        lemma_power_of_successor(b as int, p);
        lemma_congruent_add(pow(b as int, p), b as int, 1, 1, p as int);
    }
}

/// In the field of a prime `q`, the power `a^(q-2)` is the inverse of every
/// `a` that is not zero.
pub proof fn lemma_field_inverse(a: int, q: int)
    requires
        is_prime(q),
        a % q != 0,
    ensures
        congruent(a * field_inverse(a, q), 1, q),
{
    reveal(pow);
    let r = a % q;
    let e = (q - 2) as nat;
    vstd::arithmetic::div_mod::lemma_mod_bound(a, q);
    lemma_fermat_power(r as nat, q as nat);
    let u = pow(r, e);
    assert(pow(r, (q - 1) as nat) == r * u);
    assert(pow(r, q as nat) == r * pow(r, (q - 1) as nat));
    // q divides r * (r * u - 1), and not r.
    lemma_congruent_sub(pow(r, q as nat), r, r, r, q);
    assert(r * (r * u - 1) == pow(r, q as nat) - r) by (nonlinear_arith)
        requires
            pow(r, q as nat) == r * (r * u),
    ;
    lemma_small_mod(0, q as nat);
    assert((r - r) % q == 0);
    lemma_prime_divides_product(q, r, r * u - 1);
    lemma_small_mod(r as nat, q as nat);
    assert((r * u - 1) % q == 0);
    vstd::arithmetic::div_mod::lemma_mod_equivalence(r * u, 1, q);
    assert(congruent(r * u, 1, q));
    // Back from the remainder to `a`.
    lemma_pow_mod_noop(a, e, q);
    lemma_mul_mod_noop_general(a, pow(a, e), q);
    lemma_mul_mod_noop_general(r, u, q);
    lemma_mul_mod_noop_general(a, field_inverse(a, q), q);
    lemma_pow0(a);
}

} // verus!
