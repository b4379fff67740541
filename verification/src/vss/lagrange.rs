//! Lagrange interpolation at zero over the field, as a mathematical
//! statement: what reconstruction computes from the indices and values of
//! the shares it is given.

use crate::vss::field::{
    congruent, field_inverse, is_prime, lemma_congruent_add, lemma_congruent_mul,
    lemma_congruent_sub, lemma_field_inverse, lemma_prime_divides_product,
};
use crate::vss::polynomial::poly_value;
use vstd::arithmetic::div_mod::{
    lemma_mod_equivalence, lemma_mod_twice, lemma_mul_mod_noop_general, lemma_small_mod,
};
use vstd::arithmetic::power::{lemma1_pow, lemma_pow_distributes, lemma_pow_mod_noop, pow};
use vstd::prelude::*;

verus! {

/// The product of `-xs[j]` over the `j < k` other than `i`.
pub open spec fn numerator(xs: Seq<int>, i: int, k: int) -> int
    decreases k,
{
    if k <= 0 {
        1
    } else if k - 1 == i {
        numerator(xs, i, k - 1)
    } else {
        numerator(xs, i, k - 1) * (-xs[k - 1])
    }
}

/// The product of `xs[i] - xs[j]` over the `j < k` other than `i`.
pub open spec fn denominator(xs: Seq<int>, i: int, k: int) -> int
    decreases k,
{
    if k <= 0 {
        1
    } else if k - 1 == i {
        denominator(xs, i, k - 1)
    } else {
        denominator(xs, i, k - 1) * (xs[i] - xs[k - 1])
    }
}

/// The numerator of the `i`-th Lagrange coefficient at zero, in the field.
pub open spec fn lagrange_num(xs: Seq<int>, i: int, q: int) -> int {
    numerator(xs, i, xs.len() as int) % q
}

/// The denominator of the `i`-th Lagrange coefficient, in the field.
pub open spec fn lagrange_den(xs: Seq<int>, i: int, q: int) -> int {
    denominator(xs, i, xs.len() as int) % q
}

/// The `i`-th Lagrange coefficient at zero: numerator over denominator.
pub open spec fn lagrange_coeff(xs: Seq<int>, i: int, q: int) -> int {
    (lagrange_num(xs, i, q) * field_inverse(lagrange_den(xs, i, q), q)) % q
}

/// The sum of `ys[i]` times the `i`-th Lagrange coefficient over `i < k`.
pub open spec fn weighted_sum(xs: Seq<int>, ys: Seq<int>, k: int, q: int) -> int
    decreases k,
{
    if k <= 0 {
        0
    } else {
        weighted_sum(xs, ys, k - 1, q) + ys[k - 1] * lagrange_coeff(xs, k - 1, q)
    }
}

/// The value at zero, in the field, of the polynomial through the points
/// `(xs[i], ys[i])`.
pub open spec fn interpolate_at_zero(xs: Seq<int>, ys: Seq<int>, q: int) -> int {
    weighted_sum(xs, ys, xs.len() as int, q) % q
}

/// Some Lagrange denominator vanishes in the field, so that it has no
/// inverse: with a prime modulus, two indices agree modulo it.
pub open spec fn is_degenerate(xs: Seq<int>, q: int) -> bool {
    exists|i: int| 0 <= i < xs.len() && #[trigger] lagrange_den(xs, i, q) == 0
}

/// No two of the points agree modulo `q`.
pub open spec fn distinct_mod(xs: Seq<int>, q: int) -> bool {
    forall|i: int, j: int|
        #![trigger xs[i], xs[j]]
        0 <= i < xs.len() && 0 <= j < xs.len() && i != j ==> (xs[i] - xs[j]) % q != 0
}

/// The `i`-th Lagrange coefficient before any reduction.
pub open spec fn unreduced_coeff(xs: Seq<int>, i: int, q: int) -> int {
    numerator(xs, i, xs.len() as int) * pow(denominator(xs, i, xs.len() as int), (q - 2) as nat)
}

/// Reducing numerator, denominator and power on the way changes nothing
/// modulo `q`.
proof fn lemma_coeff_unreduced(xs: Seq<int>, i: int, q: int)
    requires
        q > 0,
    ensures
        congruent(lagrange_coeff(xs, i, q), unreduced_coeff(xs, i, q), q),
{
    let n = numerator(xs, i, xs.len() as int);
    let d = denominator(xs, i, xs.len() as int);
    let e = (q - 2) as nat;
    let p_red = pow(d % q, e);
    let p = pow(d, e);
    lemma_pow_mod_noop(d, e, q);
    lemma_mod_twice(p_red, q);
    lemma_mul_mod_noop_general(n, p_red % q, q);
    lemma_mul_mod_noop_general(n, p_red, q);
    lemma_mul_mod_noop_general(n, p, q);
    lemma_mod_twice((n % q) * (p_red % q), q);
}

/// One point more: the difference `d` to the new point times the new
/// coefficient is the new point's factor `n0` times the old coefficient.
proof fn lemma_coeff_factor(n1: int, d1: int, n0: int, d: int, q: int)
    requires
        is_prime(q),
        d % q != 0,
    ensures
        congruent(
            d * ((n1 * n0) * pow(d1 * d, (q - 2) as nat)),
            n0 * (n1 * pow(d1, (q - 2) as nat)),
            q,
        ),
{
    let e = (q - 2) as nat;
    let pd = pow(d, e);
    let pd1 = pow(d1, e);
    lemma_pow_distributes(d1, d, e);
    lemma_field_inverse(d, q);
    lemma_mul_mod_noop_general(d, pd, q);
    assert(congruent(d * pd, 1, q));
    let rest = n0 * (n1 * pd1);
    lemma_congruent_mul(rest, rest, d * pd, 1, q);
    assert(d * ((n1 * n0) * (pd1 * pd)) == rest * (d * pd)) by (nonlinear_arith)
        requires
            rest == n0 * (n1 * pd1),
    ;
    assert(rest * 1 == rest);
}

/// The products over the first points do not see the last point.
proof fn lemma_products_drop_last(xs: Seq<int>, i: int, k: int)
    requires
        0 <= i < xs.len() - 1,
        0 <= k <= xs.len() - 1,
    ensures
        numerator(xs.drop_last(), i, k) == numerator(xs, i, k),
        denominator(xs.drop_last(), i, k) == denominator(xs, i, k),
    decreases k,
{
    if k > 0 {
        lemma_products_drop_last(xs, i, k - 1);
    }
}

/// The products without the first point, in terms of those with it.
proof fn lemma_products_drop_first(xs: Seq<int>, i: int, k: int)
    requires
        1 <= i < xs.len(),
        0 <= k <= xs.len() - 1,
    ensures
        numerator(xs, i, k + 1) == numerator(xs.drop_first(), i - 1, k) * (-xs[0]),
        denominator(xs, i, k + 1) == denominator(xs.drop_first(), i - 1, k) * (xs[i] - xs[0]),
    decreases k,
{
    let rest = xs.drop_first();
    if k == 0 {
        assert(numerator(xs, i, 0) == 1);
        assert(denominator(xs, i, 0) == 1);
        assert(numerator(xs, i, 1) == numerator(xs, i, 0) * (-xs[0]));
        assert(denominator(xs, i, 1) == denominator(xs, i, 0) * (xs[i] - xs[0]));
    } else {
        lemma_products_drop_first(xs, i, k - 1);
        assert(rest[k - 1] == xs[k]);
        assert(rest[i - 1] == xs[i]);
        if k != i {
            let n = numerator(rest, i - 1, k - 1);
            let d = denominator(rest, i - 1, k - 1);
            assert(numerator(xs, i, k + 1) == numerator(xs, i, k) * (-xs[k]));
            assert(numerator(rest, i - 1, k) == n * (-xs[k]));
            assert((n * (-xs[0])) * (-xs[k]) == (n * (-xs[k])) * (-xs[0])) by (nonlinear_arith);
            assert(denominator(xs, i, k + 1) == denominator(xs, i, k) * (xs[i] - xs[k]));
            assert(denominator(rest, i - 1, k) == d * (xs[i] - xs[k]));
            assert((d * (xs[i] - xs[0])) * (xs[i] - xs[k]) == (d * (xs[i] - xs[k])) * (xs[i]
                - xs[0])) by (nonlinear_arith);
        }
    }
}

/// The coefficient of a point among all points, against its coefficient
/// among all but the last.
proof fn lemma_coeff_drop_last(xs: Seq<int>, i: int, q: int)
    requires
        is_prime(q),
        distinct_mod(xs, q),
        0 <= i < xs.len() - 1,
    ensures
        congruent(
            (xs[i] - xs.last()) * lagrange_coeff(xs, i, q),
            (-xs.last()) * lagrange_coeff(xs.drop_last(), i, q),
            q,
        ),
{
    let m = xs.len() as int;
    let rest = xs.drop_last();
    let d = xs[i] - xs[m - 1];
    let n0 = -xs[m - 1];
    let n1 = numerator(rest, i, m - 1);
    let d1 = denominator(rest, i, m - 1);
    lemma_products_drop_last(xs, i, m - 1);
    assert(rest[i] == xs[i]);
    assert(numerator(xs, i, m) == n1 * n0);
    assert(denominator(xs, i, m) == d1 * d);
    assert(unreduced_coeff(xs, i, q) == (n1 * n0) * pow(d1 * d, (q - 2) as nat));
    assert(unreduced_coeff(rest, i, q) == n1 * pow(d1, (q - 2) as nat));
    lemma_coeff_factor(n1, d1, n0, d, q);
    lemma_coeff_unreduced(xs, i, q);
    lemma_coeff_unreduced(rest, i, q);
    lemma_congruent_mul(d, d, lagrange_coeff(xs, i, q), unreduced_coeff(xs, i, q), q);
    lemma_congruent_mul(n0, n0, lagrange_coeff(rest, i, q), unreduced_coeff(rest, i, q), q);
}

/// The coefficient of a point among all points, against its coefficient
/// among all but the first.
proof fn lemma_coeff_drop_first(xs: Seq<int>, i: int, q: int)
    requires
        is_prime(q),
        distinct_mod(xs, q),
        1 <= i < xs.len(),
    ensures
        congruent(
            (xs[i] - xs[0]) * lagrange_coeff(xs, i, q),
            (-xs[0]) * lagrange_coeff(xs.drop_first(), i - 1, q),
            q,
        ),
{
    let m = xs.len() as int;
    let rest = xs.drop_first();
    let d = xs[i] - xs[0];
    let n0 = -xs[0];
    let n1 = numerator(rest, i - 1, m - 1);
    let d1 = denominator(rest, i - 1, m - 1);
    lemma_products_drop_first(xs, i, m - 1);
    assert(unreduced_coeff(xs, i, q) == (n1 * n0) * pow(d1 * d, (q - 2) as nat));
    assert(unreduced_coeff(rest, i - 1, q) == n1 * pow(d1, (q - 2) as nat));
    lemma_coeff_factor(n1, d1, n0, d, q);
    lemma_coeff_unreduced(xs, i, q);
    lemma_coeff_unreduced(rest, i - 1, q);
    lemma_congruent_mul(d, d, lagrange_coeff(xs, i, q), unreduced_coeff(xs, i, q), q);
    lemma_congruent_mul(n0, n0, lagrange_coeff(rest, i - 1, q), unreduced_coeff(rest, i - 1, q), q);
}

/// The weighted sum is linear in the values.
proof fn lemma_sum_linear(
    xs: Seq<int>,
    ys: Seq<int>,
    us: Seq<int>,
    vs: Seq<int>,
    alpha: int,
    beta: int,
    k: int,
    q: int,
)
    requires
        forall|i: int| 0 <= i < k ==> #[trigger] ys[i] == alpha * us[i] + beta * vs[i],
    ensures
        weighted_sum(xs, ys, k, q) == alpha * weighted_sum(xs, us, k, q) + beta * weighted_sum(
            xs,
            vs,
            k,
            q,
        ),
    decreases k,
{
    if k <= 0 {
        assert(alpha * 0 + beta * 0 == 0);
    } else {
        lemma_sum_linear(xs, ys, us, vs, alpha, beta, k - 1, q);
        let w = lagrange_coeff(xs, k - 1, q);
        let su = weighted_sum(xs, us, k - 1, q);
        let sv = weighted_sum(xs, vs, k - 1, q);
        assert(ys[k - 1] == alpha * us[k - 1] + beta * vs[k - 1]);
        let u = us[k - 1];
        let v = vs[k - 1];
        assert((alpha * u + beta * v) * w == alpha * (u * w) + beta * (v * w)) by (nonlinear_arith);
        assert(alpha * (su + u * w) == alpha * su + alpha * (u * w)) by (nonlinear_arith);
        assert(beta * (sv + v * w) == beta * sv + beta * (v * w)) by (nonlinear_arith);
    }
}

/// Congruent values give congruent weighted sums.
proof fn lemma_sum_congruent(xs: Seq<int>, ys: Seq<int>, zs: Seq<int>, k: int, q: int)
    requires
        q > 0,
        forall|i: int| 0 <= i < k ==> congruent(#[trigger] ys[i], zs[i], q),
    ensures
        congruent(weighted_sum(xs, ys, k, q), weighted_sum(xs, zs, k, q), q),
    decreases k,
{
    if k > 0 {
        lemma_sum_congruent(xs, ys, zs, k - 1, q);
        let w = lagrange_coeff(xs, k - 1, q);
        assert(congruent(ys[k - 1], zs[k - 1], q));
        lemma_congruent_mul(ys[k - 1], zs[k - 1], w, w, q);
        lemma_congruent_add(
            weighted_sum(xs, ys, k - 1, q),
            weighted_sum(xs, zs, k - 1, q),
            ys[k - 1] * w,
            zs[k - 1] * w,
            q,
        );
    }
}

/// Distinct points stay distinct without the last of them.
pub proof fn lemma_distinct_drop_last(xs: Seq<int>, q: int)
    requires
        distinct_mod(xs, q),
        xs.len() >= 1,
    ensures
        distinct_mod(xs.drop_last(), q),
{
    let rest = xs.drop_last();
    assert forall|i: int, j: int|
        #![trigger rest[i], rest[j]]
        0 <= i < rest.len() && 0 <= j < rest.len() && i != j implies (rest[i] - rest[j]) % q
        != 0 by {
        assert(rest[i] == xs[i] && rest[j] == xs[j]);
    }
}

/// Distinct points stay distinct without the first of them.
proof fn lemma_distinct_drop_first(xs: Seq<int>, q: int)
    requires
        distinct_mod(xs, q),
        xs.len() >= 1,
    ensures
        distinct_mod(xs.drop_first(), q),
{
    let rest = xs.drop_first();
    assert forall|i: int, j: int|
        #![trigger rest[i], rest[j]]
        0 <= i < rest.len() && 0 <= j < rest.len() && i != j implies (rest[i] - rest[j]) % q
        != 0 by {
        assert(rest[i] == xs[i + 1] && rest[j] == xs[j + 1]);
    }
}

/// Values that vanish at the last point: the partial sums over all points
/// against those over all but the last.
proof fn lemma_sum_drop_last_upto(xs: Seq<int>, ys: Seq<int>, hs: Seq<int>, k: int, q: int)
    requires
        is_prime(q),
        distinct_mod(xs, q),
        xs.len() >= 1,
        ys.len() == xs.len(),
        hs.len() == xs.len(),
        forall|i: int| 0 <= i < xs.len() ==> #[trigger] ys[i] == (xs[i] - xs.last()) * hs[i],
        0 <= k <= xs.len() - 1,
    ensures
        congruent(
            weighted_sum(xs, ys, k, q),
            (-xs.last()) * weighted_sum(xs.drop_last(), hs.drop_last(), k, q),
            q,
        ),
    decreases k,
{
    let a = -xs.last();
    if k <= 0 {
        assert(a * 0 == 0);
    } else {
        let i = k - 1;
        lemma_sum_drop_last_upto(xs, ys, hs, i, q);
        lemma_coeff_drop_last(xs, i, q);
        let w = lagrange_coeff(xs, i, q);
        let w1 = lagrange_coeff(xs.drop_last(), i, q);
        let d = xs[i] - xs.last();
        let s1 = weighted_sum(xs.drop_last(), hs.drop_last(), i, q);
        assert(ys[i] == d * hs[i]);
        assert(hs.drop_last()[i] == hs[i]);
        lemma_congruent_mul(hs[i], hs[i], d * w, a * w1, q);
        assert(ys[i] * w == hs[i] * (d * w)) by (nonlinear_arith)
            requires
                ys[i] == d * hs[i],
        ;
        lemma_congruent_add(weighted_sum(xs, ys, i, q), a * s1, ys[i] * w, hs[i] * (a * w1), q);
        assert(a * s1 + hs[i] * (a * w1) == a * (s1 + hs[i] * w1)) by (nonlinear_arith);
    }
}

/// Values that vanish at the last point: their weighted sum is `-x` for
/// that point `x` times the weighted sum of the cofactors over the rest.
proof fn lemma_sum_drop_last(xs: Seq<int>, ys: Seq<int>, hs: Seq<int>, q: int)
    requires
        is_prime(q),
        distinct_mod(xs, q),
        xs.len() >= 1,
        ys.len() == xs.len(),
        hs.len() == xs.len(),
        forall|i: int| 0 <= i < xs.len() ==> #[trigger] ys[i] == (xs[i] - xs.last()) * hs[i],
    ensures
        congruent(
            weighted_sum(xs, ys, xs.len() as int, q),
            (-xs.last()) * weighted_sum(
                xs.drop_last(),
                hs.drop_last(),
                xs.len() as int - 1,
                q,
            ),
            q,
        ),
{
    let m = xs.len() as int;
    lemma_sum_drop_last_upto(xs, ys, hs, m - 1, q);
    assert(ys[m - 1] == (xs[m - 1] - xs.last()) * hs[m - 1]);
    assert(ys[m - 1] == 0) by (nonlinear_arith)
        requires
            ys[m - 1] == (xs[m - 1] - xs[m - 1]) * hs[m - 1],
    ;
    assert(ys[m - 1] * lagrange_coeff(xs, m - 1, q) == 0) by (nonlinear_arith)
        requires
            ys[m - 1] == 0,
    ;
}

/// Values that vanish at the first point: the partial sums over all points
/// against those over all but the first.
proof fn lemma_sum_drop_first_upto(xs: Seq<int>, ys: Seq<int>, hs: Seq<int>, k: int, q: int)
    requires
        is_prime(q),
        distinct_mod(xs, q),
        xs.len() >= 1,
        ys.len() == xs.len(),
        hs.len() == xs.len(),
        forall|i: int| 0 <= i < xs.len() ==> #[trigger] ys[i] == (xs[i] - xs[0]) * hs[i],
        0 <= k <= xs.len() - 1,
    ensures
        congruent(
            weighted_sum(xs, ys, k + 1, q),
            (-xs[0]) * weighted_sum(xs.drop_first(), hs.drop_first(), k, q),
            q,
        ),
    decreases k,
{
    let a = -xs[0];
    if k <= 0 {
        assert(ys[0] == (xs[0] - xs[0]) * hs[0]);
        assert(ys[0] == 0) by (nonlinear_arith)
            requires
                ys[0] == (xs[0] - xs[0]) * hs[0],
        ;
        assert(weighted_sum(xs, ys, 0, q) == 0);
        assert(weighted_sum(xs, ys, 1, q) == weighted_sum(xs, ys, 0, q) + ys[0] * lagrange_coeff(
            xs,
            0,
            q,
        ));
        assert(ys[0] * lagrange_coeff(xs, 0, q) == 0) by (nonlinear_arith)
            requires
                ys[0] == 0,
        ;
        assert(a * 0 == 0);
    } else {
        let i = k - 1;
        lemma_sum_drop_first_upto(xs, ys, hs, i, q);
        lemma_coeff_drop_first(xs, k, q);
        let w = lagrange_coeff(xs, k, q);
        let w1 = lagrange_coeff(xs.drop_first(), i, q);
        let d = xs[k] - xs[0];
        let s1 = weighted_sum(xs.drop_first(), hs.drop_first(), i, q);
        assert(ys[k] == d * hs[k]);
        assert(hs.drop_first()[i] == hs[k]);
        lemma_congruent_mul(hs[k], hs[k], d * w, a * w1, q);
        assert(ys[k] * w == hs[k] * (d * w)) by (nonlinear_arith)
            requires
                ys[k] == d * hs[k],
        ;
        lemma_congruent_add(weighted_sum(xs, ys, k, q), a * s1, ys[k] * w, hs[k] * (a * w1), q);
        assert(a * s1 + hs[k] * (a * w1) == a * (s1 + hs[k] * w1)) by (nonlinear_arith);
    }
}

/// The sequence of `m` ones.
pub open spec fn ones(m: nat) -> Seq<int> {
    Seq::new(m, |i: int| 1int)
}

/// The Lagrange coefficients at zero add up to 1 in the field.
proof fn lemma_coeffs_sum_to_one(xs: Seq<int>, q: int)
    requires
        is_prime(q),
        distinct_mod(xs, q),
        xs.len() >= 1,
    ensures
        congruent(weighted_sum(xs, ones(xs.len()), xs.len() as int, q), 1, q),
    decreases xs.len(),
{
    let m = xs.len() as int;
    let all = ones(xs.len());
    if m == 1 {
        let e = (q - 2) as nat;
        assert(numerator(xs, 0, 0) == 1);
        assert(numerator(xs, 0, 1) == 1);
        assert(denominator(xs, 0, 0) == 1);
        assert(denominator(xs, 0, 1) == 1);
        lemma_small_mod(1, q as nat);
        lemma1_pow(e);
        assert(lagrange_num(xs, 0, q) == 1);
        assert(lagrange_den(xs, 0, q) == 1);
        let inverse = field_inverse(lagrange_den(xs, 0, q), q);
        assert(inverse == 1);
        assert(lagrange_num(xs, 0, q) * inverse == 1) by (nonlinear_arith)
            requires
                lagrange_num(xs, 0, q) == 1,
                inverse == 1,
        ;
        assert(lagrange_coeff(xs, 0, q) == 1);
        assert(weighted_sum(xs, all, 0, q) == 0);
        assert(weighted_sum(xs, all, 1, q) == weighted_sum(xs, all, 0, q) + all[0]
            * lagrange_coeff(xs, 0, q));
    } else {
        let first = xs[0];
        let last = xs[m - 1];
        let c = last - first;
        let s = weighted_sum(xs, all, m, q);
        let from_first = Seq::new(xs.len(), |i: int| (xs[i] - xs[0]) * all[i]);
        let from_last = Seq::new(xs.len(), |i: int| (xs[i] - xs.last()) * all[i]);
        let scaled = Seq::new(xs.len(), |i: int| c * all[i]);
        // Without the first point, and without the last, the sum is 1.
        lemma_distinct_drop_first(xs, q);
        lemma_distinct_drop_last(xs, q);
        lemma_coeffs_sum_to_one(xs.drop_first(), q);
        lemma_coeffs_sum_to_one(xs.drop_last(), q);
        assert(all.drop_first() =~= ones((m - 1) as nat));
        assert(all.drop_last() =~= ones((m - 1) as nat));
        let s_first = weighted_sum(xs.drop_first(), ones((m - 1) as nat), m - 1, q);
        let s_last = weighted_sum(xs.drop_last(), ones((m - 1) as nat), m - 1, q);
        lemma_sum_drop_first_upto(xs, from_first, all, m - 1, q);
        lemma_sum_drop_last(xs, from_last, all, q);
        let t_first = weighted_sum(xs, from_first, m, q);
        let t_last = weighted_sum(xs, from_last, m, q);
        lemma_congruent_mul(-first, -first, s_first, 1, q);
        lemma_congruent_mul(-last, -last, s_last, 1, q);
        assert(congruent(t_first, (-first) * 1, q));
        assert(congruent(t_last, (-last) * 1, q));
        // The difference of the two is the sum scaled by `last - first`.
        assert forall|i: int| 0 <= i < m implies #[trigger] scaled[i] == 1 * from_first[i] + (-1)
            * from_last[i] by {
            assert(c * all[i] == 1 * ((xs[i] - first) * all[i]) + (-1) * ((xs[i] - last)
                * all[i])) by (nonlinear_arith)
                requires
                    c == last - first,
            ;
        }
        lemma_sum_linear(xs, scaled, from_first, from_last, 1, -1, m, q);
        assert forall|i: int| 0 <= i < m implies #[trigger] scaled[i] == c * all[i] + 0 * all[i] by {
            assert(0 * all[i] == 0);
        }
        lemma_sum_linear(xs, scaled, all, all, c, 0, m, q);
        assert(0 * s == 0);
        assert(c * s == 1 * t_first + (-1) * t_last);
        assert(c * s == t_first - t_last);
        lemma_congruent_sub(t_first, (-first) * 1, t_last, (-last) * 1, q);
        assert(congruent(c * s, c, q));
        // Cancel `last - first`, which is not zero in the field.
        lemma_mod_equivalence(c * s, c, q);
        assert(c * (s - 1) == c * s - c) by (nonlinear_arith);
        lemma_prime_divides_product(q, c, s - 1);
        assert(c % q != 0) by {
            assert((xs[m - 1] - xs[0]) % q != 0);
        }
        lemma_mod_equivalence(s, 1, q);
    }
}

/// The values of a polynomial at the points.
pub open spec fn values_at(coeffs: Seq<int>, xs: Seq<int>) -> Seq<int> {
    Seq::new(xs.len(), |i: int| poly_value(coeffs, xs[i]))
}

/// One coefficient less: the weighted sum of the values of a polynomial, in
/// terms of those of the polynomial of its other coefficients, over all
/// points and over all but the last.
proof fn lemma_interpolation_step(coeffs: Seq<int>, xs: Seq<int>, q: int)
    requires
        is_prime(q),
        distinct_mod(xs, q),
        coeffs.len() >= 1,
        xs.len() >= 1,
    ensures
        congruent(
            weighted_sum(xs, values_at(coeffs, xs), xs.len() as int, q),
            coeffs[0] + ((-xs.last()) * weighted_sum(
                xs.drop_last(),
                values_at(coeffs.drop_first(), xs.drop_last()),
                xs.len() as int - 1,
                q,
            ) + xs.last() * weighted_sum(
                xs,
                values_at(coeffs.drop_first(), xs),
                xs.len() as int,
                q,
            )),
            q,
        ),
{
    let m = xs.len() as int;
    let ys = values_at(coeffs, xs);
    let c0 = coeffs[0];
    let g = coeffs.drop_first();
    let last = xs[m - 1];
    let rest = xs.drop_last();
    let all = ones(xs.len());
    let gs = values_at(g, xs);
    let vanishing = Seq::new(xs.len(), |i: int| (xs[i] - xs.last()) * gs[i]);
    let higher = Seq::new(xs.len(), |i: int| 1 * vanishing[i] + last * gs[i]);
    // The value is the constant term plus `x` times the value of the
    // polynomial of the other coefficients.
    assert forall|i: int| 0 <= i < m implies #[trigger] ys[i] == c0 * all[i] + 1 * higher[i] by {
        assert(ys[i] == c0 + xs[i] * gs[i]);
        assert(c0 + xs[i] * gs[i] == c0 * 1 + 1 * (1 * ((xs[i] - last) * gs[i]) + last * gs[i]))
            by (nonlinear_arith);
    }
    lemma_sum_linear(xs, ys, all, higher, c0, 1, m, q);
    lemma_sum_linear(xs, higher, vanishing, gs, 1, last, m, q);
    let s_all = weighted_sum(xs, all, m, q);
    let s_vanishing = weighted_sum(xs, vanishing, m, q);
    let s_gs = weighted_sum(xs, gs, m, q);
    assert(weighted_sum(xs, ys, m, q) == c0 * s_all + (s_vanishing + last * s_gs));
    // The constant part, and the part that vanishes at the last point.
    lemma_coeffs_sum_to_one(xs, q);
    lemma_sum_drop_last(xs, vanishing, gs, q);
    assert(gs.drop_last() =~= values_at(g, rest));
    lemma_congruent_mul(c0, c0, s_all, 1, q);
    lemma_congruent_add(
        s_vanishing,
        (-last) * weighted_sum(rest, values_at(g, rest), m - 1, q),
        last * s_gs,
        last * s_gs,
        q,
    );
    lemma_congruent_add(
        c0 * s_all,
        c0 * 1,
        s_vanishing + last * s_gs,
        (-last) * weighted_sum(rest, values_at(g, rest), m - 1, q) + last * s_gs,
        q,
    );
}

/// Interpolating the exact values of a polynomial with no more coefficients
/// than there are points gives its constant term, modulo `q`.
proof fn lemma_interpolation_exact(coeffs: Seq<int>, xs: Seq<int>, q: int)
    requires
        is_prime(q),
        distinct_mod(xs, q),
        coeffs.len() <= xs.len(),
    ensures
        congruent(
            weighted_sum(xs, values_at(coeffs, xs), xs.len() as int, q),
            poly_value(coeffs, 0),
            q,
        ),
    decreases xs.len(), coeffs.len(),
{
    let m = xs.len() as int;
    let ys = values_at(coeffs, xs);
    if coeffs.len() == 0 {
        assert forall|i: int| 0 <= i < m implies #[trigger] ys[i] == 0 * ys[i] + 0 * ys[i] by {
            assert(0 * ys[i] == 0);
        }
        lemma_sum_linear(xs, ys, ys, ys, 0, 0, m, q);
        assert(0 * weighted_sum(xs, ys, m, q) == 0);
    } else {
        let c0 = coeffs[0];
        let g = coeffs.drop_first();
        let g0 = poly_value(g, 0);
        let last = xs[m - 1];
        let rest = xs.drop_last();
        let s_rest = weighted_sum(rest, values_at(g, rest), m - 1, q);
        let s_gs = weighted_sum(xs, values_at(g, xs), m, q);
        lemma_interpolation_step(coeffs, xs, q);
        lemma_distinct_drop_last(xs, q);
        lemma_interpolation_exact(g, rest, q);
        lemma_interpolation_exact(g, xs, q);
        lemma_congruent_mul(-last, -last, s_rest, g0, q);
        lemma_congruent_mul(last, last, s_gs, g0, q);
        lemma_congruent_add((-last) * s_rest, (-last) * g0, last * s_gs, last * g0, q);
        lemma_congruent_add(
            c0,
            c0,
            (-last) * s_rest + last * s_gs,
            (-last) * g0 + last * g0,
            q,
        );
        assert(c0 + ((-last) * g0 + last * g0) == c0) by (nonlinear_arith);
        assert(poly_value(coeffs, 0) == c0 + 0 * poly_value(g, 0));
        assert(0 * poly_value(g, 0) == 0);
    }
}

/// The product of `-xs[i]` over all the points.
pub open spec fn negated_product(xs: Seq<int>) -> int
    decreases xs.len(),
{
    if xs.len() == 0 {
        1
    } else {
        negated_product(xs.drop_last()) * (-xs.last())
    }
}

/// Interpolating the exact values of a polynomial with one coefficient more
/// than there are points misses its constant term by the top coefficient
/// times the product of the negated points.
proof fn lemma_interpolation_one_short(coeffs: Seq<int>, xs: Seq<int>, q: int)
    requires
        is_prime(q),
        distinct_mod(xs, q),
        coeffs.len() == xs.len() + 1,
    ensures
        congruent(
            weighted_sum(xs, values_at(coeffs, xs), xs.len() as int, q),
            coeffs[0] - coeffs.last() * negated_product(xs),
            q,
        ),
    decreases xs.len(),
{
    let m = xs.len() as int;
    let c0 = coeffs[0];
    let top = coeffs.last();
    if m == 0 {
        assert(negated_product(xs) == 1);
        assert(c0 - top * 1 == 0);
    } else {
        let g = coeffs.drop_first();
        let g0 = poly_value(g, 0);
        let last = xs[m - 1];
        let rest = xs.drop_last();
        let product = negated_product(rest);
        let s_rest = weighted_sum(rest, values_at(g, rest), m - 1, q);
        let s_gs = weighted_sum(xs, values_at(g, xs), m, q);
        lemma_interpolation_step(coeffs, xs, q);
        lemma_distinct_drop_last(xs, q);
        lemma_interpolation_one_short(g, rest, q);
        lemma_interpolation_exact(g, xs, q);
        assert(g.last() == top);
        assert(poly_value(g, 0) == g[0] + 0 * poly_value(g.drop_first(), 0));
        assert(0 * poly_value(g.drop_first(), 0) == 0);
        lemma_congruent_mul(-last, -last, s_rest, g0 - top * product, q);
        lemma_congruent_mul(last, last, s_gs, g0, q);
        lemma_congruent_add(
            (-last) * s_rest,
            (-last) * (g0 - top * product),
            last * s_gs,
            last * g0,
            q,
        );
        lemma_congruent_add(
            c0,
            c0,
            (-last) * s_rest + last * s_gs,
            (-last) * (g0 - top * product) + last * g0,
            q,
        );
        assert(c0 + ((-last) * (g0 - top * product) + last * g0) == c0 - top * (product * (-last)))
            by (nonlinear_arith);
    }
}

/// The product of negated points that are not zero in the field is not zero
/// there.
proof fn lemma_negated_product_nonzero(xs: Seq<int>, q: int)
    requires
        is_prime(q),
        forall|i: int| 0 <= i < xs.len() ==> #[trigger] xs[i] % q != 0,
    ensures
        negated_product(xs) % q != 0,
    decreases xs.len(),
{
    if xs.len() == 0 {
        lemma_small_mod(1, q as nat);
    } else {
        let rest = xs.drop_last();
        assert forall|i: int| 0 <= i < rest.len() implies #[trigger] rest[i] % q != 0 by {
            assert(rest[i] == xs[i]);
        }
        lemma_negated_product_nonzero(rest, q);
        let last = xs.last();
        assert(xs[xs.len() - 1] % q != 0);
        if (-last) % q == 0 {
            lemma_mod_equivalence(0, last, q);
            lemma_mod_equivalence(last, 0, q);
            lemma_small_mod(0, q as nat);
        }
        if negated_product(xs) % q == 0 {
            lemma_prime_divides_product(q, negated_product(rest), -last);
        }
    }
}

/// One point too few: from the values of a polynomial with one coefficient
/// more than there are points, taken at points that differ and are not zero
/// modulo the prime `q`, interpolation at zero gives the constant term
/// exactly when the top coefficient is zero in the field.
pub proof fn lemma_interpolation_one_point_short(
    coeffs: Seq<int>,
    xs: Seq<int>,
    ys: Seq<int>,
    q: int,
)
    requires
        is_prime(q),
        distinct_mod(xs, q),
        forall|i: int| 0 <= i < xs.len() ==> #[trigger] xs[i] % q != 0,
        coeffs.len() == xs.len() + 1,
        ys.len() == xs.len(),
        forall|i: int| 0 <= i < xs.len() ==> congruent(#[trigger] ys[i], poly_value(coeffs, xs[i]), q),
    ensures
        interpolate_at_zero(xs, ys, q) == coeffs[0] % q <==> coeffs.last() % q == 0,
{
    let exact = values_at(coeffs, xs);
    let top = coeffs.last();
    let product = negated_product(xs);
    let s = weighted_sum(xs, ys, xs.len() as int, q);
    assert forall|i: int| 0 <= i < xs.len() implies congruent(#[trigger] ys[i], exact[i], q) by {}
    lemma_sum_congruent(xs, ys, exact, xs.len() as int, q);
    lemma_interpolation_one_short(coeffs, xs, q);
    lemma_negated_product_nonzero(xs, q);
    assert(congruent(s, coeffs[0] - top * product, q));
    lemma_mod_equivalence(coeffs[0] - top * product, coeffs[0], q);
    assert((coeffs[0] - top * product) - coeffs[0] == -(top * product));
    lemma_mod_equivalence(0, top * product, q);
    lemma_mod_equivalence(top * product, 0, q);
    lemma_small_mod(0, q as nat);
    if top % q == 0 {
        lemma_mul_mod_noop_general(top, product, q);
        assert(0 * (product % q) == 0);
    }
    if (top * product) % q == 0 {
        lemma_prime_divides_product(q, top, product);
    }
}

/// Lagrange interpolation at zero recovers the constant term: from values
/// that agree in the field with those of a polynomial with no more
/// coefficients than there are points, taken at points that differ modulo
/// the prime `q`.
pub proof fn lemma_interpolation_recovers(coeffs: Seq<int>, xs: Seq<int>, ys: Seq<int>, q: int)
    requires
        is_prime(q),
        distinct_mod(xs, q),
        coeffs.len() <= xs.len(),
        ys.len() == xs.len(),
        forall|i: int| 0 <= i < xs.len() ==> congruent(#[trigger] ys[i], poly_value(coeffs, xs[i]), q),
    ensures
        interpolate_at_zero(xs, ys, q) == poly_value(coeffs, 0) % q,
{
    let exact = values_at(coeffs, xs);
    assert forall|i: int| 0 <= i < xs.len() implies congruent(#[trigger] ys[i], exact[i], q) by {}
    lemma_sum_congruent(xs, ys, exact, xs.len() as int, q);
    lemma_interpolation_exact(coeffs, xs, q);
}

/// The partial products of a denominator are not zero in the field.
proof fn lemma_denominator_nonzero(xs: Seq<int>, i: int, k: int, q: int)
    requires
        is_prime(q),
        distinct_mod(xs, q),
        0 <= i < xs.len(),
        0 <= k <= xs.len(),
    ensures
        denominator(xs, i, k) % q != 0,
    decreases k,
{
    if k <= 0 {
        lemma_small_mod(1, q as nat);
    } else {
        lemma_denominator_nonzero(xs, i, k - 1, q);
        if k - 1 != i {
            assert((xs[i] - xs[k - 1]) % q != 0);
            if denominator(xs, i, k) % q == 0 {
                lemma_prime_divides_product(q, denominator(xs, i, k - 1), xs[i] - xs[k - 1]);
            }
        }
    }
}

/// With a prime modulus, points that differ modulo it are not degenerate.
pub proof fn lemma_distinct_not_degenerate(xs: Seq<int>, q: int)
    requires
        is_prime(q),
        distinct_mod(xs, q),
    ensures
        !is_degenerate(xs, q),
{
    assert forall|i: int| 0 <= i < xs.len() implies #[trigger] lagrange_den(xs, i, q) != 0 by {
        lemma_denominator_nonzero(xs, i, xs.len() as int, q);
    }
}

} // verus!
