//! What fewer shares than the threshold tell of the secret: nothing. With
//! the secret held fixed, the coefficients that the dealer draws and the
//! values of any `threshold - 1` shares determine each other, so every
//! tuple of share values comes from exactly one draw, whatever the secret.

use crate::vss::field::{
    congruent, field_inverse, is_prime, lemma_congruent_add, lemma_congruent_mul,
    lemma_congruent_remainder, lemma_congruent_sub, lemma_field_inverse, lemma_negation_nonzero,
    lemma_prime_divides_product, lemma_small_multiple_is_zero,
};
use crate::vss::lagrange::{
    distinct_mod, lemma_distinct_drop_last, lemma_interpolation_recovers, values_at,
};
use crate::vss::polynomial::{poly_eval, poly_value};
use vstd::arithmetic::div_mod::{lemma_mod_bound, lemma_mod_equivalence, lemma_small_mod};
use vstd::prelude::*;

verus! {

/// The coefficients of the difference of two polynomials.
pub open spec fn difference(cs: Seq<int>, ds: Seq<int>) -> Seq<int> {
    Seq::new(cs.len(), |k: int| cs[k] - ds[k])
}

/// The difference of two polynomials takes the difference of their values.
proof fn lemma_difference_value(cs: Seq<int>, ds: Seq<int>, x: int)
    requires
        cs.len() == ds.len(),
    ensures
        poly_value(difference(cs, ds), x) == poly_value(cs, x) - poly_value(ds, x),
    decreases cs.len(),
{
    if cs.len() > 0 {
        lemma_difference_value(cs.drop_first(), ds.drop_first(), x);
        assert(difference(cs, ds).drop_first() =~= difference(cs.drop_first(), ds.drop_first()));
        let c = poly_value(cs.drop_first(), x);
        let d = poly_value(ds.drop_first(), x);
        assert(x * (c - d) == x * c - x * d) by (nonlinear_arith);
    }
}

/// Polynomials whose coefficients agree in the field take values that
/// agree in the field.
proof fn lemma_congruent_coefficients(cs: Seq<int>, ds: Seq<int>, x: int, q: int)
    requires
        q > 0,
        cs.len() == ds.len(),
        forall|k: int| 0 <= k < cs.len() ==> congruent(#[trigger] cs[k], ds[k], q),
    ensures
        congruent(poly_value(cs, x), poly_value(ds, x), q),
    decreases cs.len(),
{
    if cs.len() > 0 {
        let cr = cs.drop_first();
        let dr = ds.drop_first();
        assert forall|k: int| 0 <= k < cr.len() implies congruent(#[trigger] cr[k], dr[k], q) by {
            assert(congruent(cs[k + 1], ds[k + 1], q));
        }
        lemma_congruent_coefficients(cr, dr, x, q);
        assert(congruent(cs[0], ds[0], q));
        lemma_congruent_mul(x, x, poly_value(cr, x), poly_value(dr, x), q);
        lemma_congruent_add(cs[0], ds[0], x * poly_value(cr, x), x * poly_value(dr, x), q);
    }
}

/// A polynomial that is zero in the field at as many points as it has
/// coefficients, or more, has only coefficients that are zero in the
/// field. The points differ and are not zero modulo the prime `q`.
proof fn lemma_vanishing_polynomial(coeffs: Seq<int>, xs: Seq<int>, q: int)
    requires
        is_prime(q),
        distinct_mod(xs, q),
        forall|i: int| 0 <= i < xs.len() ==> #[trigger] xs[i] % q != 0,
        coeffs.len() <= xs.len(),
        forall|i: int| 0 <= i < xs.len() ==> poly_value(coeffs, #[trigger] xs[i]) % q == 0,
    ensures
        forall|k: int| 0 <= k < coeffs.len() ==> #[trigger] coeffs[k] % q == 0,
    decreases coeffs.len(),
{
    if coeffs.len() > 0 {
        let c0 = coeffs[0];
        let g = coeffs.drop_first();
        let ys = values_at(coeffs, xs);
        // Interpolation gives the constant term, and it gives zero.
        lemma_small_mod(0, q as nat);
        assert(poly_value(Seq::<int>::empty(), 0) == 0);
        assert forall|i: int| 0 <= i < xs.len() implies congruent(
            #[trigger] ys[i],
            poly_value(Seq::<int>::empty(), xs[i]),
            q,
        ) by {
            assert(poly_value(coeffs, xs[i]) % q == 0);
            assert(poly_value(Seq::<int>::empty(), xs[i]) == 0);
        }
        lemma_interpolation_recovers(coeffs, xs, ys, q);
        lemma_interpolation_recovers(Seq::<int>::empty(), xs, ys, q);
        assert(poly_value(coeffs, 0) == c0 + 0 * poly_value(g, 0));
        assert(0 * poly_value(g, 0) == 0);
        assert(c0 % q == 0);
        // So the polynomial of the other coefficients is zero at the points.
        assert forall|i: int| 0 <= i < xs.len() implies poly_value(g, #[trigger] xs[i]) % q
            == 0 by {
            let x = xs[i];
            let v = poly_value(g, x);
            assert(poly_value(coeffs, x) == c0 + x * v);
            assert(poly_value(coeffs, x) % q == 0);
            lemma_congruent_sub(c0 + x * v, 0, c0, 0, q);
            assert((c0 + x * v) - c0 == x * v);
            lemma_prime_divides_product(q, x, v);
        }
        lemma_vanishing_polynomial(g, xs, q);
        assert forall|k: int| 0 <= k < coeffs.len() implies #[trigger] coeffs[k] % q == 0 by {
            if k > 0 {
                assert(g[k - 1] == coeffs[k]);
                assert(g[k - 1] % q == 0);
            }
        }
    }
}

/// One share too few fixes the draw: two dealings of one secret whose
/// shares agree at `threshold - 1` points have the same coefficients. The
/// points differ and are not zero modulo the prime `q`, and the drawn
/// coefficients are field elements.
pub proof fn lemma_few_shares_fix_coefficients(cs: Seq<int>, ds: Seq<int>, xs: Seq<int>, q: int)
    requires
        is_prime(q),
        distinct_mod(xs, q),
        forall|i: int| 0 <= i < xs.len() ==> #[trigger] xs[i] % q != 0,
        cs.len() == xs.len() + 1,
        ds.len() == xs.len() + 1,
        cs[0] == ds[0],
        forall|k: int| 1 <= k < cs.len() ==> 0 <= #[trigger] cs[k] < q,
        forall|k: int| 1 <= k < ds.len() ==> 0 <= #[trigger] ds[k] < q,
        forall|i: int|
            0 <= i < xs.len() ==> poly_eval(cs, #[trigger] xs[i], q) == poly_eval(ds, xs[i], q),
    ensures
        cs == ds,
{
    let diff = difference(cs, ds);
    let h = diff.drop_first();
    assert forall|i: int| 0 <= i < xs.len() implies poly_value(h, #[trigger] xs[i]) % q == 0 by {
        let x = xs[i];
        let v = poly_value(h, x);
        lemma_difference_value(cs, ds, x);
        assert(poly_eval(cs, x, q) == poly_eval(ds, x, q));
        lemma_mod_equivalence(poly_value(cs, x), poly_value(ds, x), q);
        assert(poly_value(diff, x) == diff[0] + x * v);
        assert(diff[0] == 0);
        lemma_prime_divides_product(q, x, v);
    }
    lemma_vanishing_polynomial(h, xs, q);
    assert forall|k: int| 0 <= k < cs.len() implies cs[k] == ds[k] by {
        if k > 0 {
            assert(h[k - 1] == cs[k] - ds[k]);
            assert(h[k - 1] % q == 0);
            assert(0 <= cs[k] < q && 0 <= ds[k] < q);
            lemma_small_multiple_is_zero(cs[k] - ds[k], q);
        }
    }
    assert(cs =~= ds);
}

/// The coefficients of `v + (X - a) * h(X)`.
pub open spec fn through_point(h: Seq<int>, a: int, v: int) -> Seq<int> {
    Seq::new(
        h.len() + 1,
        |k: int|
            (if k == 0 {
                v
            } else {
                h[k - 1]
            }) - (if k < h.len() {
                a * h[k]
            } else {
                0
            }),
    )
}

/// The polynomial `v + (X - a) * h(X)` takes the value that its name says.
proof fn lemma_through_point_value(h: Seq<int>, a: int, v: int, x: int)
    ensures
        poly_value(through_point(h, a, v), x) == v + (x - a) * poly_value(h, x),
    decreases h.len(),
{
    let p = through_point(h, a, v);
    if h.len() == 0 {
        assert(p.drop_first() =~= Seq::<int>::empty());
        assert(poly_value(p.drop_first(), x) == 0);
        assert(x * 0 == 0);
        assert((x - a) * 0 == 0);
    } else {
        let rest = h.drop_first();
        lemma_through_point_value(rest, a, h[0], x);
        assert(p.drop_first() =~= through_point(rest, a, h[0]));
        let r = poly_value(rest, x);
        assert(poly_value(p, x) == (v - a * h[0]) + x * (h[0] + (x - a) * r));
        assert(poly_value(h, x) == h[0] + x * r);
        assert((v - a * h[0]) + x * (h[0] + (x - a) * r) == v + (x - a) * (h[0] + x * r))
            by (nonlinear_arith);
    }
}

/// Through any values at points that differ modulo the prime `q` goes a
/// polynomial with as many coefficients as there are points.
proof fn lemma_polynomial_through(xs: Seq<int>, vs: Seq<int>, q: int) -> (cs: Seq<int>)
    requires
        is_prime(q),
        distinct_mod(xs, q),
        vs.len() == xs.len(),
    ensures
        cs.len() == xs.len(),
        forall|i: int| 0 <= i < xs.len() ==> congruent(poly_value(cs, #[trigger] xs[i]), vs[i], q),
    decreases xs.len(),
{
    if xs.len() == 0 {
        Seq::<int>::empty()
    } else {
        let m = xs.len() as int;
        let last = xs[m - 1];
        let v = vs[m - 1];
        let rest = xs.drop_last();
        let ws = Seq::new(
            (m - 1) as nat,
            |i: int| (vs[i] - v) * field_inverse(xs[i] - last, q),
        );
        lemma_distinct_drop_last(xs, q);
        let h = lemma_polynomial_through(rest, ws, q);
        let cs = through_point(h, last, v);
        assert forall|i: int| 0 <= i < xs.len() implies congruent(
            poly_value(cs, #[trigger] xs[i]),
            vs[i],
            q,
        ) by {
            let x = xs[i];
            lemma_through_point_value(h, last, v, x);
            if i == m - 1 {
                assert((x - last) * poly_value(h, x) == 0) by (nonlinear_arith)
                    requires
                        x == last,
                ;
            } else {
                let d = x - last;
                let inverse = field_inverse(d, q);
                assert(rest[i] == x);
                assert(congruent(poly_value(h, rest[i]), ws[i], q));
                assert(d % q != 0);
                lemma_field_inverse(d, q);
                lemma_congruent_mul(d, d, poly_value(h, x), ws[i], q);
                lemma_congruent_mul(vs[i] - v, vs[i] - v, d * inverse, 1, q);
                assert(d * ws[i] == (vs[i] - v) * (d * inverse)) by (nonlinear_arith)
                    requires
                        ws[i] == (vs[i] - v) * inverse,
                ;
                assert((vs[i] - v) * 1 == vs[i] - v);
                lemma_congruent_add(v, v, d * poly_value(h, x), vs[i] - v, q);
            }
        }
        cs
    }
}

/// One share too few allows every secret: whatever the secret and whatever
/// field elements are wanted as the values of `threshold - 1` shares, some
/// draw of coefficients deals exactly those values. The points differ and
/// are not zero modulo the prime `q`.
pub proof fn lemma_few_shares_take_any_values(secret: int, xs: Seq<int>, vs: Seq<int>, q: int) -> (cs:
    Seq<int>)
    requires
        is_prime(q),
        distinct_mod(xs, q),
        forall|i: int| 0 <= i < xs.len() ==> #[trigger] xs[i] % q != 0,
        vs.len() == xs.len(),
        forall|i: int| 0 <= i < vs.len() ==> 0 <= #[trigger] vs[i] < q,
    ensures
        cs.len() == xs.len() + 1,
        cs[0] == secret,
        forall|k: int| 1 <= k < cs.len() ==> 0 <= #[trigger] cs[k] < q,
        forall|i: int| 0 <= i < xs.len() ==> poly_eval(cs, #[trigger] xs[i], q) == vs[i],
{
    let m = xs.len() as int;
    let points = seq![0int] + xs;
    let values = seq![secret] + vs;
    assert forall|i: int, j: int|
        #![trigger points[i], points[j]]
        0 <= i < points.len() && 0 <= j < points.len() && i != j implies (points[i] - points[j])
        % q != 0 by {
        if i == 0 {
            assert(points[j] == xs[j - 1]);
            assert(xs[j - 1] % q != 0);
            lemma_negation_nonzero(xs[j - 1], q);
        } else if j == 0 {
            assert(points[i] == xs[i - 1]);
            assert(xs[i - 1] % q != 0);
        } else {
            assert(points[i] == xs[i - 1] && points[j] == xs[j - 1]);
            assert((xs[i - 1] - xs[j - 1]) % q != 0);
        }
    }
    let p = lemma_polynomial_through(points, values, q);
    let cs = Seq::new(
        (m + 1) as nat,
        |k: int|
            if k == 0 {
                secret
            } else {
                p[k] % q
            },
    );
    // The constant term of `p` is the secret in the field.
    assert(points[0] == 0 && values[0] == secret);
    assert(congruent(poly_value(p, points[0]), values[0], q));
    assert(poly_value(p, 0) == p[0] + 0 * poly_value(p.drop_first(), 0));
    assert(0 * poly_value(p.drop_first(), 0) == 0);
    assert forall|k: int| 0 <= k < cs.len() implies congruent(#[trigger] cs[k], p[k], q) by {
        if k > 0 {
            lemma_congruent_remainder(p[k], q);
        }
    }
    assert forall|k: int| 1 <= k < cs.len() implies 0 <= #[trigger] cs[k] < q by {
        lemma_mod_bound(p[k], q);
    }
    assert forall|i: int| 0 <= i < xs.len() implies poly_eval(cs, #[trigger] xs[i], q)
        == vs[i] by {
        assert(points[i + 1] == xs[i] && values[i + 1] == vs[i]);
        assert(congruent(poly_value(p, points[i + 1]), values[i + 1], q));
        lemma_congruent_coefficients(cs, p, xs[i], q);
        assert(0 <= vs[i] < q);
        lemma_small_mod(vs[i] as nat, q as nat);
    }
    cs
}

} // verus!
