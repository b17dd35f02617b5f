//! Why an honest proof is accepted: folding the values of a polynomial
//! gives the values of a polynomial of half the degree, honest triples
//! lie on a line, and the last codeword interpolates to a polynomial of
//! low degree.
use vstd::arithmetic::div_mod::*;
use vstd::arithmetic::power::*;
use vstd::prelude::*;

use crate::arith::{
    has_inverse, inverse, is_inverse, is_pow2, is_prime, lemma_add_congruent, lemma_half_order,
    lemma_inverse_is, lemma_inverse_of_powers, lemma_mul_congruent, lemma_pow_unit,
    lemma_prime_has_inverse, lemma_zero_product,
};
use crate::error::Error;
use crate::fri_math::{
    agrees, as_ints, check_last, fold, fold_value, last_domain, last_len, last_power, Params,
};
use crate::ntt_laws::{coset, lemma_eval_point, lemma_interpolate_values};
use crate::poly_laws::{
    distinct_mod, lemma_eval_beyond, lemma_eval_linear, lemma_eval_same, lemma_lagrange_sum,
};
use crate::poly_math::{
    canonical, coef, eval_sum, lemma_degree, poly_colinear, poly_degree, poly_eval,
    poly_interpolate, poly_lagrange, same_poly,
};
use crate::tree::tree_root;

verus! {

/// The polynomial folded with `alpha`: its even part plus `alpha` times
/// its odd part.
pub open spec fn fold_poly(f: Seq<int>, alpha: int, p: int) -> Seq<int> {
    Seq::new(
        ((f.len() + 1) / 2) as nat,
        |j: int| (coef(f, 2 * j) + alpha * coef(f, 2 * j + 1)) % p,
    )
}

/// The coefficients of even index.
pub open spec fn even_part(f: Seq<int>, m: nat) -> Seq<int> {
    Seq::new(m, |j: int| coef(f, 2 * j))
}

/// The coefficients of odd index.
pub open spec fn odd_part(f: Seq<int>, m: nat) -> Seq<int> {
    Seq::new(m, |j: int| coef(f, 2 * j + 1))
}

/// The values of the polynomial `f` on the `e`-th power of the first
/// domain, `len` of them.
pub open spec fn evals(params: Params, f: Seq<int>, e: nat, len: nat) -> Seq<nat> {
    Seq::new(len, |k: int| poly_eval(f, params.point(e, k as nat), params.p) as nat)
}

/// A polynomial is its even part at `x^2` plus `x` times its odd part at
/// `x^2`, whatever its length.
pub proof fn lemma_split_parts(f: Seq<int>, x: int, m: nat, n: int)
    requires
        0 <= n <= m,
    ensures
        eval_sum(f, x, 2 * n) == eval_sum(even_part(f, m), x * x, n) + x * eval_sum(
            odd_part(f, m),
            x * x,
            n,
        ),
    decreases n,
{
    if n == 0 {
        assert(x * 0 == 0);
    } else {
        lemma_split_parts(f, x, m, n - 1);
        let j = n - 1;
        let sq = x * x;
        let pe = pow(sq, j as nat);
        lemma_square_is_pow2(x);
        lemma_pow_multiplies(x, 2, j as nat);
        assert(pe == pow(x, (2 * j) as nat));
        lemma_pow_adds(x, (2 * j) as nat, 1);
        lemma_pow1(x);
        assert(pow(x, (2 * j + 1) as nat) == pe * x);
        let a = coef(f, 2 * j);
        let b = coef(f, 2 * j + 1);
        assert(coef(even_part(f, m), j) == a);
        assert(coef(odd_part(f, m), j) == b);
        let s0 = eval_sum(f, x, 2 * j);
        assert(eval_sum(f, x, 2 * j + 1) == s0 + a * pe);
        assert(eval_sum(f, x, 2 * n) == s0 + a * pe + b * (pe * x));
        let e0 = eval_sum(even_part(f, m), sq, j);
        let o0 = eval_sum(odd_part(f, m), sq, j);
        assert(eval_sum(even_part(f, m), sq, n) == e0 + a * pe);
        assert(eval_sum(odd_part(f, m), sq, n) == o0 + b * pe);
        assert(x * (o0 + b * pe) == x * o0 + b * (pe * x)) by (nonlinear_arith);
    }
}

/// Folding the values of `f` at `x` and at `-x` gives the value of the
/// folded polynomial at `x^2`.
pub proof fn lemma_fold_value(f: Seq<int>, alpha: int, x: int, nx: int, p: int)
    requires
        is_prime(p),
        2int % p != 0,
        x % p != 0,
        (x + nx) % p == 0,
    ensures
        fold_value(
            poly_eval(f, x, p),
            poly_eval(f, nx, p),
            alpha,
            inverse(x, p),
            inverse(2, p),
            p,
        ) == poly_eval(fold_poly(f, alpha, p), x * x, p),
{
    let m = ((f.len() + 1) / 2) as nat;
    let ev = even_part(f, m);
    let od = odd_part(f, m);
    let sq = x * x;
    let e = eval_sum(ev, sq, m as int);
    let o = eval_sum(od, sq, m as int);
    let a = poly_eval(f, x, p);
    let b = poly_eval(f, nx, p);
    lemma_prime_has_inverse(x, p);
    lemma_prime_has_inverse(2, p);
    let xinv = inverse(x, p);
    let tinv = inverse(2, p);
    lemma_small_mod(0, p as nat);
    lemma_small_mod(1, p as nat);
    // the value at x
    lemma_split_parts(f, x, m, m as int);
    lemma_eval_beyond(f, x, 2 * m as int);
    assert(a == (e + x * o) % p);
    // the value at -x
    lemma_split_parts(f, nx, m, m as int);
    lemma_eval_beyond(f, nx, 2 * m as int);
    assert(nx % p == (-x) % p) by {
        lemma_sub_mod_noop(x + nx, x, p);
        lemma_sub_mod_noop(0, x, p);
        assert(x + nx - x == nx);
    }
    assert((nx * nx) % p == sq % p) by {
        lemma_mul_congruent(nx, nx, -x, -x, p);
        assert((-x) * (-x) == x * x) by (nonlinear_arith);
    }
    lemma_eval_point(ev, nx * nx, sq, m as int, p);
    lemma_eval_point(od, nx * nx, sq, m as int, p);
    let en = eval_sum(ev, nx * nx, m as int);
    let on = eval_sum(od, nx * nx, m as int);
    assert(b == (en + nx * on) % p);
    lemma_mul_congruent(nx, on, -x, o, p);
    lemma_add_congruent(en, nx * on, e, (-x) * o, p);
    assert(b % p == (e - x * o) % p) by {
        lemma_mod_twice(en + nx * on, p);
        assert(e + (-x) * o == e - x * o) by (nonlinear_arith);
    }
    lemma_mod_twice(e + x * o, p);
    // the folded value
    let t = alpha * xinv;
    let s = (1 + t) * a + (1 - t) * b;
    let s1 = (1 + t) * (e + x * o) + (1 - t) * (e - x * o);
    lemma_mul_congruent(1 + t, a, 1 + t, e + x * o, p);
    lemma_mul_congruent(1 - t, b, 1 - t, e - x * o, p);
    lemma_add_congruent((1 + t) * a, (1 - t) * b, (1 + t) * (e + x * o), (1 - t) * (e - x * o), p);
    assert(s % p == s1 % p);
    let u = x * o;
    assert((1 + t) * (e + u) == e + u + t * e + t * u) by (nonlinear_arith);
    assert((1 - t) * (e - u) == e - u - t * e + t * u) by (nonlinear_arith);
    assert(t * u == (alpha * o) * (x * xinv)) by (nonlinear_arith)
        requires
            t == alpha * xinv,
            u == x * o,
    ;
    let ao = alpha * o;
    let xx = x * xinv;
    assert(2 * ao * xx == 2 * (ao * xx)) by (nonlinear_arith);
    assert(s1 == 2 * e + 2 * (t * u));
    assert(s1 == 2 * e + 2 * (alpha * o) * (x * xinv));
    lemma_mul_mod_noop_right(2 * (alpha * o), x * xinv, p);
    assert(2 * (alpha * o) * 1 == 2 * (alpha * o));
    lemma_add_congruent(2 * e, 2 * (alpha * o) * (x * xinv), 2 * e, 2 * (alpha * o), p);
    let g = e + alpha * o;
    assert(2 * e + 2 * (alpha * o) == 2 * g) by (nonlinear_arith)
        requires
            g == e + alpha * o,
    ;
    assert(s % p == (2 * g) % p);
    lemma_mul_congruent(tinv, s, tinv, 2 * g, p);
    assert(tinv * (2 * g) == (2 * tinv) * g) by (nonlinear_arith);
    lemma_mul_mod_noop_left(2 * tinv, g, p);
    assert(1 * g == g);
    assert(fold_value(a, b, alpha, xinv, tinv, p) == g % p);
    // the folded polynomial at x^2
    let fp = fold_poly(f, alpha, p);
    assert forall|j: int| 0 <= j < m implies (#[trigger] coef(fp, j)) % p == (1 * coef(ev, j)
        + alpha * coef(od, j)) % p by {
        lemma_mod_twice(coef(f, 2 * j) + alpha * coef(f, 2 * j + 1), p);
        assert(1 * coef(ev, j) == coef(ev, j));
    }
    lemma_eval_linear(fp, ev, od, 1, alpha, sq, m as int, p);
    assert(1 * e == e);
}

/// The setting in which a proof is honest: a prime field of odd
/// characteristic, a domain and an expansion factor that are powers of
/// two, an offset that is not zero, and a root of unity whose order is
/// exactly the length of the domain.
pub open spec fn sound_setup(params: Params) -> bool {
    &&& is_prime(params.p)
    &&& 2int % params.p != 0
    &&& params.wf()
    &&& is_pow2(params.len as int)
    &&& is_pow2(params.rho as int)
    &&& params.offset % params.p != 0
    &&& pow(params.omega, params.len) % params.p == 1
    &&& forall|t: nat| 0 < t < params.len ==> #[trigger] pow(params.omega, t) % params.p != 1
}

/// The setting of an honest proof as the data model has it: a prime
/// field, a domain and an expansion factor that are powers of two, an
/// offset that is not zero, and a primitive root of unity of the order of
/// the domain.
pub open spec fn honest_setup(params: Params) -> bool {
    &&& is_prime(params.p)
    &&& params.wf()
    &&& is_pow2(params.rho as int)
    &&& params.offset % params.p != 0
    &&& crate::arith::is_primitive_unity(params.omega, params.len, params.p)
}

/// An honest setting is a sound one.
pub proof fn lemma_honest_is_sound(params: Params)
    requires
        honest_setup(params),
    ensures
        sound_setup(params),
{
    let p = params.p;
    let n = params.len;
    crate::arith::lemma_primitive_order(params.omega, n, p);
    crate::fri_math::lemma_commit_count(n, params.rho, params.count);
    // a field with an element of even order has odd characteristic
    if 2int % p == 0 {
        if p > 2 {
            lemma_small_mod(2, p as nat);
        }
        let z = pow(params.omega, n / 2);
        assert(n % 2 == 0);
        lemma_pow_adds(params.omega, n / 2, n / 2);
        lemma_mul_mod_noop_general(z, z, p);
        lemma_mod_bound(z, p);
        assert((z % p) * (z % p) == 0) by (nonlinear_arith)
            requires
                z % p == 0,
        ;
        lemma_small_mod(0, p as nat);
        assert(false);
    }
}

/// The root of unity is not zero.
pub proof fn lemma_omega_unit(params: Params)
    requires
        sound_setup(params),
    ensures
        params.omega % params.p != 0,
        has_inverse(params.omega, params.p),
        has_inverse(params.offset, params.p),
        has_inverse(2, params.p),
{
    let p = params.p;
    if params.omega % p == 0 {
        lemma_pow_mod_noop(params.omega, params.len, p);
        lemma0_pow(params.len);
        lemma_small_mod(0, p as nat);
    }
    lemma_prime_has_inverse(params.omega, p);
    lemma_prime_has_inverse(params.offset, p);
    lemma_prime_has_inverse(2, p);
}

/// The points of a round: each has an inverse, the point half a length
/// further is its negative, and its square is the point of the next
/// round.
pub proof fn lemma_points(params: Params, e: nat, len: nat, k: nat)
    requires
        sound_setup(params),
        e >= 1,
        e * len == params.len,
        len >= 2,
        len % 2 == 0,
        k < len / 2,
    ensures
        params.point(e, k) % params.p != 0,
        has_inverse(params.point(e, k), params.p),
        (params.point(e, k) + params.point(e, k + len / 2)) % params.p == 0,
        (params.point(e, k) * params.point(e, k)) % params.p == params.point(2 * e, k),
{
    let p = params.p;
    let o = params.offset;
    let w = params.omega;
    let half = len / 2;
    let po = pow(o, e);
    let pw = pow(w, e * k);
    let x = po * pw;
    lemma_omega_unit(params);
    lemma_small_mod(0, p as nat);
    lemma_small_mod(1, p as nat);
    lemma_inverse_of_powers(o, inverse(o, p), e, w, inverse(w, p), e * k, p);
    assert(params.point(e, k) % p != 0) by {
        if params.point(e, k) % p == 0 {
            let r = inverse(params.point(e, k), p);
            lemma_mul_mod_noop_left(params.point(e, k), r, p);
            assert(0 * r == 0);
        }
    }
    // the point half a length further
    let z = pow(w, params.len / 2);
    assert(e * len == 2 * (e * half)) by (nonlinear_arith)
        requires
            len == 2 * half,
    ;
    assert(e * half >= 1) by (nonlinear_arith)
        requires
            e >= 1,
            half >= 1,
    ;
    assert(params.len % 2 == 0 && params.len >= 2 && e * half == params.len / 2);
    lemma_half_order(w, params.len, p);
    assert(e * (k + half) == e * k + e * half) by (nonlinear_arith);
    lemma_pow_adds(w, e * k, e * half);
    let y = po * pow(w, e * (k + half));
    assert(y == x * z) by (nonlinear_arith)
        requires
            y == po * (pw * z),
            x == po * pw,
    ;
    assert(x + x * z == x * (1 + z)) by (nonlinear_arith);
    lemma_mul_mod_noop_right(x, 1 + z, p);
    assert(x * 0 == 0);
    lemma_add_mod_noop(x, y, p);
    assert(1 + z == z + 1);
    // the square
    lemma_pow_adds(o, e, e);
    lemma_pow_adds(w, e * k, e * k);
    assert(2 * e * k == e * k + e * k) by (nonlinear_arith);
    assert(e + e == 2 * e);
    lemma_mul_mod_noop_general(x, x, p);
    assert(x * x == (po * po) * (pw * pw)) by (nonlinear_arith)
        requires
            x == po * pw,
    ;
}

/// Folding theorem: the codeword of the values of `f` on a round's
/// domain folds to the codeword of the values of the folded polynomial
/// on the next round's domain.
pub proof fn lemma_fold_evals(params: Params, f: Seq<int>, alpha: int, e: nat, len: nat)
    requires
        sound_setup(params),
        e >= 1,
        e * len == params.len,
        len >= 2,
        len % 2 == 0,
    ensures
        fold(params, evals(params, f, e, len), alpha, e) == evals(
            params,
            fold_poly(f, alpha, params.p),
            2 * e,
            len / 2,
        ),
{
    let p = params.p;
    let c = evals(params, f, e, len);
    let half = len / 2;
    let left = fold(params, c, alpha, e);
    let right = evals(params, fold_poly(f, alpha, p), 2 * e, half);
    assert forall|k: int| 0 <= k < half implies left[k] == right[k] by {
        let x = params.point(e, k as nat);
        let nx = params.point(e, (k + half) as nat);
        lemma_points(params, e, len, k as nat);
        lemma_fold_value(f, alpha, x, nx, p);
        lemma_mod_bound(eval_sum(f, x, f.len() as int), p);
        lemma_mod_bound(eval_sum(f, nx, f.len() as int), p);
        assert(c[k] as int == poly_eval(f, x, p));
        assert(c[half + k] as int == poly_eval(f, nx, p));
        let fp = fold_poly(f, alpha, p);
        let sq = params.point(2 * e, k as nat);
        lemma_mod_twice(pow(params.offset, 2 * e) * pow(params.omega, 2 * e * (k as nat)), p);
        assert(sq % p == sq);
        lemma_eval_point(fp, x * x, sq, fp.len() as int, p);
    }
    assert(left =~= right);
}

/// The difference of the values of a polynomial of degree at most two at
/// two points.
proof fn lemma_quadratic_difference(d0: int, d1: int, d2: int, x: int, y: int)
    ensures
        (d0 + d1 * x + d2 * (x * x)) - (d0 + d1 * y + d2 * (y * y)) == (x - y) * (d1 + d2 * (x
            + y)),
{
    let s = x + y;
    let t = x - y;
    assert(d1 * x - d1 * y == t * d1) by (nonlinear_arith)
        requires
            t == x - y,
    ;
    assert(x * x - y * y == t * s) by (nonlinear_arith)
        requires
            t == x - y,
            s == x + y,
    ;
    assert(d2 * (x * x) - d2 * (y * y) == d2 * (x * x - y * y)) by (nonlinear_arith);
    assert(d2 * (t * s) == t * (d2 * s)) by (nonlinear_arith);
    assert(t * (d1 + d2 * s) == t * d1 + t * (d2 * s)) by (nonlinear_arith);
}

/// A polynomial of degree at most two that is zero at three distinct
/// points has no term of degree two.
pub proof fn lemma_three_points(d0: int, d1: int, d2: int, x1: int, x2: int, x3: int, p: int)
    requires
        is_prime(p),
        (x1 - x2) % p != 0,
        (x1 - x3) % p != 0,
        (x2 - x3) % p != 0,
        (d0 + d1 * x1 + d2 * (x1 * x1)) % p == 0,
        (d0 + d1 * x2 + d2 * (x2 * x2)) % p == 0,
        (d0 + d1 * x3 + d2 * (x3 * x3)) % p == 0,
    ensures
        d2 % p == 0,
{
    let s1 = d0 + d1 * x1 + d2 * (x1 * x1);
    let s2 = d0 + d1 * x2 + d2 * (x2 * x2);
    let s3 = d0 + d1 * x3 + d2 * (x3 * x3);
    lemma_small_mod(0, p as nat);
    let u = d1 + d2 * (x1 + x2);
    let v = d1 + d2 * (x1 + x3);
    lemma_sub_mod_noop(s1, s2, p);
    lemma_quadratic_difference(d0, d1, d2, x1, x2);
    lemma_zero_product(x1 - x2, u, p);
    lemma_sub_mod_noop(s1, s3, p);
    lemma_quadratic_difference(d0, d1, d2, x1, x3);
    lemma_zero_product(x1 - x3, v, p);
    lemma_sub_mod_noop(u, v, p);
    assert(d2 * (x1 + x2) - d2 * (x1 + x3) == (x2 - x3) * d2) by (nonlinear_arith);
    assert(u - v == (x2 - x3) * d2);
    lemma_zero_product(x2 - x3, d2, p);
}

/// The value of a polynomial of at most three coefficients.
pub proof fn lemma_eval_three(c: Seq<int>, x: int, p: int)
    requires
        p > 0,
        c.len() <= 3,
    ensures
        poly_eval(c, x, p) == (coef(c, 0) + coef(c, 1) * x + coef(c, 2) * (x * x)) % p,
{
    lemma_eval_beyond(c, x, 3);
    lemma_pow0(x);
    lemma_pow1(x);
    lemma_square_is_pow2(x);
    assert(eval_sum(c, x, 0) == 0);
    assert(eval_sum(c, x, 1) == eval_sum(c, x, 0) + coef(c, 0) * pow(x, 0));
    assert(eval_sum(c, x, 2) == eval_sum(c, x, 1) + coef(c, 1) * pow(x, 1));
    assert(eval_sum(c, x, 3) == eval_sum(c, x, 2) + coef(c, 2) * pow(x, 2));
    assert(coef(c, 0) * 1 == coef(c, 0));
}

/// A difference that is not zero in the field is not zero the other way
/// round.
pub proof fn lemma_difference_symmetric(a: int, b: int, p: int)
    requires
        p > 0,
        (a - b) % p != 0,
    ensures
        (b - a) % p != 0,
{
    if (b - a) % p == 0 {
        lemma_add_mod_noop(a - b, b - a, p);
        lemma_small_mod(0, p as nat);
        lemma_mod_bound(a - b, p);
        lemma_small_mod(((a - b) % p) as nat, p as nat);
    }
}

/// Honest triples lie on a line: the values `a` at `x` and `b` at `-x`,
/// and the value that folding gives at `alpha`, pass the colinearity
/// test, as long as `alpha` is neither `x` nor `-x`.
pub proof fn lemma_fold_colinear(x: int, nx: int, alpha: int, a: int, b: int, p: int)
    requires
        is_prime(p),
        2int % p != 0,
        x % p != 0,
        (x + nx) % p == 0,
        (alpha - x) % p != 0,
        (alpha - nx) % p != 0,
    ensures
        poly_colinear(
            seq![x, nx, alpha],
            seq![a, b, fold_value(a, b, alpha, inverse(x, p), inverse(2, p), p)],
            p,
        ) == Ok::<bool, Error>(true),
{
    lemma_prime_has_inverse(x, p);
    lemma_prime_has_inverse(2, p);
    let xinv = inverse(x, p);
    let tinv = inverse(2, p);
    let c = fold_value(a, b, alpha, xinv, tinv, p);
    let xs = seq![x, nx, alpha];
    let ys = seq![a, b, c];
    lemma_small_mod(0, p as nat);
    lemma_small_mod(1, p as nat);
    // the three abscissas are distinct
    assert((x - nx) % p != 0) by {
        if (x - nx) % p == 0 {
            lemma_add_mod_noop(x - nx, x + nx, p);
            assert(x - nx + (x + nx) == 2 * x);
            lemma_zero_product(2, x, p);
        }
    }
    lemma_difference_symmetric(x, nx, p);
    lemma_difference_symmetric(alpha, x, p);
    lemma_difference_symmetric(alpha, nx, p);
    assert(distinct_mod(xs, p)) by {
        assert forall|i: int, j: int|
            #![trigger xs[i], xs[j]]
            0 <= i < xs.len() && 0 <= j < xs.len() && i != j implies (xs[i] - xs[j]) % p != 0 by {}
    }
    lemma_lagrange_sum(xs, ys, 3, p);
    let l = poly_lagrange(xs, ys, p).unwrap();
    assert(xs[0] == x && xs[1] == nx && xs[2] == alpha);
    assert(ys[0] == a && ys[1] == b && ys[2] == c);
    assert(poly_eval(l, x, p) == a % p);
    assert(poly_eval(l, nx, p) == b % p);
    assert(poly_eval(l, alpha, p) == c % p);
    lemma_eval_three(l, x, p);
    lemma_eval_three(l, nx, p);
    lemma_eval_three(l, alpha, p);
    // the line through the first two points
    let m0 = (a + b) * tinv;
    let m1 = (a - b) * tinv * xinv;
    let l0 = coef(l, 0);
    let l1 = coef(l, 1);
    let l2 = coef(l, 2);
    // its value at x is a
    assert((m0 + m1 * x) % p == a % p) by {
        assert(m1 * x == ((a - b) * tinv) * (x * xinv)) by (nonlinear_arith)
            requires
                m1 == (a - b) * tinv * xinv,
        ;
        lemma_mul_mod_noop_right((a - b) * tinv, x * xinv, p);
        assert(((a - b) * tinv) * 1 == (a - b) * tinv);
        lemma_add_congruent(m0, m1 * x, m0, (a - b) * tinv, p);
        assert(m0 + (a - b) * tinv == a * (2 * tinv)) by (nonlinear_arith)
            requires
                m0 == (a + b) * tinv,
        ;
        lemma_mul_mod_noop_right(a, 2 * tinv, p);
        assert(a * 1 == a);
    }
    // its value at -x is b
    assert((m0 + m1 * nx) % p == b % p) by {
        assert(m1 * nx == ((a - b) * tinv) * (nx * xinv)) by (nonlinear_arith)
            requires
                m1 == (a - b) * tinv * xinv,
        ;
        // nx xinv is -1 modulo p
        assert((nx * xinv + 1) % p == 0) by {
            lemma_mul_mod_noop_left(x + nx, xinv, p);
            assert(0 * xinv == 0);
            assert((x + nx) * xinv == x * xinv + nx * xinv) by (nonlinear_arith);
            lemma_add_congruent(nx * xinv, x * xinv, nx * xinv, 1, p);
            assert(x * xinv + nx * xinv == nx * xinv + x * xinv);
        }
        let k = (a - b) * tinv;
        let q = nx * xinv;
        assert(k * q + k == k * (q + 1)) by (nonlinear_arith);
        lemma_mul_mod_noop_right(k, q + 1, p);
        assert(k * 0 == 0);
        // m0 + k q == (m0 - k) + (k q + k), and k q + k is zero modulo p
        lemma_add_congruent(m0 - k, k * q + k, m0 - k, 0, p);
        assert(m0 - k + (k * q + k) == m0 + m1 * nx);
        assert(m0 - k == b * (2 * tinv)) by (nonlinear_arith)
            requires
                m0 == (a + b) * tinv,
                k == (a - b) * tinv,
        ;
        lemma_mul_mod_noop_right(b, 2 * tinv, p);
        assert(b * 1 == b);
    }
    // its value at alpha is the folded value
    assert((m0 + m1 * alpha) % p == c % p) by {
        let t = alpha * xinv;
        let d = a - b;
        let k = d * tinv;
        let s = (1 + t) * a + (1 - t) * b;
        assert(s == (a + b) + t * d) by (nonlinear_arith)
            requires
                s == (1 + t) * a + (1 - t) * b,
                d == a - b,
        ;
        assert(tinv * ((a + b) + t * d) == (a + b) * tinv + tinv * (t * d)) by (nonlinear_arith);
        assert(tinv * (t * d) == k * t) by (nonlinear_arith)
            requires
                k == d * tinv,
        ;
        assert(m1 == k * xinv);
        assert((k * xinv) * alpha == k * (alpha * xinv)) by (nonlinear_arith);
        assert(tinv * s == m0 + m1 * alpha);
        lemma_mod_twice(tinv * s, p);
    }
    // the interpolant less the line is zero at the three points
    let d0 = l0 - m0;
    let d1 = l1 - m1;
    assert((d0 + d1 * x + l2 * (x * x)) % p == 0) by {
        lemma_sub_mod_noop(l0 + l1 * x + l2 * (x * x), m0 + m1 * x, p);
        lemma_mod_twice(a, p);
        assert(d1 * x == l1 * x - m1 * x) by (nonlinear_arith)
            requires
                d1 == l1 - m1,
        ;
    }
    assert((d0 + d1 * nx + l2 * (nx * nx)) % p == 0) by {
        lemma_sub_mod_noop(l0 + l1 * nx + l2 * (nx * nx), m0 + m1 * nx, p);
        lemma_mod_twice(b, p);
        assert(d1 * nx == l1 * nx - m1 * nx) by (nonlinear_arith)
            requires
                d1 == l1 - m1,
        ;
    }
    assert((d0 + d1 * alpha + l2 * (alpha * alpha)) % p == 0) by {
        lemma_sub_mod_noop(l0 + l1 * alpha + l2 * (alpha * alpha), m0 + m1 * alpha, p);
        lemma_mod_twice(c, p);
        assert(d1 * alpha == l1 * alpha - m1 * alpha) by (nonlinear_arith)
            requires
                d1 == l1 - m1,
        ;
    }
    lemma_three_points(d0, d1, l2, x, nx, alpha, p);
    lemma_small_mod(l2 as nat, p as nat);
    assert(l2 == 0);
    lemma_degree(l);
    assert(poly_degree(l) <= 1);
}

/// In a field of odd characteristic no power of two is zero.
pub proof fn lemma_pow2_nonzero(n: int, p: int)
    requires
        is_prime(p),
        2int % p != 0,
        is_pow2(n),
    ensures
        n % p != 0,
    decreases n,
{
    if n > 1 {
        lemma_pow2_nonzero(n / 2, p);
        assert(n == 2 * (n / 2));
        if n % p == 0 {
            lemma_zero_product(2, n / 2, p);
        }
    } else {
        lemma_small_mod(1, p as nat);
    }
}

/// The last codeword of an honest proof is accepted: where it holds the
/// values, on the last domain, of a polynomial with at most as many
/// coefficients as the length over the expansion factor, every check on
/// it succeeds.
pub proof fn lemma_last_accepted(params: Params, f: Seq<int>, root: nat)
    requires
        sound_setup(params),
        last_power(params) >= 1,
        last_power(params) * last_len(params) == params.len,
        is_pow2(last_len(params) as int),
        last_len(params) > params.rho,
        canonical(f, params.p),
        f.len() <= last_len(params) / params.rho,
        root == tree_root(evals(params, f, last_power(params), last_len(params))),
    ensures
        check_last(params, root, evals(params, f, last_power(params), last_len(params)))
            == Ok::<bool, Error>(true),
{
    let p = params.p;
    let w = params.omega;
    let e = last_power(params);
    let len = last_len(params);
    let last = evals(params, f, e, len);
    let first = pow(params.offset, e);
    let ratio = pow(w, e);
    let ww = ratio % p;
    lemma_omega_unit(params);
    lemma_small_mod(0, p as nat);
    lemma_small_mod(1, p as nat);
    // the generator of the last domain
    lemma_pow_multiplies(w, e, len);
    lemma_pow_mod_noop(ratio, len, p);
    assert(pow(ww, len) % p == 1);
    let back = pow(ww, (len - 1) as nat);
    lemma_pow_adds(ww, 1, (len - 1) as nat);
    lemma_pow1(ww);
    lemma_mul_mod_noop_right(ww, back, p);
    lemma_mod_bound(back, p);
    assert(is_inverse(ww, back % p, p));
    lemma_inverse_is(ww, back % p, p);
    // the last domain is a coset
    let domain = last_domain(params);
    let cs = coset(first, ratio, len, p);
    assert(domain =~= cs) by {
        assert forall|k: int| 0 <= k < len implies domain[k] == cs[k] by {
            lemma_pow_multiplies(w, e, k as nat);
        }
    }
    assert forall|t: nat| 0 < t < len implies #[trigger] pow(ratio, t) % p != 1 by {
        lemma_pow_multiplies(w, e, t);
        assert(0 < e * t < params.len) by (nonlinear_arith)
            requires
                0 < t < len,
                e >= 1,
                e * len == params.len,
        ;
        assert(pow(w, e * t) % p != 1);
    }
    assert(first % p != 0) by {
        let oinv = inverse(params.offset, p);
        lemma_pow_unit(params.offset, oinv, e, p);
        if first % p == 0 {
            lemma_mul_mod_noop_left(first, pow(oinv, e), p);
            assert(0 * pow(oinv, e) == 0);
        }
    }
    lemma_pow2_nonzero(len as int, p);
    assert(f.len() <= len) by {
        lemma_div_is_ordered_by_denominator(len as int, 1, params.rho as int);
        lemma_div_basics_3(len as int);
    }
    let values = Seq::new(len, |k: int| poly_eval(f, cs[k], p));
    assert(as_ints(last) =~= values) by {
        assert forall|k: int| 0 <= k < len implies as_ints(last)[k] == values[k] by {
            lemma_mod_bound(eval_sum(f, domain[k], f.len() as int), p);
        }
    }
    lemma_interpolate_values(first, ratio, len, f, p);
    let c = poly_interpolate(domain, as_ints(last), p).unwrap();
    assert(same_poly(c, f)) by {
        assert forall|k: int| coef(c, k) == coef(f, k) by {
            if 0 <= k < len {
                assert(c[k] == coef(f, k));
            }
        }
    }
    assert(agrees(c, domain, last, p)) by {
        assert forall|i: int| 0 <= i < last.len() implies poly_eval(c, #[trigger] domain[i], p)
            == last[i] by {
            lemma_eval_same(c, f, domain[i], p);
            lemma_mod_bound(eval_sum(f, domain[i], f.len() as int), p);
        }
    }
    lemma_degree(c);
    assert(len / params.rho >= 1) by {
        lemma_div_is_ordered(params.rho as int, len as int, params.rho as int);
        lemma_div_by_self(params.rho as int);
    }
    assert(poly_degree(c) <= len / params.rho - 1) by {
        if !crate::poly_math::is_zero_poly(c) {
            let d = poly_degree(c) as int;
            assert(c[d] != 0);
            assert(c[d] == coef(f, d));
        }
    }
}

} // verus!
