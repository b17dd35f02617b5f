//! How evaluation goes with the operations on polynomials, and what
//! follows for interpolation.
use vstd::arithmetic::div_mod::*;
use vstd::arithmetic::power::*;
use vstd::prelude::*;

use crate::arith::{is_prime, lemma_cancel_factor, lemma_prime_has_inverse, lemma_zero_product};
use crate::error::Error;
use crate::poly_math::{
    canonical, cauchy, cauchy_upto, coef, difference_product, divisible_by, eval_sum,
    is_zero_poly, lagrange_basis, lagrange_sum, lemma_degree, lemma_division, lemma_trim,
    linear_factor, longer, poly_add, poly_compose, poly_degree, poly_div, poly_eval, poly_mul,
    poly_mul_full, poly_pow, poly_scalar, poly_scale, poly_sub, poly_term, root_product,
    same_poly,
};

verus! {

/// Terms beyond the stored coefficients add nothing to a value.
pub proof fn lemma_eval_beyond(c: Seq<int>, x: int, n: int)
    requires
        n >= c.len(),
    ensures
        eval_sum(c, x, n) == eval_sum(c, x, c.len() as int),
    decreases n,
{
    if n > c.len() {
        lemma_eval_beyond(c, x, n - 1);
        assert(coef(c, n - 1) * pow(x, (n - 1) as nat) == 0) by (nonlinear_arith)
            requires
                coef(c, n - 1) == 0,
        ;
    }
}

/// Where the coefficients of `c` are, modulo `p`, the combination
/// `u * a + v * b` of those of `a` and `b`, so is the value.
pub proof fn lemma_eval_linear(
    c: Seq<int>,
    a: Seq<int>,
    b: Seq<int>,
    u: int,
    v: int,
    x: int,
    n: int,
    p: int,
)
    requires
        p > 0,
        forall|j: int|
            0 <= j < n ==> (#[trigger] coef(c, j)) % p == (u * coef(a, j) + v * coef(b, j)) % p,
    ensures
        eval_sum(c, x, n) % p == (u * eval_sum(a, x, n) + v * eval_sum(b, x, n)) % p,
    decreases n,
{
    if n > 0 {
        lemma_eval_linear(c, a, b, u, v, x, n - 1, p);
        let j = n - 1;
        let px = pow(x, j as nat);
        let ec = eval_sum(c, x, j);
        let ea = eval_sum(a, x, j);
        let eb = eval_sum(b, x, j);
        let cj = coef(c, j);
        let w = u * coef(a, j) + v * coef(b, j);
        assert(cj % p == w % p);
        lemma_mul_mod_noop_left(cj, px, p);
        lemma_mul_mod_noop_left(w, px, p);
        lemma_add_mod_noop(ec, cj * px, p);
        lemma_add_mod_noop(u * ea + v * eb, w * px, p);
        assert(u * ea + v * eb + w * px == u * (ea + coef(a, j) * px) + v * (eb + coef(b, j) * px))
            by (nonlinear_arith)
            requires
                w == u * coef(a, j) + v * coef(b, j),
        ;
    }
}

/// Sequences that denote the same polynomial have the same values.
pub proof fn lemma_eval_same(a: Seq<int>, b: Seq<int>, x: int, p: int)
    requires
        p > 0,
        same_poly(a, b),
    ensures
        poly_eval(a, x, p) == poly_eval(b, x, p),
{
    let n = longer(a.len() as int, b.len() as int);
    assert forall|j: int| 0 <= j < n implies (#[trigger] coef(a, j)) % p == (1 * coef(b, j) + 0
        * coef(b, j)) % p by {
        assert(coef(a, j) == coef(b, j));
    }
    lemma_eval_linear(a, b, b, 1, 0, x, n, p);
    lemma_eval_beyond(a, x, n);
    lemma_eval_beyond(b, x, n);
    assert(1 * eval_sum(b, x, n) + 0 * eval_sum(b, x, n) == eval_sum(b, x, n));
}

/// The value of a sum is the sum of the values.
pub proof fn lemma_eval_add(a: Seq<int>, b: Seq<int>, x: int, p: int)
    requires
        p > 0,
    ensures
        poly_eval(poly_add(a, b, p), x, p) == (poly_eval(a, x, p) + poly_eval(b, x, p)) % p,
{
    let c = poly_add(a, b, p);
    let n = c.len() as int;
    assert forall|j: int| 0 <= j < n implies (#[trigger] coef(c, j)) % p == (1 * coef(a, j) + 1
        * coef(b, j)) % p by {
        lemma_mod_twice(coef(a, j) + coef(b, j), p);
    }
    lemma_eval_linear(c, a, b, 1, 1, x, n, p);
    lemma_eval_beyond(a, x, n);
    lemma_eval_beyond(b, x, n);
    let ea = eval_sum(a, x, a.len() as int);
    let eb = eval_sum(b, x, b.len() as int);
    assert(1 * ea + 1 * eb == ea + eb);
    lemma_add_mod_noop(ea, eb, p);
}

/// The value of a multiple is the multiple of the value.
pub proof fn lemma_eval_scalar(a: Seq<int>, v: int, x: int, p: int)
    requires
        p > 0,
    ensures
        poly_eval(poly_scalar(a, v, p), x, p) == (v * poly_eval(a, x, p)) % p,
{
    let c = poly_scalar(a, v, p);
    let n = c.len() as int;
    assert forall|j: int| 0 <= j < n implies (#[trigger] coef(c, j)) % p == (v * coef(a, j) + 0
        * coef(a, j)) % p by {
        lemma_mod_twice(v * a[j], p);
    }
    lemma_eval_linear(c, a, a, v, 0, x, n, p);
    let ea = eval_sum(a, x, n);
    assert(v * ea + 0 * ea == v * ea);
    lemma_mul_mod_noop_right(v, ea, p);
}

/// The coefficients of a product with a polynomial of two terms.
pub proof fn lemma_cauchy_two(a: Seq<int>, d: Seq<int>, k: int)
    requires
        d.len() == 2,
    ensures
        cauchy(a, d, k) == coef(a, k) * d[0] + coef(a, k - 1) * d[1],
{
    assert(cauchy_upto(a, d, k, 0) == 0);
    assert(cauchy_upto(a, d, k, 1) == cauchy_upto(a, d, k, 0) + coef(a, k - 0) * coef(d, 0));
    assert(cauchy_upto(a, d, k, 2) == cauchy_upto(a, d, k, 1) + coef(a, k - 1) * coef(d, 1));
}

/// The coefficients of the product with a polynomial of two terms, after
/// reduction and trimming.
pub proof fn lemma_mul_two_coef(a: Seq<int>, d: Seq<int>, p: int, k: int)
    requires
        p > 0,
        d.len() == 2,
        k >= 0,
    ensures
        coef(poly_mul(a, d, p), k) == (coef(a, k) * d[0] + coef(a, k - 1) * d[1]) % p,
{
    let full = poly_mul_full(a, d, p);
    lemma_trim(full);
    lemma_cauchy_two(a, d, k);
    assert(coef(poly_mul(a, d, p), k) == coef(full, k));
    if k >= full.len() {
        assert(coef(a, k) == 0 && coef(a, k - 1) == 0);
        assert(coef(a, k) * d[0] + coef(a, k - 1) * d[1] == 0) by (nonlinear_arith)
            requires
                coef(a, k) == 0,
                coef(a, k - 1) == 0,
        ;
        lemma_small_mod(0, p as nat);
    }
}

/// The partial sums of the value of `a` times `d[0] + d[1] x`, term by
/// term.
proof fn lemma_raw_sum(a: Seq<int>, d: Seq<int>, raw: Seq<int>, x: int, n: int)
    requires
        d.len() == 2,
        n >= 0,
        forall|k: int| 0 <= k < n ==> coef(raw, k) == #[trigger] coef(a, k) * d[0] + coef(a, k - 1)
            * d[1],
    ensures
        eval_sum(raw, x, n) == d[0] * eval_sum(a, x, n) + d[1] * x * eval_sum(a, x, n - 1),
    decreases n,
{
    if n == 0 {
        assert(d[1] * x * 0 == 0) by (nonlinear_arith);
    } else if n == 1 {
        lemma_raw_sum(a, d, raw, x, 0);
        assert(coef(raw, 0) == coef(a, 0) * d[0] + coef(a, -1) * d[1]);
        assert(eval_sum(a, x, 0) == 0);
        assert(eval_sum(a, x, 1) == eval_sum(a, x, 0) + coef(a, 0) * pow(x, 0));
        assert(eval_sum(raw, x, 1) == eval_sum(raw, x, 0) + coef(raw, 0) * pow(x, 0));
        lemma_pow0(x);
        let a0 = coef(a, 0);
        assert(coef(a, -1) * d[1] == 0) by (nonlinear_arith)
            requires
                coef(a, -1) == 0,
        ;
        assert((a0 * d[0]) * 1 == d[0] * (a0 * 1) + d[1] * x * 0) by (nonlinear_arith);
    } else {
        lemma_raw_sum(a, d, raw, x, n - 1);
        let j = n - 1;
        let px = pow(x, j as nat);
        let py = pow(x, (j - 1) as nat);
        lemma_pow_adds(x, 1, (j - 1) as nat);
        lemma_pow1(x);
        assert(px == x * py);
        let es = eval_sum(a, x, n - 2);
        let aj = coef(a, j);
        let ap = coef(a, j - 1);
        assert(coef(raw, j) == aj * d[0] + ap * d[1]);
        assert(eval_sum(a, x, n - 1) == es + ap * py);
        assert(eval_sum(a, x, n) == es + ap * py + aj * px);
        assert(eval_sum(raw, x, n) == d[0] * (es + ap * py) + d[1] * x * es + (aj * d[0] + ap
            * d[1]) * px);
        let d0 = d[0];
        let d1 = d[1];
        assert((aj * d0 + ap * d1) * px == d0 * (aj * px) + ap * d1 * px) by (nonlinear_arith);
        assert(ap * d1 * px == d1 * x * (ap * py)) by (nonlinear_arith)
            requires
                px == x * py,
        ;
        assert(d0 * (es + ap * py + aj * px) == d0 * (es + ap * py) + d0 * (aj * px))
            by (nonlinear_arith);
        assert(d1 * x * (es + ap * py) == d1 * x * es + d1 * x * (ap * py)) by (nonlinear_arith);
    }
}

/// The value of a product with a polynomial of two terms is the product
/// of the values.
pub proof fn lemma_eval_mul_two(a: Seq<int>, d: Seq<int>, x: int, p: int)
    requires
        p > 0,
        d.len() == 2,
    ensures
        poly_eval(poly_mul(a, d, p), x, p) == (poly_eval(a, x, p) * (d[0] + d[1] * x)) % p,
{
    let c = poly_mul(a, d, p);
    let n = a.len() as int + 2;
    let raw = Seq::new(n as nat, |k: int| coef(a, k) * d[0] + coef(a, k - 1) * d[1]);
    lemma_trim(poly_mul_full(a, d, p));
    assert forall|j: int| 0 <= j < n implies (#[trigger] coef(c, j)) % p == (1 * coef(raw, j) + 0
        * coef(raw, j)) % p by {
        lemma_mul_two_coef(a, d, p, j);
        lemma_mod_twice(coef(raw, j), p);
    }
    lemma_eval_linear(c, raw, raw, 1, 0, x, n, p);
    lemma_eval_beyond(c, x, n);
    lemma_raw_sum(a, d, raw, x, n);
    lemma_eval_beyond(a, x, n);
    lemma_eval_beyond(a, x, n - 1);
    let ea = eval_sum(a, x, a.len() as int);
    let er = eval_sum(raw, x, n);
    assert(1 * er + 0 * er == er);
    assert(er == ea * (d[0] + d[1] * x)) by (nonlinear_arith)
        requires
            er == d[0] * ea + d[1] * x * ea,
    ;
    lemma_mul_mod_noop_left(ea, d[0] + d[1] * x, p);
}

/// The product of `x - xs[j]` over `j < n`, as a number.
pub open spec fn root_value(xs: Seq<int>, x: int, n: int) -> int
    decreases n,
{
    if n <= 0 {
        1
    } else {
        root_value(xs, x, n - 1) * (x - xs[n - 1])
    }
}

/// The product of `x - xs[j]` over `j < n`, `j != i`, as a number.
pub open spec fn root_value_skip(xs: Seq<int>, x: int, i: int, n: int) -> int
    decreases n,
{
    if n <= 0 {
        1
    } else if n - 1 == i {
        root_value_skip(xs, x, i, n - 1)
    } else {
        root_value_skip(xs, x, i, n - 1) * (x - xs[n - 1])
    }
}

/// The product of `x - xs[j]` over `j < n`, `j != i`, as a polynomial.
pub open spec fn root_product_skip(xs: Seq<int>, i: int, n: int, p: int) -> Seq<int>
    decreases n,
{
    if n <= 0 {
        seq![1]
    } else if n - 1 == i {
        root_product_skip(xs, i, n - 1, p)
    } else {
        poly_mul(root_product_skip(xs, i, n - 1, p), linear_factor(xs[n - 1], p), p)
    }
}

/// No two of the `xs` are the same element of the field.
pub open spec fn distinct_mod(xs: Seq<int>, p: int) -> bool {
    forall|i: int, j: int|
        #![trigger xs[i], xs[j]]
        0 <= i < xs.len() && 0 <= j < xs.len() && i != j ==> (xs[i] - xs[j]) % p != 0
}

/// A product of polynomials is reduced.
pub proof fn lemma_mul_canonical(a: Seq<int>, b: Seq<int>, p: int)
    requires
        p > 0,
    ensures
        canonical(poly_mul(a, b, p), p),
{
    let full = poly_mul_full(a, b, p);
    lemma_trim(full);
    assert forall|i: int| 0 <= i < poly_mul(a, b, p).len() implies 0 <= #[trigger] poly_mul(
        a,
        b,
        p,
    )[i] < p by {
        assert(poly_mul(a, b, p)[i] == full[i]);
        lemma_mod_bound(cauchy(a, b, i), p);
    }
}

/// The two coefficients of `x - t`.
proof fn lemma_linear_factor(t: int, p: int)
    ensures
        linear_factor(t, p).len() == 2,
        linear_factor(t, p)[0] == (-t) % p,
        linear_factor(t, p)[1] == 1,
{
}

/// The coefficient of `x^k` in `a (x - t)`.
proof fn lemma_linear_coef(a: Seq<int>, t: int, p: int, k: int)
    requires
        p > 0,
        k >= 0,
    ensures
        coef(poly_mul(a, linear_factor(t, p), p), k) == (coef(a, k) * ((-t) % p) + coef(a, k - 1))
            % p,
{
    lemma_linear_factor(t, p);
    lemma_mul_two_coef(a, linear_factor(t, p), p, k);
    assert(coef(a, k - 1) * 1 == coef(a, k - 1));
}

/// The value of the polynomial `x - t` times `a`.
proof fn lemma_eval_times_linear(a: Seq<int>, t: int, x: int, p: int)
    requires
        p > 0,
    ensures
        poly_eval(poly_mul(a, linear_factor(t, p), p), x, p) == (poly_eval(a, x, p) * (x - t)) % p,
{
    let lin = linear_factor(t, p);
    let ea = poly_eval(a, x, p);
    lemma_eval_mul_two(a, lin, x, p);
    lemma_linear_factor(t, p);
    assert(1 * x == x);
    assert(lin[0] + lin[1] * x == (-t) % p + x);
    lemma_add_mod_noop_right(x, -t, p);
    lemma_mul_mod_noop_right(ea, (-t) % p + x, p);
    lemma_mul_mod_noop_right(ea, x - t, p);
}

/// The value of the product of the `x - xs[j]`.
pub proof fn lemma_root_eval(xs: Seq<int>, x: int, n: int, p: int)
    requires
        p >= 2,
    ensures
        poly_eval(root_product(xs, n, p), x, p) == root_value(xs, x, n) % p,
        canonical(root_product(xs, n, p), p),
        root_product(xs, n, p).len() <= longer(n, 0) + 1,
    decreases n,
{
    if n <= 0 {
        let one = seq![1int];
        assert(eval_sum(one, x, 0) == 0);
        assert(eval_sum(one, x, 1) == eval_sum(one, x, 0) + coef(one, 0) * pow(x, 0));
        lemma_pow0(x);
    } else {
        lemma_root_eval(xs, x, n - 1, p);
        let prev = root_product(xs, n - 1, p);
        lemma_eval_times_linear(prev, xs[n - 1], x, p);
        lemma_mul_mod_noop_left(root_value(xs, x, n - 1), x - xs[n - 1], p);
        lemma_mul_canonical(prev, linear_factor(xs[n - 1], p), p);
        lemma_mul_linear_len(prev, xs[n - 1], p);
    }
}

/// A product with `x - t` is at most one coefficient longer.
pub proof fn lemma_mul_linear_len(a: Seq<int>, t: int, p: int)
    requires
        p > 0,
    ensures
        poly_mul(a, linear_factor(t, p), p).len() <= a.len() + 1,
{
    let lin = linear_factor(t, p);
    let full = poly_mul_full(a, lin, p);
    let top = a.len() as int + 1;
    lemma_linear_factor(t, p);
    lemma_trim(full);
    lemma_cauchy_two(a, lin, top);
    assert(coef(a, top) == 0 && coef(a, top - 1) == 0);
    assert(coef(a, top) * lin[0] + coef(a, top - 1) * lin[1] == 0) by (nonlinear_arith)
        requires
            coef(a, top) == 0,
            coef(a, top - 1) == 0,
    ;
    lemma_small_mod(0, p as nat);
    assert(full[top] == 0);
    assert(full.last() == 0);
}

/// The value of the product of the `x - xs[j]` without the `i`-th.
pub proof fn lemma_root_skip_eval(xs: Seq<int>, x: int, i: int, n: int, p: int)
    requires
        p >= 2,
    ensures
        poly_eval(root_product_skip(xs, i, n, p), x, p) == root_value_skip(xs, x, i, n) % p,
    decreases n,
{
    if n <= 0 {
        let one = seq![1int];
        assert(eval_sum(one, x, 0) == 0);
        assert(eval_sum(one, x, 1) == eval_sum(one, x, 0) + coef(one, 0) * pow(x, 0));
        lemma_pow0(x);
    } else {
        lemma_root_skip_eval(xs, x, i, n - 1, p);
        if n - 1 != i {
            let prev = root_product_skip(xs, i, n - 1, p);
            lemma_eval_times_linear(prev, xs[n - 1], x, p);
            lemma_mul_mod_noop_left(root_value_skip(xs, x, i, n - 1), x - xs[n - 1], p);
        }
    }
}

/// Below the index that is left out, leaving it out changes nothing.
proof fn lemma_skip_below(xs: Seq<int>, i: int, n: int, p: int)
    requires
        n <= i,
    ensures
        root_product_skip(xs, i, n, p) == root_product(xs, n, p),
    decreases n,
{
    if n > 0 {
        lemma_skip_below(xs, i, n - 1, p);
    }
}

/// Products with the same two-term polynomial of sequences that denote
/// the same polynomial denote the same polynomial.
proof fn lemma_mul_two_same(a: Seq<int>, b: Seq<int>, d: Seq<int>, p: int)
    requires
        p > 0,
        d.len() == 2,
        same_poly(a, b),
    ensures
        same_poly(poly_mul(a, d, p), poly_mul(b, d, p)),
{
    assert forall|k: int| coef(poly_mul(a, d, p), k) == coef(poly_mul(b, d, p), k) by {
        if k >= 0 {
            lemma_mul_two_coef(a, d, p, k);
            lemma_mul_two_coef(b, d, p, k);
            assert(coef(a, k) == coef(b, k));
            assert(coef(a, k - 1) == coef(b, k - 1));
        }
    }
}

/// The coefficient of `x^k` in `a (x - s) (x - t)`, which is the same for
/// `s` and `t` the other way round.
proof fn lemma_two_linear_coef(a: Seq<int>, s: int, t: int, p: int, k: int)
    requires
        p > 0,
        k >= 0,
    ensures
        ({
            let s0 = (-s) % p;
            let t0 = (-t) % p;
            coef(poly_mul(poly_mul(a, linear_factor(s, p), p), linear_factor(t, p), p), k) == (
            coef(a, k) * s0 * t0 + coef(a, k - 1) * (s0 + t0) + coef(a, k - 2)) % p
        }),
{
    let s0 = (-s) % p;
    let t0 = (-t) % p;
    let ls = linear_factor(s, p);
    let lt = linear_factor(t, p);
    let u = poly_mul(a, ls, p);
    let ak = coef(a, k);
    let a1 = coef(a, k - 1);
    let a2 = coef(a, k - 2);
    lemma_linear_coef(u, t, p, k);
    lemma_linear_coef(a, s, p, k);
    let x = ak * s0 + a1;
    let y = a1 * s0 + a2;
    assert(coef(u, k) == x % p);
    assert(coef(u, k - 1) == y % p) by {
        if k >= 1 {
            lemma_linear_coef(a, s, p, k - 1);
        } else {
            assert(a1 * s0 + a2 == 0) by (nonlinear_arith)
                requires
                    a1 == 0,
                    a2 == 0,
            ;
            lemma_small_mod(0, p as nat);
        }
    }
    // ((x % p) t0 + (y % p) 1) % p == (x t0 + y) % p
    lemma_mul_mod_noop_left(x, t0, p);
    lemma_add_mod_noop(x * t0, y, p);
    lemma_add_mod_noop((x % p) * t0, y % p, p);
    lemma_mod_twice(y, p);
    assert((y % p) * 1 == y % p);
    assert(x * t0 + y == ak * s0 * t0 + a1 * (s0 + t0) + a2) by (nonlinear_arith)
        requires
            x == ak * s0 + a1,
            y == a1 * s0 + a2,
    ;
}

/// Two linear factors can change places.
proof fn lemma_linear_commute(a: Seq<int>, s: int, t: int, p: int)
    requires
        p > 0,
    ensures
        same_poly(
            poly_mul(poly_mul(a, linear_factor(s, p), p), linear_factor(t, p), p),
            poly_mul(poly_mul(a, linear_factor(t, p), p), linear_factor(s, p), p),
        ),
{
    let l = poly_mul(poly_mul(a, linear_factor(s, p), p), linear_factor(t, p), p);
    let r = poly_mul(poly_mul(a, linear_factor(t, p), p), linear_factor(s, p), p);
    assert forall|k: int| coef(l, k) == coef(r, k) by {
        if k >= 0 {
            lemma_two_linear_coef(a, s, t, p, k);
            lemma_two_linear_coef(a, t, s, p, k);
            let s0 = (-s) % p;
            let t0 = (-t) % p;
            assert(coef(a, k) * s0 * t0 == coef(a, k) * t0 * s0) by (nonlinear_arith);
        }
    }
}

/// The product of all `x - xs[j]` is the product without the `i`-th,
/// times `x - xs[i]`.
pub proof fn lemma_reorder(xs: Seq<int>, i: int, n: int, p: int)
    requires
        p > 0,
        0 <= i < n,
    ensures
        same_poly(
            root_product(xs, n, p),
            poly_mul(root_product_skip(xs, i, n, p), linear_factor(xs[i], p), p),
        ),
    decreases n,
{
    let li = linear_factor(xs[i], p);
    if n - 1 == i {
        lemma_skip_below(xs, i, n - 1, p);
    } else {
        lemma_reorder(xs, i, n - 1, p);
        let ln = linear_factor(xs[n - 1], p);
        let prev = root_product(xs, n - 1, p);
        let skip = root_product_skip(xs, i, n - 1, p);
        // prev == skip * li, so prev * ln == (skip * li) * ln == (skip * ln) * li
        lemma_mul_two_same(prev, poly_mul(skip, li, p), ln, p);
        lemma_linear_commute(skip, xs[i], xs[n - 1], p);
        let a = poly_mul(prev, ln, p);
        let b = poly_mul(poly_mul(skip, li, p), ln, p);
        let c = poly_mul(poly_mul(skip, ln, p), li, p);
        assert forall|k: int| coef(a, k) == coef(c, k) by {
            assert(coef(a, k) == coef(b, k));
            assert(coef(b, k) == coef(c, k));
        }
    }
}

/// Where `m (x - t)` and `den q (x - t)` have the same coefficients
/// modulo `p`, so have `m` and `den q`: the coefficient of `x^j`.
proof fn lemma_cancel_linear(m: Seq<int>, q: Seq<int>, den: int, t0: int, p: int, j: int)
    requires
        p > 0,
        j >= 0,
        forall|k: int|
            k >= 0 ==> (#[trigger] coef(m, k) * t0 + coef(m, k - 1)) % p == (den * (coef(q, k) * t0
                + coef(q, k - 1))) % p,
    ensures
        coef(m, j) % p == (den * coef(q, j)) % p,
    decreases longer(m.len() as int, q.len() as int) - j,
{
    if j >= longer(m.len() as int, q.len() as int) {
        assert(den * coef(q, j) == 0) by (nonlinear_arith)
            requires
                coef(q, j) == 0,
        ;
    } else {
        lemma_cancel_linear(m, q, den, t0, p, j + 1);
        let k = j + 1;
        let x = coef(m, k) * t0;
        let y = den * coef(q, k) * t0;
        let mj = coef(m, j);
        let dq = den * coef(q, j);
        assert((coef(m, k) * t0 + coef(m, k - 1)) % p == (den * (coef(q, k) * t0 + coef(q, k - 1)))
            % p);
        assert(den * (coef(q, k) * t0 + coef(q, k - 1)) == y + dq) by (nonlinear_arith)
            requires
                y == den * coef(q, k) * t0,
                dq == den * coef(q, k - 1),
        ;
        assert((x + mj) % p == (y + dq) % p);
        // x == y modulo p
        lemma_mul_mod_noop_left(coef(m, k), t0, p);
        lemma_mul_mod_noop_left(den * coef(q, k), t0, p);
        assert(x % p == y % p);
        lemma_sub_mod_noop(x + mj, x, p);
        lemma_sub_mod_noop(y + dq, y, p);
        assert(x + mj - x == mj);
        assert(y + dq - y == dq);
    }
}

/// The product of the differences is, modulo `p`, the product of the
/// `xs[i] - xs[j]` as a number.
proof fn lemma_difference_value(xs: Seq<int>, i: int, n: int, p: int)
    requires
        p >= 2,
    ensures
        difference_product(xs, i, n, p) % p == root_value_skip(xs, xs[i], i, n) % p,
        0 <= difference_product(xs, i, n, p) < p,
    decreases n,
{
    if n > 0 {
        lemma_difference_value(xs, i, n - 1, p);
        if n - 1 != i {
            let f = xs[i] - xs[n - 1];
            lemma_mul_mod_noop_left(difference_product(xs, i, n - 1, p), f, p);
            lemma_mul_mod_noop_left(root_value_skip(xs, xs[i], i, n - 1), f, p);
            lemma_mod_twice(difference_product(xs, i, n - 1, p) * f, p);
            lemma_mod_bound(difference_product(xs, i, n - 1, p) * f, p);
        }
    }
}

/// Between distinct points the product of the differences is not zero.
proof fn lemma_difference_nonzero(xs: Seq<int>, i: int, n: int, p: int)
    requires
        is_prime(p),
        distinct_mod(xs, p),
        0 <= i < xs.len(),
        n <= xs.len(),
    ensures
        difference_product(xs, i, n, p) % p != 0,
    decreases n,
{
    if n <= 0 {
        lemma_small_mod(1, p as nat);
    } else {
        lemma_difference_nonzero(xs, i, n - 1, p);
        if n - 1 != i {
            let prev = difference_product(xs, i, n - 1, p);
            let f = xs[i] - xs[n - 1];
            assert(f % p != 0) by {
                let a = xs[i];
                let b = xs[n - 1];
            }
            lemma_mod_twice(prev * f, p);
            if (prev * f) % p == 0 {
                lemma_zero_product(prev, f, p);
            }
        }
    }
}

/// The product of the `x - xs[j]` is zero at each `xs[k]` that is among
/// them.
proof fn lemma_root_value_zero(xs: Seq<int>, k: int, n: int, p: int)
    requires
        p > 0,
        0 <= k < n,
    ensures
        root_value(xs, xs[k], n) % p == 0,
    decreases n,
{
    let prev = root_value(xs, xs[k], n - 1);
    let f = xs[k] - xs[n - 1];
    if n - 1 == k {
        assert(prev * f == 0) by (nonlinear_arith)
            requires
                f == 0,
        ;
    } else {
        lemma_root_value_zero(xs, k, n - 1, p);
        lemma_mul_mod_noop_left(prev, f, p);
        assert(0 * f == 0);
    }
    lemma_small_mod(0, p as nat);
}

/// The product of the `x - xs[j]` without the `i`-th is zero at each
/// other `xs[k]` that is among them.
proof fn lemma_root_value_skip_zero(xs: Seq<int>, k: int, i: int, n: int, p: int)
    requires
        p > 0,
        0 <= k < n,
        k != i,
    ensures
        root_value_skip(xs, xs[k], i, n) % p == 0,
    decreases n,
{
    let prev = root_value_skip(xs, xs[k], i, n - 1);
    let f = xs[k] - xs[n - 1];
    if n - 1 == k {
        assert(prev * f == 0) by (nonlinear_arith)
            requires
                f == 0,
        ;
    } else {
        lemma_root_value_skip_zero(xs, k, i, n - 1, p);
        if n - 1 != i {
            lemma_mul_mod_noop_left(prev, f, p);
            assert(0 * f == 0);
        }
    }
    lemma_small_mod(0, p as nat);
}

/// A polynomial with nothing above its constant term has that term as
/// its value everywhere.
proof fn lemma_eval_constant(r: Seq<int>, x: int, n: int)
    requires
        1 <= n,
        forall|k: int| 1 <= k < r.len() ==> r[k] == 0,
    ensures
        eval_sum(r, x, n) == coef(r, 0),
    decreases n,
{
    if n == 1 {
        assert(eval_sum(r, x, 0) == 0);
        lemma_pow0(x);
    } else {
        lemma_eval_constant(r, x, n - 1);
        assert(coef(r, n - 1) * pow(x, (n - 1) as nat) == 0) by (nonlinear_arith)
            requires
                coef(r, n - 1) == 0,
        ;
    }
}

/// Over distinct points in a prime field, the `i`-th basis polynomial
/// exists, is one at `xs[i]` and zero at the other points.
pub proof fn lemma_basis(xs: Seq<int>, i: int, p: int)
    requires
        is_prime(p),
        distinct_mod(xs, p),
        0 <= i < xs.len(),
    ensures
        lagrange_basis(xs, i, p).is_ok(),
        canonical(lagrange_basis(xs, i, p).unwrap(), p),
        lagrange_basis(xs, i, p).unwrap().len() <= xs.len(),
        forall|k: int|
            0 <= k < xs.len() ==> poly_eval(lagrange_basis(xs, i, p).unwrap(), #[trigger] xs[k], p)
                == if k == i {
                1int
            } else {
                0int
            },
{
    let n = xs.len() as int;
    let big = root_product(xs, n, p);
    let den = difference_product(xs, i, n, p);
    let t = xs[i];
    let lin = linear_factor(t, p);
    let l0 = (-t) % p;
    let d = poly_scalar(lin, den, p);
    let d0 = (den * l0) % p;
    lemma_linear_factor(t, p);
    lemma_root_eval(xs, t, n, p);
    lemma_difference_value(xs, i, n, p);
    lemma_difference_nonzero(xs, i, n, p);
    lemma_small_mod(den as nat, p as nat);
    lemma_small_mod(0, p as nat);
    lemma_small_mod(1, p as nat);
    assert(den * 1 == den);
    assert(d.len() == 2 && d[0] == d0 && d[1] == den);
    lemma_mod_bound(den * l0, p);
    assert(canonical(d, p));
    assert(d.last() == den);
    assert(poly_degree(d) == 1);
    assert(!is_zero_poly(d));
    lemma_prime_has_inverse(den, p);
    assert(divisible_by(d, p));
    lemma_division(big, d, p);
    let q = poly_div(big, d, p).0;
    let r = poly_div(big, d, p).1;
    lemma_degree(r);
    assert forall|k: int| 1 <= k < r.len() implies r[k] == 0 by {}
    // both sides of the division at the point t
    let prod = poly_mul(q, d, p);
    let eq = poly_eval(q, t, p);
    lemma_eval_same(big, poly_add(prod, r, p), t, p);
    lemma_eval_add(prod, r, t, p);
    lemma_eval_mul_two(q, d, t, p);
    assert((d0 + den * t) % p == 0) by {
        lemma_add_mod_noop_right(t, -t, p);
        assert((t + l0) % p == 0);
        lemma_mul_mod_noop_right(den, l0 + t, p);
        assert(den * 0 == 0);
        lemma_add_mod_noop_right(den * t, den * l0, p);
        assert(den * l0 + den * t == den * (l0 + t)) by (nonlinear_arith);
    }
    lemma_mul_mod_noop_right(eq, d0 + den * t, p);
    assert(eq * 0 == 0);
    assert(poly_eval(prod, t, p) == 0);
    lemma_root_value_zero(xs, i, n, p);
    assert(poly_eval(big, t, p) == 0);
    lemma_mod_bound(eval_sum(r, t, r.len() as int), p);
    lemma_small_mod(poly_eval(r, t, p) as nat, p as nat);
    assert(poly_eval(r, t, p) == 0);
    if r.len() > 0 {
        lemma_eval_constant(r, t, r.len() as int);
        lemma_small_mod(r[0] as nat, p as nat);
        assert(r[0] == 0);
    }
    assert(is_zero_poly(r));
    assert(lagrange_basis(xs, i, p) == Ok::<Seq<int>, Error>(q));
    // the coefficients of the quotient against those of the product without x - t
    let m = root_product_skip(xs, i, n, p);
    lemma_reorder(xs, i, n, p);
    assert forall|k: int| k >= 0 implies (#[trigger] coef(m, k) * l0 + coef(m, k - 1)) % p == (den
        * (coef(q, k) * l0 + coef(q, k - 1))) % p by {
        let qk = coef(q, k);
        let qj = coef(q, k - 1);
        lemma_linear_coef(m, t, p, k);
        assert(coef(big, k) == coef(poly_mul(m, lin, p), k));
        assert(coef(big, k) == (cauchy(q, d, k) + coef(r, k)) % p);
        assert(coef(r, k) == 0);
        lemma_cauchy_two(q, d, k);
        lemma_mul_mod_noop_right(qk, den * l0, p);
        lemma_add_mod_noop(qk * d0, qj * den, p);
        lemma_add_mod_noop(qk * (den * l0), qj * den, p);
        assert(qk * (den * l0) + qj * den == den * (qk * l0 + qj)) by (nonlinear_arith);
    }
    assert forall|j: int| 0 <= j implies (#[trigger] coef(m, j)) % p == (den * coef(q, j) + 0
        * coef(q, j)) % p by {
        lemma_cancel_linear(m, q, den, l0, p, j);
        assert(0 * coef(q, j) == 0);
    }
    assert forall|k: int| 0 <= k < xs.len() implies poly_eval(q, #[trigger] xs[k], p) == if k == i {
        1int
    } else {
        0int
    } by {
        let x = xs[k];
        let len = longer(m.len() as int, q.len() as int);
        let e = poly_eval(q, x, p);
        let es = eval_sum(q, x, q.len() as int);
        lemma_eval_linear(m, q, q, den, 0, x, len, p);
        lemma_eval_beyond(m, x, len);
        lemma_eval_beyond(q, x, len);
        assert(den * es + 0 * es == den * es);
        lemma_mul_mod_noop_right(den, es, p);
        assert(poly_eval(m, x, p) == (den * e) % p);
        lemma_root_skip_eval(xs, x, i, n, p);
        lemma_mod_bound(es, p);
        lemma_small_mod(e as nat, p as nat);
        if k == i {
            assert((den * e) % p == (den * 1) % p);
            lemma_cancel_factor(den, e, 1, p);
        } else {
            lemma_root_value_skip_zero(xs, k, i, n, p);
            assert(den * 0 == 0);
            assert((den * e) % p == (den * 0) % p);
            lemma_cancel_factor(den, e, 0, p);
        }
    }
}

/// Over distinct points in a prime field, the sum of the first `m`
/// weighted basis polynomials exists, and takes the value `ys[k]` at
/// each of the first `m` points and zero at the others.
pub proof fn lemma_lagrange_sum(xs: Seq<int>, ys: Seq<int>, m: int, p: int)
    requires
        is_prime(p),
        distinct_mod(xs, p),
        xs.len() == ys.len(),
        0 <= m <= xs.len(),
    ensures
        lagrange_sum(xs, ys, m, p).is_ok(),
        lagrange_sum(xs, ys, m, p).unwrap().len() <= xs.len(),
        canonical(lagrange_sum(xs, ys, m, p).unwrap(), p),
        forall|k: int|
            0 <= k < xs.len() ==> poly_eval(lagrange_sum(xs, ys, m, p).unwrap(), #[trigger] xs[k], p)
                == if k < m {
                ys[k] % p
            } else {
                0int
            },
    decreases m,
{
    lemma_small_mod(0, p as nat);
    if m == 0 {
        assert forall|k: int| 0 <= k < xs.len() implies poly_eval(
            lagrange_sum(xs, ys, m, p).unwrap(),
            #[trigger] xs[k],
            p,
        ) == 0 by {
            assert(eval_sum(Seq::<int>::empty(), xs[k], 0) == 0);
        }
    } else {
        lemma_lagrange_sum(xs, ys, m - 1, p);
        lemma_basis(xs, m - 1, p);
        let acc = lagrange_sum(xs, ys, m - 1, p).unwrap();
        let b = lagrange_basis(xs, m - 1, p).unwrap();
        let y = ys[m - 1];
        let term = poly_scalar(b, y, p);
        assert(lagrange_sum(xs, ys, m, p) == Ok::<Seq<int>, Error>(poly_add(acc, term, p)));
        assert(canonical(poly_add(acc, term, p), p)) by {
            assert forall|j: int| 0 <= j < poly_add(acc, term, p).len() implies 0
                <= #[trigger] poly_add(acc, term, p)[j] < p by {
                lemma_mod_bound(coef(acc, j) + coef(term, j), p);
            }
        }
        assert forall|k: int| 0 <= k < xs.len() implies poly_eval(
            poly_add(acc, term, p),
            #[trigger] xs[k],
            p,
        ) == if k < m {
            ys[k] % p
        } else {
            0int
        } by {
            let x = xs[k];
            lemma_eval_add(acc, term, x, p);
            lemma_eval_scalar(b, y, x, p);
            assert(y * 0 == 0);
            assert(y * 1 == y);
            lemma_mod_twice(ys[k], p);
            lemma_mod_twice(y, p);
        }
    }
}

/// The first `n` terms of each coefficient of the product of `a` and
/// `b`.
pub open spec fn partial_product(a: Seq<int>, b: Seq<int>, n: int) -> Seq<int> {
    Seq::new(a.len() + b.len(), |k: int| cauchy_upto(a, b, k, n))
}

/// The coefficients of `a` moved up by `n` places.
pub open spec fn shifted(a: Seq<int>, n: int, len: nat) -> Seq<int> {
    Seq::new(len, |k: int| coef(a, k - n))
}

/// The value of a polynomial moved up by `n` places is `x^n` times its
/// value.
proof fn lemma_eval_shifted(a: Seq<int>, n: nat, len: nat, x: int, m: int)
    requires
        0 <= m <= len,
    ensures
        eval_sum(shifted(a, n as int, len), x, m) == pow(x, n) * eval_sum(a, x, m - n),
    decreases m,
{
    let sh = shifted(a, n as int, len);
    if m == 0 {
        assert(pow(x, n) * 0 == 0);
    } else {
        lemma_eval_shifted(a, n, len, x, m - 1);
        let k = m - 1;
        if k < n {
            assert(coef(sh, k) == 0);
            assert(coef(sh, k) * pow(x, k as nat) == 0) by (nonlinear_arith)
                requires
                    coef(sh, k) == 0,
            ;
            assert(pow(x, n) * 0 == 0);
        } else {
            let j = (k - n) as nat;
            lemma_pow_adds(x, n, j);
            let c = coef(a, j as int);
            assert(coef(sh, k) == c);
            let e0 = eval_sum(a, x, j as int);
            assert(eval_sum(a, x, m - n) == e0 + c * pow(x, j));
            assert(pow(x, n) * (e0 + c * pow(x, j)) == pow(x, n) * e0 + c * (pow(x, n) * pow(x, j)))
                by (nonlinear_arith);
        }
    }
}

/// The value of the first `n` terms of a product.
proof fn lemma_partial_product(a: Seq<int>, b: Seq<int>, x: int, n: int, p: int)
    requires
        p > 0,
        0 <= n <= b.len(),
    ensures
        eval_sum(partial_product(a, b, n), x, (a.len() + b.len()) as int) % p == (eval_sum(
            a,
            x,
            a.len() as int,
        ) * eval_sum(b, x, n)) % p,
    decreases n,
{
    let len = a.len() + b.len();
    let cur = partial_product(a, b, n);
    let ea = eval_sum(a, x, a.len() as int);
    if n == 0 {
        assert forall|j: int| 0 <= j < len implies (#[trigger] coef(cur, j)) % p == (0 * coef(cur, j)
            + 0 * coef(cur, j)) % p by {
            assert(coef(cur, j) == 0);
            assert(0 * coef(cur, j) == 0);
        }
        lemma_eval_linear(cur, cur, cur, 0, 0, x, len as int, p);
        assert(0 * eval_sum(cur, x, len as int) == 0);
        assert(ea * 0 == 0);
    } else {
        let i = n - 1;
        lemma_partial_product(a, b, x, i, p);
        let prev = partial_product(a, b, i);
        let sh = shifted(a, i, len);
        let bi = coef(b, i);
        assert forall|j: int| 0 <= j < len implies (#[trigger] coef(cur, j)) % p == (1 * coef(prev, j)
            + bi * coef(sh, j)) % p by {
            assert(coef(cur, j) == coef(prev, j) + coef(a, j - i) * bi);
            assert(coef(a, j - i) * bi == bi * coef(sh, j)) by (nonlinear_arith)
                requires
                    coef(sh, j) == coef(a, j - i),
            ;
            assert(1 * coef(prev, j) == coef(prev, j));
        }
        lemma_eval_linear(cur, prev, sh, 1, bi, x, len as int, p);
        lemma_eval_shifted(a, i as nat, len, x, len as int);
        lemma_eval_beyond(a, x, len - i);
        let px = pow(x, i as nat);
        let eb = eval_sum(b, x, i);
        let ep = eval_sum(prev, x, len as int);
        assert(1 * ep == ep);
        // ep + bi (px ea) is ea (eb + bi px)
        lemma_add_mod_noop(ep, bi * (px * ea), p);
        lemma_add_mod_noop(ea * eb, bi * (px * ea), p);
        assert(ea * eb + bi * (px * ea) == ea * (eb + bi * px)) by (nonlinear_arith);
    }
}

/// The value of a product is the product of the values.
pub proof fn lemma_eval_mul(a: Seq<int>, b: Seq<int>, x: int, p: int)
    requires
        p > 0,
    ensures
        poly_eval(poly_mul(a, b, p), x, p) == (poly_eval(a, x, p) * poly_eval(b, x, p)) % p,
{
    let c = poly_mul(a, b, p);
    let len = a.len() + b.len();
    let raw = partial_product(a, b, b.len() as int);
    lemma_trim(poly_mul_full(a, b, p));
    assert forall|j: int| 0 <= j < len implies (#[trigger] coef(c, j)) % p == (1 * coef(raw, j) + 0
        * coef(raw, j)) % p by {
        assert(coef(c, j) == poly_mul_full(a, b, p)[j]);
        lemma_mod_twice(cauchy(a, b, j), p);
        assert(1 * coef(raw, j) + 0 * coef(raw, j) == coef(raw, j));
    }
    lemma_eval_linear(c, raw, raw, 1, 0, x, len as int, p);
    lemma_eval_beyond(c, x, len as int);
    lemma_partial_product(a, b, x, b.len() as int, p);
    let er = eval_sum(raw, x, len as int);
    assert(1 * er + 0 * er == er);
    lemma_mul_mod_noop_general(eval_sum(a, x, a.len() as int), eval_sum(b, x, b.len() as int), p);
}

/// The value of a difference is the difference of the values.
pub proof fn lemma_eval_sub(a: Seq<int>, b: Seq<int>, x: int, p: int)
    requires
        p > 0,
    ensures
        poly_eval(poly_sub(a, b, p), x, p) == (poly_eval(a, x, p) - poly_eval(b, x, p)) % p,
{
    let c = poly_sub(a, b, p);
    let n = c.len() as int;
    assert forall|j: int| 0 <= j < n implies (#[trigger] coef(c, j)) % p == (1 * coef(a, j) + (-1)
        * coef(b, j)) % p by {
        lemma_mod_twice(coef(a, j) - coef(b, j), p);
    }
    lemma_eval_linear(c, a, b, 1, -1, x, n, p);
    lemma_eval_beyond(a, x, n);
    lemma_eval_beyond(b, x, n);
    let ea = eval_sum(a, x, a.len() as int);
    let eb = eval_sum(b, x, b.len() as int);
    assert(1 * ea + (-1) * eb == ea - eb);
    lemma_sub_mod_noop(ea, eb, p);
}

/// The value of a polynomial with a constant added.
pub proof fn lemma_eval_constant_term(c: Seq<int>, v: int, x: int, p: int)
    requires
        p > 0,
    ensures
        poly_eval(poly_term(c, v, 0, p), x, p) == (poly_eval(c, x, p) + v) % p,
{
    let t = poly_term(c, v, 0, p);
    let one = seq![1int];
    let n = t.len() as int;
    assert forall|j: int| 0 <= j < n implies (#[trigger] coef(t, j)) % p == (1 * coef(c, j) + v
        * coef(one, j)) % p by {
        if j == 0 {
            lemma_mod_twice(coef(c, 0) + v, p);
            assert(v * 1 == v);
        } else {
            assert(v * 0 == 0);
        }
    }
    lemma_eval_linear(t, c, one, 1, v, x, n, p);
    lemma_eval_beyond(c, x, n);
    lemma_eval_beyond(one, x, n);
    assert(eval_sum(one, x, 0) == 0);
    assert(eval_sum(one, x, 1) == eval_sum(one, x, 0) + coef(one, 0) * pow(x, 0));
    lemma_pow0(x);
    let ec = eval_sum(c, x, c.len() as int);
    assert(1 * ec + v * 1 == ec + v);
    lemma_add_mod_noop_right(v, ec, p);
}

/// Horner's rule: a value is the constant term plus `y` times the value
/// of the rest.
proof fn lemma_eval_horner(c: Seq<int>, y: int, n: int)
    requires
        c.len() >= 1,
        n >= 1,
    ensures
        eval_sum(c, y, n) == c[0] + y * eval_sum(c.drop_first(), y, n - 1),
    decreases n,
{
    let rest = c.drop_first();
    if n == 1 {
        assert(eval_sum(c, y, 0) == 0);
        lemma_pow0(y);
        assert(y * 0 == 0);
    } else {
        lemma_eval_horner(c, y, n - 1);
        let k = n - 1;
        lemma_pow_adds(y, 1, (k - 1) as nat);
        lemma_pow1(y);
        let ck = coef(c, k);
        assert(coef(rest, k - 1) == ck);
        let r0 = eval_sum(rest, y, k - 1);
        let pk = pow(y, (k - 1) as nat);
        assert(y * (r0 + ck * pk) == y * r0 + ck * (y * pk)) by (nonlinear_arith);
    }
}

/// The value of a composition is the value of the outer polynomial at
/// the value of the inner one.
pub proof fn lemma_eval_compose(c: Seq<int>, q: Seq<int>, x: int, p: int)
    requires
        p > 0,
    ensures
        poly_eval(poly_compose(c, q, p), x, p) == poly_eval(c, poly_eval(q, x, p), p),
    decreases c.len(),
{
    let y = poly_eval(q, x, p);
    if c.len() == 0 {
        assert(eval_sum(Seq::<int>::empty(), x, 0) == 0);
    } else {
        let rest = c.drop_first();
        let inner = poly_compose(rest, q, p);
        let prod = poly_mul(inner, q, p);
        lemma_eval_compose(rest, q, x, p);
        lemma_eval_mul(inner, q, x, p);
        lemma_eval_constant_term(prod, c[0], x, p);
        lemma_eval_horner(c, y, c.len() as int);
        let er = eval_sum(rest, y, rest.len() as int);
        // (er % p) y + c0 == c0 + y er, modulo p
        lemma_mul_mod_noop_left(er, y, p);
        lemma_add_mod_noop_right(c[0], (er % p) * y, p);
        lemma_add_mod_noop((er % p) * y, c[0], p);
        lemma_add_mod_noop(er * y, c[0], p);
        assert(er * y + c[0] == c[0] + y * er) by (nonlinear_arith);
    }
}

/// The value of a power is the power of the value.
pub proof fn lemma_eval_pow(a: Seq<int>, n: nat, x: int, p: int)
    requires
        p >= 2,
    ensures
        poly_eval(poly_pow(a, n, p), x, p) == pow(poly_eval(a, x, p), n) % p,
    decreases n,
{
    let y = poly_eval(a, x, p);
    if n == 0 {
        let one = seq![1int];
        assert(eval_sum(one, x, 0) == 0);
        assert(eval_sum(one, x, 1) == eval_sum(one, x, 0) + coef(one, 0) * pow(x, 0));
        lemma_pow0(x);
        lemma_pow0(y);
    } else {
        lemma_eval_pow(a, (n - 1) as nat, x, p);
        lemma_eval_mul(poly_pow(a, (n - 1) as nat, p), a, x, p);
        lemma_pow_adds(y, (n - 1) as nat, 1);
        lemma_pow1(y);
        lemma_mul_mod_noop_left(pow(y, (n - 1) as nat), y, p);
    }
}

/// The value of a scaled polynomial at `x` is the value of the
/// polynomial at `v x`.
pub proof fn lemma_eval_scale(a: Seq<int>, v: int, x: int, p: int)
    requires
        p > 0,
    ensures
        poly_eval(poly_scale(a, v, p), x, p) == poly_eval(a, v * x, p),
{
    let c = poly_scale(a, v, p);
    let n = a.len() as int;
    let shape = Seq::new(a.len(), |k: int| pow(v, k as nat) * a[k]);
    assert forall|j: int| 0 <= j < n implies (#[trigger] coef(c, j)) % p == (1 * coef(shape, j) + 0
        * coef(shape, j)) % p by {
        lemma_mod_twice(pow(v, j as nat) * a[j], p);
        assert(1 * coef(shape, j) + 0 * coef(shape, j) == coef(shape, j));
    }
    lemma_eval_linear(c, shape, shape, 1, 0, x, n, p);
    let es = eval_sum(shape, x, n);
    assert(1 * es + 0 * es == es);
    lemma_scale_terms(a, v, x, n);
}

/// Term by term, scaling the coefficients is scaling the point.
proof fn lemma_scale_terms(a: Seq<int>, v: int, x: int, n: int)
    requires
        0 <= n <= a.len(),
    ensures
        eval_sum(Seq::new(a.len(), |k: int| pow(v, k as nat) * a[k]), x, n) == eval_sum(
            a,
            v * x,
            n,
        ),
    decreases n,
{
    if n > 0 {
        lemma_scale_terms(a, v, x, n - 1);
        let k = (n - 1) as nat;
        lemma_pow_distributes(v, x, k);
        let shape = Seq::new(a.len(), |k: int| pow(v, k as nat) * a[k]);
        assert(coef(shape, k as int) == pow(v, k) * a[k as int]);
        assert((pow(v, k) * a[k as int]) * pow(x, k) == a[k as int] * (pow(v, k) * pow(x, k)))
            by (nonlinear_arith);
    }
}

} // verus!
