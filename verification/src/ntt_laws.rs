//! Why the radix-2 transform computes the values of a polynomial at the
//! powers of a root of unity, and why its inverse interpolates.
use vstd::arithmetic::div_mod::*;
use vstd::arithmetic::power::*;
use vstd::prelude::*;

use crate::arith::{
    inverse, is_pow2, is_prime, lemma_pow_unit, lemma_prime_has_inverse, lemma_zero_product,
};
use crate::error::Error;
use crate::poly_laws::{lemma_eval_beyond, lemma_eval_linear};
use crate::poly_math::{canonical, coef, eval_sum, evens, ntt, odds, poly_eval, poly_interpolate};

verus! {

/// Where each term `c[k] x^k` is, modulo `p`, `u` times the term
/// `d[k] y^k`, the value of `c` at `x` is `u` times that of `d` at `y`.
pub proof fn lemma_eval_terms(
    c: Seq<int>,
    x: int,
    d: Seq<int>,
    y: int,
    u: int,
    n: int,
    p: int,
)
    requires
        p > 0,
        forall|k: int|
            0 <= k < n ==> ((#[trigger] coef(c, k)) * pow(x, k as nat)) % p == (u * (coef(d, k)
                * pow(y, k as nat))) % p,
    ensures
        eval_sum(c, x, n) % p == (u * eval_sum(d, y, n)) % p,
    decreases n,
{
    if n > 0 {
        lemma_eval_terms(c, x, d, y, u, n - 1, p);
        let k = n - 1;
        let tc = coef(c, k) * pow(x, k as nat);
        let td = coef(d, k) * pow(y, k as nat);
        let ec = eval_sum(c, x, k);
        let ed = eval_sum(d, y, k);
        assert(tc % p == (u * td) % p);
        lemma_add_mod_noop(ec, tc, p);
        lemma_add_mod_noop(u * ed, u * td, p);
        assert(u * ed + u * td == u * (ed + td)) by (nonlinear_arith);
    } else {
        assert(u * 0 == 0);
    }
}

/// At points that are the same element of the field, a polynomial has
/// the same value.
pub proof fn lemma_eval_point(c: Seq<int>, x: int, y: int, n: int, p: int)
    requires
        p > 0,
        x % p == y % p,
    ensures
        eval_sum(c, x, n) % p == eval_sum(c, y, n) % p,
{
    assert forall|k: int| 0 <= k < n implies ((#[trigger] coef(c, k)) * pow(x, k as nat)) % p == (1
        * (coef(c, k) * pow(y, k as nat))) % p by {
        lemma_pow_mod_noop(x, k as nat, p);
        lemma_pow_mod_noop(y, k as nat, p);
        lemma_mul_mod_noop_right(coef(c, k), pow(x, k as nat), p);
        lemma_mul_mod_noop_right(coef(c, k), pow(y, k as nat), p);
        assert(1 * (coef(c, k) * pow(y, k as nat)) == coef(c, k) * pow(y, k as nat));
    }
    lemma_eval_terms(c, x, c, y, 1, n, p);
    assert(1 * eval_sum(c, y, n) == eval_sum(c, y, n));
}

/// A polynomial is its even part at `x^2` plus `x` times its odd part at
/// `x^2`.
pub proof fn lemma_split(v: Seq<int>, x: int, m: int)
    requires
        0 <= m,
        2 * m <= v.len(),
    ensures
        eval_sum(v, x, 2 * m) == eval_sum(evens(v), x * x, m) + x * eval_sum(odds(v), x * x, m),
    decreases m,
{
    if m == 0 {
        assert(x * 0 == 0);
    } else {
        lemma_split(v, x, m - 1);
        let j = m - 1;
        let sq = x * x;
        let pe = pow(sq, j as nat);
        lemma_square_is_pow2(x);
        lemma_pow_multiplies(x, 2, j as nat);
        assert(pe == pow(x, (2 * j) as nat));
        lemma_pow_adds(x, (2 * j) as nat, 1);
        lemma_pow1(x);
        assert(pow(x, (2 * j + 1) as nat) == pe * x);
        let a = v[2 * j];
        let b = v[2 * j + 1];
        assert(coef(evens(v), j) == a);
        assert(coef(odds(v), j) == b);
        assert(coef(v, 2 * j) == a);
        assert(coef(v, 2 * j + 1) == b);
        let s0 = eval_sum(v, x, 2 * j);
        assert(eval_sum(v, x, 2 * j + 1) == s0 + a * pe);
        assert(eval_sum(v, x, 2 * m) == s0 + a * pe + b * (pe * x));
        let e0 = eval_sum(evens(v), sq, j);
        let o0 = eval_sum(odds(v), sq, j);
        assert(eval_sum(evens(v), sq, m) == e0 + a * pe);
        assert(eval_sum(odds(v), sq, m) == o0 + b * pe);
        assert(x * (o0 + b * pe) == x * o0 + b * (pe * x)) by (nonlinear_arith);
    }
}

/// A power of a number whose `n`-th power is one depends only on the
/// exponent modulo `n`.
pub proof fn lemma_pow_cycle(u: int, n: nat, a: nat, q: nat, p: int)
    requires
        p >= 2,
        pow(u, n) % p == 1,
    ensures
        pow(u, a + n * q) % p == pow(u, a) % p,
{
    lemma_pow_adds(u, a, n * q);
    lemma_pow_multiplies(u, n, q);
    lemma_pow_mod_noop(pow(u, n), q, p);
    lemma1_pow(q);
    lemma_small_mod(1, p as nat);
    lemma_mul_mod_noop_right(pow(u, a), pow(u, n * q), p);
    assert(pow(u, a) * 1 == pow(u, a));
}

/// The transform of `v` with a root `u` whose `n`-th power is one, `n`
/// the length of `v` and a power of two: entry `k` is the value of the
/// polynomial `v` at `u^k`.
pub proof fn lemma_ntt_values(v: Seq<int>, u: int, p: int, k: int)
    requires
        p >= 2,
        is_pow2(v.len() as int),
        pow(u, v.len()) % p == 1,
        0 <= k < v.len(),
    ensures
        ntt(v, u, p).len() == v.len(),
        ntt(v, u, p)[k] == poly_eval(v, pow(u, k as nat), p),
    decreases v.len(),
{
    let n = v.len();
    let x = pow(u, k as nat);
    if n == 1 {
        assert(eval_sum(v, x, 0) == 0);
        assert(eval_sum(v, x, 1) == eval_sum(v, x, 0) + coef(v, 0) * pow(x, 0));
        lemma_pow0(x);
    } else {
        let h = (n / 2) as int;
        let u2 = (u * u) % p;
        let even = evens(v);
        let odd = odds(v);
        let kk = k % h;
        let q = k / h;
        assert(n == 2 * h);
        lemma_fundamental_div_mod(k, h);
        lemma_mod_bound(k, h);
        // the square of the root has order h
        lemma_square_is_pow2(u);
        lemma_pow_mod_noop(u * u, h as nat, p);
        lemma_pow_multiplies(u, 2, h as nat);
        assert(pow(u2, h as nat) % p == 1);
        lemma_ntt_values(even, u2, p, kk);
        lemma_ntt_values(odd, u2, p, kk);
        lemma_split(v, x, h);
        // x^2 is u2^kk modulo p
        let y = pow(u2, kk as nat);
        lemma_pow_adds(u, k as nat, k as nat);
        assert(x * x == pow(u, (2 * k) as nat));
        lemma_pow_mod_noop(u * u, kk as nat, p);
        lemma_pow_multiplies(u, 2, kk as nat);
        assert(y % p == pow(u, (2 * kk) as nat) % p);
        assert(q >= 0) by {
            lemma_div_pos_is_pos(k, h);
        }
        assert(2 * k == 2 * kk + n * q) by (nonlinear_arith)
            requires
                k == h * q + kk,
                n == 2 * h,
        ;
        assert(n * q >= 0) by (nonlinear_arith)
            requires
                q >= 0,
                n >= 0,
        ;
        lemma_pow_cycle(u, n, (2 * kk) as nat, q as nat, p);
        assert((x * x) % p == y % p);
        lemma_eval_point(even, x * x, y, h, p);
        lemma_eval_point(odd, x * x, y, h, p);
        let ev = eval_sum(even, x * x, h);
        let od = eval_sum(odd, x * x, h);
        let e = ntt(even, u2, p);
        let o = ntt(odd, u2, p);
        assert(e[kk] == ev % p);
        assert(o[kk] == od % p);
        lemma_mul_mod_noop_right(x, od, p);
        lemma_add_mod_noop(ev, x * od, p);
        lemma_add_mod_noop(e[kk], x * o[kk], p);
        lemma_mod_twice(ev, p);
    }
}

/// The polynomial `1 + x + ... + x^(n-1)`.
pub open spec fn ones(n: nat) -> Seq<int> {
    Seq::new(n, |k: int| 1int)
}

/// The partial transforms of `values`: entry `k` is the sum of the first
/// `m` terms of the value of `values` at `winv^k`.
pub open spec fn partial(values: Seq<int>, winv: int, m: int) -> Seq<int> {
    Seq::new(values.len(), |k: int| eval_sum(values, pow(winv, k as nat), m))
}

/// The `m`-th powers of the powers of `winv`.
pub open spec fn twiddles(winv: int, m: nat, n: nat) -> Seq<int> {
    Seq::new(n, |k: int| pow(pow(winv, k as nat), m))
}

/// The sum of a geometric progression.
proof fn lemma_geometric(z: int, len: nat, n: int)
    requires
        0 <= n <= len,
    ensures
        (z - 1) * eval_sum(ones(len), z, n) == pow(z, n as nat) - 1,
    decreases n,
{
    if n == 0 {
        lemma_pow0(z);
        assert((z - 1) * 0 == 0);
    } else {
        lemma_geometric(z, len, n - 1);
        let s = eval_sum(ones(len), z, n - 1);
        let pz = pow(z, (n - 1) as nat);
        lemma_pow_adds(z, (n - 1) as nat, 1);
        lemma_pow1(z);
        assert(coef(ones(len), n - 1) == 1);
        assert(eval_sum(ones(len), z, n) == s + 1 * pz);
        assert((z - 1) * (s + 1 * pz) == (z - 1) * s + pz * z - pz) by (nonlinear_arith);
    }
}

/// At 1 the geometric progression sums to its number of terms.
proof fn lemma_ones_at_one(len: nat, n: int)
    requires
        0 <= n <= len,
    ensures
        eval_sum(ones(len), 1, n) == n,
    decreases n,
{
    if n > 0 {
        lemma_ones_at_one(len, n - 1);
        lemma1_pow((n - 1) as nat);
        assert(coef(ones(len), n - 1) == 1);
    }
}

/// Modulo a prime, the powers of a root `z` of `x^n - 1` sum to `n` where
/// `z` is one, and to zero where it is not.
proof fn lemma_geometric_mod(z: int, n: nat, p: int)
    requires
        is_prime(p),
        pow(z, n) % p == 1,
    ensures
        eval_sum(ones(n), z, n as int) % p == if z % p == 1 {
            (n as int) % p
        } else {
            0
        },
{
    let s = eval_sum(ones(n), z, n as int);
    lemma_small_mod(1, p as nat);
    lemma_small_mod(0, p as nat);
    if z % p == 1 {
        lemma_eval_point(ones(n), z, 1, n as int, p);
        lemma_ones_at_one(n, n as int);
    } else {
        lemma_geometric(z, n, n as int);
        lemma_sub_mod_noop(pow(z, n), 1, p);
        assert(((z - 1) * s) % p == 0);
        lemma_zero_product(z - 1, s, p);
        if (z - 1) % p == 0 {
            lemma_add_mod_noop(z - 1, 1, p);
            assert(z - 1 + 1 == z);
            assert(false);
        }
    }
}

/// The `n`-th power of the inverse of an `n`-th root of unity is one.
proof fn lemma_inverse_root(w: int, winv: int, n: nat, p: int)
    requires
        p >= 2,
        (w * winv) % p == 1,
        pow(w, n) % p == 1,
    ensures
        pow(winv, n) % p == 1,
{
    lemma_pow_unit(w, winv, n, p);
    lemma_mul_mod_noop_left(pow(w, n), pow(winv, n), p);
    assert(1 * pow(winv, n) == pow(winv, n));
}

/// For a root of unity `w` of order exactly `n`, with inverse `winv`:
/// the product `winv^m w^i` is an `n`-th root of unity, and it is one
/// only where `m` is `i`.
proof fn lemma_twist(w: int, winv: int, m: nat, i: nat, n: nat, p: int)
    requires
        p >= 2,
        (w * winv) % p == 1,
        pow(w, n) % p == 1,
        forall|t: nat| 0 < t < n ==> #[trigger] pow(w, t) % p != 1,
        m < n,
        i < n,
    ensures
        pow(pow(winv, m) * pow(w, i), n) % p == 1,
        (pow(winv, m) * pow(w, i)) % p == 1 <==> m == i,
{
    let a = pow(winv, m);
    let b = pow(w, i);
    let z = a * b;
    lemma_small_mod(1, p as nat);
    lemma_inverse_root(w, winv, n, p);
    assert(pow(z, n) % p == 1) by {
        lemma_pow_distributes(a, b, n);
        lemma_pow_multiplies(winv, m, n);
        lemma_pow_multiplies(winv, n, m);
        lemma_pow_multiplies(w, i, n);
        lemma_pow_multiplies(w, n, i);
        assert(m * n == n * m) by (nonlinear_arith);
        assert(i * n == n * i) by (nonlinear_arith);
        lemma_pow_mod_noop(pow(winv, n), m, p);
        lemma_pow_mod_noop(pow(w, n), i, p);
        lemma1_pow(m);
        lemma1_pow(i);
        lemma_mul_mod_noop_general(pow(a, n), pow(b, n), p);
        assert(1 * 1 == 1);
    }
    assert(w * winv == winv * w) by (nonlinear_arith);
    if m == i {
        lemma_pow_unit(winv, w, m, p);
    } else if m < i {
        let t = (i - m) as nat;
        lemma_pow_adds(w, m, t);
        lemma_pow_unit(winv, w, m, p);
        let c = pow(w, t);
        assert(z == (a * pow(w, m)) * c) by (nonlinear_arith)
            requires
                z == a * b,
                b == pow(w, m) * c,
        ;
        lemma_mul_mod_noop_left(a * pow(w, m), c, p);
        assert(1 * c == c);
        assert(pow(w, t) % p != 1);
    } else {
        let t = (m - i) as nat;
        lemma_pow_adds(winv, t, i);
        lemma_pow_unit(winv, w, i, p);
        let c = pow(winv, t);
        assert(z == c * (pow(winv, i) * b)) by (nonlinear_arith)
            requires
                z == a * b,
                a == c * pow(winv, i),
        ;
        lemma_mul_mod_noop_right(c, pow(winv, i) * b, p);
        assert(c * 1 == c);
        if c % p == 1 {
            lemma_pow_unit(w, winv, t, p);
            lemma_mul_mod_noop_right(pow(w, t), c, p);
            assert(pow(w, t) * 1 == pow(w, t));
            assert(pow(w, t) % p != 1);
            assert(false);
        }
    }
}

/// Summed against the powers of `w^i`, the first `m` terms of the
/// transform with root `winv` leave `n` times the `i`-th value, once it
/// is among them.
proof fn lemma_partial(values: Seq<int>, w: int, winv: int, i: nat, m: int, p: int)
    requires
        is_prime(p),
        (w * winv) % p == 1,
        pow(w, values.len()) % p == 1,
        forall|t: nat| 0 < t < values.len() ==> #[trigger] pow(w, t) % p != 1,
        i < values.len(),
        0 <= m <= values.len(),
    ensures
        eval_sum(partial(values, winv, m), pow(w, i), values.len() as int) % p == (if i < m {
            values[i as int] * values.len()
        } else {
            0
        }) % p,
    decreases m,
{
    let n = values.len();
    let y = pow(w, i);
    let cur = partial(values, winv, m);
    if m == 0 {
        assert forall|j: int| 0 <= j < n implies (#[trigger] coef(cur, j)) % p == (0 * coef(cur, j)
            + 0 * coef(cur, j)) % p by {
            assert(coef(cur, j) == 0);
            assert(0 * coef(cur, j) == 0);
        }
        lemma_eval_linear(cur, cur, cur, 0, 0, y, n as int, p);
        assert(0 * eval_sum(cur, y, n as int) == 0);
    } else {
        let k0 = (m - 1) as nat;
        lemma_partial(values, w, winv, i, m - 1, p);
        let prev = partial(values, winv, m - 1);
        let tw = twiddles(winv, k0, n);
        let v = values[m - 1];
        let z = pow(winv, k0) * y;
        assert forall|j: int| 0 <= j < n implies (#[trigger] coef(cur, j)) % p == (1 * coef(prev, j)
            + v * coef(tw, j)) % p by {
            assert(coef(cur, j) == coef(prev, j) + coef(values, m - 1) * pow(
                pow(winv, j as nat),
                k0,
            ));
            assert(1 * coef(prev, j) == coef(prev, j));
        }
        lemma_eval_linear(cur, prev, tw, 1, v, y, n as int, p);
        assert forall|j: int| 0 <= j < n implies ((#[trigger] coef(tw, j)) * pow(y, j as nat)) % p
            == (1 * (coef(ones(n), j) * pow(z, j as nat))) % p by {
            lemma_pow_distributes(pow(winv, k0), y, j as nat);
            lemma_pow_multiplies(winv, k0, j as nat);
            lemma_pow_multiplies(winv, j as nat, k0);
            assert(k0 * j == j * k0) by (nonlinear_arith);
            assert(coef(ones(n), j) == 1);
            assert(1 * (1 * pow(z, j as nat)) == pow(z, j as nat));
        }
        lemma_eval_terms(tw, y, ones(n), z, 1, n as int, p);
        lemma_twist(w, winv, k0, i, n, p);
        lemma_geometric_mod(z, n, p);
        let a = eval_sum(prev, y, n as int);
        let t = eval_sum(tw, y, n as int);
        let g = eval_sum(ones(n), z, n as int);
        assert(1 * g == g);
        assert(1 * a == a);
        // the value of cur is a + v t, and t is g modulo p
        lemma_mul_mod_noop_right(v, t, p);
        lemma_mul_mod_noop_right(v, g, p);
        lemma_add_mod_noop(a, v * t, p);
        lemma_small_mod(0, p as nat);
        if k0 == i {
            lemma_mul_mod_noop_right(v, n as int, p);
            lemma_add_mod_noop(0, v * n, p);
        } else {
            assert(v * 0 == 0);
            lemma_add_mod_noop(a, 0, p);
            lemma_mod_twice(a, p);
        }
    }
}

/// Interpolation over a coset: where `domain` holds the points
/// `first * ratio^k` of a coset of `n` elements, `ratio` of order
/// exactly `n`, in a prime field in which `first` and `n` are not zero,
/// the coefficients that `poly_interpolate` gives exist, are `n`, and
/// take the value `values[i]` at `domain[i]`.
pub proof fn lemma_interpolation(first: int, ratio: int, values: Seq<int>, p: int, i: int)
    requires
        is_prime(p),
        is_pow2(values.len() as int),
        (values.len() as int) % p != 0,
        first % p != 0,
        pow(ratio, values.len()) % p == 1,
        forall|t: nat| 0 < t < values.len() ==> #[trigger] pow(ratio, t) % p != 1,
        0 <= i < values.len(),
    ensures
        ({
            let domain = Seq::new(values.len(), |k: int| (first * pow(ratio, k as nat)) % p);
            &&& poly_interpolate(domain, values, p).is_ok()
            &&& poly_interpolate(domain, values, p).unwrap().len() == values.len()
            &&& poly_eval(poly_interpolate(domain, values, p).unwrap(), domain[i], p) == values[i]
                % p
        }),
{
    let n = values.len();
    let domain = Seq::new(n, |k: int| (first * pow(ratio, k as nat)) % p);
    let o = domain[0];
    lemma_small_mod(1, p as nat);
    lemma_small_mod(0, p as nat);
    lemma_pow0(ratio);
    lemma_pow1(ratio);
    assert(first * 1 == first);
    assert(o == first % p);
    lemma_mod_twice(first, p);
    lemma_prime_has_inverse(o, p);
    let oinv = inverse(o, p);
    let w = if n > 1 {
        (domain[1] * oinv) % p
    } else {
        1
    };
    // the root that is read off the domain is the ratio
    assert(w % p == ratio % p) by {
        if n > 1 {
            assert(domain[1] == (first * ratio) % p);
            lemma_mod_twice(domain[1] * oinv, p);
            lemma_mul_mod_noop_left(first * ratio, oinv, p);
            lemma_mul_mod_noop_left(first, oinv, p);
            assert((first * oinv) % p == 1);
            assert((first * ratio) * oinv == ratio * (first * oinv)) by (nonlinear_arith);
            lemma_mul_mod_noop_right(ratio, first * oinv, p);
            assert(ratio * 1 == ratio);
        }
    }
    assert forall|t: nat| pow(w, t) % p == #[trigger] pow(ratio, t) % p by {
        lemma_pow_mod_noop(w, t, p);
        lemma_pow_mod_noop(ratio, t, p);
    }
    assert(pow(w, n) % p == 1);
    assert forall|t: nat| 0 < t < n implies #[trigger] pow(w, t) % p != 1 by {
        assert(pow(w, t) % p == pow(ratio, t) % p);
    }
    assert(w % p != 0) by {
        if w % p == 0 {
            lemma_pow_mod_noop(w, n, p);
            lemma0_pow(n);
        }
    }
    lemma_prime_has_inverse(w, p);
    lemma_prime_has_inverse(n as int, p);
    let winv = inverse(w, p);
    let ninv = inverse(n as int, p);
    let g = ntt(values, winv, p);
    let c = Seq::new(n, |k: int| (g[k] * ((ninv * pow(oinv, k as nat)) % p)) % p);
    assert(poly_interpolate(domain, values, p) == Ok::<Seq<int>, Error>(c));
    lemma_inverse_root(w, winv, n, p);
    let x = domain[i];
    let y = pow(w, i as nat);
    // each term of c at x is ninv times the term of g at y
    let ox = oinv * x;
    assert(ox % p == y % p) by {
        lemma_mul_mod_noop_right(oinv, first * pow(ratio, i as nat), p);
        assert(oinv * (first * pow(ratio, i as nat)) == (first * oinv) * pow(ratio, i as nat))
            by (nonlinear_arith);
        lemma_mul_mod_noop_left(first, oinv, p);
        assert(o * oinv == oinv * o) by (nonlinear_arith);
        lemma_mul_mod_noop_left(first * oinv, pow(ratio, i as nat), p);
        assert(1 * pow(ratio, i as nat) == pow(ratio, i as nat));
        assert(pow(w, i as nat) % p == pow(ratio, i as nat) % p);
    }
    assert forall|k: int| 0 <= k < n implies ((#[trigger] coef(c, k)) * pow(x, k as nat)) % p == (
    ninv * (coef(g, k) * pow(y, k as nat))) % p by {
        lemma_ntt_values(values, winv, p, k);
        let gk = g[k];
        let po = pow(oinv, k as nat);
        let px = pow(x, k as nat);
        let py = pow(y, k as nat);
        lemma_pow_distributes(oinv, x, k as nat);
        lemma_pow_mod_noop(ox, k as nat, p);
        lemma_pow_mod_noop(y, k as nat, p);
        assert((po * px) % p == py % p);
        // c[k] px == gk ninv po px == ninv gk py, all modulo p
        lemma_mul_mod_noop_right(gk, ninv * po, p);
        lemma_mul_mod_noop_left(gk * (ninv * po), px, p);
        assert(gk * (ninv * po) * px == (ninv * gk) * (po * px)) by (nonlinear_arith);
        lemma_mul_mod_noop_right(ninv * gk, po * px, p);
        lemma_mul_mod_noop_right(ninv * gk, py, p);
        assert((ninv * gk) * py == ninv * (gk * py)) by (nonlinear_arith);
    }
    lemma_eval_terms(c, x, g, y, ninv, n as int, p);
    // the entries of g are the full partial transforms
    let full = partial(values, winv, n as int);
    assert forall|j: int| 0 <= j < n implies (#[trigger] coef(g, j)) % p == (1 * coef(full, j) + 0
        * coef(full, j)) % p by {
        lemma_ntt_values(values, winv, p, j);
        lemma_mod_twice(coef(full, j), p);
        assert(1 * coef(full, j) + 0 * coef(full, j) == coef(full, j));
    }
    lemma_eval_linear(g, full, full, 1, 0, y, n as int, p);
    let ef = eval_sum(full, y, n as int);
    assert(1 * ef + 0 * ef == ef);
    lemma_partial(values, w, winv, i as nat, n as int, p);
    // ninv (values[i] n) == values[i]
    let eg = eval_sum(g, y, n as int);
    let vi = values[i];
    lemma_mul_mod_noop_right(ninv, eg, p);
    lemma_mul_mod_noop_right(ninv, vi * n, p);
    assert(ninv * (vi * n) == vi * (n * ninv)) by (nonlinear_arith);
    lemma_mul_mod_noop_right(vi, n * ninv, p);
    assert(vi * 1 == vi);
}

/// The points of the coset `first * ratio^k`, `n` of them.
pub open spec fn coset(first: int, ratio: int, n: nat, p: int) -> Seq<int> {
    Seq::new(n, |k: int| (first * pow(ratio, k as nat)) % p)
}

/// The sums of the first `m` terms of the values of `f` at the points of
/// `domain`.
pub open spec fn partial_values(f: Seq<int>, domain: Seq<int>, m: int) -> Seq<int> {
    Seq::new(domain.len(), |k: int| eval_sum(f, domain[k], m))
}

/// The `m`-th powers of the points of `domain`.
pub open spec fn point_powers(domain: Seq<int>, m: nat) -> Seq<int> {
    Seq::new(domain.len(), |k: int| pow(domain[k], m))
}

/// Transformed with root `winv` and read at entry `k`, the first `m`
/// terms of the values of `f` on a coset leave `n` times the `k`-th
/// coefficient times the `k`-th power of the offset, once it is among
/// them.
proof fn lemma_partial_values(
    f: Seq<int>,
    first: int,
    w: int,
    winv: int,
    n: nat,
    k: nat,
    m: int,
    p: int,
)
    requires
        is_prime(p),
        (w * winv) % p == 1,
        pow(w, n) % p == 1,
        forall|t: nat| 0 < t < n ==> #[trigger] pow(w, t) % p != 1,
        k < n,
        0 <= m <= n,
    ensures
        eval_sum(partial_values(f, coset(first, w, n, p), m), pow(winv, k), n as int) % p == (if k
            < m {
            coef(f, k as int) * pow(first, k) * n
        } else {
            0
        }) % p,
    decreases m,
{
    let domain = coset(first, w, n, p);
    let y = pow(winv, k);
    let cur = partial_values(f, domain, m);
    lemma_small_mod(0, p as nat);
    if m == 0 {
        assert forall|j: int| 0 <= j < n implies (#[trigger] coef(cur, j)) % p == (0 * coef(cur, j)
            + 0 * coef(cur, j)) % p by {
            assert(coef(cur, j) == 0);
            assert(0 * coef(cur, j) == 0);
        }
        lemma_eval_linear(cur, cur, cur, 0, 0, y, n as int, p);
        assert(0 * eval_sum(cur, y, n as int) == 0);
    } else {
        let j0 = (m - 1) as nat;
        lemma_partial_values(f, first, w, winv, n, k, m - 1, p);
        let prev = partial_values(f, domain, m - 1);
        let pp = point_powers(domain, j0);
        let v = coef(f, m - 1);
        let z = pow(winv, k) * pow(w, j0);
        let fj = pow(first, j0);
        assert forall|j: int| 0 <= j < n implies (#[trigger] coef(cur, j)) % p == (1 * coef(prev, j)
            + v * coef(pp, j)) % p by {
            assert(coef(cur, j) == coef(prev, j) + v * pow(domain[j], j0));
            assert(1 * coef(prev, j) == coef(prev, j));
        }
        lemma_eval_linear(cur, prev, pp, 1, v, y, n as int, p);
        // each term of the point powers at y is first^j0 times a power of z
        assert forall|j: int| 0 <= j < n implies ((#[trigger] coef(pp, j)) * pow(y, j as nat)) % p
            == (fj * (coef(ones(n), j) * pow(z, j as nat))) % p by {
            let x = first * pow(w, j as nat);
            lemma_pow_mod_noop(x, j0, p);
            assert(domain[j] == x % p);
            assert(pow(domain[j], j0) % p == pow(x, j0) % p);
            lemma_pow_distributes(first, pow(w, j as nat), j0);
            lemma_pow_multiplies(w, j as nat, j0);
            lemma_pow_multiplies(w, j0, j as nat);
            assert(j * j0 == j0 * j) by (nonlinear_arith);
            let wj = pow(pow(w, j0), j as nat);
            let yj = pow(y, j as nat);
            assert(pow(x, j0) == fj * wj);
            lemma_pow_distributes(y, pow(w, j0), j as nat);
            assert(pow(z, j as nat) == yj * wj);
            lemma_mul_mod_noop_left(pow(domain[j], j0), yj, p);
            lemma_mul_mod_noop_left(pow(x, j0), yj, p);
            assert((fj * wj) * yj == fj * (1 * (yj * wj))) by (nonlinear_arith);
            assert(coef(ones(n), j) == 1);
        }
        lemma_eval_terms(pp, y, ones(n), z, fj, n as int, p);
        lemma_twist(w, winv, k, j0, n, p);
        lemma_geometric_mod(z, n, p);
        let a = eval_sum(prev, y, n as int);
        let t = eval_sum(pp, y, n as int);
        let g = eval_sum(ones(n), z, n as int);
        assert(1 * a == a);
        // the value of cur is a + v t, and t is fj g modulo p
        lemma_mul_mod_noop_right(v, t, p);
        lemma_mul_mod_noop_right(v, fj * g, p);
        lemma_add_mod_noop(a, v * t, p);
        if j0 == k {
            lemma_mul_mod_noop_right(fj, g, p);
            lemma_mul_mod_noop_right(fj, n as int, p);
            lemma_mul_mod_noop_right(v, fj * n, p);
            assert(v * (fj * n) == v * fj * n) by (nonlinear_arith);
            lemma_add_mod_noop(0, v * (fj * n), p);
        } else {
            lemma_mul_mod_noop_right(fj, g, p);
            assert(fj * 0 == 0);
            assert(v * 0 == 0);
            lemma_add_mod_noop(a, 0, p);
            lemma_mod_twice(a, p);
        }
    }
}

/// Interpolating the values of a polynomial on a coset gives the
/// polynomial back: where `f` has at most `n` coefficients, the
/// coefficients interpolated from its values on the coset
/// `first * ratio^k` of `n` elements are those of `f`.
pub proof fn lemma_interpolate_values(first: int, ratio: int, n: nat, f: Seq<int>, p: int)
    requires
        is_prime(p),
        is_pow2(n as int),
        (n as int) % p != 0,
        first % p != 0,
        pow(ratio, n) % p == 1,
        forall|t: nat| 0 < t < n ==> #[trigger] pow(ratio, t) % p != 1,
        f.len() <= n,
        canonical(f, p),
    ensures
        ({
            let domain = coset(first, ratio, n, p);
            let values = Seq::new(n, |k: int| poly_eval(f, domain[k], p));
            &&& poly_interpolate(domain, values, p).is_ok()
            &&& poly_interpolate(domain, values, p).unwrap().len() == n
            &&& forall|k: int|
                0 <= k < n ==> #[trigger] poly_interpolate(domain, values, p).unwrap()[k] == coef(
                    f,
                    k,
                )
        }),
{
    let domain = coset(first, ratio, n, p);
    let values = Seq::new(n, |k: int| poly_eval(f, domain[k], p));
    let o = domain[0];
    lemma_small_mod(1, p as nat);
    lemma_small_mod(0, p as nat);
    lemma_pow0(ratio);
    lemma_pow1(ratio);
    assert(first * 1 == first);
    assert(o == first % p);
    lemma_mod_twice(first, p);
    lemma_prime_has_inverse(o, p);
    let oinv = inverse(o, p);
    let w = if n > 1 {
        (domain[1] * oinv) % p
    } else {
        1
    };
    assert(w % p == ratio % p) by {
        if n > 1 {
            assert(domain[1] == (first * ratio) % p);
            lemma_mod_twice(domain[1] * oinv, p);
            lemma_mul_mod_noop_left(first * ratio, oinv, p);
            lemma_mul_mod_noop_left(first, oinv, p);
            assert((first * oinv) % p == 1);
            assert((first * ratio) * oinv == ratio * (first * oinv)) by (nonlinear_arith);
            lemma_mul_mod_noop_right(ratio, first * oinv, p);
            assert(ratio * 1 == ratio);
        }
    }
    assert forall|t: nat| pow(w, t) % p == #[trigger] pow(ratio, t) % p by {
        lemma_pow_mod_noop(w, t, p);
        lemma_pow_mod_noop(ratio, t, p);
    }
    assert(pow(w, n) % p == 1);
    assert forall|t: nat| 0 < t < n implies #[trigger] pow(w, t) % p != 1 by {
        assert(pow(w, t) % p == pow(ratio, t) % p);
    }
    assert(w % p != 0) by {
        if w % p == 0 {
            lemma_pow_mod_noop(w, n, p);
            lemma0_pow(n);
        }
    }
    lemma_prime_has_inverse(w, p);
    lemma_prime_has_inverse(n as int, p);
    let winv = inverse(w, p);
    let ninv = inverse(n as int, p);
    let g = ntt(values, winv, p);
    let c = Seq::new(n, |k: int| (g[k] * ((ninv * pow(oinv, k as nat)) % p)) % p);
    assert(poly_interpolate(domain, values, p) == Ok::<Seq<int>, Error>(c));
    lemma_inverse_root(w, winv, n, p);
    // the coset with the root that is read off it is the same coset
    let same = coset(first, w, n, p);
    assert(same =~= domain) by {
        assert forall|k: int| 0 <= k < n implies same[k] == domain[k] by {
            lemma_mul_mod_noop_right(first, pow(w, k as nat), p);
            lemma_mul_mod_noop_right(first, pow(ratio, k as nat), p);
        }
    }
    let full = partial_values(f, domain, n as int);
    assert forall|k: int| 0 <= k < n implies #[trigger] c[k] == coef(f, k) by {
        let y = pow(winv, k as nat);
        lemma_ntt_values(values, winv, p, k);
        // the values are the full partial values, modulo p
        assert forall|j: int| 0 <= j < n implies (#[trigger] coef(values, j)) % p == (1 * coef(
            full,
            j,
        ) + 0 * coef(full, j)) % p by {
            lemma_eval_beyond(f, domain[j], n as int);
            lemma_mod_twice(eval_sum(f, domain[j], f.len() as int), p);
            assert(1 * coef(full, j) + 0 * coef(full, j) == coef(full, j));
        }
        lemma_eval_linear(values, full, full, 1, 0, y, n as int, p);
        let ef = eval_sum(full, y, n as int);
        assert(1 * ef + 0 * ef == ef);
        lemma_partial_values(f, first, w, winv, n, k as nat, n as int, p);
        let fk = coef(f, k);
        let po = pow(first, k as nat);
        let qo = pow(oinv, k as nat);
        assert(g[k] % p == (fk * po * n) % p) by {
            lemma_mod_twice(eval_sum(values, y, n as int), p);
        }
        // c[k] == g[k] ninv qo == fk (po qo) (n ninv) == fk, all modulo p
        lemma_mul_mod_noop_right(g[k], ninv * qo, p);
        lemma_mul_mod_noop_left(g[k], ninv * qo, p);
        lemma_mul_mod_noop_left(fk * po * n, ninv * qo, p);
        assert((fk * po * n) * (ninv * qo) == (fk * (po * qo)) * (n * ninv)) by (nonlinear_arith);
        lemma_mul_mod_noop_right(fk * (po * qo), n * ninv, p);
        assert((fk * (po * qo)) * 1 == fk * (po * qo));
        // po qo is one modulo p
        lemma_pow_mod_noop(first, k as nat, p);
        lemma_pow_unit(o, oinv, k as nat, p);
        lemma_mul_mod_noop_left(po, qo, p);
        lemma_mul_mod_noop_left(pow(o, k as nat), qo, p);
        lemma_mul_mod_noop_right(fk, po * qo, p);
        assert(fk * 1 == fk);
        if k < f.len() {
            lemma_small_mod(fk as nat, p as nat);
        }
    }
}

} // verus!
