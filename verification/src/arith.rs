//! Facts about division, remainders and powers of integers that the field
//! arithmetic rests on.
use vstd::arithmetic::div_mod::*;
use vstd::arithmetic::mul::*;
use vstd::arithmetic::power::*;
use vstd::prelude::*;

use crate::bigint::trunc_rem;

verus! {

/// `p` is a prime number.
pub open spec fn is_prime(p: int) -> bool {
    p >= 2 && forall|d: int| 1 < d < p ==> #[trigger] (p % d) != 0
}

/// `r` is the inverse of `a` modulo `p`, taken in `[0, p)`.
pub open spec fn is_inverse(a: int, r: int, p: int) -> bool {
    0 <= r < p && (a * r) % p == 1
}

/// `a` has an inverse modulo `p`.
pub open spec fn has_inverse(a: int, p: int) -> bool {
    exists|r: int| is_inverse(a, r, p)
}

/// The inverse of `a` modulo `p`, where there is one.
pub open spec fn inverse(a: int, p: int) -> int {
    choose|r: int| is_inverse(a, r, p)
}

/// The remainder that rounds toward zero differs from the one in `[0, p)`
/// by `p` exactly when it is negative.
pub proof fn lemma_trunc_rem(a: int, p: int)
    requires
        p > 0,
    ensures
        -p < trunc_rem(a, p) < p,
        trunc_rem(a, p) >= 0 ==> trunc_rem(a, p) == a % p,
        trunc_rem(a, p) < 0 ==> trunc_rem(a, p) + p == a % p,
{
    lemma_mod_bound(a, p);
    lemma_mod_bound(-a, p);
    if a < 0 {
        let s = (-a) % p;
        let q = (-a) / p;
        lemma_fundamental_div_mod(-a, p);
        assert(-a == p * q + s);
        if s == 0 {
            assert(a == (-q) * p + 0) by (nonlinear_arith)
                requires
                    -a == p * q + 0,
            ;
            lemma_fundamental_div_mod_converse_mod(a, p, -q, 0);
        } else {
            assert(a == (-q - 1) * p + (p - s)) by (nonlinear_arith)
                requires
                    -a == p * q + s,
            ;
            lemma_fundamental_div_mod_converse_mod(a, p, -q - 1, p - s);
        }
    }
}

/// Congruent factors give congruent products.
pub proof fn lemma_mul_congruent(a: int, b: int, c: int, d: int, p: int)
    requires
        p > 0,
        a % p == c % p,
        b % p == d % p,
    ensures
        (a * b) % p == (c * d) % p,
{
    lemma_mul_mod_noop_general(a, b, p);
    lemma_mul_mod_noop_general(c, d, p);
}

/// An inverse modulo `p` is unique in `[0, p)`.
pub proof fn lemma_inverse_unique(a: int, r1: int, r2: int, p: int)
    requires
        p > 0,
        is_inverse(a, r1, p),
        is_inverse(a, r2, p),
    ensures
        r1 == r2,
{
    // r1 == r1 * (a * r2) == (r1 * a) * r2 == r2, all modulo p
    lemma_mul_mod_noop_general(r1, a * r2, p);
    lemma_mul_mod_noop_general(r1 * a, r2, p);
    assert(r1 * (a * r2) == (r1 * a) * r2) by (nonlinear_arith);
    assert(r1 * a == a * r1) by (nonlinear_arith);
    lemma_small_mod(r1 as nat, p as nat);
    lemma_small_mod(r2 as nat, p as nat);
    if p == 1 {
    } else {
        lemma_small_mod(1, p as nat);
        assert((r1 * (a * r2)) % p == ((r1 % p) * 1) % p);
        assert(((r1 * a) * r2) % p == (1 * (r2 % p)) % p);
    }
}

/// Where `a` has an inverse modulo `p`, the chosen one is it.
pub proof fn lemma_inverse_is(a: int, r: int, p: int)
    requires
        p > 0,
        is_inverse(a, r, p),
    ensures
        has_inverse(a, p),
        inverse(a, p) == r,
{
    lemma_inverse_unique(a, r, inverse(a, p), p);
}

/// `d` is positive and divides both `a` and `b`.
pub open spec fn common_divisor(d: int, a: int, b: int) -> bool {
    d > 0 && a % d == 0 && b % d == 0
}

/// A divisor of `x` and of `y` divides `k * x + y`.
pub proof fn lemma_divides_combination(d: int, k: int, x: int, y: int)
    requires
        d > 0,
        x % d == 0,
        y % d == 0,
    ensures
        (k * x + y) % d == 0,
{
    lemma_mul_mod_noop_right(k, x, d);
    assert((k * x) % d == 0) by {
        assert(k * 0 == 0);
        lemma_small_mod(0, d as nat);
    }
    lemma_add_mod_noop(k * x, y, d);
    lemma_small_mod(0, d as nat);
}

/// A number above 1 that divides both `a` and `p` rules out an inverse of
/// `a` modulo `p`.
pub proof fn lemma_common_divisor_no_inverse(d: int, a: int, p: int)
    requires
        d > 1,
        p > 0,
        a % d == 0,
        p % d == 0,
    ensures
        !has_inverse(a, p),
{
    if has_inverse(a, p) {
        let r = choose|r: int| is_inverse(a, r, p);
        let k = p / d;
        lemma_fundamental_div_mod(p, d);
        assert(p == d * k);
        assert(k > 0) by (nonlinear_arith)
            requires
                p == d * k,
                p > 0,
                d > 1,
        ;
        lemma_mod_mod(a * r, d, k);
        assert(((a * r) % p) % d == (a * r) % d);
        lemma_small_mod(1, d as nat);
        lemma_divides_combination(d, r, a, 0);
        assert(r * a + 0 == a * r) by (nonlinear_arith);
        assert(false);
    }
}

/// Bezout's identity: some positive common divisor `d` of `a` and `b` is a
/// combination `a * x + b * y` of them. Returns `(d, x, y)`.
pub proof fn lemma_bezout(a: int, b: int) -> (r: (int, int, int))
    requires
        a >= 0,
        b >= 0,
        a + b > 0,
    ensures
        common_divisor(r.0, a, b),
        a * r.1 + b * r.2 == r.0,
    decreases b,
{
    if b == 0 {
        lemma_mod_self_0(a);
        lemma_small_mod(0, a as nat);
        assert(a * 1 + b * 0 == a) by (nonlinear_arith)
            requires
                b == 0,
        ;
        (a, 1, 0)
    } else {
        let q = a / b;
        let m = a % b;
        lemma_fundamental_div_mod(a, b);
        lemma_mod_bound(a, b);
        let (d, x1, y1) = lemma_bezout(b, m);
        lemma_divides_combination(d, q, b, m);
        assert(q * b + m == a) by (nonlinear_arith)
            requires
                a == b * q + m,
        ;
        assert(a * y1 + b * (x1 - q * y1) == d) by (nonlinear_arith)
            requires
                a == b * q + m,
                b * x1 + m * y1 == d,
        ;
        (d, y1, x1 - q * y1)
    }
}

/// Modulo a prime, every residue but zero has an inverse.
pub proof fn lemma_prime_has_inverse(a: int, p: int)
    requires
        is_prime(p),
        a % p != 0,
    ensures
        has_inverse(a, p),
        (a * inverse(a, p)) % p == 1,
        0 <= inverse(a, p) < p,
{
    let a1 = a % p;
    lemma_mod_bound(a, p);
    let (d, x, y) = lemma_bezout(a1, p);
    // d divides the prime p, so d is 1 or p; and d divides a1 < p
    if d > p {
        lemma_small_mod(p as nat, d as nat);
    }
    if d == p {
        lemma_small_mod(a1 as nat, p as nat);
    }
    if 1 < d < p {
        assert(p % d != 0);
    }
    assert(d == 1);
    // a1 * x == 1 - p * y
    let r = x % p;
    lemma_mod_bound(x, p);
    assert((a1 * x) % p == 1) by {
        assert(a1 * x == (-y) * p + 1) by (nonlinear_arith)
            requires
                a1 * x + p * y == 1,
        ;
        lemma_fundamental_div_mod_converse_mod(a1 * x, p, -y, 1);
    }
    lemma_mul_mod_noop_general(a, x, p);
    lemma_mul_mod_noop_general(a1, x, p);
    lemma_mul_mod_noop_right(a, x, p);
    assert((a * r) % p == 1);
    assert(is_inverse(a, r, p));
}

/// `g` has order exactly `p - 1` modulo `p`: it generates the whole
/// multiplicative group.
pub open spec fn is_primitive_root(g: int, p: int) -> bool {
    &&& p >= 2
    &&& pow(g, (p - 1) as nat) % p == 1
    &&& forall|k: nat| 0 < k < p - 1 ==> #[trigger] pow(g, k) % p != 1
}

/// `n` is a power of two.
pub open spec fn is_pow2(n: int) -> bool
    decreases n,
{
    if n <= 1 {
        n == 1
    } else {
        n % 2 == 0 && is_pow2(n / 2)
    }
}

/// The element that `Field::generator` derives for a subgroup of `n`
/// elements: `g` to the power `(p - 1) / n`.
pub open spec fn subgroup_generator(g: int, p: int, n: int) -> int {
    pow(g, ((p - 1) / n) as nat) % p
}

/// A power of a reduced power is the power to the product of the exponents.
pub proof fn lemma_pow_pow_mod(g: int, e: nat, n: nat, p: int)
    requires
        p > 0,
    ensures
        pow(pow(g, e) % p, n) % p == pow(g, e * n) % p,
{
    lemma_pow_mod_noop(pow(g, e), n, p);
    lemma_pow_multiplies(g, e, n);
}

/// The derived generator of a subgroup of `n` elements has order exactly
/// `n`: its `n`-th power is one and no smaller power is.
pub proof fn lemma_subgroup_generator_order(g: int, p: int, n: int)
    requires
        is_primitive_root(g, p),
        0 < n < p,
        (p - 1) % n == 0,
    ensures
        pow(subgroup_generator(g, p, n), n as nat) % p == 1,
        forall|t: nat| 0 < t < n ==> #[trigger] pow(subgroup_generator(g, p, n), t) % p != 1,
{
    let e = (p - 1) / n;
    lemma_fundamental_div_mod(p - 1, n);
    assert(e > 0 && e * n == p - 1) by (nonlinear_arith)
        requires
            p - 1 == n * e,
            0 < n < p,
    ;
    lemma_pow_pow_mod(g, e as nat, n as nat, p);
    assert forall|t: nat| 0 < t < n implies #[trigger] pow(subgroup_generator(g, p, n), t) % p
        != 1 by {
        lemma_pow_pow_mod(g, e as nat, t, p);
        let k = (e * t) as nat;
        assert(0 < k < p - 1) by (nonlinear_arith)
            requires
                k == e * t,
                0 < t < n,
                e > 0,
                e * n == p - 1,
        ;
        assert(pow(g, k) % p != 1);
    }
}

/// Equal powers of a number and of its inverse multiply to one.
pub proof fn lemma_pow_unit(a: int, ra: int, e: nat, p: int)
    requires
        p >= 2,
        (a * ra) % p == 1,
    ensures
        (pow(a, e) * pow(ra, e)) % p == 1,
{
    lemma_pow_distributes(a, ra, e);
    lemma_pow_mod_noop(a * ra, e, p);
    lemma1_pow(e);
    lemma_small_mod(1, p as nat);
}

/// The inverse of a product of powers is the product of the same powers
/// of the inverses.
pub proof fn lemma_inverse_of_powers(a: int, ra: int, e: nat, b: int, rb: int, f: nat, p: int)
    requires
        p >= 2,
        is_inverse(a, ra, p),
        is_inverse(b, rb, p),
    ensures
        has_inverse((pow(a, e) * pow(b, f)) % p, p),
        inverse((pow(a, e) * pow(b, f)) % p, p) == ((pow(ra, e) % p) * (pow(rb, f) % p)) % p,
{
    let pa = pow(a, e);
    let pb = pow(b, f);
    let qa = pow(ra, e);
    let qb = pow(rb, f);
    let x = (pa * pb) % p;
    let y = ((qa % p) * (qb % p)) % p;
    lemma_pow_unit(a, ra, e, p);
    lemma_pow_unit(b, rb, f, p);
    lemma_mul_mod_noop_general(pa * qa, pb * qb, p);
    assert((pa * qa) * (pb * qb) == (pa * pb) * (qa * qb)) by (nonlinear_arith);
    lemma_small_mod(1, p as nat);
    assert(((pa * pb) * (qa * qb)) % p == 1);
    lemma_mul_mod_noop_general(qa, qb, p);
    lemma_mul_mod_noop_general(pa * pb, qa * qb, p);
    lemma_mul_mod_noop_general(x, y, p);
    lemma_mod_bound(qa * qb, p);
    lemma_mod_twice(pa * pb, p);
    lemma_mod_twice(qa * qb, p);
    assert(y == (qa * qb) % p);
    assert((x * y) % p == 1);
    assert(is_inverse(x, y, p));
    lemma_inverse_is(x, y, p);
}

/// Modulo a prime, a product is zero only where a factor is.
pub proof fn lemma_zero_product(a: int, b: int, p: int)
    requires
        is_prime(p),
        (a * b) % p == 0,
    ensures
        a % p == 0 || b % p == 0,
{
    if a % p != 0 {
        lemma_prime_has_inverse(a, p);
        let r = inverse(a, p);
        // b == (r a) b == r (a b) == 0, all modulo p
        lemma_mul_mod_noop_left(a * r, b, p);
        lemma_mul_mod_noop_right(r, a * b, p);
        assert((a * r) * b == r * (a * b)) by (nonlinear_arith);
        assert(1 * b == b);
        assert(r * 0 == 0);
        lemma_small_mod(0, p as nat);
    }
}

/// Modulo a prime, a factor that is not zero can be cancelled.
pub proof fn lemma_cancel_factor(d: int, a: int, b: int, p: int)
    requires
        is_prime(p),
        d % p != 0,
        (d * a) % p == (d * b) % p,
    ensures
        a % p == b % p,
{
    lemma_sub_mod_noop(d * a, d * b, p);
    assert(d * a - d * b == d * (a - b)) by (nonlinear_arith);
    lemma_small_mod(0, p as nat);
    assert((d * (a - b)) % p == 0);
    lemma_zero_product(d, a - b, p);
    assert((a - b) % p == 0);
    lemma_mod_bound(a, p);
    lemma_mod_bound(b, p);
    lemma_sub_mod_noop(a, b, p);
    let x = a % p;
    let y = b % p;
    assert((x - y) % p == 0);
    if x != y {
        if x > y {
            lemma_small_mod((x - y) as nat, p as nat);
        } else {
            lemma_mod_sub_multiples_vanish(x - y + p, p);
            lemma_small_mod((x - y + p) as nat, p as nat);
        }
    }
}

/// Congruent terms give congruent sums.
pub proof fn lemma_add_congruent(a: int, b: int, c: int, d: int, p: int)
    requires
        p > 0,
        a % p == c % p,
        b % p == d % p,
    ensures
        (a + b) % p == (c + d) % p,
{
    lemma_add_mod_noop(a, b, p);
    lemma_add_mod_noop(c, d, p);
}

/// Modulo a prime, a square root of one is one or minus one.
pub proof fn lemma_root_of_one(z: int, p: int)
    requires
        is_prime(p),
        (z * z) % p == 1,
    ensures
        z % p == 1 || (z + 1) % p == 0,
{
    lemma_small_mod(1, p as nat);
    lemma_small_mod(0, p as nat);
    lemma_sub_mod_noop(z * z, 1, p);
    assert((z - 1) * (z + 1) == z * z - 1) by (nonlinear_arith);
    lemma_zero_product(z - 1, z + 1, p);
    if (z - 1) % p == 0 {
        lemma_add_mod_noop(z - 1, 1, p);
        assert(z - 1 + 1 == z);
    }
}

/// In a prime field, a root of unity of order exactly `n`, `n` even, has
/// minus one as its power `n / 2`.
pub proof fn lemma_half_order(w: int, n: nat, p: int)
    requires
        is_prime(p),
        n >= 2,
        n % 2 == 0,
        pow(w, n) % p == 1,
        forall|t: nat| 0 < t < n ==> #[trigger] pow(w, t) % p != 1,
    ensures
        (pow(w, n / 2) + 1) % p == 0,
{
    let h = n / 2;
    let z = pow(w, h);
    lemma_pow_adds(w, h, h);
    assert(h + h == n);
    lemma_root_of_one(z, p);
    assert(pow(w, h) % p != 1);
}

/// `w` is a primitive `n`-th root of unity modulo `p`, for `n` a power
/// of two: its `n`-th power is one and its `n / 2`-th power is not.
pub open spec fn is_primitive_unity(w: int, n: nat, p: int) -> bool {
    &&& is_pow2(n as int)
    &&& pow(w, n) % p == 1
    &&& n >= 2 ==> pow(w, n / 2) % p != 1
}

/// No power of a primitive `n`-th root of unity below the `n`-th is one:
/// the power `t` is not.
pub proof fn lemma_primitive_power(w: int, n: nat, t: nat, p: int)
    requires
        p >= 2,
        is_primitive_unity(w, n, p),
        0 < t < n,
    ensures
        pow(w, t) % p != 1,
    decreases n,
{
    let h = n / 2;
    let sq = w * w;
    if pow(w, t) % p == 1 && t != h {
        lemma_square_is_pow2(w);
        lemma_small_mod(1, p as nat);
        // the square of w is a primitive root of unity of order h
        lemma_pow_multiplies(w, 2, h);
        assert(2 * h == n);
        assert(h >= 2) by {
            if h < 2 {
                assert(t == h);
            }
        }
        lemma_pow_multiplies(w, 2, h / 2);
        assert(is_pow2(n as int));
        assert(is_pow2(h as int));
        assert(h % 2 == 0 && is_pow2((h / 2) as int));
        assert(2 * (h / 2) == h);
        assert(is_primitive_unity(sq, h, p));
        // some power of the square below the h-th is one
        lemma_pow_adds(w, t, t);
        lemma_mul_mod_noop_general(pow(w, t), pow(w, t), p);
        assert(pow(w, t + t) % p == 1);
        if t < h {
            lemma_pow_multiplies(w, 2, t);
            assert(2 * t == t + t);
            lemma_primitive_power(sq, h, t, p);
        } else {
            let u = (t - h) as nat;
            lemma_pow_adds(w, n, 2 * u);
            assert(n + 2 * u == t + t);
            lemma_mul_mod_noop_left(pow(w, n), pow(w, 2 * u), p);
            assert(1 * pow(w, 2 * u) == pow(w, 2 * u));
            lemma_pow_multiplies(w, 2, u);
            lemma_primitive_power(sq, h, u, p);
        }
    }
}

/// A primitive `n`-th root of unity has order exactly `n`.
pub proof fn lemma_primitive_order(w: int, n: nat, p: int)
    requires
        p >= 2,
        is_primitive_unity(w, n, p),
    ensures
        forall|t: nat| 0 < t < n ==> #[trigger] pow(w, t) % p != 1,
{
    assert forall|t: nat| 0 < t < n implies #[trigger] pow(w, t) % p != 1 by {
        lemma_primitive_power(w, n, t, p);
    }
}

} // verus!
