//! Dense univariate polynomials over the integers modulo `p`, as sequences
//! of coefficients: entry `i` is the coefficient of `x^i`.
use vstd::arithmetic::div_mod::*;
use vstd::arithmetic::power::pow;
use vstd::prelude::*;

use crate::arith::{has_inverse, inverse, is_inverse, is_pow2};
use crate::error::Error;

verus! {

/// Every coefficient is a representative in `[0, p)`.
pub open spec fn canonical(c: Seq<int>, p: int) -> bool {
    forall|i: int| 0 <= i < c.len() ==> 0 <= #[trigger] c[i] < p
}

/// The coefficient of `x^k`; zero beyond the stored ones.
pub open spec fn coef(c: Seq<int>, k: int) -> int {
    if 0 <= k < c.len() {
        c[k]
    } else {
        0
    }
}

/// Every coefficient is zero.
pub open spec fn is_zero_poly(c: Seq<int>) -> bool {
    forall|i: int| 0 <= i < c.len() ==> #[trigger] c[i] == 0
}

/// The largest index of a coefficient that is not zero; 0 for the zero
/// polynomial.
pub open spec fn poly_degree(c: Seq<int>) -> nat
    decreases c.len(),
{
    if c.len() == 0 {
        0
    } else if c.last() != 0 {
        (c.len() - 1) as nat
    } else {
        poly_degree(c.drop_last())
    }
}

/// Two coefficient sequences denote the same polynomial: they agree but
/// for zeros at the end.
pub open spec fn same_poly(a: Seq<int>, b: Seq<int>) -> bool {
    forall|k: int| #![trigger coef(a, k)] #![trigger coef(b, k)] coef(a, k) == coef(b, k)
}

/// The sequence without the zeros at its end.
pub open spec fn poly_trim(c: Seq<int>) -> Seq<int>
    decreases c.len(),
{
    if c.len() == 0 {
        c
    } else if c.last() == 0 {
        poly_trim(c.drop_last())
    } else {
        c
    }
}

/// The larger of two lengths.
pub open spec fn longer(a: int, b: int) -> int {
    if a >= b {
        a
    } else {
        b
    }
}

/// `c` with `v * x^e` added.
pub open spec fn poly_term(c: Seq<int>, v: int, e: nat, p: int) -> Seq<int> {
    Seq::new(
        longer(c.len() as int, e as int + 1) as nat,
        |i: int|
            if i == e {
                (coef(c, i) + v) % p
            } else {
                coef(c, i)
            },
    )
}

/// The sum of two polynomials.
pub open spec fn poly_add(a: Seq<int>, b: Seq<int>, p: int) -> Seq<int> {
    Seq::new(longer(a.len() as int, b.len() as int) as nat, |i: int| (coef(a, i) + coef(b, i)) % p)
}

/// The difference of two polynomials.
pub open spec fn poly_sub(a: Seq<int>, b: Seq<int>, p: int) -> Seq<int> {
    Seq::new(longer(a.len() as int, b.len() as int) as nat, |i: int| (coef(a, i) - coef(b, i)) % p)
}

/// The polynomial times the constant `v`.
pub open spec fn poly_scalar(a: Seq<int>, v: int, p: int) -> Seq<int> {
    Seq::new(a.len(), |i: int| (v * a[i]) % p)
}

/// The polynomial with `v * x` put for `x`.
pub open spec fn poly_scale(a: Seq<int>, v: int, p: int) -> Seq<int> {
    Seq::new(a.len(), |i: int| (pow(v, i as nat) * a[i]) % p)
}

/// The first `n` terms of the coefficient of `x^k` in the product of `a`
/// and `b`: the sum of `a[k - i] * b[i]` over `i < n`.
pub open spec fn cauchy_upto(a: Seq<int>, b: Seq<int>, k: int, n: int) -> int
    decreases n,
{
    if n <= 0 {
        0
    } else {
        cauchy_upto(a, b, k, n - 1) + coef(a, k - (n - 1)) * coef(b, n - 1)
    }
}

/// The coefficient of `x^k` in the product of `a` and `b`, not reduced.
pub open spec fn cauchy(a: Seq<int>, b: Seq<int>, k: int) -> int {
    cauchy_upto(a, b, k, b.len() as int)
}

/// The product of two polynomials, before the zeros at its end are cut.
pub open spec fn poly_mul_full(a: Seq<int>, b: Seq<int>, p: int) -> Seq<int> {
    Seq::new(a.len() + b.len(), |k: int| cauchy(a, b, k) % p)
}

/// The product of two polynomials.
pub open spec fn poly_mul(a: Seq<int>, b: Seq<int>, p: int) -> Seq<int> {
    poly_trim(poly_mul_full(a, b, p))
}

/// The `n`-th power of a polynomial.
pub open spec fn poly_pow(a: Seq<int>, n: nat, p: int) -> Seq<int>
    decreases n,
{
    if n == 0 {
        seq![1]
    } else {
        poly_mul(poly_pow(a, (n - 1) as nat, p), a, p)
    }
}

/// The polynomial `c` with the polynomial `q` put for `x`, by Horner's
/// rule.
pub open spec fn poly_compose(c: Seq<int>, q: Seq<int>, p: int) -> Seq<int>
    decreases c.len(),
{
    if c.len() == 0 {
        Seq::empty()
    } else {
        poly_term(poly_mul(poly_compose(c.drop_first(), q, p), q, p), c[0], 0, p)
    }
}

/// The sum of the first `n` terms `c[i] * x^i`; terms beyond the stored
/// coefficients are zero.
pub open spec fn eval_sum(c: Seq<int>, x: int, n: int) -> int
    decreases n,
{
    if n <= 0 {
        0
    } else {
        eval_sum(c, x, n - 1) + coef(c, n - 1) * pow(x, (n - 1) as nat)
    }
}

/// The value of the polynomial at `x`.
pub open spec fn poly_eval(c: Seq<int>, x: int, p: int) -> int {
    eval_sum(c, x, c.len() as int) % p
}

/// Cutting the zeros at the end changes no coefficient, and leaves a
/// sequence that is canonical if the whole was.
pub proof fn lemma_trim(c: Seq<int>)
    ensures
        same_poly(poly_trim(c), c),
        poly_trim(c).len() <= c.len(),
        poly_trim(c) == c.take(poly_trim(c).len() as int),
        poly_trim(c).len() > 0 ==> poly_trim(c).last() != 0,
        forall|i: int| poly_trim(c).len() <= i < c.len() ==> c[i] == 0,
    decreases c.len(),
{
    if c.len() == 0 {
        assert(c.take(0) =~= c);
    } else if c.last() == 0 {
        lemma_trim(c.drop_last());
        let t = poly_trim(c);
        assert(t =~= c.take(t.len() as int));
        assert forall|k: int| coef(t, k) == coef(c, k) by {
            assert(coef(t, k) == coef(c.drop_last(), k));
        }
        assert forall|i: int| t.len() <= i < c.len() implies c[i] == 0 by {
            if i < c.len() - 1 {
                assert(c.drop_last()[i] == 0);
            }
        }
    } else {
        assert(c.take(c.len() as int) =~= c);
    }
}

/// A polynomial that is not zero has a leading coefficient that is not
/// zero, and zeros above it.
pub proof fn lemma_degree(c: Seq<int>)
    ensures
        c.len() > 0 ==> poly_degree(c) < c.len(),
        !is_zero_poly(c) ==> c[poly_degree(c) as int] != 0,
        forall|i: int| poly_degree(c) < i < c.len() ==> c[i] == 0,
        is_zero_poly(c) ==> poly_degree(c) == 0,
    decreases c.len(),
{
    if c.len() > 0 && c.last() == 0 {
        let d = c.drop_last();
        lemma_degree(d);
        if !is_zero_poly(c) {
            assert(!is_zero_poly(d)) by {
                let i = choose|i: int| 0 <= i < c.len() && c[i] != 0;
                assert(d[i] != 0);
            }
        }
        if is_zero_poly(c) {
            assert(is_zero_poly(d)) by {
                assert forall|i: int| 0 <= i < d.len() implies #[trigger] d[i] == 0 by {
                    assert(c[i] == 0);
                }
            }
        }
        assert forall|i: int| poly_degree(c) < i < c.len() implies c[i] == 0 by {
            if i < d.len() {
                assert(d[i] == 0);
            }
        }
    }
}

/// `r` with `c * x^e` times `d` subtracted.
pub open spec fn sub_shifted(r: Seq<int>, d: Seq<int>, c: int, e: int, p: int) -> Seq<int> {
    Seq::new(r.len(), |k: int| (r[k] - c * coef(d, k - e)) % p)
}

/// Schoolbook division from position `i` down: while `i` is not below the
/// degree of `d`, the coefficient `r[i]` divided by the leading one of `d`
/// (`linv` is that one's inverse) goes to the quotient, and that multiple of
/// `d` is taken from `r`. Returns quotient and remainder.
pub open spec fn div_loop(r: Seq<int>, q: Seq<int>, d: Seq<int>, linv: int, i: int, p: int) -> (
    Seq<int>,
    Seq<int>,
)
    decreases i + 1,
{
    let m = poly_degree(d) as int;
    if i < m || i >= r.len() {
        (q, r)
    } else {
        let c = (r[i] * linv) % p;
        div_loop(sub_shifted(r, d, c, i - m, p), q.update(i - m, c), d, linv, i - 1, p)
    }
}

/// Quotient and remainder of `a` by `d`, which is not zero and whose
/// leading coefficient has an inverse.
pub open spec fn poly_div(a: Seq<int>, d: Seq<int>, p: int) -> (Seq<int>, Seq<int>) {
    let m = poly_degree(d) as int;
    if a.len() <= m {
        (Seq::empty(), a)
    } else {
        div_loop(
            a,
            Seq::new((a.len() - m) as nat, |k: int| 0int),
            d,
            inverse(d[m], p),
            a.len() - 1,
            p,
        )
    }
}

/// Whether `d` can divide: it is not zero and its leading coefficient has
/// an inverse, as every one has in a prime field.
pub open spec fn divisible_by(d: Seq<int>, p: int) -> bool {
    !is_zero_poly(d) && crate::arith::has_inverse(d[poly_degree(d) as int], p)
}

/// The quotient of `a` by `d` where the division leaves no remainder.
pub open spec fn poly_safe_div(a: Seq<int>, d: Seq<int>, p: int) -> Result<Seq<int>, Error> {
    if !divisible_by(d, p) {
        Err(Error::DivByZero)
    } else if !is_zero_poly(poly_div(a, d, p).1) {
        Err(Error::NonZeroRemainder)
    } else {
        Ok(poly_div(a, d, p).0)
    }
}

/// A sum of products whose first factors are all zero is zero.
pub proof fn lemma_cauchy_zero(a: Seq<int>, b: Seq<int>, k: int, n: int)
    requires
        forall|j: int| k - n < j <= k ==> #[trigger] coef(a, j) == 0,
    ensures
        cauchy_upto(a, b, k, n) == 0,
    decreases n,
{
    if n > 0 {
        lemma_cauchy_zero(a, b, k, n - 1);
        assert(coef(a, k - (n - 1)) == 0);
        assert(coef(a, k - (n - 1)) * coef(b, n - 1) == 0) by (nonlinear_arith)
            requires
                coef(a, k - (n - 1)) == 0,
        ;
    }
}

/// Changing one coefficient of the first factor by `delta` changes the
/// coefficient of `x^k` in the product by `delta` times the matching
/// coefficient of the second.
pub proof fn lemma_cauchy_update(a: Seq<int>, b: Seq<int>, e: int, c: int, k: int, n: int)
    requires
        0 <= e < a.len(),
        0 <= n <= b.len(),
    ensures
        cauchy_upto(a.update(e, c), b, k, n) == cauchy_upto(a, b, k, n) + if 0 <= k - e < n {
            (c - a[e]) * coef(b, k - e)
        } else {
            0
        },
    decreases n,
{
    if n > 0 {
        lemma_cauchy_update(a, b, e, c, k, n - 1);
        let a2 = a.update(e, c);
        let i = n - 1;
        let y = coef(b, i);
        if k - i == e {
            assert(coef(a2, k - i) == c);
            assert(c * y == a[e] * y + (c - a[e]) * y) by (nonlinear_arith);
        } else {
            assert(coef(a2, k - i) == coef(a, k - i));
        }
    }
}

/// Taking `c` times the leading coefficient from `x`, where `c` is `x`
/// over that coefficient, leaves zero.
pub proof fn lemma_lead_cancels(x: int, lead: int, linv: int, p: int)
    requires
        p >= 2,
        is_inverse(lead, linv, p),
    ensures
        (x - ((x * linv) % p) * lead) % p == 0,
{
    let c = (x * linv) % p;
    lemma_mul_mod_noop_left(x * linv, lead, p);
    assert((x * linv) * lead == x * (lead * linv)) by (nonlinear_arith);
    lemma_mul_mod_noop_right(x, lead * linv, p);
    assert(x * 1 == x);
    assert((c * lead) % p == x % p);
    lemma_sub_mod_noop(x, c * lead, p);
    assert(x % p - x % p == 0);
    lemma_small_mod(0, p as nat);
}

/// What `div_loop` keeps true: the dividend stays quotient times divisor
/// plus remainder, coefficient by coefficient, and in the end the remainder
/// has nothing left at or above the degree of the divisor.
pub proof fn lemma_div_loop(
    a: Seq<int>,
    r: Seq<int>,
    q: Seq<int>,
    d: Seq<int>,
    linv: int,
    i: int,
    p: int,
)
    requires
        p >= 2,
        canonical(r, p),
        canonical(q, p),
        canonical(d, p),
        !is_zero_poly(d),
        is_inverse(d[poly_degree(d) as int], linv, p),
        a.len() > poly_degree(d),
        r.len() == a.len(),
        q.len() == a.len() - poly_degree(d),
        poly_degree(d) - 1 <= i < r.len(),
        forall|k: int| 0 <= k ==> coef(a, k) % p == (cauchy(q, d, k) + coef(r, k)) % p,
        forall|k: int| i < k < r.len() ==> r[k] == 0,
        forall|j: int| 0 <= j <= i - poly_degree(d) ==> q[j] == 0,
    ensures
        ({
            let (q2, r2) = div_loop(r, q, d, linv, i, p);
            &&& canonical(q2, p)
            &&& canonical(r2, p)
            &&& q2.len() == q.len()
            &&& r2.len() == r.len()
            &&& forall|k: int| 0 <= k ==> coef(a, k) % p == (cauchy(q2, d, k) + coef(r2, k)) % p
            &&& forall|k: int| poly_degree(d) <= k < r2.len() ==> r2[k] == 0
        }),
    decreases i + 1,
{
    let m = poly_degree(d) as int;
    lemma_degree(d);
    if i >= m {
        let c = (r[i] * linv) % p;
        let e = i - m;
        let r1 = sub_shifted(r, d, c, e, p);
        let q1 = q.update(e, c);
        lemma_mod_bound(r[i] * linv, p);
        assert(canonical(r1, p)) by {
            assert forall|k: int| 0 <= k < r1.len() implies 0 <= #[trigger] r1[k] < p by {
                lemma_mod_bound(r[k] - c * coef(d, k - e), p);
            }
        }
        assert forall|k: int| i - 1 < k < r1.len() implies r1[k] == 0 by {
            if k == i {
                lemma_lead_cancels(r[i], d[m], linv, p);
            } else {
                assert(coef(d, k - e) == 0);
                assert(c * coef(d, k - e) == 0) by (nonlinear_arith)
                    requires
                        coef(d, k - e) == 0,
                ;
                lemma_small_mod(0, p as nat);
            }
        }
        assert forall|k: int| 0 <= k implies coef(a, k) % p == (cauchy(q1, d, k) + coef(r1, k))
            % p by {
            let x = c * coef(d, k - e);
            let big_a = cauchy(q, d, k);
            lemma_cauchy_update(q, d, e, c, k, d.len() as int);
            assert(q[e] == 0);
            assert(cauchy(q1, d, k) == big_a + x) by {
                if !(0 <= k - e < d.len()) {
                    assert(coef(d, k - e) == 0);
                    assert(c * coef(d, k - e) == 0) by (nonlinear_arith)
                        requires
                            coef(d, k - e) == 0,
                    ;
                }
            }
            if k < r.len() {
                lemma_add_mod_noop_right(big_a + x, r[k] - x, p);
                assert(big_a + x + (r[k] - x) == big_a + r[k]);
            } else {
                assert(coef(d, k - e) == 0);
                assert(x == 0) by (nonlinear_arith)
                    requires
                        x == c * coef(d, k - e),
                        coef(d, k - e) == 0,
                ;
            }
        }
        lemma_div_loop(a, r1, q1, d, linv, i - 1, p);
    }
}

/// Division: the dividend is quotient times divisor plus remainder, and
/// the remainder is zero or of lower degree than the divisor.
pub proof fn lemma_division(a: Seq<int>, d: Seq<int>, p: int)
    requires
        p >= 2,
        canonical(a, p),
        canonical(d, p),
        divisible_by(d, p),
    ensures
        ({
            let (q, r) = poly_div(a, d, p);
            &&& canonical(q, p)
            &&& canonical(r, p)
            &&& r.len() == a.len()
            &&& q.len() == if a.len() > poly_degree(d) {
                a.len() - poly_degree(d)
            } else {
                0
            }
            &&& forall|k: int| 0 <= k ==> coef(a, k) == (cauchy(q, d, k) + coef(r, k)) % p
            &&& same_poly(a, poly_add(poly_mul(q, d, p), r, p))
            &&& (is_zero_poly(r) || poly_degree(r) < poly_degree(d))
        }),
{
    let m = poly_degree(d) as int;
    let (q, r) = poly_div(a, d, p);
    lemma_degree(d);
    lemma_degree(r);
    lemma_small_mod(0, p as nat);
    if a.len() <= m {
        assert forall|k: int| 0 <= k implies coef(a, k) % p == (cauchy(q, d, k) + coef(r, k))
            % p by {
            lemma_cauchy_zero(q, d, k, d.len() as int);
        }
    } else {
        let linv = inverse(d[m], p);
        let q0 = Seq::new((a.len() - m) as nat, |k: int| 0int);
        assert forall|k: int| 0 <= k implies coef(a, k) % p == (cauchy(q0, d, k) + coef(a, k))
            % p by {
            lemma_cauchy_zero(q0, d, k, d.len() as int);
        }
        lemma_div_loop(a, a, q0, d, linv, a.len() - 1, p);
    }
    assert forall|k: int| 0 <= k implies coef(a, k) == (cauchy(q, d, k) + coef(r, k)) % p by {
        if k < a.len() {
            lemma_small_mod(a[k] as nat, p as nat);
        }
    }
    let full = poly_mul_full(q, d, p);
    let prod = poly_mul(q, d, p);
    let sum = poly_add(prod, r, p);
    lemma_trim(full);
    assert forall|k: int| coef(a, k) == coef(sum, k) by {
        if 0 <= k < sum.len() {
            if k >= full.len() {
                lemma_cauchy_zero(q, d, k, d.len() as int);
            }
            assert(coef(prod, k) == coef(full, k));
            assert(coef(prod, k) == cauchy(q, d, k) % p);
            lemma_add_mod_noop_right(coef(r, k), cauchy(q, d, k), p);
        }
    }
    if !is_zero_poly(r) {
        assert(r[poly_degree(r) as int] != 0);
    }
}

/// The polynomial `x - a`.
pub open spec fn linear_factor(a: int, p: int) -> Seq<int> {
    seq![(-a) % p, 1]
}

/// The product of `x - xs[j]` over `j < n`.
pub open spec fn root_product(xs: Seq<int>, n: int, p: int) -> Seq<int>
    decreases n,
{
    if n <= 0 {
        seq![1]
    } else {
        poly_mul(root_product(xs, n - 1, p), linear_factor(xs[n - 1], p), p)
    }
}

/// The product of `xs[i] - xs[j]` over `j < n`, `j != i`.
pub open spec fn difference_product(xs: Seq<int>, i: int, n: int, p: int) -> int
    decreases n,
{
    if n <= 0 {
        1
    } else if n - 1 == i {
        difference_product(xs, i, n - 1, p)
    } else {
        (difference_product(xs, i, n - 1, p) * (xs[i] - xs[n - 1])) % p
    }
}

/// The `i`-th Lagrange basis polynomial over `xs`: the product of all
/// `x - xs[j]`, divided by `x - xs[i]` times the product of the
/// differences `xs[i] - xs[j]`.
pub open spec fn lagrange_basis(xs: Seq<int>, i: int, p: int) -> Result<Seq<int>, Error> {
    poly_safe_div(
        root_product(xs, xs.len() as int, p),
        poly_scalar(linear_factor(xs[i], p), difference_product(xs, i, xs.len() as int, p), p),
        p,
    )
}

/// The sum of `ys[i]` times the `i`-th basis polynomial over `i < n`; the
/// first basis polynomial that cannot be had decides the error.
pub open spec fn lagrange_sum(xs: Seq<int>, ys: Seq<int>, n: int, p: int) -> Result<
    Seq<int>,
    Error,
>
    decreases n,
{
    if n <= 0 {
        Ok(Seq::empty())
    } else {
        match lagrange_sum(xs, ys, n - 1, p) {
            Err(e) => Err(e),
            Ok(acc) => match lagrange_basis(xs, n - 1, p) {
                Err(e) => Err(e),
                Ok(b) => Ok(poly_add(acc, poly_scalar(b, ys[n - 1], p), p)),
            },
        }
    }
}

/// The Lagrange interpolant through the points `(xs[i], ys[i])`.
pub open spec fn poly_lagrange(xs: Seq<int>, ys: Seq<int>, p: int) -> Result<Seq<int>, Error> {
    if xs.len() != ys.len() {
        Err(Error::LenMismatch)
    } else {
        lagrange_sum(xs, ys, xs.len() as int, p)
    }
}

/// Whether the points `(xs[i], ys[i])` lie on one line: their interpolant
/// has degree at most 1.
pub open spec fn poly_colinear(xs: Seq<int>, ys: Seq<int>, p: int) -> Result<bool, Error> {
    match poly_lagrange(xs, ys, p) {
        Ok(c) => Ok(poly_degree(c) <= 1),
        Err(e) => Err(e),
    }
}

/// Whether each of the first `n` point sets lies on one line; the first
/// set that cannot be interpolated decides the error, and sets after one
/// that is not on a line are not looked at.
pub open spec fn batch_colinear(xs: Seq<Seq<int>>, ys: Seq<Seq<int>>, n: int, p: int) -> Result<
    bool,
    Error,
>
    decreases n,
{
    if n <= 0 {
        Ok(true)
    } else {
        match batch_colinear(xs, ys, n - 1, p) {
            Err(e) => Err(e),
            Ok(false) => Ok(false),
            Ok(true) => poly_colinear(xs[n - 1], ys[n - 1], p),
        }
    }
}

/// What the batch test gives for all point sets.
pub open spec fn poly_colinear_batch(xs: Seq<Seq<int>>, ys: Seq<Seq<int>>, p: int) -> Result<
    bool,
    Error,
> {
    if xs.len() != ys.len() {
        Err(Error::LenMismatch)
    } else {
        batch_colinear(xs, ys, xs.len() as int, p)
    }
}

/// The entries at even positions.
pub open spec fn evens(v: Seq<int>) -> Seq<int> {
    Seq::new(((v.len() + 1) / 2) as nat, |i: int| v[2 * i])
}

/// The entries at odd positions.
pub open spec fn odds(v: Seq<int>) -> Seq<int> {
    Seq::new((v.len() / 2) as nat, |i: int| v[2 * i + 1])
}

/// The radix-2 number-theoretic transform of `v` with root `w`: entry `k`
/// combines the transforms of the even and of the odd half as
/// `even[k mod h] + w^k * odd[k mod h]`.
pub open spec fn ntt(v: Seq<int>, w: int, p: int) -> Seq<int>
    decreases v.len(),
{
    if v.len() <= 1 {
        Seq::new(v.len(), |i: int| v[i] % p)
    } else {
        let h = (v.len() / 2) as int;
        let e = ntt(evens(v), (w * w) % p, p);
        let o = ntt(odds(v), (w * w) % p, p);
        Seq::new(v.len(), |k: int| (e[k % h] + pow(w, k as nat) * o[k % h]) % p)
    }
}

/// The coefficients that interpolation over the coset `domain` gives for
/// `values`: with `offset = domain[0]` and `w = domain[1] / offset`, the
/// transform of the values with root `1 / w`, its entry `k` scaled by
/// `1 / (n * offset^k)`.
pub open spec fn poly_interpolate(domain: Seq<int>, values: Seq<int>, p: int) -> Result<
    Seq<int>,
    Error,
> {
    let n = domain.len();
    if n != values.len() {
        Err(Error::LenMismatch)
    } else if !is_pow2(n as int) {
        Err(Error::NotAPowerOfTwo)
    } else if !has_inverse(domain[0], p) {
        Err(Error::DivByZero)
    } else {
        let oinv = inverse(domain[0], p);
        let w = if n > 1 {
            (domain[1] * oinv) % p
        } else {
            1
        };
        if !has_inverse(w, p) || !has_inverse(n as int, p) {
            Err(Error::DivByZero)
        } else {
            let g = ntt(values, inverse(w, p), p);
            Ok(Seq::new(n, |k: int| (g[k] * ((inverse(n as int, p) * pow(oinv, k as nat)) % p)) % p))
        }
    }
}

} // verus!
