//! Dense univariate polynomials over a prime field.
use std::rc::Rc;
use vstd::arithmetic::div_mod::*;
use vstd::arithmetic::power::*;
use vstd::prelude::*;

use crate::arith::{
    inverse, is_pow2, is_prime, is_primitive_unity, lemma_prime_has_inverse,
    lemma_primitive_order,
};
use crate::bigint::{int_rows, ints, IBig};
use crate::error::Error;
use crate::field::Field;
use crate::ntt_laws::{coset, lemma_interpolation};
use crate::poly_laws::{
    distinct_mod, lemma_eval_add, lemma_eval_compose, lemma_eval_mul, lemma_eval_pow,
    lemma_eval_scalar, lemma_eval_scale, lemma_eval_sub, lemma_lagrange_sum,
};
use crate::poly_math::{
    batch_colinear, canonical, cauchy, cauchy_upto, coef, difference_product, div_loop,
    divisible_by, eval_sum, evens, is_zero_poly, lagrange_basis, lagrange_sum, lemma_degree,
    lemma_division, linear_factor, longer, ntt, odds, poly_add, poly_colinear,
    poly_colinear_batch, poly_compose, poly_degree, poly_div, poly_eval, poly_interpolate,
    poly_lagrange, poly_mul, poly_mul_full, poly_pow, poly_safe_div, poly_scalar, poly_scale,
    poly_sub, poly_term, poly_trim, root_product, same_poly, sub_shifted,
};

verus! {

/// `Rc::clone`. Trusted: the new handle points to the same field.
#[verifier::external_body]
pub(crate) fn share(field: &Rc<Field>) -> (r: Rc<Field>)
    ensures
        r == *field,
{
    Rc::clone(field)
}

/// A polynomial over a field it shares with others; `coefs[i]` is the
/// coefficient of `x^i`.
pub struct Polynomial {
    field: Rc<Field>,
    coefs: Vec<IBig>,
}

impl View for Polynomial {
    type V = Seq<int>;

    closed spec fn view(&self) -> Seq<int> {
        ints(self.coefs@)
    }
}

impl Clone for Polynomial {
    fn clone(&self) -> (r: Self)
        ensures
            r@ == self@,
            r.field() == self.field(),
    {
        Polynomial { field: share(&self.field), coefs: IBig::clone_vec(&self.coefs) }
    }
}

impl Polynomial {
    /// The field of the coefficients.
    pub closed spec fn field(&self) -> Field {
        *self.field
    }

    /// The modulus of the field.
    pub open spec fn modulus(&self) -> int {
        self.field().modulus()
    }

    /// The field is one, and every coefficient is reduced.
    pub open spec fn wf(&self) -> bool {
        self.field().wf() && canonical(self@, self.modulus())
    }

    /// The polynomial without any coefficient: zero.
    pub fn new(f: &Rc<Field>) -> (r: Polynomial)
        ensures
            r@ == Seq::<int>::empty(),
            r.field() == **f,
            f.wf() ==> r.wf(),
    {
        let r = Polynomial { field: share(f), coefs: Vec::new() };
        assert(r@ =~= Seq::<int>::empty());
        r
    }

    /// The coefficients.
    pub fn coefs(&self) -> (r: &Vec<IBig>)
        ensures
            ints(r@) == self@,
    {
        &self.coefs
    }

    /// The largest index of a coefficient that is not zero; 0 for the zero
    /// polynomial.
    pub fn degree(&self) -> (d: usize)
        ensures
            d == poly_degree(self@),
    {
        let zero = Field::zero();
        let mut i: usize = self.coefs.len();
        assert(self@.take(i as int) =~= self@);
        while i > 0
            invariant
                zero@ == 0,
                i <= self.coefs.len(),
                poly_degree(self@) == poly_degree(self@.take(i as int)),
            decreases i,
        {
            let ghost head = self@.take(i as int);
            assert(head.last() == self.coefs@[i - 1]@);
            if !self.coefs[i - 1].same(&zero) {
                return i - 1;
            }
            assert(head.drop_last() =~= self@.take(i - 1));
            i = i - 1;
        }
        0
    }

    /// Whether every coefficient is zero.
    pub fn is_zero(&self) -> (r: bool)
        ensures
            r == is_zero_poly(self@),
    {
        let zero = Field::zero();
        let mut i: usize = 0;
        while i < self.coefs.len()
            invariant
                zero@ == 0,
                i <= self.coefs.len(),
                forall|j: int| 0 <= j < i ==> #[trigger] self@[j] == 0,
            decreases self.coefs.len() - i,
        {
            if !self.coefs[i].same(&zero) {
                assert(self@[i as int] != 0);
                return false;
            }
            i = i + 1;
        }
        true
    }

    /// Whether the two denote the same polynomial: zeros at the end do
    /// not count.
    pub fn is_equal(&self, poly: &Polynomial) -> (r: bool)
        ensures
            r == same_poly(self@, poly@),
    {
        let zero = Field::zero();
        let n = self.coefs.len();
        let m = poly.coefs.len();
        let mut i: usize = 0;
        while i < n || i < m
            invariant
                zero@ == 0,
                n == self.coefs.len(),
                m == poly.coefs.len(),
                forall|j: int| 0 <= j < i ==> coef(self@, j) == coef(poly@, j),
            decreases longer(n as int, m as int) - i,
        {
            let equal = if i < n && i < m {
                self.coefs[i].same(&poly.coefs[i])
            } else if i < n {
                self.coefs[i].same(&zero)
            } else {
                poly.coefs[i].same(&zero)
            };
            if !equal {
                assert(coef(self@, i as int) != coef(poly@, i as int));
                return false;
            }
            i = i + 1;
        }
        true
    }

    /// Adds `value * x^exp`.
    pub fn term(&mut self, value: &IBig, exp: u32) -> (r: &Self)
        requires
            old(self).wf(),
        ensures
            final(self).wf(),
            final(self).field() == old(self).field(),
            final(self)@ == poly_term(old(self)@, value@, exp as nat, old(self).modulus()),
            r@ == final(self)@,
            r.field() == final(self).field(),
    {
        let ghost p = self.modulus();
        let s = exp as usize;
        while self.coefs.len() <= s
            invariant
                self.field() == old(self).field(),
                self@.len() >= old(self)@.len(),
                self@.len() <= longer(old(self)@.len() as int, s + 1),
                forall|i: int|
                    0 <= i < self.coefs@.len() ==> (#[trigger] self.coefs@[i])@ == coef(
                        old(self)@,
                        i,
                    ),
            decreases s + 1 - self.coefs.len(),
        {
            self.coefs.push(Field::zero());
        }
        let v = self.field.add(&self.coefs[s], value);
        self.coefs.set(s, v);
        proof {
            lemma_mod_bound(coef(old(self)@, s as int) + value@, p);
            assert(self@ =~= poly_term(old(self)@, value@, exp as nat, p));
        }
        self
    }

    /// Adds `poly`.
    pub fn add(&mut self, poly: &Polynomial) -> (r: &Self)
        requires
            old(self).wf(),
            poly.wf(),
            poly.field() == old(self).field(),
        ensures
            final(self).wf(),
            final(self).field() == old(self).field(),
            final(self)@ == poly_add(old(self)@, poly@, old(self).modulus()),
            r@ == final(self)@,
            r.field() == final(self).field(),
    {
        let ghost p = self.modulus();
        let ghost a = self@;
        let ghost b = poly@;
        let mut i: usize = 0;
        while i < poly.coefs.len()
            invariant
                self.field() == old(self).field(),
                a == old(self)@,
                b == poly@,
                p == old(self).modulus(),
                p >= 2,
                canonical(a, p),
                canonical(b, p),
                i <= poly.coefs.len(),
                self@.len() == longer(a.len() as int, i as int),
                forall|j: int|
                    0 <= j < self.coefs@.len() ==> (#[trigger] self.coefs@[j])@ == if j < i {
                        (coef(a, j) + coef(b, j)) % p
                    } else {
                        a[j]
                    },
            decreases poly.coefs.len() - i,
        {
            if i < self.coefs.len() {
                let v = self.field.add(&self.coefs[i], &poly.coefs[i]);
                self.coefs.set(i, v);
            } else {
                proof {
                    lemma_small_mod(b[i as int] as nat, p as nat);
                }
                self.coefs.push(poly.coefs[i].clone());
            }
            i = i + 1;
        }
        proof {
            assert forall|j: int| 0 <= j < self@.len() implies #[trigger] self@[j] == (coef(a, j)
                + coef(b, j)) % p by {
                if j >= i {
                    lemma_small_mod(a[j] as nat, p as nat);
                }
            }
            assert(self@ =~= poly_add(a, b, p));
            assert forall|j: int| 0 <= j < self@.len() implies 0 <= #[trigger] self@[j] < p by {
                lemma_mod_bound(coef(a, j) + coef(b, j), p);
            }
        }
        self
    }

    /// Subtracts `poly`.
    pub fn sub(&mut self, poly: &Polynomial) -> (r: &Self)
        requires
            old(self).wf(),
            poly.wf(),
            poly.field() == old(self).field(),
        ensures
            final(self).wf(),
            final(self).field() == old(self).field(),
            final(self)@ == poly_sub(old(self)@, poly@, old(self).modulus()),
            r@ == final(self)@,
            r.field() == final(self).field(),
    {
        let ghost p = self.modulus();
        let ghost a = self@;
        let ghost b = poly@;
        let mut i: usize = 0;
        while i < poly.coefs.len()
            invariant
                self.field() == old(self).field(),
                a == old(self)@,
                b == poly@,
                p == old(self).modulus(),
                p >= 2,
                canonical(a, p),
                canonical(b, p),
                i <= poly.coefs.len(),
                self@.len() == longer(a.len() as int, i as int),
                forall|j: int|
                    0 <= j < self.coefs@.len() ==> (#[trigger] self.coefs@[j])@ == if j < i {
                        (coef(a, j) - coef(b, j)) % p
                    } else {
                        a[j]
                    },
            decreases poly.coefs.len() - i,
        {
            if i < self.coefs.len() {
                let v = self.field.sub(&self.coefs[i], &poly.coefs[i]);
                self.coefs.set(i, v);
            } else {
                let v = self.field.neg(&poly.coefs[i]);
                self.coefs.push(v);
            }
            i = i + 1;
        }
        proof {
            assert forall|j: int| 0 <= j < self@.len() implies #[trigger] self@[j] == (coef(a, j)
                - coef(b, j)) % p by {
                if j >= i {
                    lemma_small_mod(a[j] as nat, p as nat);
                }
            }
            assert(self@ =~= poly_sub(a, b, p));
            assert forall|j: int| 0 <= j < self@.len() implies 0 <= #[trigger] self@[j] < p by {
                lemma_mod_bound(coef(a, j) - coef(b, j), p);
            }
        }
        self
    }

    /// The coefficient of `x^k` in the product of `a` and `b`.
    fn product_coef(field: &Field, a: &Vec<IBig>, b: &Vec<IBig>, k: usize) -> (r: IBig)
        requires
            field.wf(),
        ensures
            r@ == cauchy(ints(a@), ints(b@), k as int) % field.modulus(),
    {
        let ghost p = field.modulus();
        let ghost sa = ints(a@);
        let ghost sb = ints(b@);
        let mut acc = Field::zero();
        let mut i: usize = 0;
        proof {
            lemma_small_mod(0, p as nat);
        }
        while i < b.len()
            invariant
                field.wf(),
                p == field.modulus(),
                sa == ints(a@),
                sb == ints(b@),
                i <= b.len(),
                acc@ == cauchy_upto(sa, sb, k as int, i as int) % p,
            decreases b.len() - i,
        {
            let ghost before = cauchy_upto(sa, sb, k as int, i as int);
            if i <= k && k - i < a.len() {
                let t = field.mul(&a[k - i], &b[i]);
                acc = field.add(&acc, &t);
                proof {
                    lemma_add_mod_noop(before, sa[k - i] * sb[i as int], p);
                }
            } else {
                assert(coef(sa, k - i) == 0);
                assert(coef(sa, k - i) * coef(sb, i as int) == 0) by (nonlinear_arith)
                    requires
                        coef(sa, k - i) == 0,
                ;
            }
            i = i + 1;
        }
        acc
    }

    /// Multiplies by `poly`.
    pub fn mul(&mut self, poly: &Polynomial) -> (r: &Self)
        requires
            old(self).wf(),
            poly.field() == old(self).field(),
        ensures
            final(self).wf(),
            final(self).field() == old(self).field(),
            final(self)@ == poly_mul(old(self)@, poly@, old(self).modulus()),
            r@ == final(self)@,
            r.field() == final(self).field(),
    {
        let ghost p = self.modulus();
        let ghost a = self@;
        let ghost b = poly@;
        let mut out: Vec<IBig> = Vec::new();
        let mut i: usize = 0;
        while i < self.coefs.len()
            invariant
                self.field() == old(self).field(),
                self@ == a,
                self.field().wf(),
                p == self.modulus(),
                b == poly@,
                i <= self.coefs.len(),
                out@.len() == i,
                forall|k: int| 0 <= k < i ==> (#[trigger] out@[k])@ == cauchy(a, b, k) % p,
            decreases self.coefs.len() - i,
        {
            let c = Self::product_coef(&self.field, &self.coefs, &poly.coefs, i);
            out.push(c);
            i = i + 1;
        }
        let mut j: usize = 0;
        while j < poly.coefs.len()
            invariant
                self.field() == old(self).field(),
                self@ == a,
                self.field().wf(),
                p == self.modulus(),
                b == poly@,
                j <= poly.coefs.len(),
                out@.len() == a.len() + j,
                forall|k: int| 0 <= k < out@.len() ==> (#[trigger] out@[k])@ == cauchy(a, b, k) % p,
            decreases poly.coefs.len() - j,
        {
            let k = out.len();
            let c = Self::product_coef(&self.field, &self.coefs, &poly.coefs, k);
            out.push(c);
            j = j + 1;
        }
        self.coefs = out;
        proof {
            assert(self@ =~= poly_mul_full(a, b, p));
            assert forall|k: int| 0 <= k < self@.len() implies 0 <= #[trigger] self@[k] < p by {
                lemma_mod_bound(cauchy(a, b, k), p);
            }
        }
        self.trim();
        self
    }

    /// Multiplies by the constant `v`.
    pub fn mul_scalar(&mut self, v: &IBig) -> (r: &Self)
        requires
            old(self).field().wf(),
        ensures
            final(self).wf(),
            final(self).field() == old(self).field(),
            final(self)@ == poly_scalar(old(self)@, v@, old(self).modulus()),
            r@ == final(self)@,
            r.field() == final(self).field(),
    {
        let ghost p = self.modulus();
        let ghost a = self@;
        let mut i: usize = 0;
        while i < self.coefs.len()
            invariant
                self.field() == old(self).field(),
                self.field().wf(),
                p == self.modulus(),
                a == old(self)@,
                self@.len() == a.len(),
                i <= self.coefs.len(),
                forall|j: int|
                    0 <= j < self.coefs@.len() ==> (#[trigger] self.coefs@[j])@ == if j < i {
                        (v@ * a[j]) % p
                    } else {
                        a[j]
                    },
            decreases self.coefs.len() - i,
        {
            let c = self.field.mul(v, &self.coefs[i]);
            self.coefs.set(i, c);
            i = i + 1;
        }
        proof {
            assert(self@ =~= poly_scalar(a, v@, p));
            assert forall|j: int| 0 <= j < self@.len() implies 0 <= #[trigger] self@[j] < p by {
                lemma_mod_bound(v@ * a[j], p);
            }
        }
        self
    }

    /// Raises to the power `v`.
    pub fn exp(&mut self, v: usize) -> (r: &Self)
        requires
            old(self).wf(),
        ensures
            final(self).wf(),
            final(self).field() == old(self).field(),
            final(self)@ == poly_pow(old(self)@, v as nat, old(self).modulus()),
            r@ == final(self)@,
            r.field() == final(self).field(),
    {
        let ghost p = self.modulus();
        let mut out = Polynomial::new(&self.field);
        out.term(&Field::one(), 0);
        proof {
            lemma_small_mod(1, p as nat);
            assert(out@ =~= seq![1int]);
        }
        let mut i: usize = 0;
        while i < v
            invariant
                self.field() == old(self).field(),
                self@ == old(self)@,
                p == self.modulus(),
                out.wf(),
                out.field() == self.field(),
                i <= v,
                out@ == poly_pow(self@, i as nat, p),
            decreases v - i,
        {
            out.mul(&*self);
            i = i + 1;
        }
        self.coefs = out.coefs;
        self
    }

    /// Puts `v * x` for `x`.
    pub fn scale(&mut self, v: &IBig) -> (r: &Self)
        requires
            old(self).field().wf(),
        ensures
            final(self).wf(),
            final(self).field() == old(self).field(),
            final(self)@ == poly_scale(old(self)@, v@, old(self).modulus()),
            r@ == final(self)@,
            r.field() == final(self).field(),
    {
        let ghost p = self.modulus();
        let ghost a = self@;
        let mut i: usize = 0;
        while i < self.coefs.len()
            invariant
                self.field() == old(self).field(),
                self.field().wf(),
                p == self.modulus(),
                a == old(self)@,
                self@.len() == a.len(),
                i <= self.coefs.len(),
                forall|j: int|
                    0 <= j < self.coefs@.len() ==> (#[trigger] self.coefs@[j])@ == if j < i {
                        (pow(v@, j as nat) * a[j]) % p
                    } else {
                        a[j]
                    },
            decreases self.coefs.len() - i,
        {
            let e = IBig::from_u128(i as u128);
            let w = self.field.exp(v, &e);
            let c = self.field.mul(&w, &self.coefs[i]);
            proof {
                lemma_mul_mod_noop_left(pow(v@, i as nat), a[i as int], p);
            }
            self.coefs.set(i, c);
            i = i + 1;
        }
        proof {
            assert(self@ =~= poly_scale(a, v@, p));
            assert forall|j: int| 0 <= j < self@.len() implies 0 <= #[trigger] self@[j] < p by {
                lemma_mod_bound(pow(v@, j as nat) * a[j], p);
            }
        }
        self
    }

    /// Puts the polynomial `poly` for `x`.
    pub fn compose(&mut self, poly: &Polynomial) -> (r: &Self)
        requires
            old(self).field().wf(),
            poly.field() == old(self).field(),
        ensures
            final(self).wf(),
            final(self).field() == old(self).field(),
            final(self)@ == poly_compose(old(self)@, poly@, old(self).modulus()),
            r@ == final(self)@,
            r.field() == final(self).field(),
    {
        let ghost p = self.modulus();
        let ghost a = self@;
        let mut out = Polynomial::new(&self.field);
        let mut i: usize = self.coefs.len();
        assert(a.skip(i as int) =~= Seq::<int>::empty());
        while i > 0
            invariant
                self.field() == old(self).field(),
                self@ == a,
                p == self.modulus(),
                out.wf(),
                out.field() == self.field(),
                poly.field() == self.field(),
                i <= self.coefs.len(),
                out@ == poly_compose(a.skip(i as int), poly@, p),
            decreases i,
        {
            i = i - 1;
            out.mul(poly);
            out.term(&self.coefs[i], 0);
            proof {
                let tail = a.skip(i as int);
                assert(tail.drop_first() =~= a.skip(i + 1));
                assert(tail[0] == a[i as int]);
            }
        }
        assert(a.skip(0) =~= a);
        self.coefs = out.coefs;
        self
    }

    /// Cuts the zeros at the end.
    pub fn trim(&mut self)
        ensures
            final(self).field() == old(self).field(),
            final(self)@ == poly_trim(old(self)@),
            old(self).wf() ==> final(self).wf(),
    {
        let zero = Field::zero();
        let ghost a = self@;
        while self.coefs.len() > 0 && self.coefs[self.coefs.len() - 1].same(&zero)
            invariant
                zero@ == 0,
                self.field() == old(self).field(),
                a == old(self)@,
                poly_trim(self@) == poly_trim(a),
                self@ == a.take(self@.len() as int),
                self@.len() <= a.len(),
            decreases self.coefs.len(),
        {
            let ghost before = self@;
            self.coefs.pop();
            assert(self@ =~= before.drop_last());
            assert(self@ =~= a.take(self@.len() as int));
        }
    }

    /// The value at `v`.
    pub fn eval(&self, v: &IBig) -> (r: IBig)
        requires
            self.field().wf(),
        ensures
            r@ == poly_eval(self@, v@, self.modulus()),
    {
        let ghost p = self.modulus();
        let mut out = Field::zero();
        let mut i: usize = 0;
        while i < self.coefs.len()
            invariant
                self.field().wf(),
                p == self.modulus(),
                i <= self.coefs.len(),
                out@ % p == eval_sum(self@, v@, i as int) % p,
            decreases self.coefs.len() - i,
        {
            let e = IBig::from_u128(i as u128);
            let w = self.field.exp(v, &e);
            let ghost before = out@;
            out = out.plus(&self.coefs[i].times(&w));
            proof {
                let c = self@[i as int];
                let pw = pow(v@, i as nat);
                lemma_mul_mod_noop_right(c, pw, p);
                lemma_add_mod_noop(before, c * (pw % p), p);
                lemma_add_mod_noop(eval_sum(self@, v@, i as int), c * pw, p);
            }
            i = i + 1;
        }
        self.field.modd(out)
    }

    /// Takes the leading term out, and returns its coefficient and
    /// exponent; `(0, 0)` for the zero polynomial.
    pub fn pop_term(&mut self) -> (r: (IBig, usize))
        ensures
            final(self).field() == old(self).field(),
            r.1 == poly_degree(old(self)@),
            r.0@ == coef(old(self)@, r.1 as int),
            old(self)@.len() > 0 ==> final(self)@ == old(self)@.update(r.1 as int, 0),
            old(self)@.len() == 0 ==> final(self)@ == old(self)@,
            old(self).wf() ==> final(self).wf(),
    {
        let d = self.degree();
        proof {
            lemma_degree(self@);
        }
        if self.coefs.len() == 0 {
            return (Field::zero(), 0);
        }
        let out = self.coefs[d].clone();
        self.coefs.set(d, Field::zero());
        assert(self@ =~= old(self)@.update(d as int, 0));
        (out, d)
    }

    /// Quotient and remainder of the division by `divisor`, by schoolbook
    /// long division. Fails with `DivByZero` where the divisor is zero (or
    /// its leading coefficient has no inverse, which a prime field rules
    /// out).
    pub fn div(&self, divisor: &Polynomial) -> (r: Result<(Polynomial, Polynomial), Error>)
        requires
            self.wf(),
            divisor.wf(),
            divisor.field() == self.field(),
        ensures
            r.is_ok() <==> divisible_by(divisor@, self.modulus()),
            is_prime(self.modulus()) ==> (r.is_ok() <==> !is_zero_poly(divisor@)),
            r matches Ok(qr) ==> {
                &&& qr.0.wf()
                &&& qr.1.wf()
                &&& qr.0.field() == self.field()
                &&& qr.1.field() == self.field()
                &&& (qr.0@, qr.1@) == poly_div(self@, divisor@, self.modulus())
                &&& same_poly(
                    self@,
                    poly_add(poly_mul(qr.0@, divisor@, self.modulus()), qr.1@, self.modulus()),
                )
                &&& (is_zero_poly(qr.1@) || poly_degree(qr.1@) < poly_degree(divisor@))
            },
            r matches Err(e) ==> e == Error::DivByZero,
    {
        proof {
            let p = self.modulus();
            if divisible_by(divisor@, p) {
                lemma_division(self@, divisor@, p);
            }
            if is_prime(p) && !is_zero_poly(divisor@) {
                Self::law_division(self@, divisor@, p);
            }
        }
        self.long_division(divisor)
    }

    /// Schoolbook long division.
    fn long_division(&self, divisor: &Polynomial) -> (r: Result<(Polynomial, Polynomial), Error>)
        requires
            self.wf(),
            divisor.wf(),
            divisor.field() == self.field(),
        ensures
            r.is_ok() <==> divisible_by(divisor@, self.modulus()),
            r matches Ok(qr) ==> {
                &&& qr.0.wf()
                &&& qr.1.wf()
                &&& qr.0.field() == self.field()
                &&& qr.1.field() == self.field()
                &&& (qr.0@, qr.1@) == poly_div(self@, divisor@, self.modulus())
            },
            r matches Err(e) ==> e == Error::DivByZero,
    {
        let ghost p = self.modulus();
        let ghost a = self@;
        let ghost d = divisor@;
        if divisor.is_zero() {
            return Err(Error::DivByZero);
        }
        let m = divisor.degree();
        proof {
            lemma_degree(d);
        }
        let linv = match self.field.inv(&divisor.coefs[m]) {
            Ok(x) => x,
            Err(e) => {
                return Err(e);
            },
        };
        let n = self.coefs.len();
        let mut rem = IBig::clone_vec(&self.coefs);
        let mut quo: Vec<IBig> = Vec::new();
        if n <= m {
            assert(ints(quo@) =~= Seq::<int>::empty());
            let q = Polynomial { field: share(&self.field), coefs: quo };
            let r = Polynomial { field: share(&self.field), coefs: rem };
            return Ok((q, r));
        }
        let mut k: usize = m;
        while k < n
            invariant
                m <= k <= n,
                quo@.len() == k - m,
                forall|j: int| 0 <= j < quo@.len() ==> (#[trigger] quo@[j])@ == 0,
            decreases n - k,
        {
            quo.push(Field::zero());
            k = k + 1;
        }
        assert(ints(quo@) =~= Seq::new((a.len() - m) as nat, |k: int| 0int));
        let mut i: usize = n;
        while i > m
            invariant
                self.wf(),
                divisor.wf(),
                divisor.field() == self.field(),
                p == self.modulus(),
                a == self@,
                d == divisor@,
                m == poly_degree(d),
                m < d.len(),
                m < n,
                n == a.len(),
                linv@ == inverse(d[m as int], p),
                m <= i <= n,
                rem@.len() == n,
                quo@.len() == n - m,
                canonical(ints(rem@), p),
                canonical(ints(quo@), p),
                div_loop(ints(rem@), ints(quo@), d, linv@, i - 1, p) == poly_div(a, d, p),
            decreases i,
        {
            i = i - 1;
            let ghost r0 = ints(rem@);
            let ghost q0 = ints(quo@);
            let c = self.field.mul(&rem[i], &linv);
            let e: usize = i - m;
            quo.set(e, c.clone());
            proof {
                lemma_mod_bound(r0[i as int] * linv@, p);
                assert(ints(quo@) =~= q0.update(e as int, c@));
            }
            let mut j: usize = 0;
            while j <= m
                invariant
                    self.field().wf(),
                    divisor.field() == self.field(),
                    p == self.modulus(),
                    d == divisor@,
                    m < d.len(),
                    e + m == i,
                    i < n,
                    j <= m + 1,
                    rem@.len() == n,
                    r0.len() == n,
                    forall|k: int|
                        0 <= k < n ==> (#[trigger] rem@[k])@ == if e <= k < e + j {
                            (r0[k] - c@ * d[k - e]) % p
                        } else {
                            r0[k]
                        },
                decreases m + 1 - j,
            {
                let t = self.field.mul(&c, &divisor.coefs[j]);
                let v = self.field.sub(&rem[e + j], &t);
                proof {
                    lemma_sub_mod_noop_right(r0[e + j], c@ * d[j as int], p);
                }
                rem.set(e + j, v);
                j = j + 1;
            }
            proof {
                lemma_degree(d);
                let r1 = sub_shifted(r0, d, c@, e as int, p);
                assert(ints(rem@) =~= r1) by {
                    assert forall|k: int| 0 <= k < n implies ints(rem@)[k] == r1[k] by {
                        if !(e <= k < e + m + 1) {
                            assert(coef(d, k - e) == 0);
                            assert(c@ * coef(d, k - e) == 0) by (nonlinear_arith)
                                requires
                                    coef(d, k - e) == 0,
                            ;
                            lemma_small_mod(r0[k] as nat, p as nat);
                        }
                    }
                }
                assert forall|k: int| 0 <= k < n implies 0 <= #[trigger] ints(rem@)[k] < p by {
                    lemma_mod_bound(r0[k] - c@ * coef(d, k - e), p);
                }
            }
        }
        let q = Polynomial { field: share(&self.field), coefs: quo };
        let r = Polynomial { field: share(&self.field), coefs: rem };
        Ok((q, r))
    }

    /// The quotient of the division by `divisor`, which must leave no
    /// remainder: `NonZeroRemainder` where it does, `DivByZero` as for
    /// `div`.
    pub fn safe_div(&self, divisor: &Polynomial) -> (r: Result<Polynomial, Error>)
        requires
            self.wf(),
            divisor.wf(),
            divisor.field() == self.field(),
        ensures
            r matches Ok(q) ==> q.wf() && q.field() == self.field() && poly_safe_div(
                self@,
                divisor@,
                self.modulus(),
            ) == Ok::<Seq<int>, Error>(q@),
            r matches Err(e) ==> poly_safe_div(self@, divisor@, self.modulus()) == Err::<
                Seq<int>,
                Error,
            >(e),
    {
        match self.div(divisor) {
            Ok((q, r)) => {
                if !r.is_zero() {
                    Err(Error::NonZeroRemainder)
                } else {
                    Ok(q)
                }
            },
            Err(e) => Err(e),
        }
    }

    /// Interpolation law: in a prime field, through points whose `xs` are
    /// distinct, `lagrange` succeeds, and the polynomial it gives takes the
    /// value `ys[k]` at each `xs[k]`.
    pub proof fn law_lagrange(xs: Seq<int>, ys: Seq<int>, p: int, k: int)
        requires
            is_prime(p),
            distinct_mod(xs, p),
            xs.len() == ys.len(),
            0 <= k < xs.len(),
        ensures
            poly_lagrange(xs, ys, p).is_ok(),
            poly_eval(poly_lagrange(xs, ys, p).unwrap(), xs[k], p) == ys[k] % p,
    {
        lemma_lagrange_sum(xs, ys, xs.len() as int, p);
    }

    /// Interpolation law for cosets: where `domain` holds the points
    /// `first * ratio^k` of a coset of `n` elements, `n` a power of two
    /// and `ratio` a primitive `n`-th root of unity, in a prime field in
    /// which `first` and `n` are not zero, `interpolate_fft` succeeds, and
    /// the polynomial it gives has `n` coefficients and takes the value
    /// `values[i]` at each `domain[i]`.
    pub proof fn law_interpolate_fft(first: int, ratio: int, values: Seq<int>, p: int, i: int)
        requires
            is_prime(p),
            is_primitive_unity(ratio, values.len(), p),
            (values.len() as int) % p != 0,
            first % p != 0,
            0 <= i < values.len(),
        ensures
            ({
                let domain = Seq::new(values.len(), |k: int| (first * pow(ratio, k as nat)) % p);
                &&& poly_interpolate(domain, values, p).is_ok()
                &&& poly_interpolate(domain, values, p).unwrap().len() == values.len()
                &&& poly_eval(poly_interpolate(domain, values, p).unwrap(), domain[i], p)
                    == values[i] % p
            }),
    {
        lemma_primitive_order(ratio, values.len(), p);
        lemma_interpolation(first, ratio, values, p, i);
    }

    /// Evaluation law: taking the value at a point goes with the
    /// operations. The value of a sum, a difference, a product or a
    /// multiple is the sum, difference, product or multiple of the values;
    /// the value of a scaled polynomial at `x` is the value at `v x`; the
    /// value of a composition is the value of the outer polynomial at the
    /// value of the inner one; the value of a power is the power of the
    /// value.
    pub proof fn law_evaluation(a: Seq<int>, b: Seq<int>, v: int, n: nat, x: int, p: int)
        requires
            p >= 2,
        ensures
            poly_eval(poly_add(a, b, p), x, p) == (poly_eval(a, x, p) + poly_eval(b, x, p)) % p,
            poly_eval(poly_sub(a, b, p), x, p) == (poly_eval(a, x, p) - poly_eval(b, x, p)) % p,
            poly_eval(poly_mul(a, b, p), x, p) == (poly_eval(a, x, p) * poly_eval(b, x, p)) % p,
            poly_eval(poly_scalar(a, v, p), x, p) == (v * poly_eval(a, x, p)) % p,
            poly_eval(poly_scale(a, v, p), x, p) == poly_eval(a, v * x, p),
            poly_eval(poly_compose(a, b, p), x, p) == poly_eval(a, poly_eval(b, x, p), p),
            poly_eval(poly_pow(a, n, p), x, p) == pow(poly_eval(a, x, p), n) % p,
    {
        lemma_eval_add(a, b, x, p);
        lemma_eval_sub(a, b, x, p);
        lemma_eval_mul(a, b, x, p);
        lemma_eval_scalar(a, v, x, p);
        lemma_eval_scale(a, v, x, p);
        lemma_eval_compose(a, b, x, p);
        lemma_eval_pow(a, n, x, p);
    }

    /// Division law: in a prime field, for a divisor that is not zero,
    /// `div` succeeds, the dividend is quotient times divisor plus
    /// remainder, and the remainder is zero or of lower degree than the
    /// divisor.
    pub proof fn law_division(a: Seq<int>, d: Seq<int>, p: int)
        requires
            is_prime(p),
            canonical(a, p),
            canonical(d, p),
            !is_zero_poly(d),
        ensures
            divisible_by(d, p),
            ({
                let (q, r) = poly_div(a, d, p);
                &&& same_poly(a, poly_add(poly_mul(q, d, p), r, p))
                &&& (is_zero_poly(r) || poly_degree(r) < poly_degree(d))
            }),
    {
        lemma_degree(d);
        let lead = d[poly_degree(d) as int];
        lemma_small_mod(lead as nat, p as nat);
        lemma_prime_has_inverse(lead, p);
        lemma_division(a, d, p);
    }

    /// The polynomial `x - a`.
    fn linear(a: &IBig, field: &Rc<Field>) -> (r: Polynomial)
        requires
            field.wf(),
        ensures
            r.wf(),
            r.field() == **field,
            r@ == linear_factor(a@, field.modulus()),
    {
        let ghost p = field.modulus();
        let mut poly = Polynomial::new(field);
        poly.term(&Field::one(), 1);
        poly.term(&field.neg(a), 0);
        proof {
            lemma_small_mod(1, p as nat);
            lemma_mod_bound(-a@, p);
            lemma_small_mod(((-a@) % p) as nat, p as nat);
            assert(poly@ =~= linear_factor(a@, p));
        }
        poly
    }

    /// The polynomial through the points `(x_vals[i], y_vals[i])`, in
    /// Lagrange's form: the product of all `x - x_j` is divided, for each
    /// `i`, by `x - x_i` times the product of the differences
    /// `x_i - x_j`, and the quotients are summed with the weights `y_i`.
    /// `LenMismatch` where the two lists differ in length; `DivByZero`
    /// where two of the `x_i` coincide in the field.
    pub fn lagrange(x_vals: &Vec<IBig>, y_vals: &Vec<IBig>, field: &Rc<Field>) -> (r: Result<
        Polynomial,
        Error,
    >)
        requires
            field.wf(),
        ensures
            r matches Ok(poly) ==> poly.wf() && poly.field() == **field && poly_lagrange(
                ints(x_vals@),
                ints(y_vals@),
                field.modulus(),
            ) == Ok::<Seq<int>, Error>(poly@),
            r matches Err(e) ==> poly_lagrange(ints(x_vals@), ints(y_vals@), field.modulus())
                == Err::<Seq<int>, Error>(e),
            is_prime(field.modulus()) && distinct_mod(ints(x_vals@), field.modulus())
                && x_vals@.len() == y_vals@.len() ==> r.is_ok() && forall|k: int|
                0 <= k < x_vals@.len() ==> poly_eval(
                    r.unwrap()@,
                    (#[trigger] x_vals@[k])@,
                    field.modulus(),
                ) == y_vals@[k]@ % field.modulus(),
    {
        proof {
            let p = field.modulus();
            let xs = ints(x_vals@);
            let ys = ints(y_vals@);
            if is_prime(p) && distinct_mod(xs, p) && xs.len() == ys.len() {
                lemma_lagrange_sum(xs, ys, xs.len() as int, p);
                assert forall|k: int| 0 <= k < xs.len() implies poly_eval(
                    poly_lagrange(xs, ys, p).unwrap(),
                    (#[trigger] x_vals@[k])@,
                    p,
                ) == y_vals@[k]@ % p by {
                    assert(xs[k] == x_vals@[k]@);
                    assert(ys[k] == y_vals@[k]@);
                }
            }
        }
        Self::basis_sum(x_vals, y_vals, field)
    }

    /// The weighted sum of the basis polynomials.
    fn basis_sum(x_vals: &Vec<IBig>, y_vals: &Vec<IBig>, field: &Rc<Field>) -> (r: Result<
        Polynomial,
        Error,
    >)
        requires
            field.wf(),
        ensures
            r matches Ok(poly) ==> poly.wf() && poly.field() == **field && poly_lagrange(
                ints(x_vals@),
                ints(y_vals@),
                field.modulus(),
            ) == Ok::<Seq<int>, Error>(poly@),
            r matches Err(e) ==> poly_lagrange(ints(x_vals@), ints(y_vals@), field.modulus())
                == Err::<Seq<int>, Error>(e),
    {
        let ghost p = field.modulus();
        let ghost xs = ints(x_vals@);
        let ghost ys = ints(y_vals@);
        if x_vals.len() != y_vals.len() {
            return Err(Error::LenMismatch);
        }
        let n = x_vals.len();
        let mut numerator = Polynomial::new(field);
        numerator.term(&Field::one(), 0);
        proof {
            lemma_small_mod(1, p as nat);
            assert(numerator@ =~= seq![1int]);
        }
        let mut k: usize = 0;
        while k < n
            invariant
                field.wf(),
                p == field.modulus(),
                xs == ints(x_vals@),
                n == x_vals.len(),
                k <= n,
                numerator.wf(),
                numerator.field() == **field,
                numerator@ == root_product(xs, k as int, p),
            decreases n - k,
        {
            let factor = Self::linear(&x_vals[k], field);
            numerator.mul(&factor);
            k = k + 1;
        }
        let mut out = Polynomial::new(field);
        let mut i: usize = 0;
        while i < n
            invariant
                field.wf(),
                p == field.modulus(),
                xs == ints(x_vals@),
                ys == ints(y_vals@),
                n == x_vals.len(),
                n == y_vals.len(),
                i <= n,
                numerator.wf(),
                numerator.field() == **field,
                numerator@ == root_product(xs, n as int, p),
                out.wf(),
                out.field() == **field,
                lagrange_sum(xs, ys, i as int, p) == Ok::<Seq<int>, Error>(out@),
            decreases n - i,
        {
            let mut denominator = Field::one();
            let mut j: usize = 0;
            while j < n
                invariant
                    field.wf(),
                    p == field.modulus(),
                    xs == ints(x_vals@),
                    n == x_vals.len(),
                    i < n,
                    j <= n,
                    denominator@ == difference_product(xs, i as int, j as int, p),
                decreases n - j,
            {
                if i != j {
                    denominator = field.mul(&denominator, &x_vals[i].minus(&x_vals[j]));
                }
                j = j + 1;
            }
            let mut divisor = Self::linear(&x_vals[i], field);
            divisor.mul_scalar(&denominator);
            let mut basis = match numerator.safe_div(&divisor) {
                Ok(q) => q,
                Err(e) => {
                    proof {
                        assert(lagrange_basis(xs, i as int, p) == Err::<Seq<int>, Error>(e));
                        Self::lemma_lagrange_stops(xs, ys, i as int + 1, n as int, p);
                    }
                    return Err(e);
                },
            };
            basis.mul_scalar(&y_vals[i]);
            out.add(&basis);
            i = i + 1;
        }
        Ok(out)
    }

    /// Once a basis polynomial among the first `t` cannot be had, the sum
    /// over any more fails in the same way.
    proof fn lemma_lagrange_stops(xs: Seq<int>, ys: Seq<int>, t: int, n: int, p: int)
        requires
            0 <= t <= n,
            lagrange_sum(xs, ys, t, p).is_err(),
        ensures
            lagrange_sum(xs, ys, n, p) == lagrange_sum(xs, ys, t, p),
        decreases n - t,
    {
        if t < n {
            Self::lemma_lagrange_stops(xs, ys, t, n - 1, p);
        }
    }

    /// Whether the points `(xs[i], ys[i])` lie on one line: whether their
    /// Lagrange interpolant has degree at most 1. Fails as `lagrange`
    /// does.
    pub fn test_colinearity(xs: &Vec<IBig>, ys: &Vec<IBig>, field: &Rc<Field>) -> (r: Result<
        bool,
        Error,
    >)
        requires
            field.wf(),
        ensures
            r == poly_colinear(ints(xs@), ints(ys@), field.modulus()),
    {
        match Self::lagrange(xs, ys, field) {
            Ok(poly) => Ok(poly.degree() <= 1),
            Err(e) => Err(e),
        }
    }

    /// Whether each point set `(xs[t], ys[t])` lies on one line.
    /// `LenMismatch` where the two lists differ in length; otherwise the
    /// first set that cannot be interpolated decides the error.
    pub fn test_colinearity_batch(
        xs: &Vec<Vec<IBig>>,
        ys: &Vec<Vec<IBig>>,
        field: &Rc<Field>,
    ) -> (r: Result<bool, Error>)
        requires
            field.wf(),
        ensures
            r == poly_colinear_batch(int_rows(xs@), int_rows(ys@), field.modulus()),
    {
        let ghost p = field.modulus();
        if xs.len() != ys.len() {
            return Err(Error::LenMismatch);
        }
        let mut t: usize = 0;
        while t < xs.len()
            invariant
                field.wf(),
                p == field.modulus(),
                xs.len() == ys.len(),
                t <= xs.len(),
                batch_colinear(int_rows(xs@), int_rows(ys@), t as int, p) == Ok::<bool, Error>(
                    true,
                ),
            decreases xs.len() - t,
        {
            let ghost done = batch_colinear(int_rows(xs@), int_rows(ys@), t as int + 1, p);
            match Self::test_colinearity(&xs[t], &ys[t], field) {
                Ok(true) => {},
                Ok(false) => {
                    proof {
                        Self::lemma_batch_stops(
                            int_rows(xs@),
                            int_rows(ys@),
                            t as int + 1,
                            xs.len() as int,
                            p,
                        );
                    }
                    return Ok(false);
                },
                Err(e) => {
                    proof {
                        Self::lemma_batch_stops(
                            int_rows(xs@),
                            int_rows(ys@),
                            t as int + 1,
                            xs.len() as int,
                            p,
                        );
                    }
                    return Err(e);
                },
            }
            t = t + 1;
        }
        Ok(true)
    }

    /// Once the batch test has failed on the first `t` sets, it gives the
    /// same on any more.
    proof fn lemma_batch_stops(xs: Seq<Seq<int>>, ys: Seq<Seq<int>>, t: int, n: int, p: int)
        requires
            0 <= t <= n,
            batch_colinear(xs, ys, t, p) != Ok::<bool, Error>(true),
        ensures
            batch_colinear(xs, ys, n, p) == batch_colinear(xs, ys, t, p),
        decreases n - t,
    {
        if t < n {
            Self::lemma_batch_stops(xs, ys, t, n - 1, p);
        }
    }

    /// Whether `n` is a power of two.
    pub fn is_power_of_two(n: usize) -> (r: bool)
        ensures
            r == is_pow2(n as int),
    {
        let mut m: usize = n;
        while m > 1
            invariant
                is_pow2(m as int) == is_pow2(n as int),
            decreases m,
        {
            if m % 2 != 0 {
                return false;
            }
            m = m / 2;
        }
        m == 1
    }

    /// The transform of `values`, whose number is a power of two, with
    /// root `w`.
    fn transform(field: &Field, values: &Vec<IBig>, w: &IBig) -> (r: Vec<IBig>)
        requires
            field.wf(),
            is_pow2(values@.len() as int),
        ensures
            ints(r@) == ntt(ints(values@), w@, field.modulus()),
        decreases values@.len(),
    {
        let ghost p = field.modulus();
        let ghost v = ints(values@);
        let n = values.len();
        if n == 1 {
            let mut out: Vec<IBig> = Vec::new();
            out.push(field.modd(values[0].clone()));
            assert(ints(out@) =~= ntt(v, w@, p));
            return out;
        }
        let h: usize = n / 2;
        let mut even: Vec<IBig> = Vec::new();
        let mut odd: Vec<IBig> = Vec::new();
        let mut i: usize = 0;
        while i < h
            invariant
                n == values@.len(),
                n == 2 * h,
                i <= h,
                even@.len() == i,
                odd@.len() == i,
                forall|j: int| 0 <= j < i ==> (#[trigger] even@[j])@ == values@[2 * j]@,
                forall|j: int| 0 <= j < i ==> (#[trigger] odd@[j])@ == values@[2 * j + 1]@,
            decreases h - i,
        {
            even.push(values[2 * i].clone());
            odd.push(values[2 * i + 1].clone());
            i = i + 1;
        }
        assert(ints(even@) =~= evens(v));
        assert(ints(odd@) =~= odds(v));
        let w2 = field.mul(w, w);
        let e = Self::transform(field, &even, &w2);
        let o = Self::transform(field, &odd, &w2);
        let ghost se = ntt(evens(v), (w@ * w@) % p, p);
        let ghost so = ntt(odds(v), (w@ * w@) % p, p);
        proof {
            Self::lemma_ntt_len(evens(v), (w@ * w@) % p, p);
            Self::lemma_ntt_len(odds(v), (w@ * w@) % p, p);
        }
        let mut out: Vec<IBig> = Vec::new();
        let mut wk = field.modd(Field::one());
        let mut k: usize = 0;
        proof {
            lemma_pow0(w@);
        }
        while k < n
            invariant
                field.wf(),
                p == field.modulus(),
                n == 2 * h,
                h > 0,
                k <= n,
                se == ints(e@),
                so == ints(o@),
                se.len() == h,
                so.len() == h,
                out@.len() == k,
                wk@ == pow(w@, k as nat) % p,
                forall|j: int|
                    0 <= j < k ==> (#[trigger] out@[j])@ == (se[j % (h as int)] + pow(
                        w@,
                        j as nat,
                    ) * so[j % (h as int)]) % p,
            decreases n - k,
        {
            let t = field.mul(&wk, &o[k % h]);
            let c = field.add(&e[k % h], &t);
            proof {
                let pw = pow(w@, k as nat);
                let y = so[(k % h) as int];
                lemma_mul_mod_noop_left(pw, y, p);
                lemma_add_mod_noop_right(se[(k % h) as int], pw * y, p);
                lemma_mul_mod_noop_left(pw, w@, p);
                lemma_pow_adds(w@, k as nat, 1);
                lemma_pow1(w@);
            }
            out.push(c);
            wk = field.mul(&wk, w);
            k = k + 1;
        }
        assert(ints(out@) =~= ntt(v, w@, p));
        out
    }

    /// A transform is as long as what it transforms.
    proof fn lemma_ntt_len(v: Seq<int>, w: int, p: int)
        ensures
            ntt(v, w, p).len() == v.len(),
    {
    }

    /// The coefficients of the polynomial of degree below `n` that takes
    /// the `values` on `domain`, a coset `offset * w^i` of `n` points, `n`
    /// a power of two: an inverse number-theoretic transform.
    /// `LenMismatch` where the two lists differ in length,
    /// `NotAPowerOfTwo` for another `n`, `DivByZero` where `offset`, `w`
    /// or `n` has no inverse.
    pub fn interpolate_fft(domain: &Vec<IBig>, values: &Vec<IBig>, field: &Rc<Field>) -> (r:
        Result<Polynomial, Error>)
        requires
            field.wf(),
        ensures
            r matches Ok(poly) ==> poly.wf() && poly.field() == **field && poly_interpolate(
                ints(domain@),
                ints(values@),
                field.modulus(),
            ) == Ok::<Seq<int>, Error>(poly@),
            r matches Err(e) ==> poly_interpolate(ints(domain@), ints(values@), field.modulus())
                == Err::<Seq<int>, Error>(e),
            forall|first: int, ratio: int|
                ints(domain@) == #[trigger] coset(first, ratio, values@.len(), field.modulus())
                    && is_prime(field.modulus()) && is_primitive_unity(
                    ratio,
                    values@.len(),
                    field.modulus(),
                ) && (values@.len() as int) % field.modulus() != 0 && first % field.modulus() != 0
                    ==> r.is_ok() && r.unwrap()@.len() == values@.len() && forall|k: int|
                    0 <= k < values@.len() ==> poly_eval(
                        r.unwrap()@,
                        (#[trigger] domain@[k])@,
                        field.modulus(),
                    ) == values@[k]@ % field.modulus(),
    {
        proof {
            let p = field.modulus();
            let n = values@.len();
            let dom = ints(domain@);
            let vals = ints(values@);
            assert forall|first: int, ratio: int|
                dom == #[trigger] coset(first, ratio, n, p) && is_prime(p) && is_primitive_unity(
                    ratio,
                    n,
                    p,
                ) && (n as int) % p != 0 && first % p != 0 implies poly_interpolate(
                dom,
                vals,
                p,
            ).is_ok() && poly_interpolate(dom, vals, p).unwrap().len() == n && forall|k: int|
                0 <= k < n ==> poly_eval(
                    poly_interpolate(dom, vals, p).unwrap(),
                    (#[trigger] domain@[k])@,
                    p,
                ) == values@[k]@ % p by {
                lemma_primitive_order(ratio, n, p);
                assert forall|k: int| 0 <= k < n implies poly_eval(
                    poly_interpolate(dom, vals, p).unwrap(),
                    (#[trigger] domain@[k])@,
                    p,
                ) == values@[k]@ % p by {
                    lemma_interpolation(first, ratio, vals, p, k);
                    assert(dom[k] == domain@[k]@);
                    assert(vals[k] == values@[k]@);
                }
                lemma_interpolation(first, ratio, vals, p, 0);
            }
        }
        Self::inverse_transform(domain, values, field)
    }

    /// The inverse transform over the coset read off `domain`.
    fn inverse_transform(domain: &Vec<IBig>, values: &Vec<IBig>, field: &Rc<Field>) -> (r: Result<
        Polynomial,
        Error,
    >)
        requires
            field.wf(),
        ensures
            r matches Ok(poly) ==> poly.wf() && poly.field() == **field && poly_interpolate(
                ints(domain@),
                ints(values@),
                field.modulus(),
            ) == Ok::<Seq<int>, Error>(poly@),
            r matches Err(e) ==> poly_interpolate(ints(domain@), ints(values@), field.modulus())
                == Err::<Seq<int>, Error>(e),
    {
        let ghost p = field.modulus();
        let n = domain.len();
        if n != values.len() {
            return Err(Error::LenMismatch);
        }
        if !Self::is_power_of_two(n) {
            return Err(Error::NotAPowerOfTwo);
        }
        let oinv = match field.inv(&domain[0]) {
            Ok(x) => x,
            Err(e) => {
                return Err(e);
            },
        };
        let w = if n > 1 {
            field.mul(&domain[1], &oinv)
        } else {
            Field::one()
        };
        let winv = match field.inv(&w) {
            Ok(x) => x,
            Err(e) => {
                return Err(e);
            },
        };
        let ninv = match field.inv(&IBig::from_u128(n as u128)) {
            Ok(x) => x,
            Err(e) => {
                return Err(e);
            },
        };
        let g = Self::transform(field, values, &winv);
        let scales = field.progression(&ninv, &oinv, n);
        proof {
            Self::lemma_ntt_len(ints(values@), winv@, p);
        }
        let mut coefs: Vec<IBig> = Vec::new();
        let mut k: usize = 0;
        while k < n
            invariant
                field.wf(),
                p == field.modulus(),
                k <= n,
                g@.len() == n,
                scales@.len() == n,
                coefs@.len() == k,
                forall|j: int|
                    0 <= j < n ==> (#[trigger] scales@[j])@ == (ninv@ * pow(oinv@, j as nat)) % p,
                forall|j: int|
                    0 <= j < k ==> (#[trigger] coefs@[j])@ == (g@[j]@ * ((ninv@ * pow(
                        oinv@,
                        j as nat,
                    )) % p)) % p,
            decreases n - k,
        {
            coefs.push(field.mul(&g[k], &scales[k]));
            k = k + 1;
        }
        let poly = Polynomial { field: share(field), coefs };
        proof {
            let target = poly_interpolate(ints(domain@), ints(values@), p);
            assert(target.is_ok());
            assert(poly@ =~= target.unwrap());
            assert forall|j: int| 0 <= j < poly@.len() implies 0 <= #[trigger] poly@[j] < p by {
                lemma_mod_bound(g@[j]@ * ((ninv@ * pow(oinv@, j as nat)) % p), p);
            }
        }
        Ok(poly)
    }
}

} // verus!
