//! Arithmetic in the integers modulo a prime `p`.
use vstd::arithmetic::div_mod::*;
use vstd::arithmetic::power::*;
use vstd::prelude::*;

use crate::arith::{
    common_divisor, has_inverse, inverse, is_inverse, is_prime, is_primitive_root,
    lemma_common_divisor_no_inverse, lemma_divides_combination, lemma_inverse_is,
    lemma_prime_has_inverse, lemma_subgroup_generator_order, lemma_trunc_rem, subgroup_generator,
};
use crate::bigint::IBig;
use crate::error::Error;

verus! {

/// The field of integers modulo `p`, with a generator `g` of its
/// multiplicative group. Every operation returns the representative in
/// `[0, p)`.
pub struct Field {
    p: IBig,
    g: IBig,
}

impl Field {
    /// The modulus `p`.
    pub closed spec fn modulus(&self) -> int {
        self.p@
    }

    /// The element `g` from which subgroup generators are derived.
    pub closed spec fn base(&self) -> int {
        self.g@
    }

    /// A field needs a modulus of at least 2.
    pub open spec fn wf(&self) -> bool {
        self.modulus() >= 2
    }

    /// The field of integers modulo `p`, with `g` as the element that
    /// subgroup generators are derived from.
    pub fn new(p: IBig, g: IBig) -> (f: Field)
        requires
            p@ >= 2,
        ensures
            f.wf(),
            f.modulus() == p@,
            f.base() == g@,
    {
        Field { p, g }
    }

    /// The integer `val`.
    pub fn bigint(val: i32) -> (r: IBig)
        ensures
            r@ == val,
    {
        IBig::of_i64(val as i64)
    }

    /// The integer `val`.
    pub fn biguint(val: u32) -> (r: IBig)
        ensures
            r@ == val,
    {
        IBig::of_i64(val as i64)
    }

    /// The integer zero.
    pub fn zero() -> (r: IBig)
        ensures
            r@ == 0,
    {
        IBig::of_i64(0)
    }

    /// The integer one.
    pub fn one() -> (r: IBig)
        ensures
            r@ == 1,
    {
        IBig::of_i64(1)
    }

    /// The representative of `v` in `[0, p)`.
    pub fn modd(&self, v: IBig) -> (r: IBig)
        requires
            self.wf(),
        ensures
            r@ == v@ % self.modulus(),
    {
        let t = v.rem(&self.p);
        proof {
            lemma_trunc_rem(v@, self.p@);
        }
        if t.negative() {
            t.plus(&self.p)
        } else {
            t
        }
    }

    /// The sum in the field.
    pub fn add(&self, v1: &IBig, v2: &IBig) -> (r: IBig)
        requires
            self.wf(),
        ensures
            r@ == (v1@ + v2@) % self.modulus(),
    {
        self.modd(v1.plus(v2))
    }

    /// The product in the field.
    pub fn mul(&self, v1: &IBig, v2: &IBig) -> (r: IBig)
        requires
            self.wf(),
        ensures
            r@ == (v1@ * v2@) % self.modulus(),
    {
        self.modd(v1.times(v2))
    }

    /// The difference in the field.
    pub fn sub(&self, v1: &IBig, v2: &IBig) -> (r: IBig)
        requires
            self.wf(),
        ensures
            r@ == (v1@ - v2@) % self.modulus(),
    {
        self.modd(v1.minus(v2))
    }

    /// The negative in the field.
    pub fn neg(&self, v: &IBig) -> (r: IBig)
        requires
            self.wf(),
        ensures
            r@ == (-v@) % self.modulus(),
    {
        let zero = Field::zero();
        self.modd(zero.minus(v))
    }

    /// `v` to the power `e`, for an exponent that is not negative.
    pub fn exp(&self, v: &IBig, e: &IBig) -> (r: IBig)
        requires
            self.wf(),
            e@ >= 0,
        ensures
            r@ == pow(v@, e@ as nat) % self.modulus(),
    {
        let b = self.modd(v.clone());
        proof {
            lemma_pow_mod_noop(v@, e@ as nat, self.p@);
        }
        b.modpow(e, &self.p)
    }

    /// The generator of the subgroup of `size` elements, `g` to the power
    /// `(p - 1) / size`. The size must divide `p - 1` and lie in `(0, p)`.
    pub fn generator(&self, size: &IBig) -> (r: Result<IBig, Error>)
        requires
            self.wf(),
        ensures
            r.is_ok() <==> 0 < size@ < self.modulus() && (self.modulus() - 1) % size@ == 0,
            r matches Ok(x) ==> x@ == subgroup_generator(self.base(), self.modulus(), size@),
            r matches Err(e) ==> e == Error::BadSubgroup,
    {
        let zero = Field::zero();
        if !zero.lt(size) || !size.lt(&self.p) {
            return Err(Error::BadSubgroup);
        }
        let numer = self.p.minus(&Field::one());
        let exp = numer.quot(size);
        proof {
            lemma_fundamental_div_mod(numer@, size@);
            lemma_div_pos_is_pos(numer@, size@);
            if numer@ % size@ == 0 {
                assert(exp@ * size@ == numer@) by (nonlinear_arith)
                    requires
                        numer@ == size@ * exp@,
                ;
            } else {
                assert(exp@ * size@ != numer@) by (nonlinear_arith)
                    requires
                        numer@ == size@ * exp@ + numer@ % size@,
                        numer@ % size@ != 0,
                ;
            }
        }
        if !exp.times(size).same(&numer) {
            return Err(Error::BadSubgroup);
        }
        Ok(self.exp(&self.g, &exp))
    }

    /// The multiplicative inverse of `v`, found by the extended Euclidean
    /// algorithm. There is none when `v` is zero in the field (and, over a
    /// modulus that is not prime, when `v` shares a factor with it).
    pub fn inv(&self, v: &IBig) -> (r: Result<IBig, Error>)
        requires
            self.wf(),
        ensures
            r.is_ok() <==> has_inverse(v@, self.modulus()),
            is_prime(self.modulus()) ==> (r.is_ok() <==> v@ % self.modulus() != 0),
            r matches Ok(x) ==> x@ == inverse(v@, self.modulus()) && is_inverse(
                v@,
                x@,
                self.modulus(),
            ),
            r matches Err(e) ==> e == Error::DivByZero,
    {
        proof {
            let p = self.modulus();
            if is_prime(p) {
                if v@ % p != 0 {
                    lemma_prime_has_inverse(v@, p);
                } else {
                    lemma_mod_self_0(p);
                    lemma_common_divisor_no_inverse(p, v@ % p, p);
                    Self::lemma_inverse_of_residue(v@, p);
                }
            }
        }
        self.euclid(v)
    }

    /// The extended Euclidean algorithm on `v` and the modulus.
    fn euclid(&self, v: &IBig) -> (r: Result<IBig, Error>)
        requires
            self.wf(),
        ensures
            r.is_ok() <==> has_inverse(v@, self.modulus()),
            r matches Ok(x) ==> x@ == inverse(v@, self.modulus()) && is_inverse(
                v@,
                x@,
                self.modulus(),
            ),
            r matches Err(e) ==> e == Error::DivByZero,
    {
        let ghost p = self.p@;
        let mut val = self.modd(v.clone());
        let ghost a = val@;
        proof {
            lemma_mod_bound(v@, p);
        }
        let zero = Field::zero();
        if val.same(&zero) {
            proof {
                lemma_mod_self_0(p);
                lemma_common_divisor_no_inverse(p, a, p);
                Self::lemma_inverse_of_residue(v@, p);
            }
            return Err(Error::DivByZero);
        }
        let one = Field::one();
        let mut y = Field::zero();
        let mut x = Field::one();
        let mut f = self.p.clone();
        proof {
            lemma_small_mod(a as nat, p as nat);
            lemma_mod_self_0(p);
            lemma_small_mod(0, p as nat);
            assert(1 * a == a);
            assert(0 * a == 0);
        }
        while one.lt(&val)
            invariant
                self.wf(),
                p == self.p@,
                a == v@ % p,
                one@ == 1,
                zero@ == 0,
                val@ >= 1,
                f@ >= 0,
                (x@ * a) % p == val@ % p,
                (y@ * a) % p == f@ % p,
                forall|d: int| #[trigger] common_divisor(d, val@, f@) ==> common_divisor(d, a, p),
            decreases f@,
        {
            if f.same(&zero) {
                proof {
                    lemma_mod_self_0(val@);
                    lemma_small_mod(0, val@ as nat);
                    assert(common_divisor(val@, val@, f@));
                    lemma_common_divisor_no_inverse(val@, a, p);
                    Self::lemma_inverse_of_residue(v@, p);
                }
                return Err(Error::DivByZero);
            }
            let q = val.quot(&f);
            let m = val.rem(&f);
            let next_y = x.minus(&q.times(&y));
            proof {
                lemma_fundamental_div_mod(val@, f@);
                lemma_mod_bound(val@, f@);
                // (x - q y) a == x a - q (y a), which is val - q f modulo p
                assert((x@ - q@ * y@) * a == x@ * a - q@ * (y@ * a)) by (nonlinear_arith);
                assert(m@ == val@ - q@ * f@) by (nonlinear_arith)
                    requires
                        val@ == f@ * q@ + m@,
                ;
                lemma_mul_mod_noop_right(q@, y@ * a, p);
                lemma_mul_mod_noop_right(q@, f@, p);
                lemma_sub_mod_noop(x@ * a, q@ * (y@ * a), p);
                lemma_sub_mod_noop(val@, q@ * f@, p);
                assert forall|d: int| #[trigger] common_divisor(d, f@, m@) implies common_divisor(
                    d,
                    a,
                    p,
                ) by {
                    lemma_divides_combination(d, q@, f@, m@);
                    assert(q@ * f@ + m@ == val@) by (nonlinear_arith)
                        requires
                            val@ == f@ * q@ + m@,
                    ;
                    assert(common_divisor(d, val@, f@));
                }
            }
            val = f;
            f = m;
            x = y;
            y = next_y;
        }
        let r = self.modd(x);
        proof {
            lemma_small_mod(1, p as nat);
            lemma_mod_bound(x@, p);
            lemma_mul_mod_noop_left(x@, a, p);
            assert(r@ * a == a * r@) by (nonlinear_arith);
            assert(is_inverse(a, r@, p));
            lemma_mul_mod_noop_left(v@, r@, p);
            assert(is_inverse(v@, r@, p));
            lemma_inverse_is(v@, r@, p);
        }
        Ok(r)
    }

    /// A number has an inverse exactly when its residue has one.
    proof fn lemma_inverse_of_residue(v: int, p: int)
        requires
            p > 0,
        ensures
            has_inverse(v, p) <==> has_inverse(v % p, p),
    {
        let a = v % p;
        if has_inverse(v, p) {
            let r = choose|r: int| is_inverse(v, r, p);
            lemma_mul_mod_noop_left(v, r, p);
            assert(is_inverse(a, r, p));
        }
        if has_inverse(a, p) {
            let r = choose|r: int| is_inverse(a, r, p);
            lemma_mul_mod_noop_left(v, r, p);
            assert(is_inverse(v, r, p));
        }
    }

    /// The sequence `first, first * ratio, first * ratio^2, ...` of `n`
    /// elements, each found from the one before by one multiplication.
    pub fn progression(&self, first: &IBig, ratio: &IBig, n: usize) -> (r: Vec<IBig>)
        requires
            self.wf(),
        ensures
            r@.len() == n,
            forall|i: int|
                0 <= i < n ==> (#[trigger] r@[i])@ == (first@ * pow(ratio@, i as nat))
                    % self.modulus(),
    {
        let ghost p = self.p@;
        let mut out: Vec<IBig> = Vec::new();
        let mut cur = self.modd(first.clone());
        let mut i: usize = 0;
        proof {
            lemma_pow0(ratio@);
            assert(first@ * 1 == first@);
        }
        while i < n
            invariant
                self.wf(),
                p == self.p@,
                i <= n,
                out@.len() == i,
                cur@ == (first@ * pow(ratio@, i as nat)) % p,
                forall|j: int|
                    0 <= j < i ==> (#[trigger] out@[j])@ == (first@ * pow(ratio@, j as nat)) % p,
            decreases n - i,
        {
            let next = self.mul(&cur, ratio);
            proof {
                let pw = pow(ratio@, i as nat);
                let a = first@;
                let b = ratio@;
                lemma_mul_mod_noop_left(a * pw, b, p);
                lemma_pow_adds(b, i as nat, 1);
                lemma_pow1(b);
                assert((a * pw) * b == a * (pw * b)) by (nonlinear_arith);
            }
            out.push(cur);
            cur = next;
            i = i + 1;
        }
        out
    }

    /// The powers `1, base, base^2, ...` of `base`, `n` of them.
    pub fn domain(&self, base: &IBig, n: u32) -> (r: Vec<IBig>)
        requires
            self.wf(),
        ensures
            r@.len() == n,
            forall|i: int|
                0 <= i < n ==> (#[trigger] r@[i])@ == pow(base@, i as nat) % self.modulus(),
    {
        let one = Field::one();
        let r = self.progression(&one, base, n as usize);
        proof {
            assert forall|i: int| 0 <= i < n implies (#[trigger] r@[i])@ == pow(base@, i as nat)
                % self.modulus() by {
                assert(1 * pow(base@, i as nat) == pow(base@, i as nat));
            }
        }
        r
    }

    /// The coset `offset * w^i` of the subgroup of `n` elements, where `w`
    /// is that subgroup's generator.
    pub fn coset(&self, n: u32, offset: &IBig) -> (r: Result<Vec<IBig>, Error>)
        requires
            self.wf(),
        ensures
            r.is_ok() <==> 0 < n < self.modulus() && (self.modulus() - 1) % (n as int) == 0,
            r matches Ok(c) ==> c@.len() == n && forall|i: int|
                0 <= i < n ==> (#[trigger] c@[i])@ == (offset@ * pow(
                    subgroup_generator(self.base(), self.modulus(), n as int),
                    i as nat,
                )) % self.modulus(),
            r matches Err(e) ==> e == Error::BadSubgroup,
    {
        let size = Field::biguint(n);
        match self.generator(&size) {
            Ok(w) => Ok(self.progression(offset, &w, n as usize)),
            Err(e) => Err(e),
        }
    }

    /// Reduces a seed of any size into the field.
    pub fn sample(&self, seed: &IBig) -> (r: IBig)
        requires
            self.wf(),
        ensures
            r@ == seed@ % self.modulus(),
    {
        self.modd(seed.clone())
    }

    /// In a prime field every element but zero has an inverse, and the
    /// product of the two is one.
    pub proof fn law_inverse(p: int, a: int)
        requires
            is_prime(p),
            a % p != 0,
        ensures
            has_inverse(a, p),
            (a * inverse(a, p)) % p == 1,
    {
        lemma_prime_has_inverse(a, p);
    }

    /// Where `g` generates the whole multiplicative group and `n` divides
    /// `p - 1`, the generator of the subgroup of `n` elements has order
    /// exactly `n`: its `n`-th power is one and no smaller power is, so
    /// for `n > 1` its `n/2`-th power is not.
    pub proof fn law_generator_order(g: int, p: int, n: int)
        requires
            is_primitive_root(g, p),
            0 < n < p,
            (p - 1) % n == 0,
        ensures
            pow(subgroup_generator(g, p, n), n as nat) % p == 1,
            forall|t: nat| 0 < t < n ==> #[trigger] pow(subgroup_generator(g, p, n), t) % p != 1,
            n > 1 ==> pow(subgroup_generator(g, p, n), (n / 2) as nat) % p != 1,
    {
        lemma_subgroup_generator_order(g, p, n);
        if n > 1 {
            let h = (n / 2) as nat;
            assert(0 < h < n);
            assert(pow(subgroup_generator(g, p, n), h) % p != 1);
        }
    }
}

} // verus!
