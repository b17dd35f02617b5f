//! Unbounded integers as plain byte strings. The arithmetic itself is done by
//! `num_bigint`; each operation is a small trusted function that hands the
//! bytes over, makes one call and takes the bytes of the answer back.
//!
//! Trusted in every one of them: `BigInt::from_signed_bytes_le` reads a
//! little-endian two's-complement string as `le_int` does, and
//! `BigInt::to_signed_bytes_le` gives a string that denotes the number;
//! `BigUint::from_bytes_le` reads a little-endian magnitude as `le_nat`
//! does, and `BigUint::to_bytes_le` gives the string `le_bytes` of the
//! number.
use vstd::arithmetic::power::pow;
use vstd::prelude::*;

verus! {

/// The number that a little-endian string of base-256 digits denotes.
pub open spec fn le_nat(s: Seq<u8>) -> nat
    decreases s.len(),
{
    if s.len() == 0 {
        0
    } else {
        s[0] as nat + 256 * le_nat(s.drop_first())
    }
}

/// The shortest little-endian string of base-256 digits that denotes `n`;
/// zero is the single digit 0.
pub open spec fn le_bytes(n: nat) -> Seq<u8>
    decreases n,
{
    if n < 256 {
        seq![n as u8]
    } else {
        seq![(n % 256) as u8] + le_bytes(n / 256)
    }
}

/// The integer that a little-endian two's-complement string denotes: the
/// top bit of the last byte is the sign.
pub open spec fn le_int(s: Seq<u8>) -> int {
    if s.len() > 0 && s.last() >= 128 {
        le_nat(s) - pow(256, s.len())
    } else {
        le_nat(s) as int
    }
}

/// Quotient rounded toward zero, for a positive divisor.
pub open spec fn trunc_div(a: int, b: int) -> int {
    if a >= 0 {
        a / b
    } else {
        -((-a) / b)
    }
}

/// Remainder that goes with `trunc_div`: it has the sign of the dividend.
pub open spec fn trunc_rem(a: int, b: int) -> int {
    if a >= 0 {
        a % b
    } else {
        -((-a) % b)
    }
}

/// The number that a little-endian string of base-2^32 digits denotes.
pub open spec fn digits_value(d: Seq<u32>) -> nat
    decreases d.len(),
{
    if d.len() == 0 {
        0
    } else {
        d[0] as nat + 4294967296 * digits_value(d.drop_first())
    }
}

/// The sign of an integer.
#[derive(Clone, Copy, Debug, PartialEq, Eq, Structural)]
pub enum Sign {
    Minus,
    NoSign,
    Plus,
}

/// An unbounded signed integer.
#[derive(Debug, PartialEq, Eq)]
pub struct IBig {
    bytes: Vec<u8>,
}

/// An unbounded natural number.
#[derive(Debug, PartialEq, Eq)]
pub struct UBig {
    bytes: Vec<u8>,
}

impl View for IBig {
    type V = int;

    closed spec fn view(&self) -> int {
        le_int(self.bytes@)
    }
}

impl View for UBig {
    type V = nat;

    closed spec fn view(&self) -> nat {
        le_nat(self.bytes@)
    }
}

impl Clone for IBig {
    fn clone(&self) -> (r: Self)
        ensures
            r@ == self@,
    {
        let bytes = self.bytes.clone();
        assert(bytes@ =~= self.bytes@);
        IBig { bytes }
    }
}

impl Clone for UBig {
    fn clone(&self) -> (r: Self)
        ensures
            r@ == self@,
    {
        let bytes = self.bytes.clone();
        assert(bytes@ =~= self.bytes@);
        UBig { bytes }
    }
}

/// The numbers that a sequence of naturals denotes.
pub open spec fn nats(s: Seq<UBig>) -> Seq<nat> {
    s.map_values(|x: UBig| x@)
}

/// The integers that a sequence of signed values denotes.
pub open spec fn ints(s: Seq<IBig>) -> Seq<int> {
    s.map_values(|x: IBig| x@)
}

/// The integers that a sequence of rows of signed values denotes.
pub open spec fn int_rows(s: Seq<Vec<IBig>>) -> Seq<Seq<int>> {
    s.map_values(|row: Vec<IBig>| ints(row@))
}

/// The numbers that a sequence of rows of naturals denotes.
pub open spec fn nat_rows(s: Seq<Vec<UBig>>) -> Seq<Seq<nat>> {
    s.map_values(|row: Vec<UBig>| nats(row@))
}

impl IBig {
    /// The integer with the given sign and magnitude, the magnitude in
    /// base-2^32 digits, least significant first. `NoSign` gives zero
    /// whatever the digits.
    pub fn new(sign: Sign, digits: Vec<u32>) -> (r: IBig)
        ensures
            r@ == match sign {
                Sign::Plus => digits_value(digits@) as int,
                Sign::Minus => -(digits_value(digits@) as int),
                Sign::NoSign => 0,
            },
    {
        let base = IBig::of_u128(4294967296);
        let mut acc = IBig::of_i64(0);
        let mut i: usize = digits.len();
        assert(digits@.skip(i as int) =~= Seq::<u32>::empty());
        while i > 0
            invariant
                base@ == 4294967296,
                i <= digits.len(),
                acc@ == digits_value(digits@.skip(i as int)),
            decreases i,
        {
            i = i - 1;
            let ghost tail = digits@.skip(i as int);
            assert(tail.drop_first() =~= digits@.skip(i + 1));
            acc = IBig::of_u128(digits[i] as u128).plus(&base.times(&acc));
        }
        assert(digits@.skip(0) =~= digits@);
        match sign {
            Sign::Plus => acc,
            Sign::Minus => IBig::of_i64(0).minus(&acc),
            Sign::NoSign => IBig::of_i64(0),
        }
    }

    /// The integer `v`.
    pub fn from_i64(v: i64) -> (r: IBig)
        ensures
            r@ == v,
    {
        IBig::of_i64(v)
    }

    /// The integer `v`.
    pub fn from_u128(v: u128) -> (r: IBig)
        ensures
            r@ == v,
    {
        IBig::of_u128(v)
    }

    /// The same number as a natural, unless it is negative.
    pub fn to_biguint(&self) -> (r: Option<UBig>)
        ensures
            r.is_some() <==> self@ >= 0,
            r matches Some(n) ==> n@ == self@,
    {
        self.to_ubig()
    }

    /// A copy of each element, in order.
    pub fn clone_vec(v: &Vec<IBig>) -> (r: Vec<IBig>)
        ensures
            ints(r@) == ints(v@),
    {
        let mut out: Vec<IBig> = Vec::new();
        let mut i: usize = 0;
        while i < v.len()
            invariant
                i <= v.len(),
                out@.len() == i,
                forall|j: int| 0 <= j < i ==> (#[trigger] out@[j])@ == v@[j]@,
            decreases v.len() - i,
        {
            out.push(v[i].clone());
            i = i + 1;
        }
        assert(ints(out@) =~= ints(v@));
        out
    }

    /// `num_bigint::BigInt::from(i64)`, then `to_signed_bytes_le`.
    /// Trusted: the result denotes `v`.
    #[verifier::external_body]
    pub(crate) fn of_i64(v: i64) -> (r: IBig)
        ensures
            r@ == v,
    {
        IBig { bytes: num_bigint::BigInt::from(v).to_signed_bytes_le() }
    }

    /// `num_bigint::BigInt::from(u128)`, then `to_signed_bytes_le`.
    /// Trusted: the result denotes `v`.
    #[verifier::external_body]
    pub(crate) fn of_u128(v: u128) -> (r: IBig)
        ensures
            r@ == v,
    {
        IBig { bytes: num_bigint::BigInt::from(v).to_signed_bytes_le() }
    }

    /// `BigInt + BigInt`. Trusted: the result is the sum.
    #[verifier::external_body]
    pub(crate) fn plus(&self, rhs: &IBig) -> (r: IBig)
        ensures
            r@ == self@ + rhs@,
    {
        let a = num_bigint::BigInt::from_signed_bytes_le(&self.bytes);
        let b = num_bigint::BigInt::from_signed_bytes_le(&rhs.bytes);
        IBig { bytes: (a + b).to_signed_bytes_le() }
    }

    /// `BigInt - BigInt`. Trusted: the result is the difference.
    #[verifier::external_body]
    pub(crate) fn minus(&self, rhs: &IBig) -> (r: IBig)
        ensures
            r@ == self@ - rhs@,
    {
        let a = num_bigint::BigInt::from_signed_bytes_le(&self.bytes);
        let b = num_bigint::BigInt::from_signed_bytes_le(&rhs.bytes);
        IBig { bytes: (a - b).to_signed_bytes_le() }
    }

    /// `BigInt * BigInt`. Trusted: the result is the product.
    #[verifier::external_body]
    pub(crate) fn times(&self, rhs: &IBig) -> (r: IBig)
        ensures
            r@ == self@ * rhs@,
    {
        let a = num_bigint::BigInt::from_signed_bytes_le(&self.bytes);
        let b = num_bigint::BigInt::from_signed_bytes_le(&rhs.bytes);
        IBig { bytes: (a * b).to_signed_bytes_le() }
    }

    /// `BigInt / BigInt`, which panics on a zero divisor and rounds toward
    /// zero. Trusted: for a positive divisor the result is that quotient.
    #[verifier::external_body]
    pub(crate) fn quot(&self, rhs: &IBig) -> (r: IBig)
        requires
            rhs@ > 0,
        ensures
            r@ == trunc_div(self@, rhs@),
    {
        let a = num_bigint::BigInt::from_signed_bytes_le(&self.bytes);
        let b = num_bigint::BigInt::from_signed_bytes_le(&rhs.bytes);
        IBig { bytes: (a / b).to_signed_bytes_le() }
    }

    /// `BigInt % BigInt`, which panics on a zero divisor and gives the
    /// remainder the sign of the dividend. Trusted: for a positive divisor
    /// the result is that remainder.
    #[verifier::external_body]
    pub(crate) fn rem(&self, rhs: &IBig) -> (r: IBig)
        requires
            rhs@ > 0,
        ensures
            r@ == trunc_rem(self@, rhs@),
    {
        let a = num_bigint::BigInt::from_signed_bytes_le(&self.bytes);
        let b = num_bigint::BigInt::from_signed_bytes_le(&rhs.bytes);
        IBig { bytes: (a % b).to_signed_bytes_le() }
    }

    /// `BigInt::modpow`, which panics on a negative exponent or a zero
    /// modulus. Trusted: for a positive modulus the result is the power
    /// reduced into `[0, modulus)`.
    #[verifier::external_body]
    pub(crate) fn modpow(&self, exponent: &IBig, modulus: &IBig) -> (r: IBig)
        requires
            exponent@ >= 0,
            modulus@ > 0,
        ensures
            r@ == pow(self@, exponent@ as nat) % modulus@,
    {
        let a = num_bigint::BigInt::from_signed_bytes_le(&self.bytes);
        let e = num_bigint::BigInt::from_signed_bytes_le(&exponent.bytes);
        let m = num_bigint::BigInt::from_signed_bytes_le(&modulus.bytes);
        IBig { bytes: a.modpow(&e, &m).to_signed_bytes_le() }
    }

    /// `BigInt < BigInt`. Trusted: the order is that of the integers.
    #[verifier::external_body]
    pub(crate) fn lt(&self, rhs: &IBig) -> (r: bool)
        ensures
            r == (self@ < rhs@),
    {
        let a = num_bigint::BigInt::from_signed_bytes_le(&self.bytes);
        let b = num_bigint::BigInt::from_signed_bytes_le(&rhs.bytes);
        a < b
    }

    /// `BigInt == BigInt`. Trusted: two values are equal exactly when they
    /// denote the same integer.
    #[verifier::external_body]
    pub(crate) fn same(&self, rhs: &IBig) -> (r: bool)
        ensures
            r == (self@ == rhs@),
    {
        let a = num_bigint::BigInt::from_signed_bytes_le(&self.bytes);
        let b = num_bigint::BigInt::from_signed_bytes_le(&rhs.bytes);
        a == b
    }

    /// Whether the integer is below zero.
    pub(crate) fn negative(&self) -> (r: bool)
        ensures
            r == (self@ < 0),
    {
        self.lt(&IBig::of_i64(0))
    }

    /// `u32::try_from(&BigInt)`. Trusted: it succeeds exactly on the
    /// integers that a `u32` holds, and keeps the number.
    #[verifier::external_body]
    pub(crate) fn to_u32(&self) -> (r: Option<u32>)
        ensures
            0 <= self@ <= u32::MAX ==> r == Some(self@ as u32),
            !(0 <= self@ <= u32::MAX) ==> r.is_none(),
    {
        let a = num_bigint::BigInt::from_signed_bytes_le(&self.bytes);
        u32::try_from(&a).ok()
    }

    /// `BigInt::to_biguint`. Trusted: it succeeds exactly on the integers
    /// that are not negative, and keeps the number.
    #[verifier::external_body]
    pub(crate) fn to_ubig(&self) -> (r: Option<UBig>)
        ensures
            self@ >= 0 ==> r.is_some() && r.unwrap()@ == self@,
            self@ < 0 ==> r.is_none(),
    {
        let a = num_bigint::BigInt::from_signed_bytes_le(&self.bytes);
        match a.to_biguint() {
            Some(u) => Some(UBig { bytes: u.to_bytes_le() }),
            None => None,
        }
    }
}

impl UBig {
    /// The number `v`.
    pub fn from_u32(v: u32) -> (r: UBig)
        ensures
            r@ == v,
    {
        UBig::of_u128(v as u128)
    }

    /// The number `v`.
    pub fn from_u128(v: u128) -> (r: UBig)
        ensures
            r@ == v,
    {
        UBig::of_u128(v)
    }

    /// The number whose little-endian base-256 digits are `bytes`.
    pub fn from_bytes_le(bytes: &Vec<u8>) -> (r: UBig)
        ensures
            r@ == le_nat(bytes@),
    {
        UBig::of_le_bytes(bytes)
    }

    /// The shortest little-endian base-256 digits of the number.
    pub fn to_bytes_le(&self) -> (r: Vec<u8>)
        ensures
            r@ == le_bytes(self@),
    {
        self.le_digits()
    }

    /// The same number as a signed integer.
    pub fn to_bigint(&self) -> (r: IBig)
        ensures
            r@ == self@,
    {
        self.to_ibig()
    }

    /// A copy of each element, in order.
    pub fn clone_vec(v: &Vec<UBig>) -> (r: Vec<UBig>)
        ensures
            nats(r@) == nats(v@),
    {
        let mut out: Vec<UBig> = Vec::new();
        let mut i: usize = 0;
        while i < v.len()
            invariant
                i <= v.len(),
                out@.len() == i,
                forall|j: int| 0 <= j < i ==> (#[trigger] out@[j])@ == v@[j]@,
            decreases v.len() - i,
        {
            out.push(v[i].clone());
            i = i + 1;
        }
        assert(nats(out@) =~= nats(v@));
        out
    }

    /// `num_bigint::BigUint::from(u128)`, then `to_bytes_le`.
    /// Trusted: the result denotes `v`.
    #[verifier::external_body]
    pub(crate) fn of_u128(v: u128) -> (r: UBig)
        ensures
            r@ == v,
    {
        UBig { bytes: num_bigint::BigUint::from(v).to_bytes_le() }
    }

    /// `BigUint::from_bytes_le`. Trusted: the result denotes the number
    /// whose little-endian base-256 digits are `bytes`.
    #[verifier::external_body]
    pub(crate) fn of_le_bytes(bytes: &Vec<u8>) -> (r: UBig)
        ensures
            r@ == le_nat(bytes@),
    {
        UBig { bytes: num_bigint::BigUint::from_bytes_le(bytes.as_slice()).to_bytes_le() }
    }

    /// `BigUint::to_bytes_le`. Trusted: the result is the shortest
    /// little-endian digit string of the number, `[0]` for zero.
    #[verifier::external_body]
    pub(crate) fn le_digits(&self) -> (r: Vec<u8>)
        ensures
            r@ == le_bytes(self@),
    {
        num_bigint::BigUint::from_bytes_le(&self.bytes).to_bytes_le()
    }

    /// `BigUint == BigUint`. Trusted: two values are equal exactly when
    /// they denote the same number.
    #[verifier::external_body]
    pub(crate) fn same(&self, rhs: &UBig) -> (r: bool)
        ensures
            r == (self@ == rhs@),
    {
        let a = num_bigint::BigUint::from_bytes_le(&self.bytes);
        let b = num_bigint::BigUint::from_bytes_le(&rhs.bytes);
        a == b
    }

    /// `BigInt::from(BigUint)`. Trusted: the conversion keeps the number.
    #[verifier::external_body]
    pub(crate) fn to_ibig(&self) -> (r: IBig)
        ensures
            r@ == self@,
    {
        let a = num_bigint::BigUint::from_bytes_le(&self.bytes);
        IBig { bytes: num_bigint::BigInt::from(a).to_signed_bytes_le() }
    }
}

} // verus!
