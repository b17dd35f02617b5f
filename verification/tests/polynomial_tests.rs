use std::rc::Rc;

use fri_core::bigint::IBig;
use fri_core::error::Error;
use fri_core::field::Field;
use fri_core::polynomial::Polynomial;

fn large_field() -> Rc<Field> {
    Rc::new(Field::new(Field::biguint(3221225473), Field::bigint(5)))
}

fn small_field() -> Rc<Field> {
    Rc::new(Field::new(Field::bigint(101), Field::bigint(0)))
}

fn poly(f: &Rc<Field>, terms: &[(i32, u32)]) -> Polynomial {
    let mut p = Polynomial::new(f);
    for (c, e) in terms {
        p.term(&Field::bigint(*c), *e);
    }
    p
}

#[test]
fn should_compose_polynomial() {
    let f = large_field();

    let mut root = Polynomial::new(&f);
    root.term(&IBig::from_i64(99), 0);
    root.term(&IBig::from_i64(2), 1);
    root.term(&IBig::from_i64(4), 2);

    let mut inpoly = Polynomial::new(&f);
    inpoly.term(&IBig::from_i64(2), 2);
    inpoly.term(&IBig::from_i64(12), 0);

    let mut expected = Polynomial::new(&f);
    expected.term(&IBig::from_i64(99), 0);
    expected.add(&inpoly.clone().mul_scalar(&IBig::from_i64(2)));
    {
        let mut i = inpoly.clone();
        i.exp(2);
        i.mul_scalar(&IBig::from_i64(4));
        expected.add(&i);
    }

    assert!(root.compose(&inpoly).is_equal(&expected));
}

#[test]
fn should_exp_polynomial() {
    let f = large_field();

    let mut poly = Polynomial::new(&f);
    poly.term(&IBig::from_i64(2), 0);

    for i in 0..10 {
        let mut expected = Polynomial::new(&f);
        expected.term(&f.exp(&IBig::from_i64(2), &IBig::from_i64(i)), 0);
        assert!(poly.clone().exp(i as usize).is_equal(&expected));
    }
}

#[test]
fn should_scale_polynomial() {
    let f = large_field();

    let mut poly = Polynomial::new(&f);
    poly.term(&Field::bigint(1), 0);
    poly.term(&Field::bigint(1), 1);
    poly.term(&Field::bigint(1), 2);
    poly.term(&Field::bigint(1), 3);
    poly.term(&Field::bigint(1), 4);

    let mut expected = Polynomial::new(&f);
    expected.term(&Field::bigint(1), 0);
    expected.term(&Field::bigint(2), 1);
    expected.term(&Field::bigint(4), 2);
    expected.term(&Field::bigint(8), 3);
    expected.term(&Field::bigint(16), 4);

    assert!(expected.is_equal(poly.scale(&IBig::from_i64(2))));
}

#[test]
fn should_interpolate_lagrange() {
    let f = large_field();

    let size = 32;
    let gen = f.generator(&Field::bigint(size)).unwrap();
    let mut x_vals: Vec<IBig> = Vec::new();
    let mut y_vals: Vec<IBig> = Vec::new();
    let mut seed: u64 = 0x2545F4914F6CDD1D;
    for i in 0..size {
        x_vals.push(f.exp(&gen, &Field::bigint(i)));
        seed = seed.wrapping_mul(6364136223846793005).wrapping_add(1442695040888963407);
        y_vals.push(f.modd(IBig::from_u128(seed as u128)));
    }

    let p = Polynomial::lagrange(&x_vals, &y_vals, &f).unwrap();
    for i in 0..size {
        let index = i as usize;
        assert_eq!(p.eval(&x_vals[index]), y_vals[index]);
    }
}

#[test]
fn should_fail_to_div_by_zero() {
    let f = large_field();

    let mut poly = Polynomial::new(&f);
    poly.term(&Field::bigint(1), 0);

    let mut divisor = Polynomial::new(&f);
    divisor.term(&Field::bigint(0), 3);
    assert_eq!(poly.div(&divisor).err(), Some(Error::DivByZero));
    assert_eq!(poly.safe_div(&divisor).err(), Some(Error::DivByZero));
    assert_eq!(poly.div(&Polynomial::new(&f)).err(), Some(Error::DivByZero));
}

#[test]
fn should_divide_polynomial() {
    let f = large_field();

    let mut poly1 = Polynomial::new(&f);
    poly1.term(&Field::bigint(1), 2);
    poly1.term(&Field::bigint(2), 1);
    poly1.term(&Field::bigint(-7), 0);

    let mut poly2 = Polynomial::new(&f);
    poly2.term(&Field::bigint(1), 1);
    poly2.term(&Field::bigint(-2), 0);

    let mut expected_q = Polynomial::new(&f);
    expected_q.term(&Field::bigint(1), 1);
    expected_q.term(&Field::bigint(4), 0);

    let mut expected_r = Polynomial::new(&f);
    expected_r.term(&Field::bigint(1), 0);

    let (q, r) = poly1.div(&poly2).unwrap();

    assert!(q.is_equal(&expected_q));
    assert!(r.is_equal(&expected_r));
}

#[test]
fn should_eval_polynomial() {
    let f = large_field();

    // 9x^3 - 4x^2 - 20
    let mut poly = Polynomial::new(&f);
    poly.term(&Field::bigint(9), 3);
    poly.term(&Field::bigint(-4), 2);
    poly.term(&Field::bigint(-20), 0);

    assert_eq!(f.modd(Field::bigint(-20)), poly.eval(&Field::bigint(0)));
    assert_eq!(f.modd(Field::bigint(-15)), poly.eval(&Field::bigint(1)));
}

#[test]
fn should_check_polynomial_equality() {
    let f = small_field();

    let mut poly1 = Polynomial::new(&f);
    poly1.term(&Field::bigint(-20), 0);
    poly1.term(&Field::bigint(2), 2);
    let mut poly2 = Polynomial::new(&f);
    poly2.term(&Field::bigint(81), 0);
    poly2.term(&Field::bigint(2), 2);
    poly2.term(&Field::bigint(0), 5);
    assert!(poly1.is_equal(&poly2));
}

#[test]
fn should_add_polynomials() {
    let f = small_field();

    // 2x^2 - 20
    let mut poly1 = Polynomial::new(&f);
    poly1.term(&Field::bigint(-20), 0);
    poly1.term(&Field::bigint(2), 2);

    // 9x^3 - 4x^2 - 20
    let mut poly2 = Polynomial::new(&f);
    poly2.term(&Field::bigint(9), 3);
    poly2.term(&Field::bigint(-4), 2);
    poly2.term(&Field::bigint(-20), 0);

    // expect 9x^3 - 2x^2 - 40
    let mut out1 = poly1.clone();
    out1.add(&poly2);
    let mut out2 = poly2.clone();
    out2.add(&poly1);

    let mut expected = Polynomial::new(&f);
    expected.term(&Field::bigint(9), 3);
    expected.term(&Field::bigint(-2), 2);
    expected.term(&Field::bigint(-40), 0);
    assert!(expected.is_equal(&out1));
    assert!(expected.is_equal(&out2));
}

#[test]
fn should_subtract_polynomials() {
    let f = small_field();

    // 2x^2 - 20
    let mut poly1 = Polynomial::new(&f);
    poly1.term(&Field::bigint(-20), 0);
    poly1.term(&Field::bigint(2), 2);

    // 9x^3 - 4x^2 - 20
    let mut poly2 = Polynomial::new(&f);
    poly2.term(&Field::bigint(9), 3);
    poly2.term(&Field::bigint(-4), 2);
    poly2.term(&Field::bigint(-20), 0);

    let mut out1 = poly1.clone();
    out1.sub(&poly2);
    let mut out2 = poly2.clone();
    out2.sub(&poly1);

    let mut expected1 = Polynomial::new(&f);
    expected1.term(&Field::bigint(-9), 3);
    expected1.term(&Field::bigint(6), 2);
    assert!(expected1.is_equal(&out1));

    let mut expected2 = Polynomial::new(&f);
    expected2.term(&Field::bigint(9), 3);
    expected2.term(&Field::bigint(-6), 2);
    assert!(expected2.is_equal(&out2));
}

#[test]
fn should_multiply_polynomials() {
    let f = small_field();

    // 2x^2 - 20
    let mut poly1 = Polynomial::new(&f);
    poly1.term(&Field::bigint(-20), 0);
    poly1.term(&Field::bigint(2), 2);

    // 9x^3 - 4x^2 - 20
    let mut poly2 = Polynomial::new(&f);
    poly2.term(&Field::bigint(9), 3);
    poly2.term(&Field::bigint(-4), 2);
    poly2.term(&Field::bigint(-20), 0);

    let mut poly3 = poly1.clone();
    poly3.mul(&poly2);

    let mut expected = Polynomial::new(&f);
    expected.term(&Field::bigint(18), 5);
    expected.term(&Field::bigint(-8), 4);
    expected.term(&Field::bigint(-180), 3);
    expected.term(&Field::bigint(40), 2);
    expected.term(&Field::bigint(400), 0);
    assert!(poly3.is_equal(&expected));
}

fn coefs_of(p: &Polynomial) -> Vec<IBig> {
    p.coefs().clone()
}

fn ints(v: &[i32]) -> Vec<IBig> {
    v.iter().map(|x| Field::bigint(*x)).collect()
}

#[test]
fn coefficients_are_exact() {
    let f = small_field();
    let a = poly(&f, &[(-20, 0), (2, 2)]);
    assert_eq!(coefs_of(&a), ints(&[81, 0, 2]));
    let b = poly(&f, &[(9, 3), (-4, 2), (-20, 0)]);
    let mut sum = a.clone();
    sum.add(&b);
    assert_eq!(coefs_of(&sum), ints(&[61, 0, 99, 9]));
    let mut diff = a.clone();
    diff.sub(&b);
    assert_eq!(coefs_of(&diff), ints(&[0, 0, 6, 92]));
    let mut prod = a.clone();
    prod.mul(&b);
    // 18x^5 - 8x^4 - 180x^3 + 40x^2 + 400, reduced modulo 101, zeros cut
    assert_eq!(coefs_of(&prod), ints(&[97, 0, 40, 22, 93, 18]));
    let mut scaled = a.clone();
    scaled.mul_scalar(&Field::bigint(3));
    assert_eq!(coefs_of(&scaled), ints(&[41, 0, 6]));
}

#[test]
fn degree_zero_and_trim() {
    let f = small_field();
    let zero = Polynomial::new(&f);
    assert_eq!(zero.degree(), 0);
    assert!(zero.is_zero());
    let mut padded = poly(&f, &[(3, 1), (0, 4)]);
    assert_eq!(padded.coefs().len(), 5);
    assert_eq!(padded.degree(), 1);
    assert!(!padded.is_zero());
    padded.trim();
    assert_eq!(coefs_of(&padded), ints(&[0, 3]));
    let mut zeros = poly(&f, &[(0, 3)]);
    assert!(zeros.is_zero());
    assert_eq!(zeros.degree(), 0);
    assert!(zeros.is_equal(&zero));
    zeros.trim();
    assert_eq!(zeros.coefs().len(), 0);
    assert!(!poly(&f, &[(1, 0)]).is_equal(&poly(&f, &[(1, 0), (1, 3)])));
}

#[test]
fn pop_term_takes_the_leading_term() {
    let f = small_field();
    let mut p = poly(&f, &[(5, 0), (7, 2), (0, 3)]);
    assert_eq!(p.pop_term(), (Field::bigint(7), 2));
    assert_eq!(coefs_of(&p), ints(&[5, 0, 0, 0]));
    assert_eq!(p.pop_term(), (Field::bigint(5), 0));
    assert_eq!(p.pop_term(), (Field::bigint(0), 0));
    let mut empty = Polynomial::new(&f);
    assert_eq!(empty.pop_term(), (Field::bigint(0), 0));
}

#[test]
fn division_reconstructs_the_dividend() {
    let f = small_field();
    let a = poly(&f, &[(3, 0), (1, 1), (4, 2), (1, 3), (5, 4), (9, 5)]);
    let d = poly(&f, &[(2, 0), (7, 1), (18, 2)]);
    let (q, r) = a.div(&d).unwrap();
    assert!(r.is_zero() || r.degree() < d.degree());
    let mut back = q.clone();
    back.mul(&d);
    back.add(&r);
    assert!(back.is_equal(&a));
    // a divisor of larger degree leaves the dividend as remainder
    let (q2, r2) = d.div(&a).unwrap();
    assert!(q2.is_zero());
    assert!(r2.is_equal(&d));
    // a constant divisor divides exactly
    let c = poly(&f, &[(4, 0)]);
    let (q3, r3) = a.div(&c).unwrap();
    assert!(r3.is_zero());
    let mut back3 = q3.clone();
    back3.mul_scalar(&Field::bigint(4));
    assert!(back3.is_equal(&a));
}

#[test]
fn safe_div_wants_an_exact_division() {
    let f = small_field();
    let a = poly(&f, &[(-7, 0), (2, 1), (1, 2)]);
    let d = poly(&f, &[(-2, 0), (1, 1)]);
    assert_eq!(a.safe_div(&d).err(), Some(Error::NonZeroRemainder));
    let mut exact = d.clone();
    exact.mul(&poly(&f, &[(4, 0), (1, 1)]));
    let q = exact.safe_div(&d).unwrap();
    assert_eq!(coefs_of(&q), ints(&[4, 1]));
}

#[test]
fn lagrange_small_cases() {
    let f = small_field();
    // the line through (1, 3) and (2, 5) is 2x + 1
    let p = Polynomial::lagrange(&ints(&[1, 2]), &ints(&[3, 5]), &f).unwrap();
    assert!(p.is_equal(&poly(&f, &[(1, 0), (2, 1)])));
    // x^2 through three of its points
    let p = Polynomial::lagrange(&ints(&[0, 1, 2]), &ints(&[0, 1, 4]), &f).unwrap();
    assert!(p.is_equal(&poly(&f, &[(1, 2)])));
    assert_eq!(
        Polynomial::lagrange(&ints(&[1, 2]), &ints(&[3]), &f).err(),
        Some(Error::LenMismatch)
    );
    assert_eq!(
        Polynomial::lagrange(&ints(&[1, 1]), &ints(&[3, 4]), &f).err(),
        Some(Error::DivByZero)
    );
    assert_eq!(
        Polynomial::lagrange(&ints(&[1, 102]), &ints(&[3, 4]), &f).err(),
        Some(Error::DivByZero)
    );
    let empty = Polynomial::lagrange(&ints(&[]), &ints(&[]), &f).unwrap();
    assert!(empty.is_zero());
}

#[test]
fn colinearity_of_three_points() {
    let f = small_field();
    // on the line 2x + 1
    assert_eq!(
        Polynomial::test_colinearity(&ints(&[1, 2, 10]), &ints(&[3, 5, 21]), &f),
        Ok(true)
    );
    assert_eq!(
        Polynomial::test_colinearity(&ints(&[1, 2, 10]), &ints(&[3, 5, 22]), &f),
        Ok(false)
    );
    assert_eq!(
        Polynomial::test_colinearity(&ints(&[1, 2, 2]), &ints(&[3, 5, 5]), &f),
        Err(Error::DivByZero)
    );
    let xs = vec![ints(&[1, 2, 10]), ints(&[0, 1, 2])];
    let good = vec![ints(&[3, 5, 21]), ints(&[7, 7, 7])];
    let bad = vec![ints(&[3, 5, 21]), ints(&[0, 1, 4])];
    assert_eq!(Polynomial::test_colinearity_batch(&xs, &good, &f), Ok(true));
    assert_eq!(Polynomial::test_colinearity_batch(&xs, &bad, &f), Ok(false));
    assert_eq!(
        Polynomial::test_colinearity_batch(&xs, &vec![ints(&[3, 5, 21])], &f),
        Err(Error::LenMismatch)
    );
    assert_eq!(Polynomial::test_colinearity_batch(&vec![], &vec![], &f), Ok(true));
}

#[test]
fn fft_interpolation_reproduces_the_values() {
    let f = large_field();
    for log in 0..6 {
        let n: u32 = 1 << log;
        let w = f.generator(&Field::biguint(n)).unwrap();
        let domain = f.progression(&Field::bigint(5), &w, n as usize);
        let mut values: Vec<IBig> = Vec::new();
        let mut seed: u64 = 12345;
        for _ in 0..n {
            seed = seed.wrapping_mul(6364136223846793005).wrapping_add(1442695040888963407);
            values.push(f.modd(IBig::from_u128(seed as u128)));
        }
        let p = Polynomial::interpolate_fft(&domain, &values, &f).unwrap();
        assert!(p.coefs().len() <= n as usize);
        for i in 0..n as usize {
            assert_eq!(p.eval(&domain[i]), values[i]);
        }
        let l = Polynomial::lagrange(&domain, &values, &f).unwrap();
        assert!(p.is_equal(&l));
    }
}

#[test]
fn fft_interpolation_finds_a_low_degree_polynomial() {
    let f = large_field();
    let n: u32 = 16;
    let w = f.generator(&Field::biguint(n)).unwrap();
    let domain = f.progression(&Field::bigint(5), &w, n as usize);
    let source = poly(&f, &[(7, 0), (3, 2), (1, 3)]);
    let values: Vec<IBig> = domain.iter().map(|x| source.eval(x)).collect();
    let p = Polynomial::interpolate_fft(&domain, &values, &f).unwrap();
    assert!(p.is_equal(&source));
    assert_eq!(p.degree(), 3);
}

#[test]
fn fft_interpolation_rejects_bad_shapes() {
    let f = large_field();
    let three = ints(&[1, 2, 3]);
    assert_eq!(
        Polynomial::interpolate_fft(&three, &three, &f).err(),
        Some(Error::NotAPowerOfTwo)
    );
    assert_eq!(
        Polynomial::interpolate_fft(&three, &ints(&[1, 2]), &f).err(),
        Some(Error::LenMismatch)
    );
    assert_eq!(
        Polynomial::interpolate_fft(&ints(&[]), &ints(&[]), &f).err(),
        Some(Error::NotAPowerOfTwo)
    );
    assert_eq!(
        Polynomial::interpolate_fft(&ints(&[0, 1]), &ints(&[1, 2]), &f).err(),
        Some(Error::DivByZero)
    );
    assert!(Polynomial::is_power_of_two(64));
    assert!(Polynomial::is_power_of_two(1));
    assert!(!Polynomial::is_power_of_two(0));
    assert!(!Polynomial::is_power_of_two(48));
}

#[test]
fn evaluation_goes_with_the_operations() {
    let f = small_field();
    let a = poly(&f, &[(3, 0), (1, 1), (4, 2), (15, 4)]);
    let b = poly(&f, &[(9, 0), (2, 1), (6, 3)]);
    for x in [0, 1, 2, 7, 50, 100] {
        let x = Field::bigint(x);
        let va = a.eval(&x);
        let vb = b.eval(&x);
        let mut sum = a.clone();
        sum.add(&b);
        assert_eq!(sum.eval(&x), f.add(&va, &vb));
        let mut diff = a.clone();
        diff.sub(&b);
        assert_eq!(diff.eval(&x), f.sub(&va, &vb));
        let mut prod = a.clone();
        prod.mul(&b);
        assert_eq!(prod.eval(&x), f.mul(&va, &vb));
        let mut multiple = a.clone();
        multiple.mul_scalar(&Field::bigint(13));
        assert_eq!(multiple.eval(&x), f.mul(&Field::bigint(13), &va));
        let mut scaled = a.clone();
        scaled.scale(&Field::bigint(13));
        assert_eq!(scaled.eval(&x), a.eval(&f.mul(&Field::bigint(13), &x)));
        let mut composed = a.clone();
        composed.compose(&b);
        assert_eq!(composed.eval(&x), a.eval(&vb));
        let mut cubed = a.clone();
        cubed.exp(3);
        assert_eq!(cubed.eval(&x), f.exp(&va, &Field::bigint(3)));
    }
}

#[test]
fn evaluation_exact_values() {
    let f = small_field();
    // 15x^4 + 4x^2 + x + 3 at 2 is 240 + 16 + 2 + 3 = 261 = 59 modulo 101
    let a = poly(&f, &[(3, 0), (1, 1), (4, 2), (15, 4)]);
    assert_eq!(a.eval(&Field::bigint(2)), Field::bigint(59));
    assert_eq!(a.eval(&Field::bigint(103)), Field::bigint(59));
    assert_eq!(a.eval(&Field::bigint(-99)), Field::bigint(59));
    assert_eq!(Polynomial::new(&f).eval(&Field::bigint(2)), Field::bigint(0));
}
