use fri_core::bigint::{IBig, Sign, UBig};
use fri_core::error::Error;
use fri_core::field::Field;

fn small_field() -> Field {
    Field::new(Field::bigint(101), Field::bigint(0))
}

fn large_field() -> Field {
    Field::new(Field::biguint(3221225473), Field::bigint(5))
}

#[test]
fn should_make_bigint() {
    assert_eq!(Field::bigint(0), IBig::new(Sign::Minus, vec![0]));
    assert_eq!(Field::bigint(-29), IBig::new(Sign::Minus, vec![29]));
    assert_eq!(Field::bigint(32), IBig::new(Sign::Plus, vec![32]));
    assert_eq!(Field::biguint(0), IBig::new(Sign::Minus, vec![0]));
    assert_eq!(Field::biguint(32), IBig::new(Sign::Plus, vec![32]));
}

#[test]
fn should_add_two_elements() {
    let f = small_field();
    let x = Field::bigint(40);
    let y = Field::bigint(90);
    assert_eq!(f.add(&x, &y), Field::bigint(29));
}

#[test]
fn should_mul_two_elements() {
    let f = small_field();
    let x = Field::bigint(40);
    let y = Field::bigint(90);
    assert_eq!(f.mul(&x, &y), Field::bigint(65));
}

#[test]
fn should_sub_two_elements() {
    let f = small_field();
    let x = Field::bigint(2);
    let y = Field::bigint(20);
    assert_eq!(f.sub(&x, &y), Field::biguint(83));
}

#[test]
fn should_get_generator() {
    let f = large_field();
    for i in 1..10 {
        let size = Field::biguint(u32::pow(2, i));
        let g = f.generator(&size).unwrap();
        assert_eq!(f.exp(&g, &size), Field::bigint(1));
    }
}

#[test]
fn should_get_inverse() {
    let f = large_field();
    for i in 1..99 {
        let v = Field::biguint(i);
        let inv = f.inv(&v).unwrap();
        assert_eq!(f.mul(&inv, &v), Field::one());
    }
}

#[test]
fn generator_has_exact_order() {
    let f = large_field();
    for i in 1..10 {
        let size = Field::biguint(u32::pow(2, i));
        let half = Field::biguint(u32::pow(2, i - 1));
        let g = f.generator(&size).unwrap();
        assert_eq!(f.exp(&g, &size), Field::one());
        assert_ne!(f.exp(&g, &half), Field::one());
    }
}

#[test]
fn generator_rejects_bad_subgroups() {
    let f = large_field();
    assert_eq!(f.generator(&Field::bigint(7)), Err(Error::BadSubgroup));
    assert_eq!(f.generator(&Field::bigint(0)), Err(Error::BadSubgroup));
    assert_eq!(f.generator(&Field::bigint(-2)), Err(Error::BadSubgroup));
    assert_eq!(f.generator(&Field::biguint(3221225473)), Err(Error::BadSubgroup));
    assert_eq!(f.generator(&Field::biguint(3221225472)), Ok(Field::bigint(5)));
}

#[test]
fn inverse_of_zero_fails() {
    let f = small_field();
    assert_eq!(f.inv(&Field::zero()), Err(Error::DivByZero));
    assert_eq!(f.inv(&Field::bigint(101)), Err(Error::DivByZero));
    assert_eq!(f.inv(&Field::bigint(-202)), Err(Error::DivByZero));
}

#[test]
fn inverse_exact_values() {
    let f = small_field();
    assert_eq!(f.inv(&Field::bigint(2)), Ok(Field::bigint(51)));
    assert_eq!(f.inv(&Field::bigint(1)), Ok(Field::bigint(1)));
    assert_eq!(f.inv(&Field::bigint(100)), Ok(Field::bigint(100)));
    assert_eq!(f.inv(&Field::bigint(-1)), Ok(Field::bigint(100)));
    assert_eq!(f.inv(&Field::bigint(103)), Ok(Field::bigint(51)));
}

#[test]
fn inverse_over_a_composite_modulus() {
    let f = Field::new(Field::bigint(12), Field::bigint(0));
    assert_eq!(f.inv(&Field::bigint(5)), Ok(Field::bigint(5)));
    assert_eq!(f.inv(&Field::bigint(7)), Ok(Field::bigint(7)));
    assert_eq!(f.inv(&Field::bigint(8)), Err(Error::DivByZero));
    assert_eq!(f.inv(&Field::bigint(3)), Err(Error::DivByZero));
}

#[test]
fn reduction_is_canonical() {
    let f = small_field();
    assert_eq!(f.modd(Field::bigint(101)), Field::zero());
    assert_eq!(f.modd(Field::bigint(-1)), Field::bigint(100));
    assert_eq!(f.modd(Field::bigint(-101)), Field::zero());
    assert_eq!(f.modd(Field::bigint(-305)), Field::bigint(99));
    assert_eq!(f.modd(Field::bigint(100)), Field::bigint(100));
    assert_eq!(f.neg(&Field::bigint(1)), Field::bigint(100));
    assert_eq!(f.neg(&Field::zero()), Field::zero());
    assert_eq!(f.sample(&Field::bigint(1000)), Field::bigint(91));
}

#[test]
fn exponentiation_exact_values() {
    let f = small_field();
    assert_eq!(f.exp(&Field::bigint(2), &Field::bigint(10)), Field::bigint(14));
    assert_eq!(f.exp(&Field::bigint(7), &Field::zero()), Field::one());
    assert_eq!(f.exp(&Field::bigint(-1), &Field::bigint(3)), Field::bigint(100));
    assert_eq!(f.exp(&Field::bigint(3), &Field::bigint(100)), Field::one());
}

#[test]
fn domains_are_geometric() {
    let f = small_field();
    let d = f.domain(&Field::bigint(2), 5);
    let expected: Vec<IBig> = vec![1, 2, 4, 8, 16].into_iter().map(Field::bigint).collect();
    assert_eq!(d, expected);
    let c = f.progression(&Field::bigint(3), &Field::bigint(10), 4);
    let expected: Vec<IBig> = vec![3, 30, 98, 71].into_iter().map(Field::bigint).collect();
    assert_eq!(c, expected);
    assert_eq!(f.domain(&Field::bigint(2), 0).len(), 0);
}

#[test]
fn cosets_use_the_subgroup_generator() {
    let f = large_field();
    let w = f.generator(&Field::bigint(8)).unwrap();
    let c = f.coset(8, &Field::bigint(5)).unwrap();
    assert_eq!(c.len(), 8);
    let mut expected = Field::bigint(5);
    for x in c.iter() {
        assert_eq!(*x, expected);
        expected = f.mul(&expected, &w);
    }
    assert_eq!(f.coset(7, &Field::bigint(5)), Err(Error::BadSubgroup));
    assert_eq!(f.coset(0, &Field::bigint(5)), Err(Error::BadSubgroup));
}

#[test]
fn digits_give_the_number() {
    assert_eq!(IBig::new(Sign::Plus, vec![0, 1]), IBig::from_u128(4294967296));
    assert_eq!(IBig::new(Sign::Minus, vec![1, 2]), IBig::from_i64(-8589934593));
    assert_eq!(IBig::new(Sign::NoSign, vec![7, 7]), IBig::from_i64(0));
    assert_eq!(IBig::new(Sign::Plus, vec![]), IBig::from_i64(0));
    assert_eq!(
        IBig::new(Sign::Plus, vec![1, 0, 0, 3414163456]),
        IBig::from_u128(1 + 407 * (1u128 << 119))
    );
}

#[test]
fn conversions_keep_the_number() {
    assert_eq!(IBig::from_i64(300).to_biguint(), Some(UBig::from_u32(300)));
    assert_eq!(IBig::from_i64(-1).to_biguint(), None);
    assert_eq!(IBig::from_i64(0).to_biguint(), Some(UBig::from_u32(0)));
    assert_eq!(UBig::from_u128(1 << 100).to_bigint(), IBig::from_u128(1 << 100));
    assert_eq!(UBig::from_u32(258).to_bytes_le(), vec![2u8, 1]);
    assert_eq!(UBig::from_u32(0).to_bytes_le(), vec![0u8]);
    assert_eq!(UBig::from_bytes_le(&vec![2, 1, 0, 0]), UBig::from_u32(258));
    assert_eq!(UBig::from_bytes_le(&vec![]), UBig::from_u32(0));
    assert_eq!(IBig::from_i64(-129).clone(), IBig::from_i64(-129));
}
