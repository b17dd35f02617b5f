use std::rc::Rc;

use fri_core::bigint::{IBig, UBig};
use fri_core::channel::Channel;
use fri_core::error::Error;
use fri_core::field::Field;
use fri_core::fri::{Fri, FriOptions};
use fri_core::polynomial::Polynomial;
use fri_core::tree::Tree;

fn big_field() -> (Rc<Field>, IBig) {
    let p = IBig::from_u128(1 + 407 * (1u128 << 119));
    let g = IBig::from_u128(85408008396924667383611388730472331217_u128);
    (Rc::new(Field::new(p, g.clone())), g)
}

fn make_fri(f: &Rc<Field>, g: &IBig, domain_size: u32, expansion: u32, tests: u32) -> Fri {
    let domain_g = f.generator(&IBig::from_u128(domain_size as u128)).unwrap();
    Fri::new(
        &FriOptions {
            offset: g.clone(),
            omega: domain_g,
            domain_len: domain_size,
            expansion_factor: expansion,
            colinearity_test_count: tests,
        },
        f,
    )
}

fn codeword_of(fri: &Fri, poly: &Polynomial) -> Vec<UBig> {
    let mut points: Vec<UBig> = Vec::new();
    for i in fri.domain() {
        points.push(poly.eval(i).to_biguint().unwrap());
    }
    points
}

fn drain(channel: &mut Channel) -> Vec<Vec<UBig>> {
    channel.rewind(0);
    let mut all = Vec::new();
    while let Some(m) = channel.pull() {
        all.push(m);
    }
    all
}

fn channel_of(messages: &[Vec<UBig>]) -> Channel {
    let mut channel = Channel::new();
    for m in messages {
        channel.push(m);
    }
    channel
}

#[test]
fn should_make_verify_fri_proof() {
    let mut channel = Channel::new();
    let (f, g) = big_field();
    let domain_size: u32 = 8192;
    let fri = make_fri(&f, &g, domain_size, 2, 10);

    let mut poly = Polynomial::new(&f);
    poly.term(&IBig::from_i64(3), 2);
    let points = codeword_of(&fri, &poly);
    let indices = fri.prove(&points, &mut channel).unwrap();
    assert_eq!(indices.len(), 10);
    let openings = fri.verify(&mut channel).unwrap();
    assert_eq!(openings.len(), 20);
    for (j, top) in indices.iter().enumerate() {
        let a = top % (domain_size / 2);
        assert_eq!(openings[2 * j].0, a);
        assert_eq!(openings[2 * j].1, points[a as usize]);
        assert_eq!(openings[2 * j + 1].0, a + domain_size / 2);
        assert_eq!(openings[2 * j + 1].1, points[(a + domain_size / 2) as usize]);
    }
    assert_eq!(channel.position(), channel.len());
}

#[test]
fn a_corrupted_codeword_is_rejected() {
    let mut channel = Channel::new();
    let (f, g) = big_field();
    let fri = make_fri(&f, &g, 8192, 2, 10);

    let mut poly = Polynomial::new(&f);
    poly.term(&IBig::from_i64(3), 2);
    let mut points = codeword_of(&fri, &poly);
    points[1234] = UBig::from_u128(0x1234_5678_9abc_def0_1122_3344);
    fri.prove(&points, &mut channel).unwrap();
    assert!(fri.verify(&mut channel).is_err());
    assert_eq!(channel.position(), 0);
}

#[test]
fn round_count_and_domain() {
    let (f, g) = big_field();
    let fri = make_fri(&f, &g, 8192, 2, 10);
    assert_eq!(fri.round_count(), 7);
    assert_eq!(fri.domain().len(), 8192);
    let w = f.generator(&IBig::from_i64(8192)).unwrap();
    assert_eq!(fri.domain()[0], g);
    assert_eq!(fri.domain()[1], f.mul(&g, &w));
    assert_eq!(fri.domain()[5], f.mul(&g, &f.exp(&w, &IBig::from_i64(5))));
    assert_eq!(make_fri(&f, &g, 64, 2, 2).round_count(), 2);
    assert_eq!(make_fri(&f, &g, 64, 32, 2).round_count(), 0);
    assert_eq!(make_fri(&f, &g, 64, 4, 15).round_count(), 0);
}

fn small_proof(poly_terms: &[(i64, u32)]) -> (Fri, Vec<UBig>, Channel, Vec<u32>) {
    let (f, g) = big_field();
    let fri = make_fri(&f, &g, 64, 2, 2);
    let mut poly = Polynomial::new(&f);
    for (c, e) in poly_terms {
        poly.term(&IBig::from_i64(*c), *e);
    }
    let points = codeword_of(&fri, &poly);
    let mut channel = Channel::new();
    let indices = fri.prove(&points, &mut channel).unwrap();
    (fri, points, channel, indices)
}

#[test]
fn small_proof_has_the_expected_transcript() {
    let (fri, points, mut channel, indices) = small_proof(&[(5, 0), (1, 1), (7, 3)]);
    // two rounds: three roots, the last codeword, then two query rounds of
    // two triples and six paths each
    assert_eq!(channel.len(), 3 + 1 + 2 * (2 + 6));
    let messages = drain(&mut channel);
    assert_eq!(messages[0], vec![Tree::commit(&points)]);
    assert_eq!(messages[3].len(), 16);
    assert_eq!(messages[2], vec![Tree::commit(&messages[3])]);
    assert_eq!(indices.len(), 2);
    for (j, top) in indices.iter().enumerate() {
        assert!(*top < 32);
        let a = (top % 32) as usize;
        assert_eq!(messages[4 + j][0], points[a]);
        assert_eq!(messages[4 + j][1], points[a + 32]);
        assert_eq!(messages[4 + j].len(), 3);
        let (path, _) = Tree::open(a as u32, &points);
        assert_eq!(messages[6 + 3 * j], path);
        let (path, _) = Tree::open(a as u32 + 32, &points);
        assert_eq!(messages[6 + 3 * j + 1], path);
    }
    assert_ne!(indices[0] % 16, indices[1] % 16);
    channel.rewind(0);
    let openings = fri.verify(&mut channel).unwrap();
    assert_eq!(openings.len(), 4);
    assert_eq!(channel.position(), 20);
}

#[test]
fn folding_follows_the_formula() {
    let (fri, points, mut channel, _) = small_proof(&[(5, 0), (1, 1), (7, 3)]);
    let (f, g) = big_field();
    let messages = drain(&mut channel);
    // the second root commits to the first folding
    let mut start = Channel::new();
    start.push(&messages[0]);
    let alpha = f.sample(&start.prover_hash().to_bigint());
    let two_inv = f.inv(&IBig::from_i64(2)).unwrap();
    let mut folded: Vec<UBig> = Vec::new();
    for k in 0..32 {
        let x_inv = f.inv(&fri.domain()[k]).unwrap();
        let t = f.mul(&alpha, &x_inv);
        let left = f.mul(&f.add(&Field::one(), &t), &points[k].to_bigint());
        let right = f.mul(&f.sub(&Field::one(), &t), &points[k + 32].to_bigint());
        folded.push(f.mul(&two_inv, &f.add(&left, &right)).to_biguint().unwrap());
    }
    assert_eq!(messages[1], vec![Tree::commit(&folded)]);
    // f(x) = 5 + x + 7x^3 folds to 5 + alpha * (1 + 7y) at y = x^2
    let y = f.mul(&g, &g);
    let expected = f.add(
        &IBig::from_i64(5),
        &f.mul(&alpha, &f.add(&Field::one(), &f.mul(&IBig::from_i64(7), &y))),
    );
    assert_eq!(folded[0].to_bigint(), expected);
}

#[test]
fn prove_rejects_a_codeword_of_the_wrong_length() {
    let (f, g) = big_field();
    let fri = make_fri(&f, &g, 64, 2, 2);
    let mut channel = Channel::new();
    channel.push_single(&UBig::from_u32(1));
    let short: Vec<UBig> = (0..63).map(UBig::from_u32).collect();
    assert_eq!(fri.prove(&short, &mut channel), Err(Error::LenMismatch));
    assert_eq!(channel.len(), 1);
}

#[test]
fn prove_needs_the_inverses() {
    let f = Rc::new(Field::new(IBig::from_i64(97), IBig::from_i64(5)));
    let fri = Fri::new(
        &FriOptions {
            offset: IBig::from_i64(0),
            omega: IBig::from_i64(22),
            domain_len: 16,
            expansion_factor: 2,
            colinearity_test_count: 1,
        },
        &f,
    );
    let mut channel = Channel::new();
    let codeword: Vec<UBig> = (0..16).map(UBig::from_u32).collect();
    assert_eq!(fri.prove(&codeword, &mut channel), Err(Error::DivByZero));
    assert_eq!(channel.len(), 0);
}

#[test]
fn a_high_degree_codeword_is_rejected() {
    let (fri, _, mut channel, _) = small_proof(&[(1, 40)]);
    channel.rewind(0);
    assert_eq!(fri.verify(&mut channel), Err(Error::InterpDegreeTooHigh));
    assert_eq!(channel.position(), 0);
}

#[test]
fn a_short_transcript_is_a_length_mismatch() {
    let (fri, _, mut channel, _) = small_proof(&[(5, 0), (1, 1)]);
    let messages = drain(&mut channel);
    for keep in [0, 2, 3, 4, 5, 7, 19] {
        let mut cut = channel_of(&messages[..keep]);
        assert_eq!(fri.verify(&mut cut), Err(Error::LenMismatch));
        assert_eq!(cut.position(), 0);
    }
    let mut empty_root = messages.clone();
    empty_root[1] = Vec::new();
    assert_eq!(fri.verify(&mut channel_of(&empty_root)), Err(Error::LenMismatch));
    let mut short_triple = messages.clone();
    short_triple[4].pop();
    assert_eq!(fri.verify(&mut channel_of(&short_triple)), Err(Error::LenMismatch));
    let mut empty_last = messages.clone();
    empty_last[3] = Vec::new();
    assert_eq!(fri.verify(&mut channel_of(&empty_last)), Err(Error::LenMismatch));
    // a last codeword of another length whose root is the one committed to
    let mut short_last = messages.clone();
    short_last[3].pop();
    short_last[2] = vec![Tree::commit(&short_last[3])];
    assert_eq!(fri.verify(&mut channel_of(&short_last)), Err(Error::LenMismatch));
}

#[test]
fn the_last_root_is_compared_before_the_length() {
    let (fri, _, mut channel, _) = small_proof(&[(5, 0), (1, 1)]);
    let messages = drain(&mut channel);
    let mut shorter = messages.clone();
    shorter[3].pop();
    assert_eq!(fri.verify(&mut channel_of(&shorter)), Err(Error::LastRootMismatch));
    let mut longer = messages.clone();
    longer[3].push(UBig::from_u32(1));
    assert_eq!(fri.verify(&mut channel_of(&longer)), Err(Error::LastRootMismatch));
    let mut single = messages.clone();
    single[3] = vec![UBig::from_u32(7)];
    let mut replaced = channel_of(&single);
    assert_eq!(fri.verify(&mut replaced), Err(Error::LastRootMismatch));
    assert_eq!(replaced.position(), 0);
}

#[test]
fn an_instance_is_built_for_any_options() {
    let (f, g) = big_field();
    let w = f.generator(&IBig::from_i64(8)).unwrap();
    let fri = Fri::new(
        &FriOptions {
            offset: g.clone(),
            omega: w.clone(),
            domain_len: 8,
            expansion_factor: 8,
            colinearity_test_count: 1,
        },
        &f,
    );
    assert_eq!(fri.round_count(), 0);
    assert_eq!(fri.domain().len(), 8);
    let mut expected = g.clone();
    for x in fri.domain() {
        assert_eq!(*x, expected);
        expected = f.mul(&expected, &w);
    }
    assert_eq!(*fri.offset(), g);
    assert_eq!(*fri.omega(), w);
    assert_eq!(fri.domain_len(), 8);
    assert_eq!(fri.expansion_factor(), 8);
    assert_eq!(fri.colinearity_test_count(), 1);
    assert_eq!(fri.field().modd(IBig::from_i64(-1)), f.modd(IBig::from_i64(-1)));
    assert_eq!(fri.offset, g);
    assert_eq!(fri.domain_len, 8);
    let none = Fri::new(
        &FriOptions {
            offset: g.clone(),
            omega: w,
            domain_len: 0,
            expansion_factor: 0,
            colinearity_test_count: 0,
        },
        &f,
    );
    assert_eq!(none.round_count(), 0);
    assert_eq!(none.domain().len(), 0);
    assert_eq!(make_fri(&f, &g, 64, 0, 2).round_count(), 2);
    assert_eq!(make_fri(&f, &g, 64, 0, 0).round_count(), 6);
}

#[test]
fn a_changed_last_codeword_is_a_root_mismatch() {
    let (fri, _, mut channel, _) = small_proof(&[(5, 0), (1, 1)]);
    let mut messages = drain(&mut channel);
    messages[3][0] = UBig::from_u32(77);
    assert_eq!(fri.verify(&mut channel_of(&messages)), Err(Error::LastRootMismatch));
}

#[test]
fn a_last_codeword_outside_the_field_disagrees() {
    let (fri, _, mut channel, _) = small_proof(&[(5, 0), (1, 1)]);
    let mut messages = drain(&mut channel);
    // the same element of the field, but not its representative: the value plus p
    let value = num_bigint::BigUint::from_bytes_le(&messages[3][0].to_bytes_le());
    let p = num_bigint::BigUint::from(1 + 407 * (1u128 << 119));
    messages[3][0] = UBig::from_bytes_le(&(value + p).to_bytes_le());
    messages[2] = vec![Tree::commit(&messages[3])];
    assert_eq!(fri.verify(&mut channel_of(&messages)), Err(Error::InterpDisagreement));
}

#[test]
fn a_changed_opening_fails_colinearity_or_its_path() {
    let (fri, _, mut channel, _) = small_proof(&[(5, 0), (1, 1)]);
    let messages = drain(&mut channel);
    let mut bad_value = messages.clone();
    bad_value[4][2] = UBig::from_u32(12345);
    assert_eq!(fri.verify(&mut channel_of(&bad_value)), Err(Error::ColinearityFailed));
    let mut bad_path = messages.clone();
    let last = bad_path[6].len() - 1;
    bad_path[6][last] = UBig::from_u32(12345);
    assert_eq!(fri.verify(&mut channel_of(&bad_path)), Err(Error::MerklePathFailed));
    let mut bad_next_path = messages.clone();
    bad_next_path[8][0] = UBig::from_u32(12345);
    bad_next_path[8][1] = UBig::from_u32(12345);
    assert_eq!(fri.verify(&mut channel_of(&bad_next_path)), Err(Error::MerklePathFailed));
}

#[test]
fn a_wrong_root_of_unity_is_an_order_error() {
    let (f, g) = big_field();
    let honest = make_fri(&f, &g, 64, 2, 2);
    let mut poly = Polynomial::new(&f);
    poly.term(&IBig::from_i64(3), 2);
    let points = codeword_of(&honest, &poly);
    // a root of order 128 in place of one of order 64
    let wrong = Fri::new(
        &FriOptions {
            offset: g.clone(),
            omega: f.generator(&IBig::from_i64(128)).unwrap(),
            domain_len: 64,
            expansion_factor: 2,
            colinearity_test_count: 2,
        },
        &f,
    );
    let mut channel = Channel::new();
    wrong.prove(&points, &mut channel).unwrap();
    assert_eq!(wrong.verify(&mut channel), Err(Error::OmegaOrder));
}

#[test]
fn a_proof_after_other_messages_verifies_from_there() {
    let (f, g) = big_field();
    let fri = make_fri(&f, &g, 64, 2, 2);
    let mut poly = Polynomial::new(&f);
    poly.term(&IBig::from_i64(3), 2);
    poly.term(&IBig::from_i64(11), 7);
    let points = codeword_of(&fri, &poly);
    let mut channel = Channel::new();
    channel.push_single(&UBig::from_u32(42));
    fri.prove(&points, &mut channel).unwrap();
    channel.pull();
    assert_eq!(fri.verify(&mut channel).unwrap().len(), 4);
    assert_eq!(channel.position(), 21);
}

#[test]
fn without_a_folding_round_there_are_no_queries() {
    let (f, g) = big_field();
    let fri = make_fri(&f, &g, 64, 32, 2);
    assert_eq!(fri.round_count(), 0);
    let mut poly = Polynomial::new(&f);
    poly.term(&IBig::from_i64(3), 1);
    let points = codeword_of(&fri, &poly);
    let mut channel = Channel::new();
    assert_eq!(fri.prove(&points, &mut channel).unwrap().len(), 2);
    assert_eq!(channel.len(), 2);
    assert_eq!(fri.verify(&mut channel), Ok(Vec::new()));
}

fn expected_index(seed: u128, counter: u64, size: u32) -> u32 {
    let mut bytes = num_bigint::BigUint::from(seed).to_bytes_le();
    bytes.extend(num_bigint::BigUint::from(counter).to_bytes_le());
    let hash = num_bigint::BigUint::from_bytes_le(blake3::hash(&bytes).as_bytes());
    u32::try_from(hash % size).unwrap()
}

#[test]
fn sampled_indices_follow_the_hash() {
    let seed = 0xdead_beef_0000_1111_u128;
    let sampled = Fri::sample_indices(&UBig::from_u128(seed), 4096, 32, 10).unwrap();
    let mut expected: Vec<u32> = Vec::new();
    let mut counter = 0;
    while expected.len() < 10 {
        let index = expected_index(seed, counter, 4096);
        counter += 1;
        if !expected.iter().any(|e| e % 32 == index % 32) {
            expected.push(index);
        }
    }
    assert_eq!(sampled, expected);
    assert!(counter > 10);
}

#[test]
fn sampled_indices_are_distinct_when_reduced() {
    let sampled = Fri::sample_indices(&UBig::from_u32(5), 1024, 16, 16).unwrap();
    assert_eq!(sampled.len(), 16);
    let mut seen = vec![false; 16];
    for index in sampled {
        assert!(index < 1024);
        assert!(!seen[(index % 16) as usize]);
        seen[(index % 16) as usize] = true;
    }
}

#[test]
fn sampling_rejects_impossible_requests() {
    let seed = UBig::from_u32(5);
    assert_eq!(Fri::sample_indices(&seed, 1024, 16, 33), Err(Error::NotEnoughEntropy));
    assert_eq!(Fri::sample_indices(&seed, 1024, 16, 17), Err(Error::TooManyIndices));
    assert_eq!(Fri::sample_indices(&seed, 1024, 16, 32), Err(Error::TooManyIndices));
    assert_eq!(Fri::sample_indices(&seed, 0, 16, 1), Err(Error::NotEnoughEntropy));
    assert_eq!(Fri::sample_indices(&seed, 1024, 0, 0), Ok(Vec::new()));
    assert_eq!(Fri::sample_indices(&seed, 0, 0, 0), Ok(Vec::new()));
}

#[test]
fn the_round_count_is_the_largest_that_leaves_room() {
    let (f, g) = big_field();
    for (n, rho, s) in [(8192u32, 2u32, 10u32), (64, 2, 2), (64, 4, 1), (1024, 8, 3), (16, 2, 1)] {
        let fri = make_fri(&f, &g, n, rho, s);
        let r = fri.round_count();
        assert!((n >> r) > rho && 4 * s < (n >> r));
        assert!(!((n >> (r + 1)) > rho && 4 * s < (n >> (r + 1))));
    }
    let (fri, points, mut channel, _) = small_proof(&[(5, 0), (1, 1)]);
    let messages = drain(&mut channel);
    let r = fri.round_count() as usize;
    assert_eq!(r, 2);
    // r + 1 roots, the last codeword of N / 2^r entries, r query rounds
    assert_eq!(messages[r + 1].len(), points.len() >> r);
    assert_eq!(messages.len(), r + 2 + r * 4 * 2);
}
