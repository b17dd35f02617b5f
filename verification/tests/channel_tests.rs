use fri_core::bigint::UBig;
use fri_core::channel::Channel;

fn message(values: &[u32]) -> Vec<UBig> {
    values.iter().map(|v| UBig::from_u32(*v)).collect()
}

fn blake3_number(bytes: &[u8]) -> UBig {
    UBig::from_bytes_le(&blake3::hash(bytes).as_bytes().to_vec())
}

#[test]
fn messages_come_out_in_the_order_they_went_in() {
    let mut channel = Channel::new();
    assert_eq!(channel.len(), 0);
    assert_eq!(channel.pull(), None);
    channel.push(&message(&[1, 2, 3]));
    channel.push_single(&UBig::from_u32(9));
    channel.push(&message(&[]));
    assert_eq!(channel.len(), 3);
    assert_eq!(channel.position(), 0);
    assert_eq!(channel.pull(), Some(message(&[1, 2, 3])));
    assert_eq!(channel.pull(), Some(message(&[9])));
    assert_eq!(channel.position(), 2);
    assert_eq!(channel.pull(), Some(message(&[])));
    assert_eq!(channel.pull(), None);
    assert_eq!(channel.position(), 3);
    assert_eq!(channel.len(), 3);
}

#[test]
fn prover_hash_covers_everything_written() {
    let mut channel = Channel::new();
    assert_eq!(channel.prover_hash(), blake3_number(&[]));
    channel.push(&message(&[1, 258]));
    assert_eq!(channel.prover_hash(), blake3_number(&[1, 2, 1]));
    channel.push_single(&UBig::from_u32(0));
    assert_eq!(channel.prover_hash(), blake3_number(&[1, 2, 1, 0]));
    channel.push(&message(&[65536]));
    assert_eq!(channel.prover_hash(), blake3_number(&[1, 2, 1, 0, 0, 0, 1]));
}

#[test]
fn verifier_hash_covers_what_was_read() {
    let mut channel = Channel::new();
    channel.push(&message(&[1, 258]));
    channel.push_single(&UBig::from_u32(7));
    assert_eq!(channel.verifier_hash(), blake3_number(&[]));
    channel.pull();
    assert_eq!(channel.verifier_hash(), blake3_number(&[1, 2, 1]));
    channel.pull();
    assert_eq!(channel.verifier_hash(), blake3_number(&[1, 2, 1, 7]));
    assert_eq!(channel.verifier_hash(), channel.prover_hash());
}

#[test]
fn both_sides_draw_the_same_challenges() {
    let mut channel = Channel::new();
    let mut prover_side = Vec::new();
    for i in 0..5 {
        channel.push(&message(&[i, i + 1]));
        prover_side.push(channel.prover_hash());
    }
    for i in 0..5 {
        channel.pull();
        assert_eq!(channel.verifier_hash(), prover_side[i]);
    }
}

#[test]
fn truncate_and_rewind() {
    let mut channel = Channel::new();
    channel.push(&message(&[1]));
    channel.push(&message(&[2]));
    channel.push(&message(&[3]));
    channel.pull();
    channel.truncate(2);
    assert_eq!(channel.len(), 2);
    assert_eq!(channel.pull(), Some(message(&[2])));
    assert_eq!(channel.pull(), None);
    channel.rewind(0);
    assert_eq!(channel.position(), 0);
    assert_eq!(channel.pull(), Some(message(&[1])));
}
