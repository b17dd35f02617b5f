use fri_core::bigint::UBig;
use fri_core::error::Error;
use fri_core::tree::Tree;

fn hundred_leaves() -> Vec<UBig> {
    let mut leaves: Vec<UBig> = Vec::new();
    for i in 0..100 {
        leaves.push(UBig::from_u32(i as u32));
    }
    leaves
}

#[test]
fn should_build_merkle_tree() {
    let leaves = hundred_leaves();
    let levels = Tree::build(&leaves);
    // expected levels.len() = log2(leaves.len()) + 1
    let expected_len = 7 + 1;
    assert_eq!(levels.len(), expected_len);
    // intermediate levels should have even number of leaves
    for i in 0..(expected_len - 1) {
        assert_eq!(levels[i].len() % 2, 0);
    }
    // top level should be root
    assert_eq!(levels[expected_len - 1].len(), 1);
}

#[test]
fn should_commit_root() {
    let mut leaves = hundred_leaves();
    let root = Tree::commit(&leaves);
    // choose a random value to change root
    leaves[0] = UBig::from_u32(21940124 as u32);
    let root_changed = Tree::commit(&leaves);

    assert_ne!(root, root_changed);
}

#[test]
fn should_open_verify_tree() {
    let leaves = hundred_leaves();
    let index = 5;
    let (path, root) = Tree::open(index, &leaves);
    assert_eq!(Tree::verify(&root, index, &path, &leaves[index as usize]), Ok(true));
}

#[test]
fn should_fail_to_verify() {
    let leaves = hundred_leaves();
    let index = 5;
    let (mut path, root) = Tree::open(index, &leaves);
    // change some path element
    path[4] = UBig::from_u32(1290 as u32);
    assert!(Tree::verify(&root, index, &path, &leaves[index as usize]).is_err());
}

#[test]
fn should_fail_to_verify_root() {
    let leaves = hundred_leaves();
    let index = 5;
    let (path, root) = Tree::open(index, &leaves);
    let next = num_bigint::BigUint::from_bytes_le(&root.to_bytes_le()) + 1u32;
    let root = UBig::from_bytes_le(&next.to_bytes_le());
    assert_eq!(
        Tree::verify(&root, index, &path, &leaves[index as usize]),
        Err(Error::RootMismatch)
    );
}

#[test]
fn every_leaf_opens_and_verifies() {
    for n in 1..20u32 {
        let leaves: Vec<UBig> = (0..n).map(|i| UBig::from_u32(i * 7 + 1)).collect();
        let root = Tree::commit(&leaves);
        for index in 0..n {
            let (path, opened_root) = Tree::open(index, &leaves);
            assert_eq!(opened_root, root);
            assert_eq!(Tree::verify(&root, index, &path, &leaves[index as usize]), Ok(true));
        }
    }
}

#[test]
fn a_changed_leaf_or_path_entry_fails() {
    let leaves = hundred_leaves();
    let index = 37;
    let (path, root) = Tree::open(index, &leaves);
    assert_eq!(path.len(), 14);
    assert!(Tree::verify(&root, index, &path, &UBig::from_u32(38)).is_err());
    for pos in 0..path.len() {
        let mut changed = path.clone();
        changed[pos] = UBig::from_u32(123456);
        assert!(Tree::verify(&root, index, &changed, &leaves[index as usize]).is_err());
    }
}

#[test]
fn malformed_paths_are_path_mismatches() {
    let leaves = hundred_leaves();
    let (mut path, root) = Tree::open(4, &leaves);
    path.pop();
    assert_eq!(Tree::verify(&root, 4, &path, &leaves[4]), Err(Error::PathMismatch));
    let (path, root) = Tree::open(4, &leaves);
    // the same path at an index on the other side of the first pair
    assert_eq!(Tree::verify(&root, 5, &path, &leaves[4]), Err(Error::PathMismatch));
}

#[test]
fn single_leaf_tree_is_its_leaf() {
    let leaves = vec![UBig::from_u32(9)];
    assert_eq!(Tree::commit(&leaves), UBig::from_u32(9));
    let (path, root) = Tree::open(0, &leaves);
    assert_eq!(path.len(), 0);
    assert_eq!(Tree::verify(&root, 0, &path, &leaves[0]), Ok(true));
    assert_eq!(Tree::verify(&root, 0, &path, &UBig::from_u32(8)), Err(Error::RootMismatch));
    assert_eq!(Tree::build(&leaves).len(), 1);
    assert_eq!(Tree::build(&Vec::new()).len(), 1);
}

#[test]
fn hash_is_blake3_of_the_two_encodings() {
    // BLAKE3 of the two bytes 0x01 0x02, read as a little-endian number
    let h = Tree::hash(&UBig::from_u32(1), &UBig::from_u32(2));
    let digest = blake3::hash(&[1u8, 2u8]);
    assert_eq!(h, UBig::from_bytes_le(&digest.as_bytes().to_vec()));
    // zero is encoded as one zero byte
    let z = Tree::hash(&UBig::from_u32(0), &UBig::from_u32(256));
    let digest = blake3::hash(&[0u8, 0u8, 1u8]);
    assert_eq!(z, UBig::from_bytes_le(&digest.as_bytes().to_vec()));
    assert_ne!(h, UBig::from_u32(1));
}

#[test]
fn odd_levels_are_padded_with_zero() {
    let leaves: Vec<UBig> = vec![UBig::from_u32(1), UBig::from_u32(2), UBig::from_u32(3)];
    let levels = Tree::build(&leaves);
    assert_eq!(levels.len(), 3);
    assert_eq!(levels[0].len(), 4);
    assert_eq!(levels[0][3], UBig::from_u32(0));
    assert_eq!(levels[1].len(), 2);
    assert_eq!(levels[1][0], Tree::hash(&leaves[0], &leaves[1]));
    assert_eq!(levels[1][1], Tree::hash(&leaves[2], &UBig::from_u32(0)));
    assert_eq!(levels[2][0], Tree::hash(&levels[1][0], &levels[1][1]));
    assert_eq!(Tree::commit(&leaves), levels[2][0]);
    let (path, root) = Tree::open_at(&levels, 2);
    assert_eq!(root, levels[2][0]);
    assert_eq!(
        path,
        vec![leaves[2].clone(), UBig::from_u32(0), levels[1][0].clone(), levels[1][1].clone()]
    );
}
