//! A binary Merkle commitment to a vector of numbers.
use vstd::prelude::*;

use crate::bigint::{le_bytes, le_nat, nat_rows, nats, UBig};
use crate::digest::{blake3_digest, digest};
use crate::error::Error;

verus! {

/// The hash of two nodes: BLAKE3 over the digits of the first followed by
/// the digits of the second, read as a little-endian number.
pub open spec fn hash_pair(a: nat, b: nat) -> nat {
    le_nat(blake3_digest(le_bytes(a) + le_bytes(b)))
}

/// A level of odd length gets one zero appended.
pub open spec fn pad_even(level: Seq<nat>) -> Seq<nat> {
    if level.len() % 2 == 1 {
        level.push(0)
    } else {
        level
    }
}

/// The level above `level`: the hashes of its padded pairs.
pub open spec fn parents(level: Seq<nat>) -> Seq<nat> {
    let padded = pad_even(level);
    Seq::new(padded.len() / 2, |j: int| hash_pair(padded[2 * j], padded[2 * j + 1]))
}

/// All levels of the tree over `leaves`, leaves first. Every level but the
/// top one is stored padded.
pub open spec fn tree_levels(leaves: Seq<nat>) -> Seq<Seq<nat>>
    decreases leaves.len(),
{
    if leaves.len() <= 1 {
        seq![leaves]
    } else {
        seq![pad_even(leaves)] + tree_levels(parents(leaves))
    }
}

/// The root of the tree over `leaves`, which are not empty.
pub open spec fn tree_root(leaves: Seq<nat>) -> nat
    decreases leaves.len(),
{
    if leaves.len() <= 1 {
        leaves[0]
    } else {
        tree_root(parents(leaves))
    }
}

/// The authentication path of leaf `index`: for every level below the
/// root, the pair of children that holds the node on the way up, left
/// child first.
pub open spec fn auth_path(leaves: Seq<nat>, index: nat) -> Seq<nat>
    decreases leaves.len(),
{
    if leaves.len() <= 1 {
        seq![]
    } else {
        let padded = pad_even(leaves);
        let left = index - index % 2;
        seq![padded[left], padded[left + 1]] + auth_path(parents(leaves), index / 2)
    }
}

/// What checking `path` for `leaf` at `index` against `root` gives: at
/// each level the child on the side of `index` must be the running hash;
/// at the end the running hash must be the root.
pub open spec fn check_path(root: nat, index: nat, path: Seq<nat>, leaf: nat) -> Result<
    bool,
    Error,
>
    decreases path.len(),
{
    if path.len() == 0 {
        if leaf == root {
            Ok(true)
        } else {
            Err(Error::RootMismatch)
        }
    } else if path.len() == 1 {
        Err(Error::PathMismatch)
    } else if path[(index % 2) as int] != leaf {
        Err(Error::PathMismatch)
    } else {
        check_path(root, index / 2, path.skip(2), hash_pair(path[0], path[1]))
    }
}

/// The height of the tree over `n` leaves: how often `n` is halved,
/// rounding up, until one node is left.
pub open spec fn tree_height(n: nat) -> nat
    decreases n,
{
    if n <= 1 {
        0
    } else {
        1 + tree_height((n + 1) / 2)
    }
}

/// Two to the power `e`.
pub open spec fn two_to(e: nat) -> nat
    decreases e,
{
    if e == 0 {
        1
    } else {
        2 * two_to((e - 1) as nat)
    }
}

/// Rows that are all the levels of a tree.
pub open spec fn is_tree(rows: Seq<Seq<nat>>) -> bool {
    rows.len() > 0 && rows[0].len() > 0 && rows == tree_levels(rows[0])
}

/// On which side of its pair the node on the way up from `index` sits,
/// `level` levels above the leaves.
pub open spec fn path_side(index: nat, level: nat) -> nat
    decreases level,
{
    if level == 0 {
        index % 2
    } else {
        path_side(index / 2, (level - 1) as nat)
    }
}

/// Padding a level of more than one node a second time changes nothing
/// above it.
pub proof fn lemma_padded(level: Seq<nat>)
    requires
        level.len() > 1,
    ensures
        pad_even(pad_even(level)) == pad_even(level),
        parents(pad_even(level)) == parents(level),
        tree_levels(pad_even(level)) == tree_levels(level),
        tree_root(pad_even(level)) == tree_root(level),
        forall|i: nat| auth_path(pad_even(level), i) == auth_path(level, i),
{
    let padded = pad_even(level);
    assert(padded.len() % 2 == 0);
    assert(pad_even(padded) == padded);
    assert(parents(padded) == parents(level));
    assert forall|i: nat| auth_path(padded, i) == auth_path(level, i) by {}
}

/// The tree over a level of more than one node: its parents are shorter,
/// and not empty.
pub proof fn lemma_parents_len(level: Seq<nat>)
    requires
        level.len() > 1,
    ensures
        0 < parents(level).len() < level.len(),
        parents(level).len() == (level.len() + 1) / 2,
        pad_even(level).len() % 2 == 0,
        level.len() <= pad_even(level).len() <= level.len() + 1,
{
}

/// An authentication path holds two entries for each level.
pub proof fn lemma_path_len_even(leaves: Seq<nat>, index: nat)
    ensures
        auth_path(leaves, index).len() % 2 == 0,
    decreases leaves.len(),
{
    if leaves.len() > 1 {
        lemma_parents_len(leaves);
        lemma_path_len_even(parents(leaves), index / 2);
    }
}

/// The levels of the tree over leaves that are not empty are a tree; its
/// lowest level holds the leaves, and gives the same root and paths.
pub proof fn lemma_levels_are_tree(leaves: Seq<nat>)
    requires
        leaves.len() > 0,
    ensures
        is_tree(tree_levels(leaves)),
        tree_levels(leaves)[0].len() >= leaves.len(),
        tree_root(tree_levels(leaves)[0]) == tree_root(leaves),
        forall|i: nat| auth_path(tree_levels(leaves)[0], i) == auth_path(leaves, i),
{
    if leaves.len() > 1 {
        lemma_padded(leaves);
        lemma_parents_len(leaves);
        assert(tree_levels(leaves)[0] == pad_even(leaves));
    } else {
        assert(tree_levels(leaves)[0] == leaves);
    }
}

/// The operations of the Merkle commitment; a tree is handed around as
/// the list of its levels.
pub struct Tree {}

impl Tree {
    /// The hash of two nodes.
    pub fn hash(leaf1: &UBig, leaf2: &UBig) -> (r: UBig)
        ensures
            r@ == hash_pair(leaf1@, leaf2@),
    {
        let mut bytes = leaf1.to_bytes_le();
        let mut tail = leaf2.to_bytes_le();
        bytes.append(&mut tail);
        let d = digest(&bytes);
        UBig::from_bytes_le(&d)
    }

    /// The level above `level`, which has an even number of nodes.
    fn parents_of(level: &Vec<UBig>) -> (next: Vec<UBig>)
        requires
            level@.len() % 2 == 0,
        ensures
            nats(next@) == parents(nats(level@)),
    {
        let mut next: Vec<UBig> = Vec::new();
        let mut j: usize = 0;
        while j < level.len()
            invariant
                level@.len() % 2 == 0,
                j % 2 == 0,
                j <= level.len(),
                next@.len() == j / 2,
                forall|k: int|
                    0 <= k < next@.len() ==> (#[trigger] next@[k])@ == hash_pair(
                        level@[2 * k]@,
                        level@[2 * k + 1]@,
                    ),
            decreases level.len() - j,
        {
            next.push(Tree::hash(&level[j], &level[j + 1]));
            j = j + 2;
        }
        assert(nats(next@) =~= parents(nats(level@)));
        next
    }

    /// All levels of the tree over `leaves`, leaves first.
    pub fn build(leaves: &Vec<UBig>) -> (levels: Vec<Vec<UBig>>)
        ensures
            nat_rows(levels@) == tree_levels(nats(leaves@)),
    {
        let mut levels: Vec<Vec<UBig>> = Vec::new();
        let mut current: Vec<UBig> = UBig::clone_vec(leaves);
        assert(nat_rows(levels@) + tree_levels(nats(current@)) =~= tree_levels(nats(leaves@)));
        while current.len() > 1
            invariant
                nat_rows(levels@) + tree_levels(nats(current@)) == tree_levels(nats(leaves@)),
            decreases current.len(),
        {
            let ghost before = nats(current@);
            if current.len() % 2 == 1 {
                current.push(UBig::from_u32(0));
            }
            assert(nats(current@) =~= pad_even(before));
            let next = Tree::parents_of(&current);
            proof {
                lemma_padded(before);
                lemma_parents_len(before);
            }
            let ghost rows = nat_rows(levels@);
            levels.push(current);
            assert(nat_rows(levels@) =~= rows.push(pad_even(before)));
            assert(rows.push(pad_even(before)) + tree_levels(parents(before)) =~= rows
                + tree_levels(before));
            current = next;
        }
        let ghost rows = nat_rows(levels@);
        let ghost top = nats(current@);
        levels.push(current);
        assert(nat_rows(levels@) =~= rows.push(top));
        assert(rows.push(top) =~= rows + tree_levels(top));
        levels
    }

    /// The root of the tree over `leaves`.
    pub fn commit(leaves: &Vec<UBig>) -> (root: UBig)
        requires
            leaves@.len() > 0,
        ensures
            root@ == tree_root(nats(leaves@)),
    {
        let levels = Self::build(leaves);
        proof {
            lemma_levels_are_tree(nats(leaves@));
        }
        let r = Self::open_at(&levels, 0);
        r.1
    }

    /// The authentication path of leaf `index`, and the root.
    pub fn open(index: u32, leaves: &Vec<UBig>) -> (r: (Vec<UBig>, UBig))
        requires
            index < leaves@.len(),
        ensures
            nats(r.0@) == auth_path(nats(leaves@), index as nat),
            r.1@ == tree_root(nats(leaves@)),
            check_path(r.1@, index as nat, nats(r.0@), leaves@[index as int]@) == Ok::<bool, Error>(
                true,
            ),
    {
        let tree = Self::build(leaves);
        proof {
            lemma_levels_are_tree(nats(leaves@));
            Self::law_open_verifies(nats(leaves@), index as nat);
        }
        Self::open_at(&tree, index)
    }

    /// The authentication path of leaf `index` and the root, read off the
    /// levels of a tree that is already built.
    pub fn open_at(levels: &Vec<Vec<UBig>>, index: u32) -> (r: (Vec<UBig>, UBig))
        requires
            is_tree(nat_rows(levels@)),
            index < nat_rows(levels@)[0].len(),
        ensures
            nats(r.0@) == auth_path(nat_rows(levels@)[0], index as nat),
            r.1@ == tree_root(nat_rows(levels@)[0]),
    {
        let ghost rows = nat_rows(levels@);
        let mut path: Vec<UBig> = Vec::new();
        let mut idx: usize = index as usize;
        let mut i: usize = 0;
        assert(rows.skip(0) =~= rows);
        assert(nats(path@) + auth_path(rows[0], idx as nat) =~= auth_path(rows[0], index as nat));
        loop
            invariant
                rows == nat_rows(levels@),
                i < levels@.len(),
                rows[i as int].len() > 0,
                rows.skip(i as int) == tree_levels(rows[i as int]),
                idx < rows[i as int].len(),
                nats(path@) + auth_path(rows[i as int], idx as nat) == auth_path(
                    rows[0],
                    index as nat,
                ),
                tree_root(rows[i as int]) == tree_root(rows[0]),
            decreases levels@.len() - i,
        {
            let ghost cur = rows[i as int];
            assert(rows.skip(i as int).len() == levels@.len() - i);
            if levels[i].len() <= 1 {
                assert(nats(path@) =~= auth_path(rows[0], index as nat));
                let root = levels[i][0].clone();
                return (path, root);
            }
            proof {
                lemma_parents_len(cur);
                assert(tree_levels(cur) == seq![pad_even(cur)] + tree_levels(parents(cur)));
                assert(rows.skip(i as int)[0] == pad_even(cur));
                assert(cur == pad_even(cur));
                assert(tree_levels(parents(cur)).len() > 0);
                assert(rows.skip(i as int + 1) =~= rows.skip(i as int).skip(1));
                assert(rows.skip(i as int).skip(1) =~= tree_levels(parents(cur)));
                assert(rows[i as int + 1] == rows.skip(i as int + 1)[0]);
                if parents(cur).len() > 1 {
                    lemma_padded(parents(cur));
                    lemma_parents_len(parents(cur));
                }
            }
            let left: usize = idx - idx % 2;
            let ghost old_path = nats(path@);
            path.push(levels[i][left].clone());
            path.push(levels[i][left + 1].clone());
            proof {
                assert(nats(path@) =~= old_path + seq![cur[left as int], cur[left as int + 1]]);
                assert(auth_path(cur, idx as nat) == seq![cur[left as int], cur[left as int + 1]]
                    + auth_path(parents(cur), (idx / 2) as nat));
                assert(nats(path@) + auth_path(rows[i as int + 1], (idx / 2) as nat) =~= old_path
                    + auth_path(cur, idx as nat));
            }
            assert(i + 1 < levels.len());
            idx = idx / 2;
            i = i + 1;
        }
    }

    /// Checks that `path` leads from `leaf` at `index` to `root`.
    /// `Ok(true)` where it does; `PathMismatch` where a level does not
    /// hold the running hash on the side of `index`, or the path has an odd
    /// length; `RootMismatch` where the path ends in another root.
    pub fn verify(root: &UBig, index: u32, path: &Vec<UBig>, leaf: &UBig) -> (r: Result<
        bool,
        Error,
    >)
        ensures
            r == check_path(root@, index as nat, nats(path@), leaf@),
    {
        let ghost full = nats(path@);
        let mut idx: u32 = index;
        let mut current: UBig = leaf.clone();
        let mut i: usize = 0;
        assert(full.skip(0) =~= full);
        while i < path.len()
            invariant
                full == nats(path@),
                i <= path.len(),
                check_path(root@, idx as nat, full.skip(i as int), current@) == check_path(
                    root@,
                    index as nat,
                    full,
                    leaf@,
                ),
            decreases path.len() - i,
        {
            let ghost rest = full.skip(i as int);
            if path.len() - i == 1 {
                return Err(Error::PathMismatch);
            }
            let side: usize = (idx % 2) as usize;
            if !path[i + side].same(&current) {
                assert(rest[(idx % 2) as int] == full[i + side]);
                return Err(Error::PathMismatch);
            }
            assert(rest[(idx % 2) as int] == full[i + side]);
            current = Tree::hash(&path[i], &path[i + 1]);
            assert(rest.skip(2) =~= full.skip(i as int + 2));
            idx = idx / 2;
            i = i + 2;
        }
        if current.same(root) {
            Ok(true)
        } else {
            Err(Error::RootMismatch)
        }
    }

    /// Shape of the tree: over `n` leaves it has one level more than its
    /// height, the height is the logarithm of `n` to base 2, rounded up,
    /// every level but the top one has an even number of nodes, and the
    /// top level is one node.
    pub proof fn law_tree_shape(leaves: Seq<nat>)
        requires
            leaves.len() > 0,
        ensures
            tree_levels(leaves).len() == tree_height(leaves.len()) + 1,
            two_to(tree_height(leaves.len())) >= leaves.len(),
            leaves.len() > 1 ==> two_to((tree_height(leaves.len()) - 1) as nat) < leaves.len(),
            tree_levels(leaves).last().len() == 1,
            forall|i: int|
                0 <= i < tree_levels(leaves).len() - 1 ==> (#[trigger] tree_levels(leaves)[i]).len()
                    % 2 == 0,
        decreases leaves.len(),
    {
        if leaves.len() > 1 {
            let up = parents(leaves);
            lemma_parents_len(leaves);
            Self::law_tree_shape(up);
            let rows = tree_levels(leaves);
            assert(rows == seq![pad_even(leaves)] + tree_levels(up));
            assert(rows.last() == tree_levels(up).last());
            assert forall|i: int| 0 <= i < rows.len() - 1 implies (#[trigger] rows[i]).len() % 2
                == 0 by {
                if i > 0 {
                    assert(rows[i] == tree_levels(up)[i - 1]);
                }
            }
            if up.len() > 1 {
                assert(two_to(tree_height(up.len())) == 2 * two_to(
                    (tree_height(up.len()) - 1) as nat,
                ));
            }
        }
    }

    /// Round trip: the path that `open` gives for a leaf verifies against
    /// the root that `commit` gives.
    pub proof fn law_open_verifies(leaves: Seq<nat>, index: nat)
        requires
            index < leaves.len(),
        ensures
            check_path(tree_root(leaves), index, auth_path(leaves, index), leaves[index as int])
                == Ok::<bool, Error>(true),
        decreases leaves.len(),
    {
        if leaves.len() > 1 {
            let padded = pad_even(leaves);
            let left = index - index % 2;
            let path = auth_path(leaves, index);
            lemma_parents_len(leaves);
            assert(path.skip(2) =~= auth_path(parents(leaves), index / 2));
            assert(path[(index % 2) as int] == leaves[index as int]);
            assert(hash_pair(path[0], path[1]) == parents(leaves)[(index / 2) as int]);
            Self::law_open_verifies(parents(leaves), index / 2);
        }
    }

    /// A root other than the committed one is rejected.
    pub proof fn law_wrong_root_fails(leaves: Seq<nat>, index: nat, root: nat)
        requires
            index < leaves.len(),
            root != tree_root(leaves),
        ensures
            check_path(root, index, auth_path(leaves, index), leaves[index as int]) == Err::<
                bool,
                Error,
            >(Error::RootMismatch),
        decreases leaves.len(),
    {
        if leaves.len() > 1 {
            let path = auth_path(leaves, index);
            lemma_parents_len(leaves);
            assert(path.skip(2) =~= auth_path(parents(leaves), index / 2));
            assert(path[(index % 2) as int] == leaves[index as int]);
            assert(hash_pair(path[0], path[1]) == parents(leaves)[(index / 2) as int]);
            Self::law_wrong_root_fails(parents(leaves), index / 2, root);
        }
    }

    /// A leaf other than the committed one is rejected.
    pub proof fn law_wrong_leaf_fails(leaves: Seq<nat>, index: nat, leaf: nat)
        requires
            index < leaves.len(),
            leaf != leaves[index as int],
        ensures
            check_path(tree_root(leaves), index, auth_path(leaves, index), leaf).is_err(),
    {
        if leaves.len() > 1 {
            let path = auth_path(leaves, index);
            lemma_parents_len(leaves);
            assert(path[(index % 2) as int] == leaves[index as int]);
        }
    }

    /// A path with one entry changed is rejected: always where the entry is
    /// the node on the way up, and where it is that node's sibling as long
    /// as the changed pair does not hash to what the true pair hashes to.
    pub proof fn law_wrong_path_fails(leaves: Seq<nat>, index: nat, pos: nat, value: nat)
        requires
            index < leaves.len(),
            pos < auth_path(leaves, index).len(),
            value != auth_path(leaves, index)[pos as int],
            pos % 2 != path_side(index, pos / 2) ==> ({
                let path = auth_path(leaves, index);
                let changed = path.update(pos as int, value);
                let at = 2 * (pos / 2) as int;
                hash_pair(changed[at], changed[at + 1]) != hash_pair(path[at], path[at + 1])
            }),
        ensures
            check_path(
                tree_root(leaves),
                index,
                auth_path(leaves, index).update(pos as int, value),
                leaves[index as int],
            ).is_err(),
        decreases leaves.len(),
    {
        let path = auth_path(leaves, index);
        let changed = path.update(pos as int, value);
        if leaves.len() > 1 {
            let up = parents(leaves);
            lemma_parents_len(leaves);
            assert(path.skip(2) =~= auth_path(up, index / 2));
            assert(path[(index % 2) as int] == leaves[index as int]);
            assert(hash_pair(path[0], path[1]) == up[(index / 2) as int]);
            if pos / 2 == 0 {
                assert(changed.skip(2) =~= path.skip(2));
                if pos % 2 != index % 2 {
                    Self::law_wrong_leaf_fails(up, index / 2, hash_pair(changed[0], changed[1]));
                }
            } else {
                let below = (pos - 2) as nat;
                let path2 = auth_path(up, index / 2);
                let changed2 = path2.update(below as int, value);
                let at = 2 * (pos / 2) as int;
                let at2 = 2 * (below / 2) as int;
                assert(changed.skip(2) =~= changed2);
                assert(below / 2 == pos / 2 - 1);
                assert(below % 2 == pos % 2);
                assert(at2 == at - 2);
                assert(path_side(index, pos / 2) == path_side(index / 2, below / 2));
                lemma_path_len_even(leaves, index);
                assert(at + 1 < path.len());
                assert(path2[at2] == path[at] && path2[at2 + 1] == path[at + 1]);
                assert(changed2[at2] == changed[at] && changed2[at2 + 1] == changed[at + 1]);
                Self::law_wrong_path_fails(up, index / 2, below, value);
            }
        }
    }
}

} // verus!
