//! What the FRI protocol computes, as functions of plain numbers.
use vstd::arithmetic::power::pow;
use vstd::arithmetic::power2::pow2;
use vstd::prelude::*;

use crate::arith::{has_inverse, inverse};
use crate::bigint::{le_bytes, le_nat};
use crate::channel::transcript_hash;
use crate::digest::blake3_digest;
use crate::error::Error;
use crate::poly_math::{poly_colinear_batch, poly_degree, poly_eval, poly_interpolate};
use crate::tree::{auth_path, check_path, tree_root};

verus! {

/// The configuration of one FRI instance.
pub struct Params {
    /// The modulus of the field.
    pub p: int,
    /// The offset of the evaluation coset.
    pub offset: int,
    /// The root of unity that generates the evaluation domain.
    pub omega: int,
    /// The length of the evaluation domain and of the first codeword.
    pub len: nat,
    /// The expansion factor.
    pub rho: nat,
    /// The number of colinearity tests per round.
    pub count: nat,
}

/// The number of folding rounds of a codeword of `len` entries: the
/// largest `r` for which the length halved `r` times is still above the
/// expansion factor and above four times the number of tests.
pub open spec fn round_count(len: nat, rho: nat, count: nat) -> nat
    decreases len,
{
    if len / 2 > rho && 4 * count < len / 2 {
        1 + round_count(len / 2, rho, count)
    } else {
        0
    }
}

/// How many codewords are committed to, starting from one of `len`
/// entries: the length is halved as long as it is above the expansion
/// factor and above four times the number of tests. Where the first
/// length is, that is one more than the number of folding rounds.
pub open spec fn commit_count(len: nat, rho: nat, count: nat) -> nat
    decreases len,
{
    if len > rho && 4 * count < len {
        1 + commit_count(len / 2, rho, count)
    } else {
        0
    }
}

/// The commitments are one more than the folding rounds, where the first
/// length is above the expansion factor and above four times the number
/// of tests; otherwise there is neither a commitment nor a round.
pub proof fn lemma_commits_and_rounds(len: nat, rho: nat, count: nat)
    ensures
        commit_count(len, rho, count) == if len > rho && 4 * count < len {
            round_count(len, rho, count) + 1
        } else {
            0
        },
        !(len > rho && 4 * count < len) ==> round_count(len, rho, count) == 0,
    decreases len,
{
    if len > 0 {
        lemma_commits_and_rounds(len / 2, rho, count);
    }
}

impl Params {
    /// The number of folding rounds.
    pub open spec fn rounds(self) -> nat {
        round_count(self.len, self.rho, self.count)
    }

    /// The number of codewords that a proof commits to: the first, and
    /// one for each folding round; none where the domain is too short for
    /// the first.
    pub open spec fn commits(self) -> nat {
        if self.len > self.rho && 4 * self.count < self.len {
            self.rounds() + 1
        } else {
            0
        }
    }

    /// What prove and verify need of the configuration: an expansion
    /// factor that is not zero, and a domain that is longer than it and
    /// than four times the number of tests, so that the first codeword
    /// can be committed to.
    pub open spec fn wf(self) -> bool {
        &&& self.p >= 2
        &&& self.rho >= 1
        &&& self.len > self.rho
        &&& 4 * self.count < self.len
    }

    /// Whether the constants of the folding step exist: the inverses of
    /// 2, of the offset and of the root of unity.
    pub open spec fn foldable(self) -> bool {
        has_inverse(2, self.p) && has_inverse(self.offset, self.p) && has_inverse(
            self.omega,
            self.p,
        )
    }

    /// Point `k` of the domain of the round whose domain is the
    /// `e`-th power of the first one: `offset^e * omega^(e * k)`.
    pub open spec fn point(self, e: nat, k: nat) -> int {
        (pow(self.offset, e) * pow(self.omega, e * k)) % self.p
    }
}

/// `len` halved `i` times.
pub open spec fn halved(len: nat, i: nat) -> nat
    decreases i,
{
    if i == 0 {
        len
    } else {
        halved(len, (i - 1) as nat) / 2
    }
}

/// The evaluation coset: `offset * omega^i` for `i < len`.
pub open spec fn coset_points(params: Params) -> Seq<int> {
    Seq::new(params.len, |i: int| (params.offset * pow(params.omega, i as nat)) % params.p)
}

/// One folded value: from the values `a` at `x` and `b` at `-x`, the
/// value at `x^2` of the even part plus `alpha` times the odd part,
/// `((1 + alpha / x) * a + (1 - alpha / x) * b) / 2`.
pub open spec fn fold_value(a: int, b: int, alpha: int, x_inv: int, two_inv: int, p: int) -> int {
    (two_inv * ((1 + alpha * x_inv) * a + (1 - alpha * x_inv) * b)) % p
}

/// The codeword folded with challenge `alpha` in the round whose domain
/// is the `e`-th power of the first one.
pub open spec fn fold(params: Params, c: Seq<nat>, alpha: int, e: nat) -> Seq<nat> {
    let half = c.len() / 2;
    Seq::new(
        half,
        |k: int|
            fold_value(
                c[k] as int,
                c[half + k] as int,
                alpha,
                inverse(params.point(e, k as nat), params.p),
                inverse(2, params.p),
                params.p,
            ) as nat,
    )
}

/// The commit phase with `left` commitments to go, from the codeword `c`
/// and the transcript `msgs`: the root of `c` is appended; unless this
/// commitment is the last, a challenge is drawn from the transcript, `c`
/// is folded with it and the next commitment follows; after the last,
/// `c` is appended in full. Returns the codewords committed to and the
/// transcript.
pub open spec fn commit_from(params: Params, c: Seq<nat>, msgs: Seq<Seq<nat>>, e: nat, left: nat) -> (
    Seq<Seq<nat>>,
    Seq<Seq<nat>>,
)
    decreases left,
{
    let with_root = msgs.push(seq![tree_root(c)]);
    if left <= 1 {
        (seq![c], with_root.push(c))
    } else {
        let alpha = (transcript_hash(with_root) as int) % params.p;
        let rest = commit_from(params, fold(params, c, alpha, e), with_root, 2 * e, (left - 1) as nat);
        (seq![c] + rest.0, rest.1)
    }
}

/// The index that counter `j` gives from `seed`: the hash of the two,
/// reduced modulo `size`.
pub open spec fn index_at(seed: nat, j: nat, size: nat) -> nat {
    le_nat(blake3_digest(le_bytes(seed) + le_bytes(j))) % size
}

/// Whether an accepted index already has the residue `r` modulo
/// `reduced`.
pub open spec fn residue_taken(acc: Seq<u32>, r: nat, reduced: nat) -> bool {
    exists|k: int| 0 <= k < acc.len() && (#[trigger] acc[k]) as nat % reduced == r
}

/// Sampling from counter `j` on, with `acc` accepted so far: an index is
/// accepted if its residue modulo `reduced` is new; the counter goes on
/// either way, until `count` indices are accepted or the counters of 32
/// bits are used up.
pub open spec fn sample_from(
    seed: nat,
    size: nat,
    reduced: nat,
    count: nat,
    acc: Seq<u32>,
    j: nat,
) -> Result<Seq<u32>, Error>
    decreases 0x1_0000_0000 - j,
{
    if acc.len() >= count {
        Ok(acc)
    } else if j >= 0x1_0000_0000 {
        Err(Error::NotEnoughEntropy)
    } else {
        let index = index_at(seed, j, size);
        if residue_taken(acc, index % reduced, reduced) {
            sample_from(seed, size, reduced, count, acc, j + 1)
        } else {
            sample_from(seed, size, reduced, count, acc.push(index as u32), j + 1)
        }
    }
}

/// The `count` indices below `size` that `seed` gives, distinct modulo
/// `reduced`.
pub open spec fn sample_spec(seed: nat, size: nat, reduced: nat, count: nat) -> Result<
    Seq<u32>,
    Error,
> {
    if count > 2 * reduced {
        Err(Error::NotEnoughEntropy)
    } else if count > reduced {
        Err(Error::TooManyIndices)
    } else if size == 0 && count > 0 {
        Err(Error::NotEnoughEntropy)
    } else {
        sample_from(seed, size, reduced, count, Seq::empty(), 0)
    }
}

/// The index into a codeword of `len` entries that the top-level index
/// `top` stands for: `top` modulo half the length.
pub open spec fn reduced_index(top: u32, len: nat) -> nat {
    (top as nat) % (len / 2)
}

/// The three values that query `j` opens: the current codeword at the
/// index and half a length further, the next codeword at the index.
pub open spec fn triple(cur: Seq<nat>, next: Seq<nat>, top: u32) -> Seq<nat> {
    let a = reduced_index(top, cur.len()) as int;
    seq![cur[a], cur[a + cur.len() / 2], next[a]]
}

/// The authentication path number `t` of a round: paths come in threes,
/// for the three values of query `t / 3`.
pub open spec fn opening(cur: Seq<nat>, next: Seq<nat>, top: Seq<u32>, t: int) -> Seq<nat> {
    let a = reduced_index(top[t / 3], cur.len());
    if t % 3 == 0 {
        auth_path(cur, a)
    } else if t % 3 == 1 {
        auth_path(cur, a + cur.len() / 2)
    } else {
        auth_path(next, a)
    }
}

/// The messages of one query round: the triples of all queries, then
/// their authentication paths.
pub open spec fn query_round(cur: Seq<nat>, next: Seq<nat>, top: Seq<u32>) -> Seq<Seq<nat>> {
    Seq::new(top.len(), |j: int| triple(cur, next, top[j])) + Seq::new(
        3 * top.len(),
        |t: int| opening(cur, next, top, t),
    )
}

/// The messages of the first `n` query rounds.
pub open spec fn query_rounds(codewords: Seq<Seq<nat>>, top: Seq<u32>, n: int) -> Seq<Seq<nat>>
    decreases n,
{
    if n <= 0 {
        Seq::empty()
    } else {
        query_rounds(codewords, top, n - 1) + query_round(codewords[n - 1], codewords[n], top)
    }
}

/// The top-level indices of a proof: sampled from the transcript of the
/// commit phase, below half the first length, distinct modulo the last
/// length.
pub open spec fn prove_indices(params: Params, codeword: Seq<nat>, msgs: Seq<Seq<nat>>) -> Result<
    Seq<u32>,
    Error,
> {
    let committed = commit_from(params, codeword, msgs, 1, params.commits());
    sample_spec(
        transcript_hash(committed.1),
        params.len / 2,
        committed.0.last().len(),
        params.count,
    )
}

/// The transcript after a proof with the top-level indices `top`.
pub open spec fn prove_transcript(
    params: Params,
    codeword: Seq<nat>,
    msgs: Seq<Seq<nat>>,
    top: Seq<u32>,
) -> Seq<Seq<nat>> {
    let committed = commit_from(params, codeword, msgs, 1, params.commits());
    committed.1 + query_rounds(committed.0, top, committed.0.len() - 1)
}

/// While a commitment is still to come, the length is above the
/// expansion factor and above four times the number of tests.
pub proof fn lemma_commit_count(len: nat, rho: nat, count: nat)
    requires
        commit_count(len, rho, count) >= 1,
    ensures
        len > rho,
        4 * count < len,
        commit_count(len, rho, count) == 1 + commit_count(len / 2, rho, count),
{
}

/// The commit phase gives one codeword for each commitment to go, each
/// half as long as the one before, and adds one message for each and one
/// more.
pub proof fn lemma_commit_shape(params: Params, c: Seq<nat>, msgs: Seq<Seq<nat>>, e: nat, left: nat)
    requires
        left >= 1,
    ensures
        ({
            let out = commit_from(params, c, msgs, e, left);
            &&& out.0.len() == left
            &&& forall|i: int| 0 <= i < left ==> (#[trigger] out.0[i]).len() == halved(c.len(), i as nat)
            &&& out.1.len() == msgs.len() + left + 1
            &&& out.1.take(msgs.len() as int) == msgs
            &&& out.1.last() == out.0.last()
        }),
    decreases left,
{
    let with_root = msgs.push(seq![tree_root(c)]);
    let out = commit_from(params, c, msgs, e, left);
    if left <= 1 {
        assert(out.1.take(msgs.len() as int) =~= msgs);
    } else {
        let alpha = (transcript_hash(with_root) as int) % params.p;
        let next = fold(params, c, alpha, e);
        let rest = commit_from(params, next, with_root, 2 * e, (left - 1) as nat);
        lemma_commit_shape(params, next, with_root, 2 * e, (left - 1) as nat);
        assert forall|i: int| 0 <= i < left implies (#[trigger] out.0[i]).len() == halved(
            c.len(),
            i as nat,
        ) by {
            if i > 0 {
                assert(out.0[i] == rest.0[i - 1]);
                lemma_halved_shift(c.len(), (i - 1) as nat);
            }
        }
        assert(out.1.take(msgs.len() as int) =~= with_root.take(msgs.len() as int)) by {
            assert(rest.1.take(with_root.len() as int) == with_root);
        }
        assert(with_root.take(msgs.len() as int) =~= msgs);
    }
}

/// Halving once and then `i` times is halving `i + 1` times.
pub proof fn lemma_halved_shift(len: nat, i: nat)
    ensures
        halved(len / 2, i) == halved(len, i + 1),
    decreases i,
{
    if i > 0 {
        lemma_halved_shift(len, (i - 1) as nat);
        assert(halved(len / 2, i) == halved(len / 2, (i - 1) as nat) / 2);
        assert(halved(len, i + 1) == halved(len, i) / 2);
    } else {
        assert(halved(len, 1) == halved(len, 0) / 2);
    }
}

/// Halved `i` times, a codeword has that many commitments less to go.
pub proof fn lemma_commits_halved(len: nat, rho: nat, count: nat, i: nat)
    requires
        i <= commit_count(len, rho, count),
    ensures
        commit_count(halved(len, i), rho, count) == commit_count(len, rho, count) - i,
        halved(len, i) <= len,
    decreases i,
{
    if i > 0 {
        lemma_commits_halved(len, rho, count, (i - 1) as nat);
        lemma_commit_count(halved(len, (i - 1) as nat), rho, count);
    }
}

/// The root of codeword `i`, as the verifier reads it.
pub open spec fn root_at(msgs: Seq<Seq<nat>>, start: nat, i: nat) -> nat {
    msgs[(start + i) as int][0]
}

/// The challenge of round `i`: drawn from the transcript up to and with
/// the root of codeword `i`, which the round folds.
pub open spec fn alpha_at(params: Params, msgs: Seq<Seq<nat>>, start: nat, i: nat) -> int {
    (transcript_hash(msgs.take((start + i + 1) as int)) as int) % params.p
}

/// Whether the transcript holds, from message `start` on, one message
/// that is not empty for each commitment, and one more.
pub open spec fn heads_present(params: Params, msgs: Seq<Seq<nat>>, start: nat) -> bool {
    &&& start + params.commits() < msgs.len()
    &&& forall|k: int| start <= k < start + params.commits() ==> (#[trigger] msgs[k]).len() >= 1
}

/// The length of the last codeword.
pub open spec fn last_len(params: Params) -> nat {
    halved(params.len, params.rounds())
}

/// The power of the first domain that the last domain is.
pub open spec fn last_power(params: Params) -> nat {
    pow2(params.rounds())
}

/// The domain of the last codeword.
pub open spec fn last_domain(params: Params) -> Seq<int> {
    Seq::new(last_len(params), |k: int| params.point(last_power(params), k as nat))
}

/// The values as integers.
pub open spec fn as_ints(v: Seq<nat>) -> Seq<int> {
    Seq::new(v.len(), |i: int| v[i] as int)
}

/// Whether the polynomial `c` takes the values `vals` on `domain`.
pub open spec fn agrees(c: Seq<int>, domain: Seq<int>, vals: Seq<nat>, p: int) -> bool {
    forall|i: int| 0 <= i < vals.len() ==> poly_eval(c, #[trigger] domain[i], p) == vals[i]
}

/// The checks on the last codeword, in order: it is not empty
/// (`LenMismatch`); it hashes to the last root (`LastRootMismatch`); its
/// length is the first length halved once for each round
/// (`LenMismatch`); the generator of the last domain has an inverse
/// (`DivByZero`) that is its power to the length less one
/// (`OmegaOrder`); the interpolant over the last domain takes the
/// codeword's values (`InterpDisagreement`) and has a degree below the
/// length over the expansion factor (`InterpDegreeTooHigh`).
pub open spec fn check_last(params: Params, root: nat, last: Seq<nat>) -> Result<bool, Error> {
    let p = params.p;
    let w = pow(params.omega, last_power(params)) % p;
    if last.len() == 0 {
        Err(Error::LenMismatch)
    } else if tree_root(last) != root {
        Err(Error::LastRootMismatch)
    } else if last.len() != last_len(params) {
        Err(Error::LenMismatch)
    } else if !has_inverse(w, p) {
        Err(Error::DivByZero)
    } else if inverse(w, p) != pow(w, (last.len() - 1) as nat) % p {
        Err(Error::OmegaOrder)
    } else {
        match poly_interpolate(last_domain(params), as_ints(last), p) {
            Err(e) => Err(e),
            Ok(c) => if !agrees(c, last_domain(params), last, p) {
                Err(Error::InterpDisagreement)
            } else if poly_degree(c) > last.len() / params.rho - 1 {
                Err(Error::InterpDegreeTooHigh)
            } else {
                Ok(true)
            },
        }
    }
}

/// The check of authentication path number `t` of a round, whose paths
/// start at message `paths` and whose triples start at message `triples`:
/// the path must be there (`LenMismatch`) and lead from its value to its
/// root (`MerklePathFailed`).
pub open spec fn opening_ok(
    msgs: Seq<Seq<nat>>,
    paths: nat,
    triples: nat,
    root: nat,
    root_next: nat,
    top: Seq<u32>,
    len: nat,
    t: int,
) -> Result<bool, Error> {
    let a = reduced_index(top[t / 3], len);
    let values = msgs[triples + t / 3];
    if paths + t >= msgs.len() {
        Err(Error::LenMismatch)
    } else {
        let path = msgs[paths + t];
        let checked = if t % 3 == 0 {
            check_path(root, a, path, values[0])
        } else if t % 3 == 1 {
            check_path(root, a + len / 2, path, values[1])
        } else {
            check_path(root_next, a, path, values[2])
        };
        if checked.is_err() {
            Err(Error::MerklePathFailed)
        } else {
            Ok(true)
        }
    }
}

/// The checks of the first `n` authentication paths of a round, in
/// order.
pub open spec fn openings_ok(
    msgs: Seq<Seq<nat>>,
    paths: nat,
    triples: nat,
    root: nat,
    root_next: nat,
    top: Seq<u32>,
    len: nat,
    n: int,
) -> Result<bool, Error>
    decreases n,
{
    if n <= 0 {
        Ok(true)
    } else {
        match openings_ok(msgs, paths, triples, root, root_next, top, len, n - 1) {
            Err(e) => Err(e),
            Ok(_) => opening_ok(msgs, paths, triples, root, root_next, top, len, n - 1),
        }
    }
}

/// Whether the triples of a round are there: one message of at least
/// three values for each query, from message `base` on.
pub open spec fn triples_present(msgs: Seq<Seq<nat>>, base: nat, count: nat) -> bool {
    &&& base + count <= msgs.len()
    &&& forall|k: int| base <= k < base + count ==> (#[trigger] msgs[k]).len() >= 3
}

/// The three abscissas of query `j`: the points of the round's domain at
/// the index and half a length further, and the challenge.
pub open spec fn query_xs(params: Params, alpha: int, top: u32, e: nat, len: nat) -> Seq<int> {
    let a = reduced_index(top, len);
    seq![params.point(e, a), params.point(e, a + len / 2), alpha]
}

/// The three ordinates of a query: the first three values of its
/// message.
pub open spec fn query_ys(values: Seq<nat>) -> Seq<int> {
    seq![values[0] as int, values[1] as int, values[2] as int]
}

/// The checks of one query round, whose messages start at `base`, on a
/// codeword of `len` entries over the `e`-th power of the first domain:
/// the triples are there (`LenMismatch`); each lies on a line
/// (`ColinearityFailed`, or what the interpolation fails with); the
/// authentication paths are there and lead to the roots.
pub open spec fn check_round(
    params: Params,
    msgs: Seq<Seq<nat>>,
    base: nat,
    root: nat,
    root_next: nat,
    alpha: int,
    top: Seq<u32>,
    e: nat,
    len: nat,
) -> Result<bool, Error> {
    if !triples_present(msgs, base, top.len()) {
        Err(Error::LenMismatch)
    } else {
        let xs = Seq::new(top.len(), |j: int| query_xs(params, alpha, top[j], e, len));
        let ys = Seq::new(top.len(), |j: int| query_ys(msgs[base + j]));
        match poly_colinear_batch(xs, ys, params.p) {
            Err(err) => Err(err),
            Ok(false) => Err(Error::ColinearityFailed),
            Ok(true) => openings_ok(
                msgs,
                base + top.len(),
                base,
                root,
                root_next,
                top,
                len,
                3 * top.len() as int,
            ),
        }
    }
}

/// The checks of the query rounds from round `i` on, whose messages
/// start at `base`.
pub open spec fn check_rounds(
    params: Params,
    msgs: Seq<Seq<nat>>,
    base: nat,
    start: nat,
    top: Seq<u32>,
    i: nat,
    e: nat,
    len: nat,
) -> Result<bool, Error>
    decreases params.rounds() - i,
{
    if i >= params.rounds() {
        Ok(true)
    } else {
        match check_round(
            params,
            msgs,
            base,
            root_at(msgs, start, i),
            root_at(msgs, start, i + 1),
            alpha_at(params, msgs, start, i),
            top,
            e,
            len,
        ) {
            Err(err) => Err(err),
            Ok(_) => check_rounds(params, msgs, base + 4 * top.len(), start, top, i + 1, 2 * e, len / 2),
        }
    }
}

/// The openings of the first round: for each query the index and value
/// of the first, then of the second point.
pub open spec fn first_openings(params: Params, msgs: Seq<Seq<nat>>, base: nat, top: Seq<u32>) -> Seq<
    (u32, nat),
> {
    if params.rounds() < 1 {
        Seq::empty()
    } else {
        Seq::new(
            2 * top.len(),
            |t: int|
                {
                    let a = reduced_index(top[t / 2], params.len);
                    if t % 2 == 0 {
                        (a as u32, msgs[base + t / 2][0])
                    } else {
                        ((a + params.len / 2) as u32, msgs[base + t / 2][1])
                    }
                },
        )
    }
}

/// The top-level indices that the verifier samples, once it has read the
/// roots and the last codeword.
pub open spec fn verify_indices(params: Params, msgs: Seq<Seq<nat>>, start: nat) -> Result<
    Seq<u32>,
    Error,
> {
    sample_spec(
        transcript_hash(msgs.take((start + params.commits() + 1) as int)),
        params.len / 2,
        last_len(params),
        params.count,
    )
}

/// What verifying the transcript from message `start` on gives: the
/// openings of the first round, or the first check that fails.
pub open spec fn verify_spec(params: Params, msgs: Seq<Seq<nat>>, start: nat) -> Result<
    Seq<(u32, nat)>,
    Error,
> {
    let r = params.commits();
    if !heads_present(params, msgs, start) {
        Err(Error::LenMismatch)
    } else {
        match check_last(params, root_at(msgs, start, (r - 1) as nat), msgs[(start + r) as int]) {
            Err(e) => Err(e),
            Ok(_) => match verify_indices(params, msgs, start) {
                Err(e) => Err(e),
                Ok(top) => match check_rounds(params, msgs, start + r + 1, start, top, 0, 1, params.len) {
                    Err(e) => Err(e),
                    Ok(_) => Ok(first_openings(params, msgs, start + r + 1, top)),
                },
            },
        }
    }
}

/// How many messages a successful verification reads, with `count`
/// queries per round.
pub open spec fn verify_reads(params: Params, count: nat) -> nat {
    params.rounds() + 2 + params.rounds() * 4 * count
}

/// No two of the indices have the same residue modulo `reduced`, and all
/// are below `size`.
pub open spec fn well_spread(v: Seq<u32>, size: nat, reduced: nat) -> bool {
    &&& forall|k: int| 0 <= k < v.len() ==> (#[trigger] v[k] as nat) < size
    &&& forall|k: int, l: int|
        #![trigger v[k], v[l]]
        0 <= k < v.len() && 0 <= l < v.len() && k != l ==> v[k] as nat % reduced != v[l] as nat
            % reduced
}

/// Sampling keeps the accepted indices apart modulo `reduced` and below
/// `size`, and stops with exactly `count` of them.
pub proof fn lemma_sample_from(
    seed: nat,
    size: nat,
    reduced: nat,
    count: nat,
    acc: Seq<u32>,
    j: nat,
)
    requires
        0 < size <= 0x1_0000_0000,
        reduced > 0,
        acc.len() <= count,
        well_spread(acc, size, reduced),
    ensures
        sample_from(seed, size, reduced, count, acc, j) matches Ok(v) ==> v.len() == count
            && well_spread(v, size, reduced),
    decreases 0x1_0000_0000 - j,
{
    if acc.len() < count && j < 0x1_0000_0000 {
        let index = index_at(seed, j, size);
        vstd::arithmetic::div_mod::lemma_mod_bound(
            le_nat(blake3_digest(le_bytes(seed) + le_bytes(j))) as int,
            size as int,
        );
        if residue_taken(acc, index % reduced, reduced) {
            lemma_sample_from(seed, size, reduced, count, acc, j + 1);
        } else {
            let next = acc.push(index as u32);
            assert(well_spread(next, size, reduced)) by {
                assert forall|k: int, l: int|
                    #![trigger next[k], next[l]]
                    0 <= k < next.len() && 0 <= l < next.len() && k != l implies next[k] as nat
                    % reduced != next[l] as nat % reduced by {
                    if k < acc.len() && l < acc.len() {
                        assert(acc[k] as nat % reduced != acc[l] as nat % reduced);
                    } else if k < acc.len() {
                        assert(acc[k] as nat % reduced != index % reduced);
                    } else {
                        assert(acc[l] as nat % reduced != index % reduced);
                    }
                }
            }
            lemma_sample_from(seed, size, reduced, count, next, j + 1);
        }
    }
}

} // verus!
