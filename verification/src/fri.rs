//! The FRI protocol: a prover commits to a codeword and to its foldings and
//! answers queries; a verifier replays the transcript and checks them.
use std::collections::HashMap;
use std::rc::Rc;
use vstd::arithmetic::div_mod::*;
use vstd::arithmetic::power::*;
use vstd::arithmetic::power2::{lemma_pow2_unfold, pow2};
use vstd::prelude::*;

use crate::acceptance::lemma_accepted_query;
use crate::arith::{inverse, is_inverse, lemma_inverse_of_powers};
use crate::bigint::{int_rows, ints, nat_rows, nats, IBig, UBig};
use crate::channel::Channel;
use crate::completeness::{challenges_clear, lemma_complete, values_on_coset};
use crate::digest::digest;
use crate::error::Error;
use crate::field::Field;
use crate::fri_laws::{honest_setup, lemma_honest_is_sound};
use crate::fri_math::{
    agrees, alpha_at, as_ints, check_last, check_round, check_rounds, commit_from, coset_points,
    first_openings, fold, fold_value, halved, heads_present, index_at, last_domain, last_len,
    last_power, lemma_commit_shape, lemma_commits_and_rounds, lemma_commit_count, lemma_commits_halved, lemma_sample_from,
    opening, opening_ok, openings_ok, prove_indices, prove_transcript, query_round, query_rounds,
    query_xs, query_ys, reduced_index, residue_taken, root_at, commit_count, sample_from,
    sample_spec, triple, triples_present, verify_indices, verify_reads, verify_spec, well_spread,
    Params,
};
use crate::poly_math::{canonical, poly_colinear_batch, poly_degree, poly_eval, poly_interpolate};
use crate::polynomial::Polynomial;
use crate::tree::{check_path, lemma_levels_are_tree, tree_levels, tree_root, Tree};

verus! {

broadcast use vstd::std_specs::hash::group_hash_axioms;

/// What a FRI instance is made from.
pub struct FriOptions {
    pub offset: IBig,
    pub omega: IBig,
    pub domain_len: u32,
    pub expansion_factor: u32,
    pub colinearity_test_count: u32,
}

/// A FRI instance: the configuration, the evaluation coset and the number
/// of rounds.
pub struct Fri {
    pub offset: IBig,
    pub omega: IBig,
    pub domain_len: u32,
    pub field: Rc<Field>,
    pub expansion_factor: u32,
    pub colinearity_test_count: u32,
    domain: Vec<IBig>,
    commits: u32,
}

impl FriOptions {
    /// The configuration as plain numbers, over the field of modulus `p`.
    pub open spec fn params(&self, p: int) -> Params {
        Params {
            p,
            offset: self.offset@,
            omega: self.omega@,
            len: self.domain_len as nat,
            rho: self.expansion_factor as nat,
            count: self.colinearity_test_count as nat,
        }
    }
}

impl Fri {
    /// The configuration as plain numbers.
    pub closed spec fn params(&self) -> Params {
        Params {
            p: self.field.modulus(),
            offset: self.offset@,
            omega: self.omega@,
            len: self.domain_len as nat,
            rho: self.expansion_factor as nat,
            count: self.colinearity_test_count as nat,
        }
    }

    /// The stored evaluation coset.
    pub closed spec fn domain_points(&self) -> Seq<int> {
        ints(self.domain@)
    }

    /// The stored number of commitments.
    pub closed spec fn commits(&self) -> nat {
        self.commits as nat
    }

    /// The number of folding rounds: one less than the commitments, where
    /// there are any.
    pub closed spec fn rounds(&self) -> nat {
        if self.commits == 0 {
            0
        } else {
            (self.commits - 1) as nat
        }
    }

    /// The stored coset and numbers of commitments and rounds are those
    /// of the configuration, which allows the first codeword to be
    /// committed to.
    pub open spec fn wf(&self) -> bool {
        &&& self.params().wf()
        &&& self.commits() == self.params().commits()
        &&& self.rounds() == self.params().rounds()
        &&& self.domain_points() == coset_points(self.params())
    }

    /// A FRI instance over `field`, with the configuration of `options`,
    /// the evaluation coset `offset * omega^i` and the number of folding
    /// rounds. The instance can prove and verify where the domain is
    /// longer than the expansion factor, which is not zero, and than four
    /// times the number of colinearity tests.
    pub fn new(options: &FriOptions, field: &Rc<Field>) -> (fri: Fri)
        requires
            field.wf(),
        ensures
            fri.params() == options.params(field.modulus()),
            fri.domain_points() == coset_points(fri.params()),
            fri.rounds() == fri.params().rounds(),
            fri.commits() == fri.params().commits(),
            fri.wf() <==> fri.params().wf(),
    {
        let ghost n = options.domain_len as nat;
        let ghost rho = options.expansion_factor as nat;
        let ghost count = options.colinearity_test_count as nat;
        proof {
            lemma_commits_and_rounds(n, rho, count);
        }
        let mut codeword_len: u32 = options.domain_len;
        let mut round_count: u32 = 0;
        while codeword_len > options.expansion_factor && 4 * (
        options.colinearity_test_count as u64) < codeword_len as u64
            invariant
                n == options.domain_len,
                rho == options.expansion_factor,
                count == options.colinearity_test_count,
                round_count + codeword_len <= n,
                round_count as nat + crate::fri_math::commit_count(codeword_len as nat, rho, count)
                    == crate::fri_math::commit_count(n, rho, count),
            decreases codeword_len,
        {
            codeword_len = codeword_len / 2;
            round_count = round_count + 1;
        }
        let domain = field.progression(&options.offset, &options.omega, options.domain_len as usize);
        let fri = Fri {
            offset: options.offset.clone(),
            omega: options.omega.clone(),
            domain_len: options.domain_len,
            field: crate::polynomial::share(field),
            expansion_factor: options.expansion_factor,
            colinearity_test_count: options.colinearity_test_count,
            domain,
            commits: round_count,
        };
        assert(fri.domain_points() =~= coset_points(fri.params()));
        fri
    }

    /// The evaluation coset: `offset * omega^i` for each `i` below the
    /// domain length.
    pub fn domain(&self) -> (d: &Vec<IBig>)
        ensures
            ints(d@) == self.domain_points(),
            d@.len() == self.domain_points().len(),
            forall|i: int| 0 <= i < d@.len() ==> (#[trigger] d@[i])@ == self.domain_points()[i],
    {
        &self.domain
    }

    /// The field.
    pub fn field(&self) -> (f: &Rc<Field>)
        ensures
            f.modulus() == self.params().p,
    {
        &self.field
    }

    /// The offset of the evaluation coset.
    pub fn offset(&self) -> (r: &IBig)
        ensures
            r@ == self.params().offset,
    {
        &self.offset
    }

    /// The root of unity that generates the evaluation domain.
    pub fn omega(&self) -> (r: &IBig)
        ensures
            r@ == self.params().omega,
    {
        &self.omega
    }

    /// The length of the evaluation domain.
    pub fn domain_len(&self) -> (r: u32)
        ensures
            r == self.params().len,
    {
        self.domain_len
    }

    /// The expansion factor.
    pub fn expansion_factor(&self) -> (r: u32)
        ensures
            r == self.params().rho,
    {
        self.expansion_factor
    }

    /// The number of colinearity tests per round.
    pub fn colinearity_test_count(&self) -> (r: u32)
        ensures
            r == self.params().count,
    {
        self.colinearity_test_count
    }

    /// The number of folding rounds.
    pub fn round_count(&self) -> (r: u32)
        ensures
            r == self.rounds(),
    {
        if self.commits == 0 {
            0
        } else {
            self.commits - 1
        }
    }

    /// After one more index is accepted, the residues taken are those
    /// taken before and its own.
    proof fn lemma_taken_push(acc: Seq<u32>, index: u32, r: nat, reduced: nat)
        ensures
            residue_taken(acc.push(index), r, reduced) <==> residue_taken(acc, r, reduced)
                || index as nat % reduced == r,
    {
        let next = acc.push(index);
        if residue_taken(acc, r, reduced) {
            let k = choose|k: int| 0 <= k < acc.len() && (#[trigger] acc[k]) as nat % reduced == r;
            assert(next[k] as nat % reduced == r);
        }
        if index as nat % reduced == r {
            assert(next[acc.len() as int] as nat % reduced == r);
        }
        if residue_taken(next, r, reduced) {
            let k = choose|k: int|
                0 <= k < next.len() && (#[trigger] next[k]) as nat % reduced == r;
            if k < acc.len() {
                assert(acc[k] as nat % reduced == r);
            }
        }
    }

    /// `count` indices below `size`, drawn from `seed` and a counter by
    /// hashing, and distinct modulo `reduced_size`. `NotEnoughEntropy`
    /// where `count` is above twice `reduced_size`, or `size` is zero, or
    /// the counter runs out; `TooManyIndices` where `count` is above
    /// `reduced_size`.
    pub fn sample_indices(seed: &UBig, size: u32, reduced_size: u32, count: u32) -> (r: Result<
        Vec<u32>,
        Error,
    >)
        ensures
            r matches Ok(v) ==> sample_spec(
                seed@,
                size as nat,
                reduced_size as nat,
                count as nat,
            ) == Ok::<Seq<u32>, Error>(v@),
            r matches Err(e) ==> sample_spec(
                seed@,
                size as nat,
                reduced_size as nat,
                count as nat,
            ) == Err::<Seq<u32>, Error>(e),
    {
        if count as u64 > 2 * (reduced_size as u64) {
            return Err(Error::NotEnoughEntropy);
        }
        if count > reduced_size {
            return Err(Error::TooManyIndices);
        }
        if size == 0 && count > 0 {
            return Err(Error::NotEnoughEntropy);
        }
        let modulus = IBig::from_u128(size as u128);
        let mut indices: Vec<u32> = Vec::new();
        let mut reduced_indices: HashMap<u32, bool> = HashMap::new();
        let mut counter: u64 = 0;
        while indices.len() < count as usize
            invariant
                modulus@ == size,
                count <= reduced_size,
                count > 0 ==> size > 0,
                counter <= 0x1_0000_0000,
                indices@.len() <= count,
                forall|r: u32|
                    #[trigger] reduced_indices@.contains_key(r) <==> residue_taken(
                        indices@,
                        r as nat,
                        reduced_size as nat,
                    ),
                sample_from(
                    seed@,
                    size as nat,
                    reduced_size as nat,
                    count as nat,
                    indices@,
                    counter as nat,
                ) == sample_from(
                    seed@,
                    size as nat,
                    reduced_size as nat,
                    count as nat,
                    Seq::empty(),
                    0,
                ),
            decreases 0x1_0000_0000 - counter,
        {
            if counter >= 0x1_0000_0000 {
                return Err(Error::NotEnoughEntropy);
            }
            let mut bytes = seed.to_bytes_le();
            let mut tail = UBig::from_u128(counter as u128).to_bytes_le();
            bytes.append(&mut tail);
            let hash = UBig::from_bytes_le(&digest(&bytes));
            let reduced = hash.to_bigint().rem(&modulus);
            proof {
                lemma_mod_bound(hash@ as int, size as int);
            }
            let index: u32 = reduced.to_u32().unwrap();
            assert(index == index_at(seed@, counter as nat, size as nat));
            let reduced_index: u32 = index % reduced_size;
            if !reduced_indices.contains_key(&reduced_index) {
                proof {
                    assert forall|r: u32|
                        residue_taken(indices@.push(index), r as nat, reduced_size as nat)
                            <==> residue_taken(indices@, r as nat, reduced_size as nat) || r
                            == reduced_index by {
                        Self::lemma_taken_push(indices@, index, r as nat, reduced_size as nat);
                    }
                }
                indices.push(index);
                reduced_indices.insert(reduced_index, true);
            }
            counter = counter + 1;
        }
        Ok(indices)
    }

    /// Completeness: in a prime field, with a domain and an expansion
    /// factor that are powers of two, an offset that is not zero and a
    /// primitive root of unity of the order of the domain, let `f` be a
    /// polynomial with at most `N / rho` coefficients and the codeword its
    /// values on the evaluation coset. Then `prove` finds the constants of
    /// the folding step, and what it writes to the transcript after `msgs`
    /// is accepted by `verify`, read from there. This holds where sampling
    /// the indices succeeds with `top`, and no challenge is one of the
    /// domain points that its round queries.
    pub proof fn law_completeness(params: Params, f: Seq<int>, msgs: Seq<Seq<nat>>, top: Seq<u32>)
        requires
            honest_setup(params),
            canonical(f, params.p),
            f.len() * params.rho <= params.len,
            prove_indices(params, values_on_coset(params, f), msgs) == Ok::<Seq<u32>, Error>(top),
            challenges_clear(
                params,
                prove_transcript(params, values_on_coset(params, f), msgs, top),
                msgs.len(),
                top,
            ),
        ensures
            params.foldable(),
            verify_spec(
                params,
                prove_transcript(params, values_on_coset(params, f), msgs, top),
                msgs.len(),
            ).is_ok(),
    {
        lemma_honest_is_sound(params);
        lemma_complete(params, f, msgs, top);
    }

    /// What acceptance means for the last codeword: where a transcript is
    /// verified, its last codeword hashes to the last root it committed
    /// to, and holds the values, on the last domain, of a polynomial whose
    /// degree is below the codeword's length over the expansion factor.
    pub proof fn law_accepted_last(params: Params, msgs: Seq<Seq<nat>>, start: nat)
        requires
            verify_spec(params, msgs, start).is_ok(),
        ensures
            heads_present(params, msgs, start),
            ({
                let last = msgs[(start + params.commits()) as int];
                &&& last.len() == last_len(params)
                &&& tree_root(last) == root_at(msgs, start, (params.commits() - 1) as nat)
                &&& exists|c: Seq<int>|
                    agrees(c, last_domain(params), last, params.p) && #[trigger] poly_degree(c)
                        <= last.len() / params.rho - 1
            }),
    {
        let last = msgs[(start + params.commits()) as int];
        let root = root_at(msgs, start, (params.commits() - 1) as nat);
        assert(check_last(params, root, last).is_ok());
        let c = poly_interpolate(last_domain(params), as_ints(last), params.p).unwrap();
        assert(agrees(c, last_domain(params), last, params.p) && poly_degree(c) <= last.len()
            / params.rho - 1);
    }

    /// What acceptance means for a query, in the setting of an honest
    /// proof but whoever wrote the transcript: where it is verified, the
    /// three values that query `j` of round `k` opens are authenticated by
    /// the roots of rounds `k` and `k + 1`, at the index of the query, half
    /// a length further, and the index again; and the third is, in the
    /// field, what folding the first two with the round's challenge gives.
    pub proof fn law_accepted_query(params: Params, msgs: Seq<Seq<nat>>, start: nat, k: nat, j: int)
        requires
            honest_setup(params),
            verify_spec(params, msgs, start).is_ok(),
            k < params.rounds(),
            0 <= j < verify_indices(params, msgs, start).unwrap().len(),
        ensures
            ({
                let top = verify_indices(params, msgs, start).unwrap();
                let base = start + params.commits() + 1 + k * (4 * top.len());
                let len = halved(params.len, k);
                let a = reduced_index(top[j], len);
                let values = msgs[base + j];
                let x = params.point(pow2(k), a);
                &&& values.len() >= 3
                &&& (values[2] as int) % params.p == fold_value(
                    values[0] as int,
                    values[1] as int,
                    alpha_at(params, msgs, start, k),
                    inverse(x, params.p),
                    inverse(2, params.p),
                    params.p,
                )
                &&& check_path(
                    root_at(msgs, start, k),
                    a,
                    msgs[base + top.len() + 3 * j],
                    values[0],
                ) == Ok::<bool, Error>(true)
                &&& check_path(
                    root_at(msgs, start, k),
                    a + len / 2,
                    msgs[base + top.len() + 3 * j + 1],
                    values[1],
                ) == Ok::<bool, Error>(true)
                &&& check_path(
                    root_at(msgs, start, k + 1),
                    a,
                    msgs[base + top.len() + 3 * j + 2],
                    values[2],
                ) == Ok::<bool, Error>(true)
            }),
    {
        lemma_honest_is_sound(params);
        lemma_accepted_query(params, msgs, start, k, j);
    }

    /// Sampling law: the indices that `sample_indices` gives are as many
    /// as were asked for, lie below `size`, and no two of them have the
    /// same residue modulo `reduced`.
    pub proof fn law_sampled_indices(seed: nat, size: nat, reduced: nat, count: nat)
        requires
            size <= 0x1_0000_0000,
        ensures
            sample_spec(seed, size, reduced, count) matches Ok(v) ==> v.len() == count
                && well_spread(v, size, reduced),
    {
        if count <= reduced && !(size == 0 && count > 0) {
            if count == 0 {
                assert(sample_from(seed, size, reduced, count, Seq::empty(), 0) == Ok::<
                    Seq<u32>,
                    Error,
                >(Seq::empty()));
            } else {
                lemma_sample_from(seed, size, reduced, count, Seq::empty(), 0);
            }
        }
    }

    /// One folding step: the codeword of half the length that `alpha`
    /// gives, in the round whose domain is the `e`-th power of the first.
    fn fold_codeword(
        &self,
        current: &Vec<UBig>,
        alpha: &IBig,
        e: usize,
        offset_inv_e: &IBig,
        inv_domain: &Vec<IBig>,
        two_inv: &IBig,
        Ghost(oinv): Ghost<int>,
        Ghost(winv): Ghost<int>,
    ) -> (next: Vec<UBig>)
        requires
            self.wf(),
            e >= 1,
            e * current@.len() <= self.domain_len,
            is_inverse(self.offset@, oinv, self.params().p),
            is_inverse(self.omega@, winv, self.params().p),
            two_inv@ == inverse(2, self.params().p),
            offset_inv_e@ == pow(oinv, e as nat) % self.params().p,
            inv_domain@.len() == self.domain_len,
            forall|j: int|
                0 <= j < inv_domain@.len() ==> (#[trigger] inv_domain@[j])@ == pow(winv, j as nat)
                    % self.params().p,
        ensures
            nats(next@) == fold(self.params(), nats(current@), alpha@, e as nat),
    {
        let ghost params = self.params();
        proof {
            lemma_commits_and_rounds(params.len, params.rho, params.count);
        }
        let ghost p = params.p;
        let ghost c = nats(current@);
        let half: usize = current.len() / 2;
        let one = Field::one();
        let mut next: Vec<UBig> = Vec::new();
        let mut k: usize = 0;
        while k < half
            invariant
                self.wf(),
                params == self.params(),
                p == params.p,
                c == nats(current@),
                half == current@.len() / 2,
                e >= 1,
                e * current@.len() <= self.domain_len,
                is_inverse(self.offset@, oinv, p),
                is_inverse(self.omega@, winv, p),
                two_inv@ == inverse(2, p),
                offset_inv_e@ == pow(oinv, e as nat) % p,
                inv_domain@.len() == self.domain_len,
                forall|j: int|
                    0 <= j < inv_domain@.len() ==> (#[trigger] inv_domain@[j])@ == pow(
                        winv,
                        j as nat,
                    ) % p,
                one@ == 1,
                k <= half,
                next@.len() == k,
                forall|j: int|
                    0 <= j < k ==> (#[trigger] next@[j])@ == fold(params, c, alpha@, e as nat)[j],
            decreases half - k,
        {
            assert(e * k < self.domain_len) by (nonlinear_arith)
                requires
                    k < half,
                    2 * half <= current@.len(),
                    e * current@.len() <= self.domain_len,
                    e >= 1,
            ;
            assert(half + k < current.len());
            let a = current[k].to_bigint();
            let b = current[half + k].to_bigint();
            let x_inv = self.field.mul(offset_inv_e, &inv_domain[e * k]);
            proof {
                lemma_inverse_of_powers(
                    self.offset@,
                    oinv,
                    e as nat,
                    self.omega@,
                    winv,
                    (e * k) as nat,
                    p,
                );
                lemma_mul_mod_noop_general(
                    pow(oinv, e as nat) % p,
                    pow(winv, (e * k) as nat) % p,
                    p,
                );
                assert(x_inv@ == inverse(params.point(e as nat, k as nat), p));
            }
            let t = alpha.times(&x_inv);
            let sum = one.plus(&t).times(&a).plus(&one.minus(&t).times(&b));
            let v = self.field.mul(two_inv, &sum);
            proof {
                lemma_mod_bound(two_inv@ * sum@, p);
                assert(v@ == fold_value(a@, b@, alpha@, x_inv@, two_inv@, p));
            }
            next.push(v.to_biguint().unwrap());
            k = k + 1;
        }
        assert(nats(next@) =~= fold(params, c, alpha@, e as nat));
        next
    }

    /// The commit phase: for each commitment the root of the codeword is
    /// written to the transcript, and the codeword is folded with a
    /// challenge drawn from the transcript; after the last commitment the
    /// codeword is written in full. Returns the codewords committed to.
    fn commit(
        &self,
        codeword: &Vec<UBig>,
        channel: &mut Channel,
        two_inv: &IBig,
        offset_inv: &IBig,
        omega_inv: &IBig,
    ) -> (codewords: Vec<Vec<UBig>>)
        requires
            self.wf(),
            old(channel).wf(),
            codeword@.len() == self.domain_len,
            two_inv@ == inverse(2, self.params().p),
            is_inverse(self.offset@, offset_inv@, self.params().p),
            is_inverse(self.omega@, omega_inv@, self.params().p),
        ensures
            final(channel).wf(),
            final(channel).cursor() == old(channel).cursor(),
            (nat_rows(codewords@), final(channel).messages()) == commit_from(
                self.params(),
                nats(codeword@),
                old(channel).messages(),
                1,
                self.commits(),
            ),
    {
        let ghost params = self.params();
        proof {
            lemma_commits_and_rounds(params.len, params.rho, params.count);
        }
        let ghost p = params.p;
        let ghost c0 = nats(codeword@);
        let ghost msgs0 = channel.messages();
        let ghost goal = commit_from(params, c0, msgs0, 1, self.commits());
        let ghost n = self.domain_len as nat;
        let inv_domain = self.field.domain(omega_inv, self.domain_len);
        let mut codewords: Vec<Vec<UBig>> = Vec::new();
        let mut current = UBig::clone_vec(codeword);
        let mut offset_inv_e = self.field.modd(offset_inv.clone());
        let mut e: usize = 1;
        let mut x: u32 = 0;
        proof {
            lemma_pow1(offset_inv@);
            assert(nat_rows(codewords@) + goal.0 =~= goal.0);
        }
        while x + 1 < self.commits
            invariant
                self.wf(),
                channel.wf(),
                channel.cursor() == old(channel).cursor(),
                params == self.params(),
                p == params.p,
                n == self.domain_len,
                goal == commit_from(params, c0, msgs0, 1, self.commits()),
                two_inv@ == inverse(2, p),
                is_inverse(self.offset@, offset_inv@, p),
                is_inverse(self.omega@, omega_inv@, p),
                inv_domain@.len() == self.domain_len,
                forall|j: int|
                    0 <= j < inv_domain@.len() ==> (#[trigger] inv_domain@[j])@ == pow(
                        omega_inv@,
                        j as nat,
                    ) % p,
                x < self.commits,
                e >= 1,
                e * current@.len() <= n,
                offset_inv_e@ == pow(offset_inv@, e as nat) % p,
                commit_count(current@.len() as nat, params.rho, params.count) == self.commits
                    - x,
                nat_rows(codewords@) + commit_from(
                    params,
                    nats(current@),
                    channel.messages(),
                    e as nat,
                    (self.commits - x) as nat,
                ).0 == goal.0,
                commit_from(
                    params,
                    nats(current@),
                    channel.messages(),
                    e as nat,
                    (self.commits - x) as nat,
                ).1 == goal.1,
            decreases self.commits - x,
        {
            let ghost c = nats(current@);
            let ghost msgs = channel.messages();
            let ghost left = (self.commits - x) as nat;
            proof {
                lemma_commit_count(c.len(), params.rho, params.count);
            }
            let root = Tree::commit(&current);
            channel.push_single(&root);
            let alpha = self.field.sample(&channel.prover_hash().to_bigint());
            let next = self.fold_codeword(
                &current,
                &alpha,
                e,
                &offset_inv_e,
                &inv_domain,
                two_inv,
                Ghost(offset_inv@),
                Ghost(omega_inv@),
            );
            proof {
                let with_root = msgs.push(seq![tree_root(c)]);
                let rest = commit_from(params, nats(next@), with_root, 2 * (e as nat), (left - 1) as nat);
                assert(commit_from(params, c, msgs, e as nat, left) == (seq![c] + rest.0, rest.1));
                assert(nat_rows(codewords@.push(current)) =~= nat_rows(codewords@).push(c));
                assert(nat_rows(codewords@).push(c) + rest.0 =~= nat_rows(codewords@) + (seq![c]
                    + rest.0));
                assert(2 * e * next@.len() <= n) by (nonlinear_arith)
                    requires
                        next@.len() == current@.len() / 2,
                        e * current@.len() <= n,
                        e >= 1,
                ;
                assert(2 * e <= n) by (nonlinear_arith)
                    requires
                        current@.len() >= 2,
                        e * current@.len() <= n,
                        e >= 1,
                ;
                let pe = pow(offset_inv@, e as nat);
                lemma_pow_adds(offset_inv@, e as nat, e as nat);
                lemma_mul_mod_noop_general(pe, pe, p);
            }
            codewords.push(current);
            current = next;
            offset_inv_e = self.field.mul(&offset_inv_e, &offset_inv_e);
            e = 2 * e;
            x = x + 1;
        }
        proof {
            lemma_commit_count(current@.len() as nat, params.rho, params.count);
        }
        let ghost c = nats(current@);
        let ghost msgs = channel.messages();
        let root = Tree::commit(&current);
        channel.push_single(&root);
        channel.push(&current);
        proof {
            assert(commit_from(params, c, msgs, e as nat, 1) == (
                seq![c],
                msgs.push(seq![tree_root(c)]).push(c),
            ));
            assert(nat_rows(codewords@.push(current)) =~= nat_rows(codewords@).push(c));
            assert(nat_rows(codewords@).push(c) =~= nat_rows(codewords@) + seq![c]);
        }
        codewords.push(current);
        codewords
    }

    /// One query round: for each index the three opened values are
    /// written to the transcript, then for each index the authentication
    /// paths of the three.
    fn query(
        &self,
        current_codeword: &Vec<UBig>,
        next_codeword: &Vec<UBig>,
        top_indices: &Vec<u32>,
        channel: &mut Channel,
        current_codeword_tree: &Vec<Vec<UBig>>,
        next_codeword_tree: &Vec<Vec<UBig>>,
    )
        requires
            old(channel).wf(),
            2 <= current_codeword@.len() <= u32::MAX,
            next_codeword@.len() == current_codeword@.len() / 2,
            nat_rows(current_codeword_tree@) == tree_levels(nats(current_codeword@)),
            nat_rows(next_codeword_tree@) == tree_levels(nats(next_codeword@)),
        ensures
            final(channel).wf(),
            final(channel).cursor() == old(channel).cursor(),
            final(channel).messages() == old(channel).messages() + query_round(
                nats(current_codeword@),
                nats(next_codeword@),
                top_indices@,
            ),
    {
        let ghost cur = nats(current_codeword@);
        let ghost next = nats(next_codeword@);
        let ghost top = top_indices@;
        let ghost msgs0 = channel.messages();
        let ghost triples = Seq::new(top.len(), |j: int| triple(cur, next, top[j]));
        let half: u32 = (current_codeword.len() / 2) as u32;
        proof {
            lemma_levels_are_tree(cur);
            lemma_levels_are_tree(next);
        }
        let mut j: usize = 0;
        assert(msgs0 + triples.take(0) =~= msgs0);
        while j < top_indices.len()
            invariant
                channel.wf(),
                channel.cursor() == old(channel).cursor(),
                cur == nats(current_codeword@),
                next == nats(next_codeword@),
                top == top_indices@,
                triples == Seq::new(top.len(), |j: int| triple(cur, next, top[j])),
                half == cur.len() / 2,
                half >= 1,
                next.len() == half,
                j <= top_indices.len(),
                channel.messages() == msgs0 + triples.take(j as int),
            decreases top_indices.len() - j,
        {
            let a: usize = (top_indices[j] % half) as usize;
            assert(a + half < current_codeword.len());
            let mut values: Vec<UBig> = Vec::new();
            values.push(current_codeword[a].clone());
            values.push(current_codeword[a + half as usize].clone());
            values.push(next_codeword[a].clone());
            assert(nats(values@) =~= triple(cur, next, top[j as int]));
            channel.push(&values);
            assert(msgs0 + triples.take(j as int + 1) =~= (msgs0 + triples.take(j as int)).push(
                triples[j as int],
            ));
            j = j + 1;
        }
        assert(triples.take(top.len() as int) =~= triples);
        let ghost paths = Seq::new(3 * top.len(), |t: int| opening(cur, next, top, t));
        let ghost base = msgs0 + triples;
        assert(base + paths.take(0) =~= base);
        let mut i: usize = 0;
        while i < top_indices.len()
            invariant
                channel.wf(),
                channel.cursor() == old(channel).cursor(),
                cur == nats(current_codeword@),
                next == nats(next_codeword@),
                top == top_indices@,
                paths == Seq::new(3 * top.len(), |t: int| opening(cur, next, top, t)),
                half == cur.len() / 2,
                half >= 1,
                next.len() == half,
                cur.len() <= u32::MAX,
                is_tree_of(current_codeword_tree, cur),
                is_tree_of(next_codeword_tree, next),
                i <= top_indices.len(),
                channel.messages() == base + paths.take(3 * i),
            decreases top_indices.len() - i,
        {
            let a: u32 = top_indices[i] % half;
            let ghost before = channel.messages();
            let path_a = Tree::open_at(current_codeword_tree, a).0;
            channel.push(&path_a);
            let path_b = Tree::open_at(current_codeword_tree, a + half).0;
            channel.push(&path_b);
            let path_c = Tree::open_at(next_codeword_tree, a).0;
            channel.push(&path_c);
            proof {
                let t = 3 * i as int;
                assert(paths[t] == nats(path_a@));
                assert(paths[t + 1] == nats(path_b@));
                assert(paths[t + 2] == nats(path_c@));
                assert(base + paths.take(t + 3) =~= (base + paths.take(t)).push(paths[t]).push(
                    paths[t + 1],
                ).push(paths[t + 2]));
            }
            i = i + 1;
        }
        assert(paths.take(3 * top.len() as int) =~= paths);
        assert(base + paths =~= msgs0 + (triples + paths));
    }

    /// Proves that `codeword`, the values of a polynomial on the
    /// evaluation coset, is of low degree: writes the commitments and the
    /// answers to the queries to the transcript and returns the top-level
    /// query indices. On failure the transcript is left as it was:
    /// `LenMismatch` where the codeword is not as long as the domain,
    /// `DivByZero` where 2, the offset or the root of unity has no
    /// inverse in the field, `NotEnoughEntropy` where no indices could be
    /// sampled.
    pub fn prove(&self, codeword: &Vec<UBig>, channel: &mut Channel) -> (r: Result<Vec<u32>, Error>)
        requires
            self.wf(),
            old(channel).wf(),
        ensures
            final(channel).wf(),
            final(channel).cursor() == old(channel).cursor(),
            codeword@.len() != self.params().len ==> r == Err::<Vec<u32>, Error>(Error::LenMismatch),
            codeword@.len() == self.params().len && !self.params().foldable() ==> r == Err::<
                Vec<u32>,
                Error,
            >(Error::DivByZero),
            codeword@.len() == self.params().len && self.params().foldable() ==> (match prove_indices(
                self.params(),
                nats(codeword@),
                old(channel).messages(),
            ) {
                Ok(top) => r matches Ok(v) && v@ == top,
                Err(e) => r == Err::<Vec<u32>, Error>(e),
            }),
            r matches Ok(v) ==> final(channel).messages() == prove_transcript(
                self.params(),
                nats(codeword@),
                old(channel).messages(),
                v@,
            ),
            r.is_err() ==> final(channel).messages() == old(channel).messages(),
    {
        let ghost params = self.params();
        proof {
            lemma_commits_and_rounds(params.len, params.rho, params.count);
        }
        let ghost c0 = nats(codeword@);
        let ghost msgs0 = channel.messages();
        if codeword.len() != self.domain_len as usize {
            return Err(Error::LenMismatch);
        }
        let two_inv = match self.field.inv(&IBig::from_i64(2)) {
            Ok(x) => x,
            Err(e) => {
                return Err(e);
            },
        };
        let offset_inv = match self.field.inv(&self.offset) {
            Ok(x) => x,
            Err(e) => {
                return Err(e);
            },
        };
        let omega_inv = match self.field.inv(&self.omega) {
            Ok(x) => x,
            Err(e) => {
                return Err(e);
            },
        };
        let start = channel.len();
        let codewords = self.commit(codeword, channel, &two_inv, &offset_inv, &omega_inv);
        let ghost cws = nat_rows(codewords@);
        proof {
            lemma_commit_shape(params, c0, msgs0, 1, self.commits());
            lemma_commits_halved(params.len, params.rho, params.count, (self.commits() - 1) as nat);
            assert(cws.last().len() == codewords@[codewords@.len() - 1]@.len());
        }
        let last_len = codewords[codewords.len() - 1].len();
        let top_indices = match Self::sample_indices(
            &channel.prover_hash(),
            self.domain_len / 2,
            last_len as u32,
            self.colinearity_test_count,
        ) {
            Ok(v) => v,
            Err(e) => {
                channel.truncate(start);
                return Err(e);
            },
        };
        let ghost committed = channel.messages();
        let mut trees: Vec<Vec<Vec<UBig>>> = Vec::new();
        let mut t: usize = 0;
        while t < codewords.len()
            invariant
                t <= codewords.len(),
                trees@.len() == t,
                forall|i: int|
                    0 <= i < t ==> nat_rows((#[trigger] trees@[i])@) == tree_levels(
                        nats(codewords@[i]@),
                    ),
            decreases codewords.len() - t,
        {
            trees.push(Tree::build(&codewords[t]));
            t = t + 1;
        }
        let mut i: usize = 0;
        assert(committed + query_rounds(cws, top_indices@, 0) =~= committed);
        while i + 1 < codewords.len()
            invariant
                self.wf(),
                params == self.params(),
                channel.wf(),
                channel.cursor() == old(channel).cursor(),
                cws == nat_rows(codewords@),
                cws.len() == self.commits(),
                forall|k: int|
                    0 <= k < cws.len() ==> (#[trigger] cws[k]).len() == halved(c0.len(), k as nat),
                c0.len() == params.len,
                trees@.len() == codewords@.len(),
                forall|k: int|
                    0 <= k < trees@.len() ==> nat_rows((#[trigger] trees@[k])@) == tree_levels(
                        nats(codewords@[k]@),
                    ),
                i < codewords.len(),
                channel.messages() == committed + query_rounds(cws, top_indices@, i as int),
            decreases codewords.len() - i,
        {
            proof {
                lemma_commits_and_rounds(params.len, params.rho, params.count);
                lemma_commits_halved(params.len, params.rho, params.count, i as nat);
                lemma_commit_count(halved(params.len, i as nat), params.rho, params.count);
                assert(cws[i as int].len() == halved(c0.len(), i as nat));
                assert(cws[i as int + 1].len() == halved(c0.len(), (i + 1) as nat));
                assert(cws[i as int] == nats(codewords@[i as int]@));
                assert(cws[i as int + 1] == nats(codewords@[i as int + 1]@));
            }
            let ghost before = channel.messages();
            self.query(
                &codewords[i],
                &codewords[i + 1],
                &top_indices,
                channel,
                &trees[i],
                &trees[i + 1],
            );
            assert(committed + query_rounds(cws, top_indices@, i as int + 1) =~= before
                + query_round(cws[i as int], cws[i as int + 1], top_indices@));
            i = i + 1;
        }
        Ok(top_indices)
    }

    /// Reads the root of each commitment, drawing a challenge after
    /// each, and then the last codeword. Returns roots, challenges and
    /// last codeword; `LenMismatch` where the transcript ends early or a
    /// root message is empty.
    fn read_heads(&self, channel: &mut Channel) -> (r: Result<
        (Vec<UBig>, Vec<IBig>, Vec<UBig>),
        Error,
    >)
        requires
            self.wf(),
            old(channel).wf(),
        ensures
            final(channel).wf(),
            final(channel).messages() == old(channel).messages(),
            final(channel).cursor() >= old(channel).cursor(),
            r.is_ok() <==> heads_present(
                self.params(),
                old(channel).messages(),
                old(channel).cursor(),
            ),
            r matches Err(e) ==> e == Error::LenMismatch,
            r matches Ok(h) ==> {
                &&& final(channel).cursor() == old(channel).cursor() + self.commits() + 1
                &&& h.0@.len() == self.commits()
                &&& h.1@.len() == self.commits()
                &&& forall|k: int|
                    0 <= k < self.commits() ==> (#[trigger] h.0@[k])@ == root_at(
                        old(channel).messages(),
                        old(channel).cursor(),
                        k as nat,
                    )
                &&& forall|k: int|
                    0 <= k < self.commits() ==> (#[trigger] h.1@[k])@ == alpha_at(
                        self.params(),
                        old(channel).messages(),
                        old(channel).cursor(),
                        k as nat,
                    )
                &&& nats(h.2@) == old(channel).messages()[(old(channel).cursor() + self.commits()) as int]
            },
    {
        let ghost params = self.params();
        proof {
            lemma_commits_and_rounds(params.len, params.rho, params.count);
        }
        let ghost msgs = channel.messages();
        let ghost start = channel.cursor();
        let mut roots: Vec<UBig> = Vec::new();
        let mut alphas: Vec<IBig> = Vec::new();
        let mut i: u32 = 0;
        while i < self.commits
            invariant
                self.wf(),
                params == self.params(),
                channel.wf(),
                channel.messages() == msgs,
                msgs == old(channel).messages(),
                start == old(channel).cursor(),
                channel.cursor() == start + i,
                i <= self.commits,
                roots@.len() == i,
                alphas@.len() == i,
                forall|k: int| start <= k < start + i ==> (#[trigger] msgs[k]).len() >= 1,
                forall|k: int|
                    0 <= k < i ==> (#[trigger] roots@[k])@ == root_at(msgs, start, k as nat),
                forall|k: int|
                    0 <= k < i ==> (#[trigger] alphas@[k])@ == alpha_at(
                        params,
                        msgs,
                        start,
                        k as nat,
                    ),
            decreases self.commits - i,
        {
            let message = match channel.pull() {
                Some(m) => m,
                None => {
                    return Err(Error::LenMismatch);
                },
            };
            if message.len() == 0 {
                assert(msgs[start + i].len() == 0);
                return Err(Error::LenMismatch);
            }
            assert(nats(message@)[0] == message@[0]@);
            roots.push(message[0].clone());
            alphas.push(self.field.sample(&channel.verifier_hash().to_bigint()));
            i = i + 1;
        }
        let last = match channel.pull() {
            Some(m) => m,
            None => {
                return Err(Error::LenMismatch);
            },
        };
        Ok((roots, alphas, last))
    }

    /// The checks on the last codeword against the last root.
    fn check_last_codeword(&self, root: &UBig, last: &Vec<UBig>, omega_domain: &Vec<IBig>) -> (r:
        Result<bool, Error>)
        requires
            self.wf(),
            omega_domain@.len() == self.domain_len,
            forall|j: int|
                0 <= j < omega_domain@.len() ==> (#[trigger] omega_domain@[j])@ == pow(
                    self.omega@,
                    j as nat,
                ) % self.params().p,
        ensures
            r == check_last(self.params(), root@, nats(last@)),
    {
        let ghost params = self.params();
        proof {
            lemma_commits_and_rounds(params.len, params.rho, params.count);
        }
        let ghost p = params.p;
        let ghost n = self.domain_len as nat;
        let mut e: usize = 1;
        let mut len: u32 = self.domain_len;
        let mut last_offset = self.field.modd(self.offset.clone());
        let mut i: u32 = 1;
        proof {
            lemma_pow1(self.offset@);
            assert(pow2(0) == 1) by {
                vstd::arithmetic::power2::lemma2_to64();
            }
        }
        while i < self.commits
            invariant
                self.wf(),
                params == self.params(),
                p == params.p,
                n == self.domain_len,
                1 <= i <= self.commits,
                e == pow2((i - 1) as nat),
                e >= 1,
                len == halved(n, (i - 1) as nat),
                e * len <= n,
                last_offset@ == pow(self.offset@, e as nat) % p,
                commit_count(len as nat, params.rho, params.count) == self.commits - (i - 1),
            decreases self.commits - i,
        {
            proof {
                lemma_commit_count(len as nat, params.rho, params.count);
                lemma_pow2_unfold(i as nat);
                assert(2 * e * (len / 2) <= n) by (nonlinear_arith)
                    requires
                        e * len <= n,
                        e >= 1,
                ;
                assert(2 * e <= n) by (nonlinear_arith)
                    requires
                        len >= 2,
                        e * len <= n,
                        e >= 1,
                ;
                let pe = pow(self.offset@, e as nat);
                lemma_pow_adds(self.offset@, e as nat, e as nat);
                lemma_mul_mod_noop_general(pe, pe, p);
            }
            e = 2 * e;
            len = len / 2;
            last_offset = self.field.mul(&last_offset, &last_offset);
            i = i + 1;
        }
        proof {
            lemma_commit_count(len as nat, params.rho, params.count);
            assert(e < n) by (nonlinear_arith)
                requires
                    len >= 2,
                    e * len <= n,
                    e >= 1,
            ;
        }
        if last.len() == 0 {
            return Err(Error::LenMismatch);
        }
        if !Tree::commit(last).same(root) {
            return Err(Error::LastRootMismatch);
        }
        if last.len() != len as usize {
            return Err(Error::LenMismatch);
        }
        let w = &omega_domain[e];
        let w_inv = match self.field.inv(w) {
            Ok(x) => x,
            Err(err) => {
                return Err(err);
            },
        };
        let exponent = IBig::from_u128((last.len() - 1) as u128);
        if !w_inv.same(&self.field.exp(w, &exponent)) {
            return Err(Error::OmegaOrder);
        }
        let mut domain: Vec<IBig> = Vec::new();
        let mut values: Vec<IBig> = Vec::new();
        let mut k: usize = 0;
        while k < last.len()
            invariant
                self.wf(),
                params == self.params(),
                p == params.p,
                n == self.domain_len,
                e == last_power(params),
                e >= 1,
                len == last_len(params),
                last@.len() == len,
                e * len <= n,
                last_offset@ == pow(self.offset@, e as nat) % p,
                omega_domain@.len() == self.domain_len,
                forall|j: int|
                    0 <= j < omega_domain@.len() ==> (#[trigger] omega_domain@[j])@ == pow(
                        self.omega@,
                        j as nat,
                    ) % p,
                k <= last.len(),
                domain@.len() == k,
                values@.len() == k,
                forall|j: int|
                    0 <= j < k ==> (#[trigger] domain@[j])@ == params.point(e as nat, j as nat),
                forall|j: int| 0 <= j < k ==> (#[trigger] values@[j])@ == last@[j]@,
            decreases last.len() - k,
        {
            assert(e * k < n) by (nonlinear_arith)
                requires
                    k < len,
                    e * len <= n,
                    e >= 1,
            ;
            proof {
                lemma_mul_mod_noop_general(
                    pow(self.offset@, e as nat),
                    pow(self.omega@, (e * k) as nat),
                    p,
                );
            }
            domain.push(self.field.mul(&last_offset, &omega_domain[e * k]));
            values.push(last[k].to_bigint());
            k = k + 1;
        }
        assert(ints(domain@) =~= last_domain(params));
        assert(ints(values@) =~= as_ints(nats(last@)));
        let poly = match Polynomial::interpolate_fft(&domain, &values, &self.field) {
            Ok(x) => x,
            Err(err) => {
                return Err(err);
            },
        };
        let ghost c = poly@;
        let ghost rest: Result<bool, Error> = if !agrees(c, last_domain(params), nats(last@), p) {
            Err(Error::InterpDisagreement)
        } else if poly_degree(c) > last@.len() / params.rho - 1 {
            Err(Error::InterpDegreeTooHigh)
        } else {
            Ok(true)
        };
        assert(check_last(params, root@, nats(last@)) == rest);
        let mut t: usize = 0;
        while t < last.len()
            invariant
                self.wf(),
                params == self.params(),
                p == params.p,
                check_last(params, root@, nats(last@)) == rest,
                rest == if !agrees(c, last_domain(params), nats(last@), p) {
                    Err::<bool, Error>(Error::InterpDisagreement)
                } else if poly_degree(c) > last@.len() / params.rho - 1 {
                    Err::<bool, Error>(Error::InterpDegreeTooHigh)
                } else {
                    Ok::<bool, Error>(true)
                },
                last@.len() > params.rho,
                params.rho >= 1,
                self.expansion_factor == params.rho,
                poly.wf(),
                poly.field() == *self.field,
                c == poly@,
                domain@.len() == last@.len(),
                values@.len() == last@.len(),
                ints(domain@) == last_domain(params),
                forall|j: int| 0 <= j < last@.len() ==> (#[trigger] values@[j])@ == last@[j]@,
                t <= last.len(),
                forall|j: int|
                    0 <= j < t ==> poly_eval(c, #[trigger] last_domain(params)[j], p) == nats(
                        last@,
                    )[j],
            decreases last.len() - t,
        {
            assert(ints(domain@)[t as int] == domain@[t as int]@);
            if !poly.eval(&domain[t]).same(&values[t]) {
                assert(poly_eval(c, last_domain(params)[t as int], p) != nats(last@)[t as int]);
                return Err(Error::InterpDisagreement);
            }
            t = t + 1;
        }
        assert(agrees(c, last_domain(params), nats(last@), p));
        assert(last@.len() / (self.expansion_factor as nat) >= 1) by (nonlinear_arith)
            requires
                last@.len() > self.expansion_factor,
                self.expansion_factor >= 1,
        ;
        let bound: usize = last.len() / (self.expansion_factor as usize) - 1;
        if poly.degree() > bound {
            return Err(Error::InterpDegreeTooHigh);
        }
        Ok(true)
    }

    /// Once an authentication path among the first `t` has failed, the
    /// check of any more fails in the same way.
    proof fn lemma_openings_stop(
        msgs: Seq<Seq<nat>>,
        paths: nat,
        triples: nat,
        root: nat,
        root_next: nat,
        top: Seq<u32>,
        len: nat,
        t: int,
        n: int,
    )
        requires
            0 <= t <= n,
            openings_ok(msgs, paths, triples, root, root_next, top, len, t).is_err(),
        ensures
            openings_ok(msgs, paths, triples, root, root_next, top, len, n) == openings_ok(
                msgs,
                paths,
                triples,
                root,
                root_next,
                top,
                len,
                t,
            ),
        decreases n - t,
    {
        if t < n {
            Self::lemma_openings_stop(msgs, paths, triples, root, root_next, top, len, t, n - 1);
        }
    }

    /// Reads one authentication path and checks that it leads from
    /// `leaf` at `index` to `root`.
    fn check_opening(channel: &mut Channel, root: &UBig, index: u32, leaf: &UBig) -> (r: Result<
        bool,
        Error,
    >)
        requires
            old(channel).wf(),
        ensures
            final(channel).wf(),
            final(channel).messages() == old(channel).messages(),
            final(channel).cursor() >= old(channel).cursor(),
            r.is_ok() ==> final(channel).cursor() == old(channel).cursor() + 1,
            r == if old(channel).cursor() >= old(channel).messages().len() {
                Err::<bool, Error>(Error::LenMismatch)
            } else if check_path(
                root@,
                index as nat,
                old(channel).messages()[old(channel).cursor() as int],
                leaf@,
            ).is_err() {
                Err::<bool, Error>(Error::MerklePathFailed)
            } else {
                Ok::<bool, Error>(true)
            },
    {
        let path = match channel.pull() {
            Some(m) => m,
            None => {
                return Err(Error::LenMismatch);
            },
        };
        match Tree::verify(root, index, &path, leaf) {
            Ok(_) => Ok(true),
            Err(_) => Err(Error::MerklePathFailed),
        }
    }

    /// One query round of the verifier: reads the triples, tests them for
    /// colinearity, then reads and checks the authentication paths.
    /// Returns the triples.
    fn check_query_round(
        &self,
        channel: &mut Channel,
        root: &UBig,
        root_next: &UBig,
        alpha: &IBig,
        top: &Vec<u32>,
        e: usize,
        len: u32,
        offset_e: &IBig,
        omega_domain: &Vec<IBig>,
    ) -> (r: Result<Vec<Vec<UBig>>, Error>)
        requires
            self.wf(),
            old(channel).wf(),
            len >= 2,
            e >= 1,
            e * len <= self.domain_len,
            offset_e@ == pow(self.offset@, e as nat) % self.params().p,
            omega_domain@.len() == self.domain_len,
            forall|j: int|
                0 <= j < omega_domain@.len() ==> (#[trigger] omega_domain@[j])@ == pow(
                    self.omega@,
                    j as nat,
                ) % self.params().p,
        ensures
            final(channel).wf(),
            final(channel).messages() == old(channel).messages(),
            final(channel).cursor() >= old(channel).cursor(),
            r matches Err(err) ==> check_round(
                self.params(),
                old(channel).messages(),
                old(channel).cursor(),
                root@,
                root_next@,
                alpha@,
                top@,
                e as nat,
                len as nat,
            ) == Err::<bool, Error>(err),
            r matches Ok(tr) ==> {
                &&& check_round(
                    self.params(),
                    old(channel).messages(),
                    old(channel).cursor(),
                    root@,
                    root_next@,
                    alpha@,
                    top@,
                    e as nat,
                    len as nat,
                ) == Ok::<bool, Error>(true)
                &&& final(channel).cursor() == old(channel).cursor() + 4 * top@.len()
                &&& tr@.len() == top@.len()
                &&& forall|j: int|
                    0 <= j < top@.len() ==> nats((#[trigger] tr@[j])@) == old(channel).messages()[old(
                        channel,
                    ).cursor() + j]
                &&& triples_present(old(channel).messages(), old(channel).cursor(), top@.len())
            },
    {
        let ghost params = self.params();
        proof {
            lemma_commits_and_rounds(params.len, params.rho, params.count);
        }
        let ghost p = params.p;
        let ghost msgs = channel.messages();
        let ghost base = channel.cursor();
        let ghost count = top@.len();
        let half: u32 = len / 2;
        let mut triples: Vec<Vec<UBig>> = Vec::new();
        let mut xs: Vec<Vec<IBig>> = Vec::new();
        let mut ys: Vec<Vec<IBig>> = Vec::new();
        let mut j: usize = 0;
        while j < top.len()
            invariant
                self.wf(),
                params == self.params(),
                p == params.p,
                channel.wf(),
                channel.messages() == msgs,
                msgs == old(channel).messages(),
                base == old(channel).cursor(),
                channel.cursor() == base + j,
                count == top@.len(),
                half == len / 2,
                half >= 1,
                e >= 1,
                e * len <= self.domain_len,
                offset_e@ == pow(self.offset@, e as nat) % p,
                omega_domain@.len() == self.domain_len,
                forall|i: int|
                    0 <= i < omega_domain@.len() ==> (#[trigger] omega_domain@[i])@ == pow(
                        self.omega@,
                        i as nat,
                    ) % p,
                j <= top.len(),
                triples@.len() == j,
                xs@.len() == j,
                ys@.len() == j,
                forall|k: int| base <= k < base + j ==> (#[trigger] msgs[k]).len() >= 3,
                forall|i: int| 0 <= i < j ==> nats((#[trigger] triples@[i])@) == msgs[base + i],
                forall|i: int|
                    0 <= i < j ==> ints((#[trigger] xs@[i])@) == query_xs(
                        params,
                        alpha@,
                        top@[i],
                        e as nat,
                        len as nat,
                    ),
                forall|i: int| 0 <= i < j ==> ints((#[trigger] ys@[i])@) == query_ys(msgs[base + i]),
            decreases top.len() - j,
        {
            let message = match channel.pull() {
                Some(m) => m,
                None => {
                    return Err(Error::LenMismatch);
                },
            };
            if message.len() < 3 {
                assert(msgs[base + j].len() < 3);
                return Err(Error::LenMismatch);
            }
            let a: u32 = top[j] % half;
            let b: u32 = a + half;
            assert(e * a < self.domain_len && e * b < self.domain_len) by (nonlinear_arith)
                requires
                    a < half,
                    b == a + half,
                    2 * half <= len,
                    e * len <= self.domain_len,
                    e >= 1,
            ;
            proof {
                lemma_mul_mod_noop_general(
                    pow(self.offset@, e as nat),
                    pow(self.omega@, (e * a) as nat),
                    p,
                );
                lemma_mul_mod_noop_general(
                    pow(self.offset@, e as nat),
                    pow(self.omega@, (e * b) as nat),
                    p,
                );
            }
            let ax = self.field.mul(offset_e, &omega_domain[e * (a as usize)]);
            let bx = self.field.mul(offset_e, &omega_domain[e * (b as usize)]);
            let mut x: Vec<IBig> = Vec::new();
            x.push(ax);
            x.push(bx);
            x.push(alpha.clone());
            let mut y: Vec<IBig> = Vec::new();
            y.push(message[0].to_bigint());
            y.push(message[1].to_bigint());
            y.push(message[2].to_bigint());
            proof {
                assert(ints(x@) =~= query_xs(params, alpha@, top@[j as int], e as nat, len as nat));
                assert(nats(message@)[0] == message@[0]@);
                assert(nats(message@)[1] == message@[1]@);
                assert(nats(message@)[2] == message@[2]@);
                assert(ints(y@) =~= query_ys(msgs[base + j]));
            }
            xs.push(x);
            ys.push(y);
            triples.push(message);
            j = j + 1;
        }
        assert(triples_present(msgs, base, count));
        let ghost sx = Seq::new(count, |j: int| query_xs(params, alpha@, top@[j], e as nat, len as nat));
        let ghost sy = Seq::new(count, |j: int| query_ys(msgs[base + j]));
        assert(int_rows(xs@) =~= sx);
        assert(int_rows(ys@) =~= sy);
        match Polynomial::test_colinearity_batch(&xs, &ys, &self.field) {
            Ok(true) => {},
            Ok(false) => {
                return Err(Error::ColinearityFailed);
            },
            Err(err) => {
                return Err(err);
            },
        }
        let ghost paths = base + count;
        let mut i: usize = 0;
        while i < top.len()
            invariant
                channel.wf(),
                channel.messages() == msgs,
                msgs == old(channel).messages(),
                base == old(channel).cursor(),
                triples_present(msgs, base, count),
                poly_colinear_batch(
                    Seq::new(
                        count,
                        |j: int| query_xs(self.params(), alpha@, top@[j], e as nat, len as nat),
                    ),
                    Seq::new(count, |j: int| query_ys(msgs[base + j])),
                    self.params().p,
                ) == Ok::<bool, Error>(true),
                channel.cursor() == paths + 3 * i,
                paths == base + count,
                count == top@.len(),
                half == len / 2,
                half >= 1,
                2 * half <= len,
                i <= top.len(),
                triples@.len() == count,
                forall|k: int| base <= k < base + count ==> (#[trigger] msgs[k]).len() >= 3,
                forall|k: int| 0 <= k < count ==> nats((#[trigger] triples@[k])@) == msgs[base + k],
                openings_ok(msgs, paths, base, root@, root_next@, top@, len as nat, 3 * i)
                    == Ok::<bool, Error>(true),
            decreases top.len() - i,
        {
            let a: u32 = top[i] % half;
            let b: u32 = a + half;
            let values = &triples[i];
            let ghost t = 3 * i as int;
            proof {
                assert(nats(values@) == msgs[base + i]);
                assert(msgs[base + i].len() >= 3);
                assert(nats(values@)[0] == values@[0]@);
                assert(nats(values@)[1] == values@[1]@);
                assert(nats(values@)[2] == values@[2]@);
                assert(t / 3 == i && (t + 1) / 3 == i && (t + 2) / 3 == i);
                assert(t % 3 == 0 && (t + 1) % 3 == 1 && (t + 2) % 3 == 2);
            }
            match Self::check_opening(channel, root, a, &values[0]) {
                Ok(_) => {},
                Err(err) => {
                    proof {
                        assert(opening_ok(msgs, paths, base, root@, root_next@, top@, len as nat, t)
                            == Err::<bool, Error>(err));
                        Self::lemma_openings_stop(
                            msgs,
                            paths,
                            base,
                            root@,
                            root_next@,
                            top@,
                            len as nat,
                            t + 1,
                            3 * count as int,
                        );
                    }
                    return Err(err);
                },
            }
            match Self::check_opening(channel, root, b, &values[1]) {
                Ok(_) => {},
                Err(err) => {
                    proof {
                        assert(opening_ok(
                            msgs,
                            paths,
                            base,
                            root@,
                            root_next@,
                            top@,
                            len as nat,
                            t + 1,
                        ) == Err::<bool, Error>(err));
                        Self::lemma_openings_stop(
                            msgs,
                            paths,
                            base,
                            root@,
                            root_next@,
                            top@,
                            len as nat,
                            t + 2,
                            3 * count as int,
                        );
                    }
                    return Err(err);
                },
            }
            match Self::check_opening(channel, root_next, a, &values[2]) {
                Ok(_) => {},
                Err(err) => {
                    proof {
                        assert(opening_ok(
                            msgs,
                            paths,
                            base,
                            root@,
                            root_next@,
                            top@,
                            len as nat,
                            t + 2,
                        ) == Err::<bool, Error>(err));
                        Self::lemma_openings_stop(
                            msgs,
                            paths,
                            base,
                            root@,
                            root_next@,
                            top@,
                            len as nat,
                            t + 3,
                            3 * count as int,
                        );
                    }
                    return Err(err);
                },
            }
            proof {
                assert(opening_ok(msgs, paths, base, root@, root_next@, top@, len as nat, t)
                    == Ok::<bool, Error>(true));
                assert(opening_ok(msgs, paths, base, root@, root_next@, top@, len as nat, t + 1)
                    == Ok::<bool, Error>(true));
                assert(opening_ok(msgs, paths, base, root@, root_next@, top@, len as nat, t + 2)
                    == Ok::<bool, Error>(true));
                assert(openings_ok(msgs, paths, base, root@, root_next@, top@, len as nat, t + 1)
                    == Ok::<bool, Error>(true));
                assert(openings_ok(msgs, paths, base, root@, root_next@, top@, len as nat, t + 2)
                    == Ok::<bool, Error>(true));
            }
            i = i + 1;
        }
        Ok(triples)
    }

    /// The openings of the first round, from its triples.
    fn collect_openings(&self, top: &Vec<u32>, triples: &Vec<Vec<UBig>>, Ghost(msgs): Ghost<
        Seq<Seq<nat>>,
    >, Ghost(base): Ghost<nat>) -> (out: Vec<(u32, UBig)>)
        requires
            self.wf(),
            self.commits() >= 2,
            triples@.len() == top@.len(),
            forall|j: int| 0 <= j < top@.len() ==> nats((#[trigger] triples@[j])@) == msgs[base + j],
            forall|k: int| base <= k < base + top@.len() ==> (#[trigger] msgs[k]).len() >= 3,
        ensures
            opened(out@) == first_openings(self.params(), msgs, base, top@),
    {
        let ghost params = self.params();
        proof {
            lemma_commits_and_rounds(params.len, params.rho, params.count);
        }
        proof {
            lemma_commit_count(params.len, params.rho, params.count);
        }
        let half: u32 = self.domain_len / 2;
        let mut out: Vec<(u32, UBig)> = Vec::new();
        let mut j: usize = 0;
        while j < top.len()
            invariant
                params == self.params(),
                params.commits() >= 2,
                half == params.len / 2,
                half >= 1,
                2 * half <= self.domain_len,
                triples@.len() == top@.len(),
                forall|j: int|
                    0 <= j < top@.len() ==> nats((#[trigger] triples@[j])@) == msgs[base + j],
                forall|k: int| base <= k < base + top@.len() ==> (#[trigger] msgs[k]).len() >= 3,
                j <= top.len(),
                out@.len() == 2 * j,
                forall|t: int|
                    0 <= t < 2 * j ==> ((#[trigger] out@[t]).0, out@[t].1@) == first_openings(
                        params,
                        msgs,
                        base,
                        top@,
                    )[t],
            decreases top.len() - j,
        {
            let a: u32 = top[j] % half;
            let values = &triples[j];
            proof {
                assert(nats(values@) == msgs[base + j]);
                assert(msgs[base + j].len() >= 3);
                assert(nats(values@)[0] == values@[0]@);
                assert(nats(values@)[1] == values@[1]@);
                let t = 2 * j as int;
                assert(t / 2 == j && (t + 1) / 2 == j && t % 2 == 0 && (t + 1) % 2 == 1);
            }
            out.push((a, values[0].clone()));
            out.push((a + half, values[1].clone()));
            j = j + 1;
        }
        assert(opened(out@) =~= first_openings(params, msgs, base, top@));
        out
    }

    /// The verification proper; where it fails it leaves the transcript
    /// read up to the failure.
    fn verify_inner(&self, channel: &mut Channel) -> (r: Result<Vec<(u32, UBig)>, Error>)
        requires
            self.wf(),
            old(channel).wf(),
        ensures
            final(channel).wf(),
            final(channel).messages() == old(channel).messages(),
            final(channel).cursor() >= old(channel).cursor(),
            r matches Err(e) ==> verify_spec(
                self.params(),
                old(channel).messages(),
                old(channel).cursor(),
            ) == Err::<Seq<(u32, nat)>, Error>(e),
            r matches Ok(v) ==> {
                &&& verify_spec(self.params(), old(channel).messages(), old(channel).cursor())
                    == Ok::<Seq<(u32, nat)>, Error>(opened(v@))
                &&& verify_indices(
                    self.params(),
                    old(channel).messages(),
                    old(channel).cursor(),
                ) matches Ok(top) && final(channel).cursor() == old(channel).cursor() + verify_reads(
                    self.params(),
                    top.len(),
                )
            },
    {
        let ghost params = self.params();
        proof {
            lemma_commits_and_rounds(params.len, params.rho, params.count);
        }
        let ghost p = params.p;
        let ghost msgs = channel.messages();
        let ghost start = channel.cursor();
        let ghost n = self.domain_len as nat;
        let heads = match self.read_heads(channel) {
            Ok(h) => h,
            Err(e) => {
                return Err(e);
            },
        };
        let roots = heads.0;
        let alphas = heads.1;
        let last = heads.2;
        let rounds = self.commits as usize;
        let omega_domain = self.field.domain(&self.omega, self.domain_len);
        match self.check_last_codeword(&roots[rounds - 1], &last, &omega_domain) {
            Ok(_) => {},
            Err(e) => {
                return Err(e);
            },
        }
        proof {
            lemma_commits_halved(params.len, params.rho, params.count, (self.commits() - 1) as nat);
        }
        let top = match Self::sample_indices(
            &channel.verifier_hash(),
            self.domain_len / 2,
            last.len() as u32,
            self.colinearity_test_count,
        ) {
            Ok(v) => v,
            Err(e) => {
                return Err(e);
            },
        };
        let ghost base = start + self.commits() + 1;
        let ghost goal = check_rounds(params, msgs, base, start, top@, 0, 1, n);
        let mut out: Vec<(u32, UBig)> = Vec::new();
        let mut i: usize = 0;
        let mut e: usize = 1;
        let mut len: u32 = self.domain_len;
        let mut offset_e = self.field.modd(self.offset.clone());
        proof {
            lemma_pow1(self.offset@);
            assert(opened(out@) =~= Seq::<(u32, nat)>::empty());
        }
        while i + 1 < rounds
            invariant
                self.wf(),
                params == self.params(),
                p == params.p,
                n == self.domain_len,
                rounds == self.commits,
                channel.wf(),
                channel.messages() == msgs,
                msgs == old(channel).messages(),
                start == old(channel).cursor(),
                heads_present(params, msgs, start),
                check_last(
                    params,
                    root_at(msgs, start, (self.commits() - 1) as nat),
                    msgs[(start + self.commits()) as int],
                ).is_ok(),
                verify_indices(params, msgs, start) == Ok::<Seq<u32>, Error>(top@),
                channel.cursor() == base + 4 * i * top@.len(),
                base == start + self.commits() + 1,
                goal == check_rounds(params, msgs, base, start, top@, 0, 1, n),
                roots@.len() == rounds,
                alphas@.len() == rounds,
                forall|k: int|
                    0 <= k < rounds ==> (#[trigger] roots@[k])@ == root_at(msgs, start, k as nat),
                forall|k: int|
                    0 <= k < rounds ==> (#[trigger] alphas@[k])@ == alpha_at(
                        params,
                        msgs,
                        start,
                        k as nat,
                    ),
                omega_domain@.len() == self.domain_len,
                forall|j: int|
                    0 <= j < omega_domain@.len() ==> (#[trigger] omega_domain@[j])@ == pow(
                        self.omega@,
                        j as nat,
                    ) % p,
                i < rounds,
                e >= 1,
                e * len <= n,
                offset_e@ == pow(self.offset@, e as nat) % p,
                commit_count(len as nat, params.rho, params.count) == rounds - i,
                check_rounds(
                    params,
                    msgs,
                    channel.cursor(),
                    start,
                    top@,
                    i as nat,
                    e as nat,
                    len as nat,
                ) == goal,
                i == 0 ==> out@.len() == 0,
                i >= 1 ==> opened(out@) == first_openings(params, msgs, base, top@),
            decreases rounds - i,
        {
            let ghost here = channel.cursor();
            proof {
                lemma_commit_count(len as nat, params.rho, params.count);
            }
            let triples = match self.check_query_round(
                channel,
                &roots[i],
                &roots[i + 1],
                &alphas[i],
                &top,
                e,
                len,
                &offset_e,
                &omega_domain,
            ) {
                Ok(t) => t,
                Err(err) => {
                    return Err(err);
                },
            };
            if i == 0 {
                proof {
                    assert(4 * i * top@.len() == 0) by (nonlinear_arith)
                        requires
                            i == 0,
                    ;
                    assert(here == base);
                }
                out = self.collect_openings(&top, &triples, Ghost(msgs), Ghost(base));
            }
            proof {
                assert(2 * e * (len / 2) <= n) by (nonlinear_arith)
                    requires
                        e * len <= n,
                        e >= 1,
                ;
                assert(2 * e <= n) by (nonlinear_arith)
                    requires
                        len >= 2,
                        e * len <= n,
                        e >= 1,
                ;
                let pe = pow(self.offset@, e as nat);
                lemma_pow_adds(self.offset@, e as nat, e as nat);
                lemma_mul_mod_noop_general(pe, pe, p);
                assert(4 * (i + 1) * top@.len() == 4 * i * top@.len() + 4 * top@.len())
                    by (nonlinear_arith);
            }
            offset_e = self.field.mul(&offset_e, &offset_e);
            e = 2 * e;
            len = len / 2;
            i = i + 1;
        }
        proof {
            assert(4 * i * top@.len() == (self.commits() - 1) * 4 * top@.len()) by (nonlinear_arith)
                requires
                    i == self.commits() - 1,
            ;
            assert(goal == Ok::<bool, Error>(true));
            if self.commits() < 2 {
                assert(opened(out@) =~= first_openings(params, msgs, base, top@));
            }
            assert(verify_spec(params, msgs, start) == Ok::<Seq<(u32, nat)>, Error>(opened(out@)));
        }
        Ok(out)
    }

    /// Verifies the proof that the transcript holds from the read
    /// position on, and returns the openings of the first round: for each
    /// query the index and value of the two points of the first codeword.
    /// The checks come in this order. `LenMismatch`: the transcript ends
    /// early, or a root message or the last codeword is empty.
    /// `LastRootMismatch`: the last codeword does not hash to the last
    /// root. `LenMismatch`: it has another length than the rounds leave.
    /// `DivByZero`, `OmegaOrder`, what the interpolation fails with,
    /// `InterpDisagreement`, `InterpDegreeTooHigh`: the last codeword.
    /// `NotEnoughEntropy`: no indices could be sampled. Then for each
    /// round `ColinearityFailed` (or what the interpolation of a triple
    /// fails with) and `MerklePathFailed`. On failure the read position
    /// is left where it was.
    pub fn verify(&self, channel: &mut Channel) -> (r: Result<Vec<(u32, UBig)>, Error>)
        requires
            self.wf(),
            old(channel).wf(),
        ensures
            final(channel).wf(),
            final(channel).messages() == old(channel).messages(),
            r matches Err(e) ==> final(channel).cursor() == old(channel).cursor() && verify_spec(
                self.params(),
                old(channel).messages(),
                old(channel).cursor(),
            ) == Err::<Seq<(u32, nat)>, Error>(e),
            r matches Ok(v) ==> {
                &&& verify_spec(self.params(), old(channel).messages(), old(channel).cursor())
                    == Ok::<Seq<(u32, nat)>, Error>(opened(v@))
                &&& verify_indices(
                    self.params(),
                    old(channel).messages(),
                    old(channel).cursor(),
                ) matches Ok(top) && final(channel).cursor() == old(channel).cursor() + verify_reads(
                    self.params(),
                    top.len(),
                )
            },
    {
        let start = channel.position();
        match self.verify_inner(channel) {
            Ok(v) => Ok(v),
            Err(e) => {
                channel.rewind(start);
                Err(e)
            },
        }
    }
}

/// The levels are those of the tree over `leaves`.
pub open spec fn is_tree_of(levels: &Vec<Vec<UBig>>, leaves: Seq<nat>) -> bool {
    nat_rows(levels@) == tree_levels(leaves)
}

/// The opened positions as plain values.
pub open spec fn opened(v: Seq<(u32, UBig)>) -> Seq<(u32, nat)> {
    v.map_values(|x: (u32, UBig)| (x.0, x.1@))
}

} // verus!
