//! An honest proof is accepted: the transcript that the prover writes for
//! the values of a polynomial of low degree passes every check of the
//! verifier.
use vstd::arithmetic::div_mod::*;
use vstd::arithmetic::power::*;
use vstd::arithmetic::power2::{lemma_pow2_pos, lemma_pow2_unfold, pow2};
use vstd::prelude::*;

use crate::arith::is_pow2;
use crate::channel::transcript_hash;
use crate::error::Error;
use crate::fri_laws::{
    evals, fold_poly, lemma_fold_colinear, lemma_fold_evals, lemma_last_accepted, lemma_points,
    sound_setup,
};
use crate::fri_math::{
    alpha_at, check_last, check_round, check_rounds, commit_from, coset_points, first_openings,
    fold, fold_value, halved, heads_present, last_len, last_power, lemma_commit_shape,
    lemma_commits_and_rounds, lemma_halved_shift, lemma_commit_count, lemma_commits_halved, opening, opening_ok, openings_ok,
    prove_indices, prove_transcript, query_round, query_rounds, query_xs, query_ys, reduced_index,
    root_at, commit_count, triple, triples_present, verify_indices, verify_spec, Params,
};
use crate::poly_math::{batch_colinear, canonical, poly_colinear, poly_colinear_batch};
use crate::tree::{tree_root, Tree};

verus! {

/// What the commit phase writes, message by message: after what was
/// there, one root for each codeword, then the last codeword; and each
/// codeword but the first is the one before, folded with the challenge
/// drawn from the transcript up to and with that one's root.
pub proof fn lemma_commit_layout(params: Params, c: Seq<nat>, msgs: Seq<Seq<nat>>, e: nat, left: nat)
    requires
        left >= 1,
    ensures
        ({
            let out = commit_from(params, c, msgs, e, left);
            let b = msgs.len() as int;
            &&& out.0.len() == left
            &&& out.0[0] == c
            &&& out.1.len() == b + left + 1
            &&& out.1.take(b) == msgs
            &&& out.1[b + left] == out.0[left - 1]
            &&& forall|j: int| 0 <= j < left ==> #[trigger] out.1[b + j] == seq![tree_root(out.0[j])]
            &&& forall|j: int|
                0 <= j < left - 1 ==> #[trigger] out.0[j + 1] == fold(
                    params,
                    out.0[j],
                    (transcript_hash(out.1.take(b + j + 1)) as int) % params.p,
                    e * pow2(j as nat),
                )
        }),
    decreases left,
{
    let out = commit_from(params, c, msgs, e, left);
    let b = msgs.len() as int;
    let with_root = msgs.push(seq![tree_root(c)]);
    vstd::arithmetic::power2::lemma2_to64();
    if left <= 1 {
        assert(out.1.take(b) =~= msgs);
        assert(out.1[b] == seq![tree_root(c)]);
    } else {
        let alpha = (transcript_hash(with_root) as int) % params.p;
        let next = fold(params, c, alpha, e);
        let rest = commit_from(params, next, with_root, 2 * e, (left - 1) as nat);
        lemma_commit_layout(params, next, with_root, 2 * e, (left - 1) as nat);
        assert(out.0 == seq![c] + rest.0);
        assert(out.1 == rest.1);
        assert(rest.1.take(b + 1) == with_root);
        assert(out.1.take(b) =~= msgs) by {
            assert(rest.1.take(b + 1).take(b) =~= rest.1.take(b));
            assert(with_root.take(b) =~= msgs);
        }
        assert(out.1[b] == seq![tree_root(c)]) by {
            assert(rest.1.take(b + 1)[b] == rest.1[b]);
        }
        assert forall|j: int| 0 <= j < left implies #[trigger] out.1[b + j] == seq![
            tree_root(out.0[j]),
        ] by {
            if j > 0 {
                assert(out.0[j] == rest.0[j - 1]);
                assert(rest.1[(b + 1) + (j - 1)] == seq![tree_root(rest.0[j - 1])]);
            }
        }
        assert(out.1[b + left] == rest.1[(b + 1) + (left - 1)]);
        assert(out.0[left - 1] == rest.0[left - 2]);
        assert forall|j: int| 0 <= j < left - 1 implies #[trigger] out.0[j + 1] == fold(
            params,
            out.0[j],
            (transcript_hash(out.1.take(b + j + 1)) as int) % params.p,
            e * pow2(j as nat),
        ) by {
            if j == 0 {
                assert(out.0[1] == rest.0[0]);
                assert(e * 1 == e);
            } else {
                assert(out.0[j + 1] == rest.0[j]);
                assert(out.0[j] == rest.0[j - 1]);
                assert(rest.0[(j - 1) + 1] == rest.0[j]);
                lemma_pow2_unfold(j as nat);
                assert((2 * e) * pow2((j - 1) as nat) == e * pow2(j as nat)) by (nonlinear_arith)
                    requires
                        pow2(j as nat) == 2 * pow2((j - 1) as nat),
                ;
                assert((b + 1) + (j - 1) + 1 == b + j + 1);
            }
        }
    }
}

/// Where the messages of the query rounds lie: each round takes four
/// messages for each query, and its messages are those of `query_round`.
pub proof fn lemma_query_layout(codewords: Seq<Seq<nat>>, top: Seq<u32>, n: int)
    requires
        0 <= n,
    ensures
        query_rounds(codewords, top, n).len() == n * (4 * top.len()),
        forall|i: int, j: int|
            #![trigger query_rounds(codewords, top, n)[i * (4 * top.len()) + j]]
            0 <= i < n && 0 <= j < 4 * top.len() ==> query_rounds(codewords, top, n)[i * (4
                * top.len()) + j] == query_round(codewords[i], codewords[i + 1], top)[j],
    decreases n,
{
    let w = 4 * top.len() as int;
    if n > 0 {
        lemma_query_layout(codewords, top, n - 1);
        let before = query_rounds(codewords, top, n - 1);
        let round = query_round(codewords[n - 1], codewords[n], top);
        let all = query_rounds(codewords, top, n);
        assert(all == before + round);
        assert(round.len() == w);
        assert(n * w == (n - 1) * w + w) by (nonlinear_arith);
        assert forall|i: int, j: int|
            #![trigger all[i * (4 * top.len()) + j]]
            0 <= i < n && 0 <= j < 4 * top.len() implies all[i * (4 * top.len()) + j]
            == query_round(codewords[i], codewords[i + 1], top)[j] by {
            if i < n - 1 {
                assert(i * w + j < (n - 1) * w) by (nonlinear_arith)
                    requires
                        0 <= i < n - 1,
                        0 <= j < w,
                ;
                assert(0 <= i * w + j) by (nonlinear_arith)
                    requires
                        0 <= i,
                        0 <= j,
                        0 <= w,
                ;
                assert(all[i * w + j] == before[i * w + j]);
            } else {
                assert(all[(n - 1) * w + j] == round[j]);
            }
        }
    } else {
        assert(n * w == 0) by (nonlinear_arith)
            requires
                n == 0,
        ;
    }
}

/// A power of two above one is even, and its half is a power of two.
proof fn lemma_pow2_half(n: int)
    requires
        is_pow2(n),
        n > 1,
    ensures
        n % 2 == 0,
        is_pow2(n / 2),
        n / 2 >= 1,
{
}

/// The shape of codeword `i`: its domain is the `2^i`-th power of the
/// first, its length times that power is the length of the first, and
/// the length is a power of two above the expansion factor.
pub proof fn lemma_round_shape(params: Params, i: nat)
    requires
        sound_setup(params),
        i < params.commits(),
    ensures
        pow2(i) >= 1,
        pow2(i) * halved(params.len, i) == params.len,
        is_pow2(halved(params.len, i) as int),
        halved(params.len, i) > params.rho,
        halved(params.len, i) >= 2,
        halved(params.len, i) % 2 == 0,
        commit_count(halved(params.len, i), params.rho, params.count) == params.commits() - i,
    decreases i,
{
    lemma_commits_and_rounds(params.len, params.rho, params.count);
    lemma_pow2_pos(i);
    lemma_commits_halved(params.len, params.rho, params.count, i);
    lemma_commit_count(halved(params.len, i), params.rho, params.count);
    if i == 0 {
        vstd::arithmetic::power2::lemma2_to64();
        assert(1 * params.len == params.len);
    } else {
        lemma_round_shape(params, (i - 1) as nat);
        let before = halved(params.len, (i - 1) as nat);
        lemma_pow2_half(before as int);
        lemma_pow2_unfold(i);
        assert(pow2(i) * (before / 2) == params.len) by (nonlinear_arith)
            requires
                pow2(i) == 2 * pow2((i - 1) as nat),
                before == 2 * (before / 2),
                pow2((i - 1) as nat) * before == params.len,
        ;
    }
    lemma_pow2_half(halved(params.len, i) as int);
}

/// Folding keeps a polynomial reduced and halves its length.
proof fn lemma_fold_poly_shape(f: Seq<int>, alpha: int, p: int)
    requires
        p > 0,
    ensures
        canonical(fold_poly(f, alpha, p), p),
        fold_poly(f, alpha, p).len() == (f.len() + 1) / 2,
{
    let g = fold_poly(f, alpha, p);
    assert forall|j: int| 0 <= j < g.len() implies 0 <= #[trigger] g[j] < p by {
        lemma_mod_bound(
            crate::poly_math::coef(f, 2 * j) + alpha * crate::poly_math::coef(f, 2 * j + 1),
            p,
        );
    }
}

/// The commit phase keeps the degree low: from the values of a
/// polynomial with at most `d` coefficients, in a round of length
/// `rho * d`, the last codeword holds the values, on the last domain, of
/// a polynomial with at most as many coefficients as that codeword's
/// length over `rho`. Returns that polynomial.
pub proof fn lemma_commit_low(
    params: Params,
    f: Seq<int>,
    msgs: Seq<Seq<nat>>,
    e: nat,
    left: nat,
    len: nat,
    d: nat,
) -> (g: Seq<int>)
    requires
        sound_setup(params),
        left >= 1,
        e >= 1,
        e * len == params.len,
        len == params.rho * d,
        is_pow2(len as int),
        is_pow2(d as int),
        commit_count(len, params.rho, params.count) == left,
        canonical(f, params.p),
        f.len() <= d,
    ensures
        ({
            let out = commit_from(params, evals(params, f, e, len), msgs, e, left);
            let last = out.0[left - 1];
            &&& canonical(g, params.p)
            &&& last.len() == halved(len, (left - 1) as nat)
            &&& last == evals(params, g, e * pow2((left - 1) as nat), last.len())
            &&& g.len() <= last.len() / params.rho
        }),
    decreases left,
{
    let p = params.p;
    let c = evals(params, f, e, len);
    let out = commit_from(params, c, msgs, e, left);
    lemma_commit_count(len, params.rho, params.count);
    vstd::arithmetic::power2::lemma2_to64();
    if left == 1 {
        assert(out.0[0] == c);
        assert(e * 1 == e);
        lemma_div_multiples_vanish(d as int, params.rho as int);
        assert(params.rho * d == d * params.rho) by (nonlinear_arith);
        f
    } else {
        assert(d >= 2) by (nonlinear_arith)
            requires
                len == params.rho * d,
                len > params.rho,
                params.rho >= 1,
        ;
        lemma_pow2_half(d as int);
        lemma_pow2_half(len as int);
        let half = len / 2;
        let dh = d / 2;
        assert(half == params.rho * dh) by (nonlinear_arith)
            requires
                len == params.rho * d,
                d == 2 * dh,
                len == 2 * half,
        ;
        let with_root = msgs.push(seq![tree_root(c)]);
        let alpha = (transcript_hash(with_root) as int) % p;
        let f2 = fold_poly(f, alpha, p);
        lemma_fold_evals(params, f, alpha, e, len);
        lemma_fold_poly_shape(f, alpha, p);
        assert((2 * e) * half == params.len) by (nonlinear_arith)
            requires
                e * len == params.len,
                len == 2 * half,
        ;
        let rest = commit_from(params, fold(params, c, alpha, e), with_root, 2 * e, (left - 1) as nat);
        let g = lemma_commit_low(params, f2, with_root, 2 * e, (left - 1) as nat, half, dh);
        lemma_commit_layout(
            params,
            fold(params, c, alpha, e),
            with_root,
            2 * e,
            (left - 1) as nat,
        );
        assert(out.0 == seq![c] + rest.0);
        assert(out.0[left - 1] == rest.0[left - 2]);
        lemma_halved_shift(len, (left - 2) as nat);
        lemma_pow2_unfold((left - 1) as nat);
        assert((2 * e) * pow2((left - 2) as nat) == e * pow2((left - 1) as nat))
            by (nonlinear_arith)
            requires
                pow2((left - 1) as nat) == 2 * pow2((left - 2) as nat),
        ;
        g
    }
}

/// The challenge is neither of the two points of any query of a round.
pub open spec fn clear_of(params: Params, alpha: int, top: Seq<u32>, e: nat, len: nat) -> bool {
    forall|j: int|
        0 <= j < top.len() ==> {
            let a = reduced_index(#[trigger] top[j], len);
            &&& (alpha - params.point(e, a)) % params.p != 0
            &&& (alpha - params.point(e, a + len / 2)) % params.p != 0
        }
}

/// Point sets that each lie on a line pass the batch test.
proof fn lemma_batch_all(xs: Seq<Seq<int>>, ys: Seq<Seq<int>>, n: int, p: int)
    requires
        0 <= n <= xs.len(),
        forall|j: int| 0 <= j < n ==> poly_colinear(#[trigger] xs[j], ys[j], p) == Ok::<bool, Error>(
            true,
        ),
    ensures
        batch_colinear(xs, ys, n, p) == Ok::<bool, Error>(true),
    decreases n,
{
    if n > 0 {
        lemma_batch_all(xs, ys, n - 1, p);
        assert(poly_colinear(xs[n - 1], ys[n - 1], p) == Ok::<bool, Error>(true));
    }
}

/// Authentication paths that each check pass the check of all.
proof fn lemma_openings_all(
    msgs: Seq<Seq<nat>>,
    paths: nat,
    triples: nat,
    root: nat,
    root_next: nat,
    top: Seq<u32>,
    len: nat,
    n: int,
)
    requires
        0 <= n,
        forall|t: int|
            0 <= t < n ==> #[trigger] opening_ok(msgs, paths, triples, root, root_next, top, len, t)
                == Ok::<bool, Error>(true),
    ensures
        openings_ok(msgs, paths, triples, root, root_next, top, len, n) == Ok::<bool, Error>(true),
    decreases n,
{
    if n > 0 {
        lemma_openings_all(msgs, paths, triples, root, root_next, top, len, n - 1);
        assert(opening_ok(msgs, paths, triples, root, root_next, top, len, n - 1) == Ok::<
            bool,
            Error,
        >(true));
    }
}

/// A query round of an honest proof is accepted: where the messages from
/// `base` on are those of the round between a codeword and its folding,
/// and the challenge is none of the queried points, every check of the
/// round succeeds.
pub proof fn lemma_round_accepted(
    params: Params,
    msgs: Seq<Seq<nat>>,
    base: nat,
    cur: Seq<nat>,
    next: Seq<nat>,
    alpha: int,
    top: Seq<u32>,
    e: nat,
)
    requires
        sound_setup(params),
        e >= 1,
        e * cur.len() == params.len,
        cur.len() >= 2,
        cur.len() % 2 == 0,
        next == fold(params, cur, alpha, e),
        base + 4 * top.len() <= msgs.len(),
        msgs.subrange(base as int, (base + 4 * top.len()) as int) == query_round(cur, next, top),
        clear_of(params, alpha, top, e, cur.len()),
    ensures
        check_round(
            params,
            msgs,
            base,
            tree_root(cur),
            tree_root(next),
            alpha,
            top,
            e,
            cur.len(),
        ) == Ok::<bool, Error>(true),
{
    let p = params.p;
    let s = top.len();
    let len = cur.len();
    let half = len / 2;
    let round = query_round(cur, next, top);
    let sub = msgs.subrange(base as int, (base + 4 * s) as int);
    let root = tree_root(cur);
    let root_next = tree_root(next);
    assert(next.len() == half);
    assert forall|j: int| 0 <= j < s implies msgs[base + j] == triple(cur, next, top[j]) by {
        assert(msgs[base + j] == sub[j]);
        assert(round[j] == triple(cur, next, top[j]));
    }
    assert forall|u: int| 0 <= u < 3 * s implies msgs[base + s + u] == opening(cur, next, top, u) by {
        assert(msgs[base + s + u] == sub[s + u]);
        assert(round[s + u] == opening(cur, next, top, u));
    }
    assert(triples_present(msgs, base, s)) by {
        assert forall|k: int| base <= k < base + s implies (#[trigger] msgs[k]).len() >= 3 by {
            assert(msgs[base + (k - base)] == triple(cur, next, top[k - base]));
        }
    }
    let xs = Seq::new(s, |j: int| query_xs(params, alpha, top[j], e, len));
    let ys = Seq::new(s, |j: int| query_ys(msgs[base + j]));
    assert forall|j: int| 0 <= j < s implies poly_colinear(#[trigger] xs[j], ys[j], p) == Ok::<
        bool,
        Error,
    >(true) by {
        let a = reduced_index(top[j], len);
        let x = params.point(e, a);
        let nx = params.point(e, a + half);
        lemma_mod_bound(top[j] as int, half as int);
        lemma_points(params, e, len, a);
        let va = cur[a as int] as int;
        let vb = cur[(a + half) as int] as int;
        let vc = fold_value(va, vb, alpha, crate::arith::inverse(x, p), crate::arith::inverse(2, p), p);
        lemma_fold_colinear(x, nx, alpha, va, vb, p);
        lemma_mod_bound(
            crate::arith::inverse(2, p) * ((1 + alpha * crate::arith::inverse(x, p)) * va + (1
                - alpha * crate::arith::inverse(x, p)) * vb),
            p,
        );
        assert(next[a as int] as int == vc);
        assert(msgs[base + j] == triple(cur, next, top[j]));
        assert(xs[j] =~= seq![x, nx, alpha]);
        assert(ys[j] =~= seq![va, vb, vc]);
    }
    lemma_batch_all(xs, ys, s as int, p);
    assert(poly_colinear_batch(xs, ys, p) == Ok::<bool, Error>(true));
    assert forall|u: int| 0 <= u < 3 * s implies #[trigger] opening_ok(
        msgs,
        base + s,
        base,
        root,
        root_next,
        top,
        len,
        u,
    ) == Ok::<bool, Error>(true) by {
        let j = u / 3;
        let a = reduced_index(top[j], len);
        lemma_mod_bound(top[j] as int, half as int);
        assert(msgs[base + s + u] == opening(cur, next, top, u));
        assert(msgs[base + j] == triple(cur, next, top[j]));
        if u % 3 == 0 {
            Tree::law_open_verifies(cur, a);
        } else if u % 3 == 1 {
            Tree::law_open_verifies(cur, a + half);
        } else {
            Tree::law_open_verifies(next, a);
        }
    }
    lemma_openings_all(msgs, base + s, base, root, root_next, top, len, 3 * s as int);
}

/// The messages of query round `k`, where the query rounds start at
/// message `base` and each takes `width` messages.
pub open spec fn round_slice(msgs: Seq<Seq<nat>>, base: nat, k: nat, width: nat) -> Seq<Seq<nat>> {
    msgs.subrange((base + k * width) as int, (base + (k + 1) * width) as int)
}

/// No challenge of the proof is one of the points that its round
/// queries.
pub open spec fn challenges_clear(params: Params, msgs: Seq<Seq<nat>>, start: nat, top: Seq<u32>) -> bool {
    forall|i: nat|
        i < params.rounds() ==> clear_of(
            params,
            #[trigger] alpha_at(params, msgs, start, i),
            top,
            pow2(i),
            halved(params.len, i),
        )
}

/// The query rounds of an honest proof are accepted from round `i` on.
pub proof fn lemma_rounds_accepted(
    params: Params,
    msgs: Seq<Seq<nat>>,
    start: nat,
    codewords: Seq<Seq<nat>>,
    top: Seq<u32>,
    i: nat,
)
    requires
        sound_setup(params),
        codewords.len() == params.commits(),
        i < params.commits(),
        forall|k: int|
            0 <= k < params.commits() ==> (#[trigger] codewords[k]).len() == halved(
                params.len,
                k as nat,
            ),
        forall|k: int|
            0 <= k < params.commits() - 1 ==> #[trigger] codewords[k + 1] == fold(
                params,
                codewords[k],
                alpha_at(params, msgs, start, k as nat),
                pow2(k as nat),
            ),
        forall|k: nat|
            k < params.commits() ==> #[trigger] root_at(msgs, start, k) == tree_root(
                codewords[k as int],
            ),
        msgs.len() == start + params.commits() + 1 + (params.commits() - 1) * (4 * top.len()),
        forall|k: nat|
            k + 1 < params.commits() ==> #[trigger] round_slice(
                msgs,
                start + params.commits() + 1,
                k,
                4 * top.len(),
            ) == query_round(codewords[k as int], codewords[k as int + 1], top),
        challenges_clear(params, msgs, start, top),
    ensures
        check_rounds(
            params,
            msgs,
            start + params.commits() + 1 + i * (4 * top.len()),
            start,
            top,
            i,
            pow2(i),
            halved(params.len, i),
        ) == Ok::<bool, Error>(true),
    decreases params.commits() - i,
{
    let r = params.commits();
    let w = 4 * top.len();
    let base0 = start + r + 1;
    let base = base0 + i * w;
    if i + 1 < r {
        lemma_round_shape(params, i);
        let cur = codewords[i as int];
        let next = codewords[i as int + 1];
        let alpha = alpha_at(params, msgs, start, i);
        assert(next == fold(params, cur, alpha, pow2(i)));
        assert((i + 1) * w == i * w + w) by (nonlinear_arith);
        assert((i + 1) * w <= (r - 1) * w) by (nonlinear_arith)
            requires
                i + 1 <= r - 1,
                w >= 0,
        ;
        assert(round_slice(msgs, base0, i, w) == query_round(cur, next, top));
        assert(clear_of(params, alpha, top, pow2(i), halved(params.len, i)));
        lemma_round_accepted(params, msgs, base, cur, next, alpha, top, pow2(i));
        assert(root_at(msgs, start, i) == tree_root(cur));
        assert(root_at(msgs, start, i + 1) == tree_root(next));
        lemma_rounds_accepted(params, msgs, start, codewords, top, i + 1);
        lemma_pow2_unfold(i + 1);
        assert(halved(params.len, i + 1) == halved(params.len, i) / 2);
    }
}

/// Of two powers of two, the smaller is at most half the larger.
proof fn lemma_pow2_gap(a: int, b: int)
    requires
        is_pow2(a),
        is_pow2(b),
        a < b,
    ensures
        2 * a <= b,
    decreases a,
{
    if a > 1 {
        lemma_pow2_gap(a / 2, b / 2);
    }
}

/// A power of two divides every power of two that is not smaller, and
/// the quotient is a power of two.
proof fn lemma_pow2_quotient(n: int, r: int)
    requires
        is_pow2(n),
        is_pow2(r),
        r <= n,
    ensures
        n == r * (n / r),
        is_pow2(n / r),
    decreases n,
{
    if r == n {
        lemma_div_by_self(n);
        assert(r * 1 == r);
    } else {
        lemma_pow2_gap(r, n);
        lemma_pow2_quotient(n / 2, r);
        let q = (n / 2) / r;
        assert(n == r * (2 * q)) by (nonlinear_arith)
            requires
                n == 2 * (n / 2),
                n / 2 == r * q,
        ;
        lemma_fundamental_div_mod_converse_div(n, r, 2 * q, 0);
        assert(is_pow2(2 * q)) by {
            assert((2 * q) / 2 == q);
            if q < 1 {
                assert(r * q <= 0) by (nonlinear_arith)
                    requires
                        r >= 1,
                        q < 1,
                ;
            }
        }
    }
}

/// Completeness: for a polynomial `f` with at most `N / rho`
/// coefficients, the transcript that proving writes for the values of
/// `f` on the evaluation coset is verified, and gives the openings of the
/// first round. This holds where sampling the indices succeeds and no
/// challenge is one of the points that its round queries.
pub proof fn lemma_completeness(params: Params, f: Seq<int>, msgs: Seq<Seq<nat>>, top: Seq<u32>)
    requires
        sound_setup(params),
        canonical(f, params.p),
        f.len() * params.rho <= params.len,
        prove_indices(params, evals(params, f, 1, params.len), msgs) == Ok::<Seq<u32>, Error>(top),
        challenges_clear(
            params,
            prove_transcript(params, evals(params, f, 1, params.len), msgs, top),
            msgs.len(),
            top,
        ),
    ensures
        ({
            let transcript = prove_transcript(params, evals(params, f, 1, params.len), msgs, top);
            verify_spec(params, transcript, msgs.len()) == Ok::<Seq<(u32, nat)>, Error>(
                first_openings(params, transcript, msgs.len() + params.commits() + 1, top),
            )
        }),
{
    let p = params.p;
    let n = params.len;
    let r = params.commits();
    let s = top.len();
    let w = 4 * s;
    let start = msgs.len();
    let c0 = evals(params, f, 1, n);
    let out = commit_from(params, c0, msgs, 1, r);
    let cws = out.0;
    let cm = out.1;
    let queries = query_rounds(cws, top, r - 1);
    let t = prove_transcript(params, c0, msgs, top);
    let base0 = start + r + 1;
    lemma_commit_layout(params, c0, msgs, 1, r);
    lemma_commit_shape(params, c0, msgs, 1, r);
    lemma_query_layout(cws, top, r - 1);
    assert(t == cm + queries);
    assert(cm.len() == base0);
    assert(t.len() == base0 + (r - 1) * w);
    assert forall|k: int| 0 <= k < base0 implies t[k] == cm[k] by {}
    assert forall|k: int| 0 <= k <= base0 implies #[trigger] t.take(k) == cm.take(k) by {
        assert(t.take(k) =~= cm.take(k));
    }
    // the roots and the challenges that the verifier reads are the prover's
    assert forall|k: nat| k < r implies #[trigger] root_at(t, start, k) == tree_root(
        cws[k as int],
    ) by {
        assert(t[(start + k) as int] == cm[(start + k) as int]);
        assert(cm[(start + k) as int] == seq![tree_root(cws[k as int])]);
    }
    assert forall|k: int| 0 <= k < r - 1 implies #[trigger] cws[k + 1] == fold(
        params,
        cws[k],
        alpha_at(params, t, start, k as nat),
        pow2(k as nat),
    ) by {
        assert(t.take(start + k + 1) == cm.take(start + k + 1));
        assert(1 * pow2(k as nat) == pow2(k as nat));
    }
    assert forall|k: nat| k + 1 < r implies #[trigger] round_slice(t, base0, k, w) == query_round(
        cws[k as int],
        cws[k as int + 1],
        top,
    ) by {
        let slice = round_slice(t, base0, k, w);
        let round = query_round(cws[k as int], cws[k as int + 1], top);
        assert((k + 1) * w == k * w + w) by (nonlinear_arith);
        assert((k + 1) * w <= (r - 1) * w) by (nonlinear_arith)
            requires
                k + 1 <= r - 1,
                w >= 0,
        ;
        assert(0 <= k * w) by (nonlinear_arith)
            requires
                w >= 0,
        ;
        assert(slice.len() == w);
        assert(round.len() == w);
        assert forall|j: int| 0 <= j < w implies slice[j] == round[j] by {
            assert(slice[j] == t[base0 + k * w + j]);
            assert(t[base0 + k * w + j] == queries[k * w + j]);
            assert(queries[(k as int) * (4 * top.len()) + j] == round[j]);
        }
        assert(slice =~= round);
    }
    // the heads
    assert(heads_present(params, t, start)) by {
        assert forall|k: int| start <= k < start + r implies (#[trigger] t[k]).len() >= 1 by {
            assert(cm[start + (k - start)] == seq![tree_root(cws[k - start])]);
        }
    }
    // the last codeword
    lemma_commit_count(n, params.rho, params.count);
    lemma_pow2_quotient(n as int, params.rho as int);
    let d = (n / params.rho) as nat;
    assert(f.len() <= d) by {
        if f.len() > d {
            assert(f.len() * params.rho >= (d + 1) * params.rho) by (nonlinear_arith)
                requires
                    f.len() >= d + 1,
                    params.rho >= 0,
            ;
            assert((d + 1) * params.rho == params.rho * d + params.rho) by (nonlinear_arith);
        }
    }
    assert(1 * n == n);
    lemma_commits_and_rounds(n, params.rho, params.count);
    let g = lemma_commit_low(params, f, msgs, 1, r, n, d);
    let last = cws[r - 1];
    lemma_round_shape(params, (r - 1) as nat);
    assert(1 * pow2((r - 1) as nat) == pow2((r - 1) as nat));
    assert(last == evals(params, g, last_power(params), last_len(params)));
    lemma_last_accepted(params, g, tree_root(last));
    assert(t[(start + r) as int] == cm[(start + r) as int]);
    assert(root_at(t, start, (r - 1) as nat) == tree_root(last));
    assert(check_last(params, root_at(t, start, (r - 1) as nat), t[(start + r) as int]) == Ok::<
        bool,
        Error,
    >(true));
    // the indices
    assert(t.take(base0 as int) == cm.take(base0 as int));
    assert(cm.take(base0 as int) =~= cm);
    assert(cws.last() == last);
    assert(verify_indices(params, t, start) == Ok::<Seq<u32>, Error>(top));
    // the query rounds
    lemma_rounds_accepted(params, t, start, cws, top, 0);
    vstd::arithmetic::power2::lemma2_to64();
    assert(0 * w == 0);
}

/// The first codeword of an honest proof: the values of `f` on the
/// evaluation coset.
pub open spec fn values_on_coset(params: Params, f: Seq<int>) -> Seq<nat> {
    Seq::new(
        params.len,
        |k: int| crate::poly_math::poly_eval(f, coset_points(params)[k], params.p) as nat,
    )
}

/// Completeness, stated for the codeword of the values of `f` on the
/// evaluation coset: proving finds its constants, and the transcript it
/// writes is verified.
pub proof fn lemma_complete(params: Params, f: Seq<int>, msgs: Seq<Seq<nat>>, top: Seq<u32>)
    requires
        sound_setup(params),
        canonical(f, params.p),
        f.len() * params.rho <= params.len,
        prove_indices(params, values_on_coset(params, f), msgs) == Ok::<Seq<u32>, Error>(top),
        challenges_clear(
            params,
            prove_transcript(params, values_on_coset(params, f), msgs, top),
            msgs.len(),
            top,
        ),
    ensures
        params.foldable(),
        verify_spec(
            params,
            prove_transcript(params, values_on_coset(params, f), msgs, top),
            msgs.len(),
        ).is_ok(),
{
    let codeword = values_on_coset(params, f);
    let same = evals(params, f, 1, params.len);
    assert(codeword =~= same) by {
        assert forall|k: int| 0 <= k < params.len implies codeword[k] == same[k] by {
            lemma_pow1(params.offset);
            assert(1 * (k as nat) == k as nat);
        }
    }
    crate::fri_laws::lemma_omega_unit(params);
    lemma_completeness(params, f, msgs, top);
}

} // verus!
