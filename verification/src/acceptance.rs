//! What an accepted proof guarantees, whoever wrote it: every opened
//! triple obeys the folding formula and every opened value is
//! authenticated by the root of its round.
use vstd::arithmetic::div_mod::*;
use vstd::arithmetic::power::*;
use vstd::arithmetic::power2::{lemma_pow2_unfold, pow2};
use vstd::prelude::*;

use crate::arith::{
    inverse, is_prime, lemma_add_congruent, lemma_mul_congruent, lemma_prime_has_inverse,
};
use crate::completeness::lemma_round_shape;
use crate::error::Error;
use crate::fri_laws::{lemma_eval_three, lemma_points, sound_setup};
use crate::fri_math::{
    alpha_at, check_round, check_rounds, fold_value, halved, opening_ok, openings_ok, query_xs,
    query_ys, reduced_index, root_at, triples_present, verify_indices, verify_spec, Params,
};
use crate::poly_laws::{distinct_mod, lemma_lagrange_sum};
use crate::poly_math::{
    batch_colinear, coef, difference_product, divisible_by, is_zero_poly, lagrange_basis,
    lagrange_sum, lemma_degree, linear_factor, poly_colinear, poly_colinear_batch, poly_degree,
    poly_lagrange, poly_scalar,
};
use crate::tree::check_path;

verus! {

/// Where the sum of the first `m` basis polynomials exists, each of them
/// does.
proof fn lemma_sum_needs_basis(xs: Seq<int>, ys: Seq<int>, m: int, i: int, p: int)
    requires
        0 <= i < m,
        lagrange_sum(xs, ys, m, p).is_ok(),
    ensures
        lagrange_basis(xs, i, p).is_ok(),
    decreases m,
{
    if i < m - 1 {
        lemma_sum_needs_basis(xs, ys, m - 1, i, p);
    }
}

/// A difference that is zero in the field makes the product of the
/// differences zero.
proof fn lemma_difference_factor(xs: Seq<int>, i: int, j: int, n: int, p: int)
    requires
        p > 0,
        0 <= j < n,
        j != i,
        (xs[i] - xs[j]) % p == 0,
    ensures
        difference_product(xs, i, n, p) % p == 0,
    decreases n,
{
    lemma_small_mod(0, p as nat);
    if n - 1 == j {
        let prev = difference_product(xs, i, n - 1, p);
        lemma_mul_mod_noop_right(prev, xs[i] - xs[j], p);
        assert(prev * 0 == 0);
        lemma_mod_twice(prev * (xs[i] - xs[j]), p);
    } else {
        lemma_difference_factor(xs, i, j, n - 1, p);
        if n - 1 != i {
            let prev = difference_product(xs, i, n - 1, p);
            let f = xs[i] - xs[n - 1];
            lemma_mul_mod_noop_left(prev, f, p);
            assert(0 * f == 0);
            lemma_mod_twice(prev * f, p);
        }
    }
}

/// Interpolation succeeds only through points whose abscissas are
/// distinct in the field.
pub proof fn lemma_interpolated_distinct(xs: Seq<int>, ys: Seq<int>, p: int)
    requires
        p >= 2,
        poly_lagrange(xs, ys, p).is_ok(),
    ensures
        distinct_mod(xs, p),
{
    let n = xs.len() as int;
    assert forall|i: int, j: int|
        #![trigger xs[i], xs[j]]
        0 <= i < xs.len() && 0 <= j < xs.len() && i != j implies (xs[i] - xs[j]) % p != 0 by {
        if (xs[i] - xs[j]) % p == 0 {
            lemma_sum_needs_basis(xs, ys, n, i, p);
            lemma_difference_factor(xs, i, j, n, p);
            let den = difference_product(xs, i, n, p);
            let lin = linear_factor(xs[i], p);
            let d = poly_scalar(lin, den, p);
            assert(divisible_by(d, p));
            assert(is_zero_poly(d)) by {
                assert forall|k: int| 0 <= k < d.len() implies #[trigger] d[k] == 0 by {
                    lemma_mul_mod_noop_left(den, lin[k], p);
                    assert(0 * lin[k] == 0);
                    lemma_small_mod(0, p as nat);
                }
            }
        }
    }
}

/// A triple that passes the colinearity test obeys the folding formula:
/// where the points `(x, a)`, `(-x, b)` and `(alpha, c)` lie on a line,
/// `c` is, in the field, what folding `a` and `b` with `alpha` gives.
pub proof fn lemma_colinear_is_fold(x: int, nx: int, alpha: int, a: int, b: int, c: int, p: int)
    requires
        is_prime(p),
        2int % p != 0,
        x % p != 0,
        (x + nx) % p == 0,
        poly_colinear(seq![x, nx, alpha], seq![a, b, c], p) == Ok::<bool, Error>(true),
    ensures
        c % p == fold_value(a, b, alpha, inverse(x, p), inverse(2, p), p),
{
    let xs = seq![x, nx, alpha];
    let ys = seq![a, b, c];
    lemma_prime_has_inverse(x, p);
    lemma_prime_has_inverse(2, p);
    let xinv = inverse(x, p);
    let tinv = inverse(2, p);
    lemma_small_mod(0, p as nat);
    lemma_small_mod(1, p as nat);
    lemma_interpolated_distinct(xs, ys, p);
    lemma_lagrange_sum(xs, ys, 3, p);
    let l = poly_lagrange(xs, ys, p).unwrap();
    assert(xs[0] == x && xs[1] == nx && xs[2] == alpha);
    assert(ys[0] == a && ys[1] == b && ys[2] == c);
    lemma_degree(l);
    assert(poly_degree(l) <= 1);
    assert(coef(l, 2) == 0);
    lemma_eval_three(l, x, p);
    lemma_eval_three(l, nx, p);
    lemma_eval_three(l, alpha, p);
    let l0 = coef(l, 0);
    let l1 = coef(l, 1);
    assert(0 * (x * x) == 0 && 0 * (nx * nx) == 0 && 0 * (alpha * alpha) == 0);
    assert((l0 + l1 * x) % p == a % p);
    assert((l0 + l1 * nx) % p == b % p);
    assert((l0 + l1 * alpha) % p == c % p);
    // a + b is 2 l0, and (a - b) / x is 2 l1, in the field
    let u = l1 * x;
    assert((l1 * nx + u) % p == 0) by {
        lemma_mul_mod_noop_right(l1, x + nx, p);
        assert(l1 * 0 == 0);
        assert(l1 * (x + nx) == l1 * nx + l1 * x) by (nonlinear_arith);
    }
    assert((a + b) % p == (2 * l0) % p) by {
        lemma_add_congruent(a, b, l0 + u, l0 + l1 * nx, p);
        lemma_add_congruent(2 * l0, l1 * nx + u, 2 * l0, 0, p);
        assert((l0 + u) + (l0 + l1 * nx) == 2 * l0 + (l1 * nx + u));
    }
    assert((a - b) % p == (2 * u) % p) by {
        lemma_sub_mod_noop(a, b, p);
        lemma_sub_mod_noop(l0 + u, l0 + l1 * nx, p);
        assert((l0 + u) - (l0 + l1 * nx) == 2 * u - (l1 * nx + u));
        lemma_sub_mod_noop(2 * u, l1 * nx + u, p);
        lemma_sub_mod_noop(2 * u, 0, p);
    }
    // the folded value
    let t = alpha * xinv;
    let s = (1 + t) * a + (1 - t) * b;
    assert(s == (a + b) + t * (a - b)) by (nonlinear_arith)
        requires
            s == (1 + t) * a + (1 - t) * b,
    ;
    lemma_mul_congruent(t, a - b, t, 2 * u, p);
    lemma_add_congruent(a + b, t * (a - b), 2 * l0, t * (2 * u), p);
    assert(t * (2 * u) == 2 * ((l1 * alpha) * (x * xinv))) by (nonlinear_arith)
        requires
            t == alpha * xinv,
            u == l1 * x,
    ;
    lemma_mul_mod_noop_right(l1 * alpha, x * xinv, p);
    assert((l1 * alpha) * 1 == l1 * alpha);
    lemma_mul_congruent(2, (l1 * alpha) * (x * xinv), 2, l1 * alpha, p);
    lemma_add_congruent(2 * l0, 2 * ((l1 * alpha) * (x * xinv)), 2 * l0, 2 * (l1 * alpha), p);
    let g = l0 + l1 * alpha;
    assert(2 * l0 + 2 * (l1 * alpha) == 2 * g);
    assert(s % p == (2 * g) % p);
    lemma_mul_congruent(tinv, s, tinv, 2 * g, p);
    assert(tinv * (2 * g) == (2 * tinv) * g) by (nonlinear_arith);
    lemma_mul_mod_noop_left(2 * tinv, g, p);
    assert(1 * g == g);
}

/// Where the batch test passes on the first `n` point sets, each of
/// them lies on a line.
proof fn lemma_batch_each(xs: Seq<Seq<int>>, ys: Seq<Seq<int>>, n: int, j: int, p: int)
    requires
        0 <= j < n,
        batch_colinear(xs, ys, n, p) == Ok::<bool, Error>(true),
    ensures
        poly_colinear(xs[j], ys[j], p) == Ok::<bool, Error>(true),
    decreases n,
{
    if j < n - 1 {
        lemma_batch_each(xs, ys, n - 1, j, p);
    }
}

/// Where the first `n` authentication paths pass, each of them does.
proof fn lemma_openings_each(
    msgs: Seq<Seq<nat>>,
    paths: nat,
    triples: nat,
    root: nat,
    root_next: nat,
    top: Seq<u32>,
    len: nat,
    n: int,
    t: int,
)
    requires
        0 <= t < n,
        openings_ok(msgs, paths, triples, root, root_next, top, len, n).is_ok(),
    ensures
        opening_ok(msgs, paths, triples, root, root_next, top, len, t).is_ok(),
    decreases n,
{
    if t < n - 1 {
        lemma_openings_each(msgs, paths, triples, root, root_next, top, len, n - 1, t);
    }
}

/// Where the query rounds from round `i` on pass, round `k` passes.
proof fn lemma_rounds_each(
    params: Params,
    msgs: Seq<Seq<nat>>,
    start: nat,
    top: Seq<u32>,
    i: nat,
    k: nat,
)
    requires
        i <= k,
        k < params.rounds(),
        check_rounds(
            params,
            msgs,
            start + params.commits() + 1 + i * (4 * top.len()),
            start,
            top,
            i,
            pow2(i),
            halved(params.len, i),
        ).is_ok(),
    ensures
        check_round(
            params,
            msgs,
            start + params.commits() + 1 + k * (4 * top.len()),
            root_at(msgs, start, k),
            root_at(msgs, start, k + 1),
            alpha_at(params, msgs, start, k),
            top,
            pow2(k),
            halved(params.len, k),
        ).is_ok(),
    decreases k - i,
{
    if i < k {
        let w = 4 * top.len();
        lemma_pow2_unfold(i + 1);
        assert((i + 1) * w == i * w + w) by (nonlinear_arith);
        assert(halved(params.len, i + 1) == halved(params.len, i) / 2);
        lemma_rounds_each(params, msgs, start, top, i + 1, k);
    }
}

/// What acceptance means for a query: where a transcript is verified,
/// the three values that query `j` of round `k` opens are authenticated
/// by the roots of rounds `k` and `k + 1`, and the third is, in the
/// field, what folding the first two with the round's challenge gives.
pub proof fn lemma_accepted_query(params: Params, msgs: Seq<Seq<nat>>, start: nat, k: nat, j: int)
    requires
        sound_setup(params),
        verify_spec(params, msgs, start).is_ok(),
        k < params.rounds(),
        0 <= j < verify_indices(params, msgs, start).unwrap().len(),
    ensures
        ({
            let top = verify_indices(params, msgs, start).unwrap();
            let base = start + params.commits() + 1 + k * (4 * top.len());
            let len = halved(params.len, k);
            let a = reduced_index(top[j], len);
            let values = msgs[base + j];
            let x = params.point(pow2(k), a);
            &&& values.len() >= 3
            &&& (values[2] as int) % params.p == fold_value(
                values[0] as int,
                values[1] as int,
                alpha_at(params, msgs, start, k),
                inverse(x, params.p),
                inverse(2, params.p),
                params.p,
            )
            &&& check_path(root_at(msgs, start, k), a, msgs[base + top.len() + 3 * j], values[0])
                == Ok::<bool, Error>(true)
            &&& check_path(
                root_at(msgs, start, k),
                a + len / 2,
                msgs[base + top.len() + 3 * j + 1],
                values[1],
            ) == Ok::<bool, Error>(true)
            &&& check_path(
                root_at(msgs, start, k + 1),
                a,
                msgs[base + top.len() + 3 * j + 2],
                values[2],
            ) == Ok::<bool, Error>(true)
        }),
{
    let p = params.p;
    let top = verify_indices(params, msgs, start).unwrap();
    let s = top.len();
    let base = start + params.commits() + 1 + k * (4 * s);
    let len = halved(params.len, k);
    let half = len / 2;
    let a = reduced_index(top[j], len);
    let alpha = alpha_at(params, msgs, start, k);
    let root = root_at(msgs, start, k);
    let root_next = root_at(msgs, start, k + 1);
    vstd::arithmetic::power2::lemma2_to64();
    assert(0 * (4 * s) == 0);
    lemma_rounds_each(params, msgs, start, top, 0, k);
    lemma_round_shape(params, k);
    assert(triples_present(msgs, base, s));
    assert(msgs[base + j].len() >= 3);
    let xs = Seq::new(s, |j: int| query_xs(params, alpha, top[j], pow2(k), len));
    let ys = Seq::new(s, |j: int| query_ys(msgs[base + j]));
    assert(poly_colinear_batch(xs, ys, p) == Ok::<bool, Error>(true));
    lemma_batch_each(xs, ys, s as int, j, p);
    lemma_mod_bound(top[j] as int, half as int);
    lemma_points(params, pow2(k), len, a);
    let values = msgs[base + j];
    let x = params.point(pow2(k), a);
    let nx = params.point(pow2(k), a + half);
    assert(xs[j] =~= seq![x, nx, alpha]);
    assert(ys[j] =~= seq![values[0] as int, values[1] as int, values[2] as int]);
    lemma_colinear_is_fold(x, nx, alpha, values[0] as int, values[1] as int, values[2] as int, p);
    let t = 3 * j;
    assert(t / 3 == j && (t + 1) / 3 == j && (t + 2) / 3 == j);
    assert(t % 3 == 0 && (t + 1) % 3 == 1 && (t + 2) % 3 == 2);
    lemma_openings_each(msgs, base + s, base, root, root_next, top, len, 3 * s as int, t);
    lemma_openings_each(msgs, base + s, base, root, root_next, top, len, 3 * s as int, t + 1);
    lemma_openings_each(msgs, base + s, base, root, root_next, top, len, 3 * s as int, t + 2);
    assert(check_path(root, a, msgs[base + s + t], values[0]).is_ok());
    assert(check_path(root, a + half, msgs[base + s + t + 1], values[1]).is_ok());
    assert(check_path(root_next, a, msgs[base + s + t + 2], values[2]).is_ok());
    lemma_check_is_true(root, a, msgs[base + s + t], values[0]);
    lemma_check_is_true(root, a + half, msgs[base + s + t + 1], values[1]);
    lemma_check_is_true(root_next, a, msgs[base + s + t + 2], values[2]);
}

/// A path check that succeeds gives `true`.
proof fn lemma_check_is_true(root: nat, index: nat, path: Seq<nat>, leaf: nat)
    requires
        check_path(root, index, path, leaf).is_ok(),
    ensures
        check_path(root, index, path, leaf) == Ok::<bool, Error>(true),
    decreases path.len(),
{
    if path.len() >= 2 {
        lemma_check_is_true(
            root,
            index / 2,
            path.skip(2),
            crate::tree::hash_pair(path[0], path[1]),
        );
    }
}

} // verus!
