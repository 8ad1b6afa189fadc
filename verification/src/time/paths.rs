//! All-pairs shortest paths over exact rational weights, with an absent
//! entry standing for an unbounded distance.
use crate::algebra::{
    fits, lemma_den_product, lemma_q_view, lemma_rat_add_assoc_comm, lemma_rat_le_add,
    lemma_rat_le_add_nonneg, lemma_rat_le_congruent, lemma_rat_le_trans, lemma_rat_sub_telescope,
    lemma_reduce_eq, rat_add, rat_eq, rat_le, rat_sub, reduce, Q,
};
use crate::error::TimeError;
use crate::time::constraint::{opt_view, valid_values};
use vstd::prelude::*;

verus! {

broadcast use lemma_q_view;

/// `a <= b`, where an absent bound is unbounded.
pub open spec fn bound_le(a: Option<(int, int)>, b: Option<(int, int)>) -> bool {
    match b {
        None => true,
        Some(y) => match a {
            Some(x) => rat_le(x, y),
            None => false,
        },
    }
}

/// `a + b`, unbounded when either is.
pub open spec fn bound_add(a: Option<(int, int)>, b: Option<(int, int)>) -> Option<(int, int)> {
    match a {
        Some(x) => match b {
            Some(y) => Some(rat_add(x, y)),
            None => None,
        },
        None => None,
    }
}

/// A present bound has a positive denominator.
pub open spec fn pos(a: Option<(int, int)>) -> bool {
    a matches Some(v) ==> v.1 > 0
}

/// A present bound is not negative.
pub open spec fn nonneg(a: Option<(int, int)>) -> bool {
    a matches Some(v) ==> v.0 >= 0
}

/// `r` is `o` relaxed by the path `a` then `b`: the smaller of the two.
pub open spec fn relaxed(
    o: Option<(int, int)>,
    a: Option<(int, int)>,
    b: Option<(int, int)>,
    r: Option<(int, int)>,
) -> bool {
    match bound_add(a, b) {
        None => r == o,
        Some(s) => {
            &&& r is Some
            &&& bound_le(r, o)
            &&& bound_le(r, Some(s))
            &&& (r == o || bound_le(Some(s), r))
        },
    }
}

/// One entry of a distance matrix.
pub open spec fn cell(d: Seq<Vec<Option<Q>>>, i: int, j: int) -> Option<(int, int)> {
    opt_view(d[i]@[j])
}

/// An `n` by `n` matrix.
pub open spec fn square(d: Seq<Vec<Option<Q>>>, n: int) -> bool {
    &&& d.len() == n
    &&& forall|i: int| 0 <= i < n ==> (#[trigger] d[i])@.len() == n
}

/// `new` is `old` relaxed through the pivot `k`.
pub open spec fn pivot_step(old: Seq<Vec<Option<Q>>>, new: Seq<Vec<Option<Q>>>, n: int, k: int) -> bool {
    &&& square(old, n)
    &&& square(new, n)
    &&& forall|i: int, j: int|
        0 <= i < n && 0 <= j < n ==> relaxed(
            cell(old, i, j),
            cell(old, i, k),
            cell(old, k, j),
            #[trigger] cell(new, i, j),
        )
}

/// No diagonal entry is negative.
pub open spec fn no_negative_diagonal(d: Seq<Vec<Option<Q>>>, n: int) -> bool {
    forall|t: int| 0 <= t < n ==> nonneg(#[trigger] cell(d, t, t))
}

/// Every entry is at most the path through each of the first `k` pivots.
pub open spec fn triangle(d: Seq<Vec<Option<Q>>>, n: int, k: int) -> bool {
    forall|m: int, i: int, j: int|
        0 <= m < k && 0 <= i < n && 0 <= j < n ==> bound_le(
            #[trigger] cell(d, i, j),
            bound_add(#[trigger] cell(d, i, m), #[trigger] cell(d, m, j)),
        )
}

/// An assignment meets every weighted edge `x[to] - x[from] <= w`.
pub open spec fn edges_hold(edges: Seq<(usize, usize, Q)>, count: int, x: Seq<(int, int)>) -> bool {
    &&& valid_values(x, count)
    &&& forall|e: int|
        0 <= e < edges.len() ==> rat_le(
            rat_sub(x[(#[trigger] edges[e]).1 as int], x[edges[e].0 as int]),
            edges[e].2@,
        )
}

/// Every finite entry among the first `count` indices bounds the matching
/// difference of the assignment.
pub open spec fn bounds_hold(d: Seq<Vec<Option<Q>>>, count: int, x: Seq<(int, int)>) -> bool {
    forall|i: int, j: int|
        0 <= i < count && 0 <= j < count ==> (#[trigger] cell(d, i, j) matches Some(w) ==> rat_le(
            rat_sub(x[j], x[i]),
            w,
        ))
}

/// A present bound is a multiple of `1 / grid`, at most `b` steps of the
/// grid from zero: its denominator divides `grid`, and its numerator scaled
/// to the grid is within `b`.
pub open spec fn on_grid(a: Option<(int, int)>, grid: int, b: int) -> bool {
    a matches Some(v) ==> v.1 > 0 && grid % v.1 == 0 && -b <= v.0 * (grid / v.1) <= b
}

/// Every entry of the `n` by `n` matrix lies on the grid within `b` steps.
pub open spec fn small(d: Seq<Vec<Option<Q>>>, n: int, grid: int, b: int) -> bool {
    forall|i: int, j: int| 0 <= i < n && 0 <= j < n ==> on_grid(#[trigger] cell(d, i, j), grid, b)
}

/// Every edge weight lies on the grid within `b` steps.
pub open spec fn weights_small(edges: Seq<(usize, usize, Q)>, grid: int, b: int) -> bool {
    forall|e: int| 0 <= e < edges.len() ==> on_grid(Some((#[trigger] edges[e]).2@), grid, b)
}

/// `a / q1`, scaled by `q1 * q2` and the grid `q1 * d`, in two ways.
proof fn lemma_scaled_term(a: int, q1: int, q2: int, d: int, grid: int)
    requires
        q1 * d == grid,
    ensures
        (a * q2) * grid == (a * d) * (q1 * q2),
{
    assert((a * q2) * grid == (a * d) * (q1 * q2)) by (nonlinear_arith)
        requires
            q1 * d == grid,
    ;
}

/// The sum of two values on the grid, reduced, stays on the grid within the
/// sum of their steps, and fits the storage of `Q` when the grid and twice
/// the steps do.
pub proof fn lemma_grid_sum(v1: (int, int), v2: (int, int), grid: int, b: int)
    requires
        0 < grid <= i64::MAX,
        0 <= b,
        2 * b <= i64::MAX,
        on_grid(Some(v1), grid, b),
        on_grid(Some(v2), grid, b),
    ensures
        fits(reduce(rat_add(v1, v2))),
        on_grid(Some(reduce(rat_add(v1, v2))), grid, 2 * b),
{
    let d1 = grid / v1.1;
    let d2 = grid / v2.1;
    vstd::arithmetic::div_mod::lemma_fundamental_div_mod(grid, v1.1);
    vstd::arithmetic::div_mod::lemma_fundamental_div_mod(grid, v2.1);
    assert(v1.1 * d1 == grid && v2.1 * d2 == grid);
    let k1 = v1.0 * d1;
    let k2 = v2.0 * d2;
    let k = k1 + k2;
    let s = rat_add(v1, v2);
    lemma_scaled_term(v1.0, v1.1, v2.1, d1, grid);
    lemma_scaled_term(v2.0, v2.1, v1.1, d2, grid);
    assert(v2.1 * v1.1 == v1.1 * v2.1) by (nonlinear_arith);
    assert(s.0 * grid == (v1.0 * v2.1) * grid + (v2.0 * v1.1) * grid) by (nonlinear_arith)
        requires
            s.0 == v1.0 * v2.1 + v2.0 * v1.1,
    ;
    assert(k * s.1 == k1 * s.1 + k2 * s.1) by (nonlinear_arith)
        requires
            k == k1 + k2,
    ;
    lemma_den_product(v1.1, v2.1);
    lemma_reduce_eq(s);
    crate::algebra::lemma_reduce_lowest(s);
    let r = reduce(s);
    assert(r.0 * grid == k * r.1) by (nonlinear_arith)
        requires
            r.0 * s.1 == s.0 * r.1,
            s.0 * grid == k * s.1,
            s.1 > 0,
    ;
    assert(crate::algebra::divides(r.1, r.0 * grid)) by {
        assert(r.1 * k == r.0 * grid) by (nonlinear_arith)
            requires
                r.0 * grid == k * r.1,
        ;
    }
    crate::algebra::lemma_coprime_divides(r.0, r.1, grid);
    let t = choose|t: int| #[trigger] (r.1 * t) == grid;
    assert(t > 0) by (nonlinear_arith)
        requires
            r.1 * t == grid,
            r.1 > 0,
            grid > 0,
    ;
    vstd::arithmetic::div_mod::lemma_fundamental_div_mod_converse(grid, r.1, t, 0);
    assert(r.0 * t == k) by (nonlinear_arith)
        requires
            r.0 * grid == k * r.1,
            r.1 * t == grid,
            r.1 > 0,
    ;
    assert(-2 * b <= k <= 2 * b);
    assert(-2 * b <= r.0 <= 2 * b) by (nonlinear_arith)
        requires
            r.0 * t == k,
            t >= 1,
            -2 * b <= k <= 2 * b,
    ;
    assert(r.1 <= grid) by (nonlinear_arith)
        requires
            r.1 * t == grid,
            t >= 1,
            r.1 > 0,
    ;
}

/// `b` doubled `k` times.
pub open spec fn doubled(b: int, k: nat) -> int
    decreases k,
{
    if k == 0 {
        b
    } else {
        2 * doubled(b, (k - 1) as nat)
    }
}

pub proof fn lemma_doubled_monotone(b: int, k: nat, m: nat)
    requires
        0 <= b,
        k <= m,
    ensures
        0 <= doubled(b, k) <= doubled(b, m),
    decreases m,
{
    if m > k {
        lemma_doubled_monotone(b, k, (m - 1) as nat);
    } else if k > 0 {
        lemma_doubled_monotone(b, (k - 1) as nat, (k - 1) as nat);
    }
}


pub(crate) proof fn lemma_cell_pos(d: Seq<Vec<Option<Q>>>, i: int, j: int)
    ensures
        pos(cell(d, i, j)),
{
    match d[i]@[j] {
        Some(q) => {
            assert(q@.1 > 0);
        },
        None => {},
    }
}

pub(crate) proof fn lemma_bound_trans(a: Option<(int, int)>, b: Option<(int, int)>, c: Option<(int, int)>)
    requires
        pos(a),
        pos(b),
        pos(c),
        bound_le(a, b),
        bound_le(b, c),
    ensures
        bound_le(a, c),
{
    if c is Some && b is Some && a is Some {
        lemma_rat_le_trans(a->0, b->0, c->0);
    }
}

pub(crate) proof fn lemma_bound_add(
    a: Option<(int, int)>,
    b: Option<(int, int)>,
    c: Option<(int, int)>,
    d: Option<(int, int)>,
)
    requires
        pos(a),
        pos(b),
        pos(c),
        pos(d),
        bound_le(a, b),
        bound_le(c, d),
    ensures
        bound_le(bound_add(a, c), bound_add(b, d)),
        pos(bound_add(a, c)),
        pos(bound_add(b, d)),
{
    if a is Some && c is Some {
        lemma_den_product((a->0).1, (c->0).1);
    }
    if b is Some && d is Some {
        lemma_den_product((b->0).1, (d->0).1);
        lemma_rat_le_add(a->0, b->0, c->0, d->0);
    }
}

pub(crate) proof fn lemma_bound_algebra(a: Option<(int, int)>, b: Option<(int, int)>, c: Option<(int, int)>)
    requires
        pos(a),
        pos(b),
        pos(c),
    ensures
        bound_add(bound_add(a, b), c) == bound_add(a, bound_add(b, c)),
        bound_add(a, b) == bound_add(b, a),
        pos(bound_add(a, b)),
        bound_le(a, a),
{
    if a is Some && b is Some {
        lemma_den_product((a->0).1, (b->0).1);
        if c is Some {
            lemma_rat_add_assoc_comm(a->0, b->0, c->0);
        } else {
            lemma_rat_add_assoc_comm(a->0, b->0, b->0);
        }
    }
}

proof fn lemma_bound_nonneg(a: Option<(int, int)>, c: Option<(int, int)>)
    requires
        pos(a),
        pos(c),
        nonneg(c),
    ensures
        bound_le(a, bound_add(a, c)),
        bound_le(a, bound_add(c, a)),
{
    if a is Some && c is Some {
        lemma_rat_le_add_nonneg(a->0, c->0);
    }
}

proof fn lemma_relaxed_facts(
    o: Option<(int, int)>,
    a: Option<(int, int)>,
    b: Option<(int, int)>,
    r: Option<(int, int)>,
)
    requires
        pos(o),
        pos(a),
        pos(b),
        pos(r),
        relaxed(o, a, b, r),
    ensures
        pos(bound_add(a, b)),
        bound_le(r, o),
        bound_le(r, bound_add(a, b)),
        r == o || bound_le(bound_add(a, b), r),
{
    lemma_bound_algebra(a, b, b);
    lemma_bound_algebra(o, o, o);
}

/// The triangle through an earlier pivot survives a relaxation.
proof fn lemma_triangle_cell(
    o_ij: Option<(int, int)>,
    o_ik: Option<(int, int)>,
    o_kj: Option<(int, int)>,
    o_im: Option<(int, int)>,
    o_mj: Option<(int, int)>,
    o_km: Option<(int, int)>,
    o_mk: Option<(int, int)>,
    o_kk: Option<(int, int)>,
    w_ij: Option<(int, int)>,
    w_im: Option<(int, int)>,
    w_mj: Option<(int, int)>,
)
    requires
        pos(o_ij),
        pos(o_ik),
        pos(o_kj),
        pos(o_im),
        pos(o_mj),
        pos(o_km),
        pos(o_mk),
        pos(o_kk),
        pos(w_ij),
        pos(w_im),
        pos(w_mj),
        relaxed(o_ij, o_ik, o_kj, w_ij),
        relaxed(o_im, o_ik, o_km, w_im),
        relaxed(o_mj, o_mk, o_kj, w_mj),
        bound_le(o_ij, bound_add(o_im, o_mj)),
        bound_le(o_kj, bound_add(o_km, o_mj)),
        bound_le(o_ik, bound_add(o_im, o_mk)),
        bound_le(o_kk, bound_add(o_km, o_mk)),
        nonneg(o_kk),
    ensures
        bound_le(w_ij, bound_add(w_im, w_mj)),
{
    lemma_relaxed_facts(o_ij, o_ik, o_kj, w_ij);
    lemma_relaxed_facts(o_im, o_ik, o_km, w_im);
    lemma_relaxed_facts(o_mj, o_mk, o_kj, w_mj);
    let s_ij = bound_add(o_ik, o_kj);
    let s1 = bound_add(o_ik, o_km);
    let s2 = bound_add(o_mk, o_kj);
    lemma_bound_algebra(o_im, o_mj, o_mj);
    lemma_bound_algebra(o_km, o_mj, o_mj);
    lemma_bound_algebra(o_im, o_mk, o_mk);
    lemma_bound_algebra(o_km, o_mk, o_mk);
    lemma_bound_algebra(w_im, w_mj, w_mj);
    if w_im == o_im && w_mj == o_mj {
        lemma_bound_trans(w_ij, o_ij, bound_add(w_im, w_mj));
    } else if w_mj == o_mj {
        // w_ij <= o_ik + o_kj <= o_ik + (o_km + o_mj) == (o_ik + o_km) + o_mj <= w_im + w_mj
        lemma_bound_algebra(o_ik, o_ik, o_ik);
        lemma_bound_add(o_ik, o_ik, o_kj, bound_add(o_km, o_mj));
        lemma_bound_algebra(o_ik, o_km, o_mj);
        lemma_bound_algebra(o_mj, o_mj, o_mj);
        lemma_bound_add(s1, w_im, o_mj, w_mj);
        lemma_bound_trans(s_ij, bound_add(o_ik, bound_add(o_km, o_mj)), bound_add(w_im, w_mj));
        lemma_bound_trans(w_ij, s_ij, bound_add(w_im, w_mj));
    } else if w_im == o_im {
        // w_ij <= o_ik + o_kj <= (o_im + o_mk) + o_kj == o_im + (o_mk + o_kj) <= w_im + w_mj
        lemma_bound_algebra(o_kj, o_kj, o_kj);
        lemma_bound_add(o_ik, bound_add(o_im, o_mk), o_kj, o_kj);
        lemma_bound_algebra(o_im, o_mk, o_kj);
        lemma_bound_algebra(o_im, o_im, o_im);
        lemma_bound_algebra(o_mk, o_kj, o_kj);
        lemma_bound_add(o_im, w_im, s2, w_mj);
        lemma_bound_trans(s_ij, bound_add(o_im, s2), bound_add(w_im, w_mj));
        lemma_bound_trans(w_ij, s_ij, bound_add(w_im, w_mj));
    } else {
        // w_ij <= o_ik + o_kj <= o_ik + (o_kk + o_kj) <= o_ik + ((o_km + o_mk) + o_kj)
        //      == (o_ik + o_km) + (o_mk + o_kj) <= w_im + w_mj
        lemma_bound_algebra(o_ik, o_ik, o_ik);
        lemma_bound_algebra(o_kj, o_kj, o_kj);
        lemma_bound_algebra(o_kk, o_kj, o_kj);
        lemma_bound_nonneg(o_kj, o_kk);
        lemma_bound_add(o_ik, o_ik, o_kj, bound_add(o_kk, o_kj));
        let p = bound_add(o_km, o_mk);
        lemma_bound_algebra(o_km, o_mk, o_kj);
        lemma_bound_algebra(p, o_kj, o_kj);
        lemma_bound_add(o_kk, p, o_kj, o_kj);
        lemma_bound_add(o_ik, o_ik, bound_add(o_kk, o_kj), bound_add(p, o_kj));
        lemma_bound_trans(
            s_ij,
            bound_add(o_ik, bound_add(o_kk, o_kj)),
            bound_add(o_ik, bound_add(p, o_kj)),
        );
        lemma_bound_algebra(o_mk, o_kj, o_kj);
        lemma_bound_algebra(o_ik, o_km, s2);
        lemma_bound_algebra(o_ik, o_km, o_km);
        lemma_bound_add(s1, w_im, s2, w_mj);
        lemma_bound_trans(s_ij, bound_add(s1, s2), bound_add(w_im, w_mj));
        lemma_bound_trans(w_ij, s_ij, bound_add(w_im, w_mj));
    }
}

/// The triangle through the pivot itself holds after relaxing through it.
proof fn lemma_triangle_pivot(
    o_ij: Option<(int, int)>,
    o_ik: Option<(int, int)>,
    o_kj: Option<(int, int)>,
    o_kk: Option<(int, int)>,
    w_ij: Option<(int, int)>,
    w_ik: Option<(int, int)>,
    w_kj: Option<(int, int)>,
)
    requires
        pos(o_ij),
        pos(o_ik),
        pos(o_kj),
        pos(o_kk),
        pos(w_ij),
        pos(w_ik),
        pos(w_kj),
        relaxed(o_ij, o_ik, o_kj, w_ij),
        relaxed(o_ik, o_ik, o_kk, w_ik),
        relaxed(o_kj, o_kk, o_kj, w_kj),
        nonneg(o_kk),
    ensures
        bound_le(w_ij, bound_add(w_ik, w_kj)),
{
    lemma_relaxed_facts(o_ij, o_ik, o_kj, w_ij);
    lemma_relaxed_facts(o_ik, o_ik, o_kk, w_ik);
    lemma_relaxed_facts(o_kj, o_kk, o_kj, w_kj);
    lemma_bound_algebra(o_ik, o_ik, o_ik);
    lemma_bound_algebra(o_kj, o_kj, o_kj);
    lemma_bound_nonneg(o_ik, o_kk);
    lemma_bound_nonneg(o_kj, o_kk);
    lemma_bound_algebra(o_ik, o_kk, o_kk);
    lemma_bound_algebra(o_kk, o_kj, o_kj);
    if w_ik != o_ik {
        lemma_bound_trans(o_ik, bound_add(o_ik, o_kk), w_ik);
    }
    if w_kj != o_kj {
        lemma_bound_trans(o_kj, bound_add(o_kk, o_kj), w_kj);
    }
    lemma_bound_add(o_ik, w_ik, o_kj, w_kj);
    lemma_bound_trans(w_ij, bound_add(o_ik, o_kj), bound_add(w_ik, w_kj));
}

proof fn lemma_negative_stays(o: Option<(int, int)>, r: Option<(int, int)>)
    requires
        pos(o),
        pos(r),
        bound_le(r, o),
        nonneg(r),
    ensures
        nonneg(o),
{
    if o is Some {
        let v = o->0;
        let u = r->0;
        if v.0 < 0 {
            assert(u.0 * v.1 <= v.0 * u.1);
            assert(v.0 * u.1 < 0) by (nonlinear_arith)
                requires
                    v.0 < 0,
                    u.1 > 0,
            ;
            assert(u.0 * v.1 >= 0) by (nonlinear_arith)
                requires
                    u.0 >= 0,
                    v.1 > 0,
            ;
        }
    }
}

/// One pivot step keeps the triangle property for every pivot so far, as
/// long as no diagonal entry has gone negative.
proof fn lemma_pivot_triangle(old: Seq<Vec<Option<Q>>>, new: Seq<Vec<Option<Q>>>, n: int, k: int)
    requires
        0 <= k < n,
        pivot_step(old, new, n, k),
        no_negative_diagonal(old, n) ==> triangle(old, n, k),
    ensures
        no_negative_diagonal(new, n) ==> triangle(new, n, k + 1),
{
    if no_negative_diagonal(new, n) {
        assert forall|t: int| 0 <= t < n implies nonneg(#[trigger] cell(old, t, t)) by {
            lemma_cell_pos(old, t, t);
            lemma_cell_pos(old, t, k);
            lemma_cell_pos(old, k, t);
            lemma_cell_pos(new, t, t);
            assert(nonneg(cell(new, t, t)));
            lemma_relaxed_facts(cell(old, t, t), cell(old, t, k), cell(old, k, t), cell(new, t, t));
            lemma_negative_stays(cell(old, t, t), cell(new, t, t));
        }
        assert forall|m: int, i: int, j: int| 0 <= m < k + 1 && 0 <= i < n && 0 <= j < n implies bound_le(
            #[trigger] cell(new, i, j),
            bound_add(#[trigger] cell(new, i, m), #[trigger] cell(new, m, j)),
        ) by {
            lemma_cell_pos(old, i, j);
            lemma_cell_pos(old, i, k);
            lemma_cell_pos(old, k, j);
            lemma_cell_pos(old, k, k);
            lemma_cell_pos(old, i, m);
            lemma_cell_pos(old, m, j);
            lemma_cell_pos(old, k, m);
            lemma_cell_pos(old, m, k);
            lemma_cell_pos(new, i, j);
            lemma_cell_pos(new, i, m);
            lemma_cell_pos(new, m, j);
            lemma_cell_pos(new, i, k);
            lemma_cell_pos(new, k, j);
            assert(relaxed(cell(old, i, j), cell(old, i, k), cell(old, k, j), cell(new, i, j)));
            assert(nonneg(cell(old, k, k)));
            if m < k {
                assert(relaxed(cell(old, i, m), cell(old, i, k), cell(old, k, m), cell(new, i, m)));
                assert(relaxed(cell(old, m, j), cell(old, m, k), cell(old, k, j), cell(new, m, j)));
                assert(bound_le(cell(old, i, j), bound_add(cell(old, i, m), cell(old, m, j))));
                assert(bound_le(cell(old, k, j), bound_add(cell(old, k, m), cell(old, m, j))));
                assert(bound_le(cell(old, i, k), bound_add(cell(old, i, m), cell(old, m, k))));
                assert(bound_le(cell(old, k, k), bound_add(cell(old, k, m), cell(old, m, k))));
                lemma_triangle_cell(
                    cell(old, i, j),
                    cell(old, i, k),
                    cell(old, k, j),
                    cell(old, i, m),
                    cell(old, m, j),
                    cell(old, k, m),
                    cell(old, m, k),
                    cell(old, k, k),
                    cell(new, i, j),
                    cell(new, i, m),
                    cell(new, m, j),
                );
            } else {
                assert(relaxed(cell(old, i, k), cell(old, i, k), cell(old, k, k), cell(new, i, k)));
                assert(relaxed(cell(old, k, j), cell(old, k, k), cell(old, k, j), cell(new, k, j)));
                lemma_triangle_pivot(
                    cell(old, i, j),
                    cell(old, i, k),
                    cell(old, k, j),
                    cell(old, k, k),
                    cell(new, i, j),
                    cell(new, i, k),
                    cell(new, k, j),
                );
            }
        }
    }
}

/// A relaxation keeps every bound that a solution of the edges meets.
proof fn lemma_bounds_step(
    old: Seq<Vec<Option<Q>>>,
    new: Seq<Vec<Option<Q>>>,
    count: int,
    k: int,
    x: Seq<(int, int)>,
)
    requires
        0 <= k <= count,
        pivot_step(old, new, count + 1, k),
        bounds_hold(old, count, x),
        valid_values(x, count),
        forall|i: int| 0 <= i < count ==> #[trigger] cell(old, i, count) is None,
    ensures
        bounds_hold(new, count, x),
{
    assert forall|i: int, j: int| 0 <= i < count && 0 <= j < count implies (#[trigger] cell(
        new,
        i,
        j,
    ) matches Some(w) ==> rat_le(rat_sub(x[j], x[i]), w)) by {
        lemma_cell_pos(old, i, j);
        lemma_cell_pos(old, i, k);
        lemma_cell_pos(old, k, j);
        lemma_cell_pos(new, i, j);
        assert(relaxed(cell(old, i, j), cell(old, i, k), cell(old, k, j), cell(new, i, j)));
        lemma_relaxed_facts(cell(old, i, j), cell(old, i, k), cell(old, k, j), cell(new, i, j));
        if cell(new, i, j) != cell(old, i, j) {
            if k == count {
                assert(cell(old, i, count) is None);
            }
            let a = cell(old, i, k)->0;
            let b = cell(old, k, j)->0;
            let w = cell(new, i, j)->0;
            assert(x[i].1 > 0 && x[j].1 > 0 && x[k].1 > 0);
            assert(rat_le(rat_sub(x[k], x[i]), a));
            assert(rat_le(rat_sub(x[j], x[k]), b));
            lemma_rat_sub_telescope(x[i], x[k], x[j]);
            lemma_rat_le_add(rat_sub(x[k], x[i]), a, rat_sub(x[j], x[k]), b);
            let through = rat_add(rat_sub(x[k], x[i]), rat_sub(x[j], x[k]));
            lemma_den_product(rat_sub(x[k], x[i]).1, rat_sub(x[j], x[k]).1);
            lemma_den_product(a.1, b.1);
            assert(rat_eq(through, rat_sub(x[j], x[i])));
            lemma_rat_le_congruent(through, rat_add(a, b), rat_sub(x[j], x[i]), rat_add(a, b));
            lemma_rat_le_trans(rat_sub(x[j], x[i]), rat_add(a, b), w);
        }
    }
}

/// A non-negative lower bound makes its upper side non-negative.
proof fn lemma_nonneg_above(s: (int, int), v: (int, int))
    requires
        s.0 >= 0,
        s.1 > 0,
        v.1 > 0,
        rat_le(s, v),
    ensures
        v.0 >= 0,
{
    assert(s.0 * v.1 >= 0) by (nonlinear_arith)
        requires
            s.0 >= 0,
            v.1 > 0,
    ;
    assert(v.0 >= 0) by (nonlinear_arith)
        requires
            v.0 * s.1 >= 0,
            s.1 > 0,
    ;
}

/// What the all-pairs computation establishes about its matrix. Index
/// `count` is a virtual source with a zero-weight edge to every variable.
pub open spec fn paths_facts(d: Seq<Vec<Option<Q>>>, count: int, edges: Seq<(usize, usize, Q)>) -> bool {
    &&& square(d, count + 1)
    &&& (no_negative_diagonal(d, count + 1) ==> triangle(d, count + 1, count + 1))
    &&& forall|e: int|
        0 <= e < edges.len() ==> bound_le(
            cell(d, (#[trigger] edges[e]).0 as int, edges[e].1 as int),
            Some(edges[e].2@),
        )
    &&& forall|v: int| 0 <= v < count ==> bound_le(#[trigger] cell(d, count, v), Some((0int, 1int)))
    &&& forall|v: int| 0 <= v < count ==> bound_le(#[trigger] cell(d, v, v), Some((0int, 1int)))
    &&& forall|i: int| 0 <= i < count ==> #[trigger] cell(d, i, count) is None
    &&& nonneg(cell(d, count, count))
    &&& forall|x: Seq<(int, int)>|
        #[trigger] edges_hold(edges, count, x) ==> bounds_hold(d, count, x)
}

/// The smaller of an existing bound and a candidate.
fn relax_value(existing: Option<Q>, candidate: Q) -> (r: Option<Q>)
    ensures
        match existing {
            Some(e) => if rat_le(e@, candidate@) {
                r == existing
            } else {
                r == Some(candidate)
            },
            None => r == Some(candidate),
        },
{
    match existing {
        Some(e) => if e.le(&candidate) {
            existing
        } else {
            Some(candidate)
        },
        None => Some(candidate),
    }
}

proof fn lemma_relax_cell(o: Option<Q>, a: Q, b: Q, c: Q, r: Option<Q>)
    requires
        c@ == reduce(rat_add(a@, b@)),
        match o {
            Some(e) => if rat_le(e@, c@) {
                r == o
            } else {
                r == Some(c)
            },
            None => r == Some(c),
        },
    ensures
        relaxed(opt_view(o), Some(a@), Some(b@), opt_view(r)),
{
    let s = rat_add(a@, b@);
    lemma_den_product(a@.1, b@.1);
    lemma_reduce_eq(s);
    assert(rat_le(c@, s) && rat_le(s, c@));
    match o {
        Some(e) => {
            if rat_le(e@, c@) {
                lemma_rat_le_trans(e@, c@, s);
            } else {
                assert(rat_le(c@, e@));
            }
        },
        None => {},
    }
}

/// Relaxes every entry of `d` through the pivot `k`.
fn pivot(d: &Vec<Vec<Option<Q>>>, n: usize, k: usize, Ghost(grid): Ghost<int>, Ghost(bound): Ghost<int>) -> (r: Result<
    Vec<Vec<Option<Q>>>,
    TimeError,
>)
    requires
        square(d@, n as int),
        k < n,
    ensures
        r matches Ok(next) ==> pivot_step(d@, next@, n as int, k as int),
        r matches Err(e) ==> e is Overflow,
        0 < grid <= i64::MAX && 0 <= bound && 2 * bound <= i64::MAX && small(d@, n as int, grid, bound) ==> (r matches Ok(next)
            && small(next@, n as int, grid, 2 * bound)),
{
    let ghost premise = 0 < grid <= i64::MAX && 0 <= bound && 2 * bound <= i64::MAX && small(d@, n as int, grid, bound);
    let mut next: Vec<Vec<Option<Q>>> = Vec::new();
    let mut i: usize = 0;
    while i < n
        invariant
            square(d@, n as int),
            k < n,
            i <= n,
            next@.len() == i,
            forall|i2: int| 0 <= i2 < i ==> (#[trigger] next@[i2])@.len() == n,
            forall|i2: int, j: int|
                0 <= i2 < i && 0 <= j < n ==> relaxed(
                    cell(d@, i2, j),
                    cell(d@, i2, k as int),
                    cell(d@, k as int, j),
                    #[trigger] cell(next@, i2, j),
                ),
            premise == (0 < grid <= i64::MAX && 0 <= bound && 2 * bound <= i64::MAX && small(d@, n as int, grid, bound)),
            premise ==> forall|i2: int, j: int|
                0 <= i2 < i && 0 <= j < n ==> on_grid(#[trigger] cell(next@, i2, j), grid, 2 * bound),
        decreases n - i,
    {
        let left = d[i][k];
        let mut row: Vec<Option<Q>> = Vec::new();
        let mut j: usize = 0;
        while j < n
            invariant
                square(d@, n as int),
                k < n,
                i < n,
                j <= n,
                left == d@[i as int]@[k as int],
                row@.len() == j,
                forall|j2: int|
                    0 <= j2 < j ==> relaxed(
                        cell(d@, i as int, j2),
                        cell(d@, i as int, k as int),
                        cell(d@, k as int, j2),
                        opt_view(#[trigger] row@[j2]),
                    ),
                premise == (0 < grid <= i64::MAX && 0 <= bound && 2 * bound <= i64::MAX && small(d@, n as int, grid, bound)),
                premise ==> forall|j2: int|
                    0 <= j2 < j ==> on_grid(opt_view(#[trigger] row@[j2]), grid, 2 * bound),
            decreases n - j,
        {
            proof {
                if premise {
                    assert(on_grid(cell(d@, i as int, j as int), grid, bound));
                    assert(on_grid(cell(d@, i as int, k as int), grid, bound));
                    assert(on_grid(cell(d@, k as int, j as int), grid, bound));
                }
            }
            let existing = d[i][j];
            let right = d[k][j];
            let value = match left {
                Some(a) => match right {
                    Some(b) => {
                        proof {
                            if premise {
                                assert(cell(d@, i as int, k as int) == Some(a@));
                                assert(cell(d@, k as int, j as int) == Some(b@));
                                lemma_grid_sum(a@, b@, grid, bound);
                            }
                        }
                        match a.checked_add(&b) {
                            Some(c) => {
                                let v = relax_value(existing, c);
                                proof {
                                    lemma_relax_cell(existing, a, b, c, v);
                                }
                                v
                            },
                            None => {
                                return Err(TimeError::Overflow);
                            },
                        }
                    },
                    None => existing,
                },
                None => existing,
            };
            row.push(value);
            proof {
                if premise {
                    assert(on_grid(opt_view(row@[j as int]), grid, 2 * bound));
                }
            }
            j = j + 1;
        }
        let ghost before = next@;
        next.push(row);
        proof {
            assert forall|i2: int, j: int| 0 <= i2 < i + 1 && 0 <= j < n implies relaxed(
                cell(d@, i2, j),
                cell(d@, i2, k as int),
                cell(d@, k as int, j),
                #[trigger] cell(next@, i2, j),
            ) by {
                if i2 == i {
                    assert(next@[i2] == row);
                    assert(cell(next@, i2, j) == opt_view(row@[j]));
                } else {
                    assert(next@[i2] == before[i2]);
                    assert(cell(next@, i2, j) == cell(before, i2, j));
                }
            }
            if premise {
                assert forall|i2: int, j: int| 0 <= i2 < i + 1 && 0 <= j < n implies on_grid(
                    #[trigger] cell(next@, i2, j),
                    grid,
                    2 * bound,
                ) by {
                    if i2 == i {
                        assert(next@[i2] == row);
                        assert(cell(next@, i2, j) == opt_view(row@[j]));
                    } else {
                        assert(next@[i2] == before[i2]);
                        assert(cell(next@, i2, j) == cell(before, i2, j));
                    }
                }
            }
        }
        i = i + 1;
    }
    Ok(next)
}

/// A copy of `row` with entry `j` replaced.
fn with_entry(row: &Vec<Option<Q>>, j: usize, value: Option<Q>) -> (r: Vec<Option<Q>>)
    requires
        j < row@.len(),
    ensures
        r@ == row@.update(j as int, value),
{
    let mut out: Vec<Option<Q>> = Vec::new();
    let mut t: usize = 0;
    while t < row.len()
        invariant
            j < row@.len(),
            t <= row@.len(),
            out@ == row@.update(j as int, value).take(t as int),
        decreases row@.len() - t,
    {
        if t == j {
            out.push(value);
        } else {
            out.push(row[t]);
        }
        proof {
            assert(out@ =~= row@.update(j as int, value).take(t + 1));
        }
        t = t + 1;
    }
    proof {
        assert(out@ =~= row@.update(j as int, value));
    }
    out
}

/// The matrix before any pivot: zero on the diagonal, zero from the source
/// to every variable, each edge weight where it is the smallest given.
fn initial_matrix(count: usize, edges: &Vec<(usize, usize, Q)>, Ghost(grid): Ghost<int>, Ghost(bound): Ghost<int>) -> (d: Vec<
    Vec<Option<Q>>,
>)
    requires
        count < usize::MAX,
        forall|e: int| 0 <= e < edges@.len() ==> (#[trigger] edges@[e]).0 < count && edges@[e].1 < count,
    ensures
        0 < grid <= i64::MAX && 0 <= bound && weights_small(edges@, grid, bound) ==> small(d@, count + 1, grid, bound),
        square(d@, count + 1),
        triangle(d@, count + 1, 0),
        forall|e: int|
            0 <= e < edges@.len() ==> bound_le(
                cell(d@, (#[trigger] edges@[e]).0 as int, edges@[e].1 as int),
                Some(edges@[e].2@),
            ),
        forall|v: int| 0 <= v < count ==> bound_le(#[trigger] cell(d@, count as int, v), Some((0int, 1int))),
        forall|v: int| 0 <= v < count ==> bound_le(#[trigger] cell(d@, v, v), Some((0int, 1int))),
        forall|i: int| 0 <= i < count ==> #[trigger] cell(d@, i, count as int) is None,
        nonneg(cell(d@, count as int, count as int)),
        forall|x: Seq<(int, int)>|
            #[trigger] edges_hold(edges@, count as int, x) ==> bounds_hold(d@, count as int, x),
{
    let n = count + 1;
    let mut d: Vec<Vec<Option<Q>>> = Vec::new();
    let mut i: usize = 0;
    while i < n
        invariant
            n == count + 1,
            i <= n,
            d@.len() == i,
            forall|i2: int| 0 <= i2 < i ==> (#[trigger] d@[i2])@.len() == n,
            forall|i2: int, j: int|
                0 <= i2 < i && 0 <= j < n ==> #[trigger] cell(d@, i2, j) == (if i2 == j || i2
                    == count {
                    Some((0int, 1int))
                } else {
                    None
                }),
        decreases n - i,
    {
        let mut row: Vec<Option<Q>> = Vec::new();
        let mut j: usize = 0;
        while j < n
            invariant
                n == count + 1,
                i < n,
                j <= n,
                row@.len() == j,
                forall|j2: int|
                    0 <= j2 < j ==> opt_view(#[trigger] row@[j2]) == (if i == j2 || i == count {
                        Some((0int, 1int))
                    } else {
                        None
                    }),
            decreases n - j,
        {
            if i == j || i == count {
                row.push(Some(Q::zero()));
            } else {
                row.push(None);
            }
            j = j + 1;
        }
        let ghost before = d@;
        d.push(row);
        proof {
            assert forall|i2: int, j: int| 0 <= i2 < i + 1 && 0 <= j < n implies #[trigger] cell(
                d@,
                i2,
                j,
            ) == (if i2 == j || i2 == count {
                Some((0int, 1int))
            } else {
                None
            }) by {
                if i2 == i {
                    assert(d@[i2] == row);
                    assert(cell(d@, i2, j) == opt_view(row@[j]));
                } else {
                    assert(d@[i2] == before[i2]);
                    assert(cell(d@, i2, j) == cell(before, i2, j));
                }
            }
        }
        i = i + 1;
    }
    proof {
        assert forall|x: Seq<(int, int)>| #[trigger] edges_hold(edges@, count as int, x) implies bounds_hold(
            d@,
            count as int,
            x,
        ) by {
            assert forall|i2: int, j: int| 0 <= i2 < count && 0 <= j < count implies (#[trigger] cell(
                d@,
                i2,
                j,
            ) matches Some(w) ==> rat_le(rat_sub(x[j], x[i2]), w)) by {
                if i2 == j {
                    assert(x[i2].1 > 0);
                    assert(rat_sub(x[j], x[i2]).0 == 0);
                }
            }
        }
    }
    let ghost premise = 0 < grid <= i64::MAX && 0 <= bound && weights_small(edges@, grid, bound);
    proof {
        if premise {
            assert forall|i2: int, j: int| 0 <= i2 < n && 0 <= j < n implies on_grid(
                #[trigger] cell(d@, i2, j),
                grid,
                bound,
            ) by {}
        }
    }
    let mut e: usize = 0;
    while e < edges.len()
        invariant
            premise == (0 < grid <= i64::MAX && 0 <= bound && weights_small(edges@, grid, bound)),
            premise ==> small(d@, n as int, grid, bound),
            n == count + 1,
            count < usize::MAX,
            forall|e2: int| 0 <= e2 < edges@.len() ==> (#[trigger] edges@[e2]).0 < count && edges@[e2].1 < count,
            e <= edges@.len(),
            square(d@, n as int),
            forall|e2: int|
                0 <= e2 < e ==> bound_le(
                    cell(d@, (#[trigger] edges@[e2]).0 as int, edges@[e2].1 as int),
                    Some(edges@[e2].2@),
                ),
            forall|v: int| 0 <= v < n ==> #[trigger] cell(d@, count as int, v) == Some((0int, 1int)),
            forall|v: int| 0 <= v < count ==> bound_le(#[trigger] cell(d@, v, v), Some((0int, 1int))),
            forall|i2: int| 0 <= i2 < count ==> #[trigger] cell(d@, i2, count as int) is None,
            forall|x: Seq<(int, int)>|
                #[trigger] edges_hold(edges@, count as int, x) ==> bounds_hold(d@, count as int, x),
        decreases edges@.len() - e,
    {
        let (from, to, weight) = edges[e];
        let existing = d[from][to];
        let value = relax_value(existing, weight);
        let row = with_entry(&d[from], to, value);
        let ghost old_d = d@;
        d.set(from, row);
        proof {
            if premise {
                assert(on_grid(Some(edges@[e as int].2@), grid, bound));
                assert forall|i2: int, j: int| 0 <= i2 < n && 0 <= j < n implies on_grid(
                    #[trigger] cell(d@, i2, j),
                    grid,
                    bound,
                ) by {
                    if i2 == from {
                        assert(d@[i2]@ == old_d[i2]@.update(to as int, value));
                        if j != to {
                            assert(cell(d@, i2, j) == cell(old_d, i2, j));
                        } else {
                            assert(cell(old_d, i2, j) == opt_view(existing));
                        }
                    } else {
                        assert(d@[i2] == old_d[i2]);
                        assert(cell(d@, i2, j) == cell(old_d, i2, j));
                    }
                }
            }
            assert forall|v: int| 0 <= v < n implies #[trigger] cell(d@, count as int, v) == Some(
                (0int, 1int),
            ) by {
                assert(edges@[e as int].0 < count);
                assert(d@[count as int] == old_d[count as int]);
                assert(cell(d@, count as int, v) == cell(old_d, count as int, v));
            }
            assert forall|i2: int| 0 <= i2 < count implies #[trigger] cell(d@, i2, count as int) is None by {
                if i2 == from {
                    assert(d@[i2]@ == old_d[i2]@.update(to as int, value));
                    assert(cell(d@, i2, count as int) == cell(old_d, i2, count as int));
                } else {
                    assert(d@[i2] == old_d[i2]);
                }
            }
            assert forall|v: int| 0 <= v < count implies bound_le(#[trigger] cell(d@, v, v), Some((0int, 1int))) by {
                if v == from && v == to {
                    assert(d@[v]@ == old_d[v]@.update(to as int, value));
                    assert(cell(d@, v, v) == opt_view(value));
                    assert(cell(old_d, v, v) == opt_view(existing));
                    match existing {
                        Some(ex) => {
                            if !rat_le(ex@, weight@) {
                                assert(weight@.0 * ex@.1 < ex@.0 * weight@.1);
                                assert(ex@.0 <= 0);
                                assert(weight@.0 * ex@.1 < 0) by (nonlinear_arith)
                                    requires
                                        weight@.0 * ex@.1 < ex@.0 * weight@.1,
                                        ex@.0 <= 0,
                                        weight@.1 > 0,
                                ;
                                assert(weight@.0 <= 0) by (nonlinear_arith)
                                    requires
                                        weight@.0 * ex@.1 < 0,
                                        ex@.1 > 0,
                                ;
                            }
                        },
                        None => {},
                    }
                } else if v == from {
                    assert(d@[v]@ == old_d[v]@.update(to as int, value));
                    assert(cell(d@, v, v) == cell(old_d, v, v));
                } else {
                    assert(d@[v] == old_d[v]);
                    assert(cell(d@, v, v) == cell(old_d, v, v));
                }
            }
            assert forall|e2: int| 0 <= e2 < e + 1 implies bound_le(
                cell(d@, (#[trigger] edges@[e2]).0 as int, edges@[e2].1 as int),
                Some(edges@[e2].2@),
            ) by {
                let f2 = edges@[e2].0 as int;
                let t2 = edges@[e2].1 as int;
                lemma_cell_pos(old_d, f2, t2);
                lemma_cell_pos(d@, f2, t2);
                assert(edges@[e2].2@.1 > 0);
                if f2 == from && t2 == to {
                    if e2 < e {
                        match existing {
                            Some(ex) => {
                                if !rat_le(ex@, weight@) {
                                    lemma_rat_le_trans(weight@, ex@, edges@[e2].2@);
                                }
                            },
                            None => {},
                        }
                    }
                } else {
                    assert(cell(d@, f2, t2) == cell(old_d, f2, t2));
                }
            }
            assert forall|x: Seq<(int, int)>| #[trigger] edges_hold(edges@, count as int, x) implies bounds_hold(
                d@,
                count as int,
                x,
            ) by {
                assert(bounds_hold(old_d, count as int, x));
                assert forall|i2: int, j: int| 0 <= i2 < count && 0 <= j < count implies (#[trigger] cell(
                    d@,
                    i2,
                    j,
                ) matches Some(w) ==> rat_le(rat_sub(x[j], x[i2]), w)) by {
                    if i2 == from && j == to {
                        assert(edges@[e as int] == (from, to, weight));
                        assert(rat_le(rat_sub(x[to as int], x[from as int]), weight@));
                        assert(cell(old_d, i2, j) == cell(old_d, from as int, to as int));
                    } else {
                        assert(cell(d@, i2, j) == cell(old_d, i2, j));
                    }
                }
            }
        }
        e = e + 1;
    }
    d
}

/// All-pairs shortest distances between `count` variables and a virtual
/// source, by relaxing through every pivot in turn.
pub(crate) fn shortest_paths(count: usize, edges: &Vec<(usize, usize, Q)>, Ghost(grid): Ghost<int>, Ghost(bound): Ghost<int>) -> (r: Result<
    Vec<Vec<Option<Q>>>,
    TimeError,
>)
    requires
        count < usize::MAX,
        forall|e: int| 0 <= e < edges@.len() ==> (#[trigger] edges@[e]).0 < count && edges@[e].1 < count,
    ensures
        r matches Ok(d) ==> paths_facts(d@, count as int, edges@),
        r matches Err(e) ==> e is Overflow,
        0 < grid <= i64::MAX && 0 <= bound && weights_small(edges@, grid, bound) && doubled(bound, (count + 1) as nat) <= i64::MAX
            ==> r is Ok,
{
    let n = count + 1;
    let ghost premise = 0 < grid <= i64::MAX && 0 <= bound && weights_small(edges@, grid, bound) && doubled(bound, (count + 1) as nat)
        <= i64::MAX;
    let mut d = initial_matrix(count, edges, Ghost(grid), Ghost(bound));
    let mut k: usize = 0;
    while k < n
        invariant
            premise == (0 < grid <= i64::MAX && 0 <= bound && weights_small(edges@, grid, bound) && doubled(bound, (count + 1) as nat)
                <= i64::MAX),
            premise ==> small(d@, n as int, grid, doubled(bound, k as nat)),
            n == count + 1,
            k <= n,
            square(d@, n as int),
            no_negative_diagonal(d@, n as int) ==> triangle(d@, n as int, k as int),
            forall|e: int|
                0 <= e < edges@.len() ==> bound_le(
                    cell(d@, (#[trigger] edges@[e]).0 as int, edges@[e].1 as int),
                    Some(edges@[e].2@),
                ),
            forall|v: int| 0 <= v < count ==> bound_le(#[trigger] cell(d@, count as int, v), Some((0int, 1int))),
            forall|v: int| 0 <= v < count ==> bound_le(#[trigger] cell(d@, v, v), Some((0int, 1int))),
            forall|i: int| 0 <= i < count ==> #[trigger] cell(d@, i, count as int) is None,
            nonneg(cell(d@, count as int, count as int)),
            forall|e: int| 0 <= e < edges@.len() ==> (#[trigger] edges@[e]).0 < count && edges@[e].1 < count,
            forall|x: Seq<(int, int)>|
                #[trigger] edges_hold(edges@, count as int, x) ==> bounds_hold(d@, count as int, x),
        decreases n - k,
    {
        proof {
            if premise {
                lemma_doubled_monotone(bound, (k + 1) as nat, n as nat);
                assert(doubled(bound, (k + 1) as nat) == 2 * doubled(bound, k as nat));
            }
        }
        let next = match pivot(&d, n, k, Ghost(grid), Ghost(doubled(bound, k as nat))) {
            Ok(next) => next,
            Err(e) => {
                return Err(e);
            },
        };
        proof {
            let old = d@;
            let new = next@;
            lemma_pivot_triangle(old, new, n as int, k as int);
            assert forall|e: int| 0 <= e < edges@.len() implies bound_le(
                cell(new, (#[trigger] edges@[e]).0 as int, edges@[e].1 as int),
                Some(edges@[e].2@),
            ) by {
                let f = edges@[e].0 as int;
                let t = edges@[e].1 as int;
                lemma_cell_pos(old, f, t);
                lemma_cell_pos(old, f, k as int);
                lemma_cell_pos(old, k as int, t);
                lemma_cell_pos(new, f, t);
                assert(relaxed(cell(old, f, t), cell(old, f, k as int), cell(old, k as int, t), cell(new, f, t)));
                lemma_relaxed_facts(cell(old, f, t), cell(old, f, k as int), cell(old, k as int, t), cell(new, f, t));
                assert(edges@[e].2@.1 > 0);
                lemma_bound_trans(cell(new, f, t), cell(old, f, t), Some(edges@[e].2@));
            }
            let s = count as int;
            assert forall|v: int| 0 <= v < count implies bound_le(#[trigger] cell(new, s, v), Some((0int, 1int))) by {
                lemma_cell_pos(old, s, v);
                lemma_cell_pos(old, s, k as int);
                lemma_cell_pos(old, k as int, v);
                lemma_cell_pos(new, s, v);
                assert(relaxed(cell(old, s, v), cell(old, s, k as int), cell(old, k as int, v), cell(new, s, v)));
                lemma_relaxed_facts(cell(old, s, v), cell(old, s, k as int), cell(old, k as int, v), cell(new, s, v));
                lemma_bound_trans(cell(new, s, v), cell(old, s, v), Some((0int, 1int)));
            }
            assert forall|v: int| 0 <= v < count implies bound_le(#[trigger] cell(new, v, v), Some((0int, 1int))) by {
                lemma_cell_pos(old, v, v);
                lemma_cell_pos(old, v, k as int);
                lemma_cell_pos(old, k as int, v);
                lemma_cell_pos(new, v, v);
                assert(relaxed(cell(old, v, v), cell(old, v, k as int), cell(old, k as int, v), cell(new, v, v)));
                lemma_relaxed_facts(cell(old, v, v), cell(old, v, k as int), cell(old, k as int, v), cell(new, v, v));
                lemma_bound_trans(cell(new, v, v), cell(old, v, v), Some((0int, 1int)));
            }
            assert forall|i: int| 0 <= i < count implies #[trigger] cell(new, i, s) is None by {
                assert(relaxed(cell(old, i, s), cell(old, i, k as int), cell(old, k as int, s), cell(new, i, s)));
                if k < count {
                    assert(cell(old, k as int, s) is None);
                }
            }
            assert(relaxed(cell(old, s, s), cell(old, s, k as int), cell(old, k as int, s), cell(new, s, s)));
            lemma_cell_pos(old, s, s);
            lemma_cell_pos(old, s, k as int);
            lemma_cell_pos(old, k as int, s);
            lemma_cell_pos(new, s, s);
            lemma_relaxed_facts(cell(old, s, s), cell(old, s, k as int), cell(old, k as int, s), cell(new, s, s));
            if cell(new, s, s) != cell(old, s, s) {
                if k < count {
                    assert(cell(old, k as int, s) is None);
                }
                let o = cell(old, s, s)->0;
                lemma_den_product(o.1, o.1);
                assert(o.0 * o.1 >= 0) by (nonlinear_arith)
                    requires
                        o.0 >= 0,
                        o.1 > 0,
                ;
                lemma_nonneg_above(rat_add(o, o), cell(new, s, s)->0);
            }
            assert forall|x: Seq<(int, int)>| #[trigger] edges_hold(edges@, count as int, x) implies bounds_hold(
                new,
                count as int,
                x,
            ) by {
                lemma_bounds_step(old, new, count as int, k as int, x);
            }
        }
        d = next;
        k = k + 1;
    }
    Ok(d)
}

} // verus!
