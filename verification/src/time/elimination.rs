//! Linear rows over exact rationals: their value at an assignment, and the
//! facts that make Fourier-Motzkin elimination sound.
use crate::algebra::{
    lemma_den_product, lemma_pos_ops, lemma_rat_add_assoc_comm, lemma_rat_add_congruent,
    lemma_rat_distrib, lemma_rat_eq_refl_symm, lemma_rat_eq_trans, lemma_rat_le_add,
    lemma_rat_le_congruent, lemma_rat_mul_assoc, lemma_rat_mul_congruent, lemma_reduce_eq,
    lemma_q_view, lemma_reduce_pos, lemma_reduce_zero, lemma_rat_sub_congruent, lemma_step_add, lemma_step_div,
    lemma_step_sub, fits, rat_add, rat_div, rat_eq, rat_le, rat_lt, rat_mul, rat_neg,
    rat_sub, reduce, Q,
};
use crate::error::TimeError;
use crate::time::substitution::{
    lemma_combination_pair, lemma_dot_prefix, lemma_pair_limits, lemma_picked, lemma_rat_add_zero,
    lemma_rat_sub_sub, lemma_row_at, lemma_row_bound, limit_of, pair_holds, picked,
};
use vstd::prelude::*;

verus! {

broadcast use lemma_q_view;

/// `sum c_k * x_k` over the coefficients, as an exact pair.
pub open spec fn dot(c: Seq<(int, int)>, x: Seq<(int, int)>) -> (int, int)
    decreases c.len(),
{
    if c.len() == 0 {
        (0, 1)
    } else {
        rat_add(dot(c.drop_last(), x), rat_mul(c.last(), x[c.len() - 1]))
    }
}

/// `sum c_k * x_k <= bound`, or `<` when strict.
pub open spec fn holds(c: Seq<(int, int)>, bound: (int, int), strict: bool, x: Seq<(int, int)>) -> bool {
    if strict {
        rat_lt(dot(c, x), bound)
    } else {
        rat_le(dot(c, x), bound)
    }
}

/// Every denominator is positive.
pub open spec fn positive_dens(s: Seq<(int, int)>) -> bool {
    forall|k: int| 0 <= k < s.len() ==> (#[trigger] s[k]).1 > 0
}

/// A row's value has a positive denominator.
pub proof fn lemma_dot_pos(c: Seq<(int, int)>, x: Seq<(int, int)>)
    requires
        positive_dens(c),
        positive_dens(x),
        c.len() <= x.len(),
    ensures
        dot(c, x).1 > 0,
    decreases c.len(),
{
    if c.len() > 0 {
        let p = c.drop_last();
        assert(positive_dens(p)) by {
            assert forall|k: int| 0 <= k < p.len() implies (#[trigger] p[k]).1 > 0 by {
                assert(p[k] == c[k]);
            }
        }
        lemma_dot_pos(p, x);
        assert(c.last().1 > 0 && x[c.len() - 1].1 > 0);
        lemma_pos_ops(c.last(), x[c.len() - 1]);
        lemma_pos_ops(dot(p, x), rat_mul(c.last(), x[c.len() - 1]));
    }
}

/// A row whose coefficients are all zero has value zero.
pub proof fn lemma_dot_zero(c: Seq<(int, int)>, x: Seq<(int, int)>)
    requires
        forall|k: int| 0 <= k < c.len() ==> (#[trigger] c[k]).0 == 0,
    ensures
        dot(c, x).0 == 0,
    decreases c.len(),
{
    if c.len() > 0 {
        let p = c.drop_last();
        assert forall|k: int| 0 <= k < p.len() implies (#[trigger] p[k]).0 == 0 by {
            assert(p[k] == c[k]);
        }
        lemma_dot_zero(p, x);
        let m = rat_mul(c.last(), x[c.len() - 1]);
        assert(m.0 == 0);
        assert(dot(p, x).0 * m.1 == 0);
        assert(m.0 * dot(p, x).1 == 0);
    }
}

/// Exact multiplication of pairs is commutative.
pub proof fn lemma_rat_mul_comm(a: (int, int), b: (int, int))
    ensures
        rat_mul(a, b) == rat_mul(b, a),
{
    vstd::arithmetic::mul::lemma_mul_is_commutative(a.0, b.0);
    vstd::arithmetic::mul::lemma_mul_is_commutative(a.1, b.1);
}

/// Scaling by a positive factor keeps the order, strict or not.
pub proof fn lemma_rat_scale(alpha: (int, int), p: (int, int), q: (int, int))
    requires
        alpha.0 > 0,
        alpha.1 > 0,
        p.1 > 0,
        q.1 > 0,
    ensures
        rat_le(p, q) ==> rat_le(rat_mul(alpha, p), rat_mul(alpha, q)),
        rat_lt(p, q) ==> rat_lt(rat_mul(alpha, p), rat_mul(alpha, q)),
{
    let k = alpha.0 * alpha.1;
    assert(k > 0) by (nonlinear_arith)
        requires
            k == alpha.0 * alpha.1,
            alpha.0 > 0,
            alpha.1 > 0,
    ;
    assert((alpha.0 * p.0) * (alpha.1 * q.1) == k * (p.0 * q.1)) by (nonlinear_arith)
        requires
            k == alpha.0 * alpha.1,
    ;
    assert((alpha.0 * q.0) * (alpha.1 * p.1) == k * (q.0 * p.1)) by (nonlinear_arith)
        requires
            k == alpha.0 * alpha.1,
    ;
    if rat_le(p, q) {
        assert(k * (p.0 * q.1) <= k * (q.0 * p.1)) by (nonlinear_arith)
            requires
                k > 0,
                p.0 * q.1 <= q.0 * p.1,
        ;
    }
    if rat_lt(p, q) {
        assert(k * (p.0 * q.1) < k * (q.0 * p.1)) by (nonlinear_arith)
            requires
                k > 0,
                p.0 * q.1 < q.0 * p.1,
        ;
    }
}

/// A strict step and a non-strict step add to a strict one.
pub proof fn lemma_rat_lt_add(a: (int, int), b: (int, int), c: (int, int), d: (int, int))
    requires
        a.1 > 0,
        b.1 > 0,
        c.1 > 0,
        d.1 > 0,
        rat_lt(a, b) && rat_le(c, d) || rat_le(a, b) && rat_lt(c, d),
    ensures
        rat_lt(rat_add(a, c), rat_add(b, d)),
{
    lemma_den_product(a.1, c.1);
    lemma_den_product(b.1, d.1);
    lemma_den_product(c.1, d.1);
    lemma_den_product(a.1, b.1);
    let (a0, a1, b0, b1, c0, c1, d0, d1) = (a.0, a.1, b.0, b.1, c.0, c.1, d.0, d.1);
    let e1 = (a0 * b1) * (c1 * d1);
    let f1 = (b0 * a1) * (c1 * d1);
    let e2 = (c0 * d1) * (a1 * b1);
    let f2 = (d0 * c1) * (a1 * b1);
    if rat_lt(a, b) {
        assert(e1 < f1) by (nonlinear_arith)
            requires
                a0 * b1 < b0 * a1,
                c1 * d1 > 0,
                e1 == (a0 * b1) * (c1 * d1),
                f1 == (b0 * a1) * (c1 * d1),
        ;
    } else {
        assert(e1 <= f1) by (nonlinear_arith)
            requires
                a0 * b1 <= b0 * a1,
                c1 * d1 > 0,
                e1 == (a0 * b1) * (c1 * d1),
                f1 == (b0 * a1) * (c1 * d1),
        ;
    }
    if rat_lt(c, d) {
        assert(e2 < f2) by (nonlinear_arith)
            requires
                c0 * d1 < d0 * c1,
                a1 * b1 > 0,
                e2 == (c0 * d1) * (a1 * b1),
                f2 == (d0 * c1) * (a1 * b1),
        ;
    } else {
        assert(e2 <= f2) by (nonlinear_arith)
            requires
                c0 * d1 <= d0 * c1,
                a1 * b1 > 0,
                e2 == (c0 * d1) * (a1 * b1),
                f2 == (d0 * c1) * (a1 * b1),
        ;
    }
    crate::algebra::lemma_distrib(a0 * c1, c0 * a1, b1 * d1);
    crate::algebra::lemma_distrib(b0 * d1, d0 * b1, a1 * c1);
    crate::algebra::lemma_mul4(a0, c1, b1, d1);
    crate::algebra::lemma_mul4(c0, a1, b1, d1);
    crate::algebra::lemma_mul4(b0, d1, a1, c1);
    crate::algebra::lemma_mul4(d0, b1, a1, c1);
    crate::algebra::lemma_mul4(b0, a1, c1, d1);
    crate::algebra::lemma_mul4(d0, c1, a1, b1);
    crate::algebra::lemma_mul4(c0, d1, a1, b1);
}

/// The strict order does not depend on the representation of either side.
pub proof fn lemma_rat_lt_congruent(a: (int, int), b: (int, int), c: (int, int), d: (int, int))
    requires
        a.1 > 0,
        b.1 > 0,
        c.1 > 0,
        d.1 > 0,
        rat_eq(a, c),
        rat_eq(b, d),
        rat_lt(a, b),
    ensures
        rat_lt(c, d),
{
    assert(c.0 * a.1 == a.0 * c.1);
    assert((c.0 * b.1) * a.1 == (a.0 * b.1) * c.1) by (nonlinear_arith)
        requires
            c.0 * a.1 == a.0 * c.1,
    ;
    assert((a.0 * b.1) * c.1 < (b.0 * a.1) * c.1) by (nonlinear_arith)
        requires
            a.0 * b.1 < b.0 * a.1,
            c.1 > 0,
    ;
    assert(c.0 * b.1 < b.0 * c.1) by (nonlinear_arith)
        requires
            (c.0 * b.1) * a.1 < (b.0 * a.1) * c.1,
            a.1 > 0,
    ;
    assert((c.0 * d.1) * b.1 < (d.0 * c.1) * b.1) by (nonlinear_arith)
        requires
            c.0 * b.1 < b.0 * c.1,
            b.0 * d.1 == d.0 * b.1,
            d.1 > 0,
            b.1 > 0,
    ;
    assert(c.0 * d.1 < d.0 * c.1) by (nonlinear_arith)
        requires
            (c.0 * d.1) * b.1 < (d.0 * c.1) * b.1,
            b.1 > 0,
    ;
}

/// `(a + b) + (c + d) == (a + c) + (b + d)` exactly.
proof fn lemma_rat_add_swap(a: (int, int), b: (int, int), c: (int, int), d: (int, int))
    ensures
        rat_add(rat_add(a, b), rat_add(c, d)) == rat_add(rat_add(a, c), rat_add(b, d)),
{
    lemma_rat_add_assoc_comm(a, b, rat_add(c, d));
    lemma_rat_add_assoc_comm(b, c, d);
    lemma_rat_add_assoc_comm(c, b, d);
    lemma_rat_add_assoc_comm(b, c, c);
    lemma_rat_add_assoc_comm(a, c, rat_add(b, d));
}

/// A linear combination of rows has the combined value:
/// `dot(w) == alpha * dot(u) + beta * dot(l)` when every coefficient of `w` is
/// `alpha * u_k + beta * l_k`.
pub proof fn lemma_dot_combination(
    u: Seq<(int, int)>,
    l: Seq<(int, int)>,
    w: Seq<(int, int)>,
    alpha: (int, int),
    beta: (int, int),
    x: Seq<(int, int)>,
)
    requires
        u.len() == l.len(),
        w.len() == u.len(),
        u.len() <= x.len(),
        positive_dens(u),
        positive_dens(l),
        positive_dens(w),
        positive_dens(x),
        alpha.1 > 0,
        beta.1 > 0,
        forall|k: int|
            0 <= k < w.len() ==> rat_eq(
                #[trigger] w[k],
                rat_add(rat_mul(alpha, u[k]), rat_mul(beta, l[k])),
            ),
    ensures
        rat_eq(dot(w, x), rat_add(rat_mul(alpha, dot(u, x)), rat_mul(beta, dot(l, x)))),
    decreases w.len(),
{
    if w.len() == 0 {
        let ma = rat_mul(alpha, (0int, 1int));
        let mb = rat_mul(beta, (0int, 1int));
        assert(ma.0 == 0 && mb.0 == 0) by (nonlinear_arith)
            requires
                ma == (alpha.0 * 0, alpha.1 * 1),
                mb == (beta.0 * 0, beta.1 * 1),
        ;
        let s = rat_add(ma, mb);
        assert(s.0 == 0) by (nonlinear_arith)
            requires
                s == (ma.0 * mb.1 + mb.0 * ma.1, ma.1 * mb.1),
                ma.0 == 0,
                mb.0 == 0,
        ;
        assert(0 * s.1 == 0 && s.0 * 1 == 0) by (nonlinear_arith)
            requires
                s.0 == 0,
        ;
    } else {
        let m = w.len() - 1;
        let (u2, l2, w2) = (u.drop_last(), l.drop_last(), w.drop_last());
        assert(positive_dens(u2) && positive_dens(l2) && positive_dens(w2)) by {
            assert forall|k: int| 0 <= k < u2.len() implies (#[trigger] u2[k]).1 > 0 by {
                assert(u2[k] == u[k]);
            }
            assert forall|k: int| 0 <= k < l2.len() implies (#[trigger] l2[k]).1 > 0 by {
                assert(l2[k] == l[k]);
            }
            assert forall|k: int| 0 <= k < w2.len() implies (#[trigger] w2[k]).1 > 0 by {
                assert(w2[k] == w[k]);
            }
        }
        assert forall|k: int| 0 <= k < w2.len() implies rat_eq(
            #[trigger] w2[k],
            rat_add(rat_mul(alpha, u2[k]), rat_mul(beta, l2[k])),
        ) by {
            assert(w2[k] == w[k] && u2[k] == u[k] && l2[k] == l[k]);
        }
        lemma_dot_combination(u2, l2, w2, alpha, beta, x);
        let (uu, ll, ww) = (dot(u2, x), dot(l2, x), dot(w2, x));
        lemma_dot_pos(u2, x);
        lemma_dot_pos(l2, x);
        lemma_dot_pos(w2, x);
        let xm = x[m];
        let (um, lm, wm) = (u[m], l[m], w[m]);
        assert(xm.1 > 0 && um.1 > 0 && lm.1 > 0 && wm.1 > 0);
        // wm * xm ~ alpha (um xm) + beta (lm xm)
        let au = rat_mul(alpha, um);
        let bl = rat_mul(beta, lm);
        lemma_pos_ops(alpha, um);
        lemma_pos_ops(beta, lm);
        lemma_pos_ops(au, bl);
        lemma_rat_eq_refl_symm(xm, xm);
        lemma_rat_mul_congruent(wm, xm, rat_add(au, bl), xm);
        lemma_rat_distrib(au, bl, xm);
        lemma_pos_ops(rat_add(au, bl), xm);
        lemma_pos_ops(au, xm);
        lemma_pos_ops(bl, xm);
        lemma_rat_eq_trans(
            rat_mul(wm, xm),
            rat_mul(rat_add(au, bl), xm),
            rat_add(rat_mul(au, xm), rat_mul(bl, xm)),
        );
        lemma_rat_mul_assoc(alpha, um, xm);
        lemma_rat_mul_assoc(beta, lm, xm);
        let p = rat_mul(alpha, rat_mul(um, xm));
        let q = rat_mul(beta, rat_mul(lm, xm));
        // ww + wm xm ~ (alpha uu + beta ll) + (p + q)
        let au2 = rat_mul(alpha, uu);
        let bl2 = rat_mul(beta, ll);
        lemma_pos_ops(alpha, uu);
        lemma_pos_ops(beta, ll);
        lemma_pos_ops(au2, bl2);
        lemma_pos_ops(um, xm);
        lemma_pos_ops(lm, xm);
        lemma_pos_ops(alpha, rat_mul(um, xm));
        lemma_pos_ops(beta, rat_mul(lm, xm));
        lemma_pos_ops(p, q);
        lemma_pos_ops(wm, xm);
        lemma_rat_add_congruent(ww, rat_mul(wm, xm), rat_add(au2, bl2), rat_add(p, q));
        // rearrange to (alpha uu + p) + (beta ll + q)
        lemma_rat_add_swap(au2, bl2, p, q);
        // alpha uu + alpha (um xm) ~ alpha (uu + um xm)
        lemma_rat_distrib_left(alpha, uu, rat_mul(um, xm));
        lemma_rat_distrib_left(beta, ll, rat_mul(lm, xm));
        lemma_pos_ops(au2, p);
        lemma_pos_ops(bl2, q);
        lemma_pos_ops(uu, rat_mul(um, xm));
        lemma_pos_ops(ll, rat_mul(lm, xm));
        lemma_pos_ops(alpha, rat_add(uu, rat_mul(um, xm)));
        lemma_pos_ops(beta, rat_add(ll, rat_mul(lm, xm)));
        let left_part = rat_mul(alpha, rat_add(uu, rat_mul(um, xm)));
        let right_part = rat_mul(beta, rat_add(ll, rat_mul(lm, xm)));
        lemma_rat_eq_refl_symm(left_part, rat_add(au2, p));
        lemma_rat_eq_refl_symm(right_part, rat_add(bl2, q));
        lemma_rat_add_congruent(rat_add(au2, p), rat_add(bl2, q), left_part, right_part);
        lemma_pos_ops(rat_add(au2, bl2), rat_add(p, q));
        lemma_pos_ops(rat_add(au2, p), rat_add(bl2, q));
        lemma_rat_eq_trans(
            dot(w, x),
            rat_add(rat_add(au2, bl2), rat_add(p, q)),
            rat_add(left_part, right_part),
        );
        assert(dot(u, x) == rat_add(uu, rat_mul(um, xm)));
        assert(dot(l, x) == rat_add(ll, rat_mul(lm, xm)));
    }
}

/// Multiplication distributes over addition from the left, up to
/// representation.
pub proof fn lemma_rat_distrib_left(a: (int, int), p: (int, int), q: (int, int))
    requires
        a.1 > 0,
        p.1 > 0,
        q.1 > 0,
    ensures
        rat_eq(rat_add(rat_mul(a, p), rat_mul(a, q)), rat_mul(a, rat_add(p, q))),
{
    lemma_rat_distrib(p, q, a);
    lemma_rat_mul_comm(rat_add(p, q), a);
    lemma_rat_mul_comm(p, a);
    lemma_rat_mul_comm(q, a);
    lemma_rat_eq_refl_symm(rat_mul(rat_add(p, q), a), rat_add(rat_mul(p, a), rat_mul(q, a)));
}

/// Combining a row that bounds a variable above with one that bounds it
/// below, by positive multipliers, gives a row that every common solution
/// meets.
pub proof fn lemma_combination_holds(
    u: Seq<(int, int)>,
    bu: (int, int),
    su: bool,
    l: Seq<(int, int)>,
    bl: (int, int),
    sl: bool,
    w: Seq<(int, int)>,
    bw: (int, int),
    alpha: (int, int),
    beta: (int, int),
    x: Seq<(int, int)>,
)
    requires
        u.len() == l.len(),
        w.len() == u.len(),
        u.len() <= x.len(),
        positive_dens(u),
        positive_dens(l),
        positive_dens(w),
        positive_dens(x),
        bu.1 > 0,
        bl.1 > 0,
        bw.1 > 0,
        alpha.0 > 0,
        alpha.1 > 0,
        beta.0 > 0,
        beta.1 > 0,
        forall|k: int|
            0 <= k < w.len() ==> rat_eq(
                #[trigger] w[k],
                rat_add(rat_mul(alpha, u[k]), rat_mul(beta, l[k])),
            ),
        rat_eq(bw, rat_add(rat_mul(alpha, bu), rat_mul(beta, bl))),
        holds(u, bu, su, x),
        holds(l, bl, sl, x),
    ensures
        holds(w, bw, su || sl, x),
{
    lemma_dot_combination(u, l, w, alpha, beta, x);
    lemma_dot_pos(u, x);
    lemma_dot_pos(l, x);
    lemma_dot_pos(w, x);
    let (du, dl) = (dot(u, x), dot(l, x));
    lemma_rat_scale(alpha, du, bu);
    lemma_rat_scale(beta, dl, bl);
    lemma_pos_ops(alpha, du);
    lemma_pos_ops(alpha, bu);
    lemma_pos_ops(beta, dl);
    lemma_pos_ops(beta, bl);
    let (a1, a2) = (rat_mul(alpha, du), rat_mul(alpha, bu));
    let (b1, b2) = (rat_mul(beta, dl), rat_mul(beta, bl));
    lemma_pos_ops(a1, b1);
    lemma_pos_ops(a2, b2);
    lemma_rat_eq_refl_symm(bw, rat_add(a2, b2));
    lemma_rat_eq_refl_symm(dot(w, x), rat_add(a1, b1));
    if su || sl {
        if su {
            assert(rat_lt(du, bu));
            assert(rat_le(dl, bl) || rat_lt(dl, bl));
            if rat_lt(dl, bl) {
                assert(rat_le(dl, bl));
            }
        } else {
            assert(rat_le(du, bu));
        }
        lemma_rat_lt_add(a1, a2, b1, b2);
        lemma_rat_lt_congruent(rat_add(a1, b1), rat_add(a2, b2), dot(w, x), bw);
    } else {
        lemma_rat_le_add(a1, a2, b1, b2);
        lemma_rat_le_congruent(rat_add(a1, b1), rat_add(a2, b2), dot(w, x), bw);
    }
}

/// One row of the elimination system: `sum a_i x_i <= b`, or `<` if strict.
pub struct Row {
    pub coefficients: Vec<Q>,
    pub bound: Q,
    pub strict: bool,
}

/// The coefficient values of a row.
pub open spec fn row_coefficients(row: Row) -> Seq<(int, int)> {
    row.coefficients@.map_values(|q: Q| q@)
}

/// The combination of an upper row and a lower row for variable `i` holds
/// at `x`.
pub open spec fn rows_pair_hold(upper: Row, lower: Row, i: int, x: Seq<(int, int)>) -> bool {
    pair_holds(
        row_coefficients(upper),
        upper.bound@,
        row_coefficients(lower),
        lower.bound@,
        i,
        upper.strict || lower.strict,
        x,
    )
}

/// Every row has `n` coefficients.
pub open spec fn rows_sized(rows: Seq<Row>, n: int) -> bool {
    forall|r: int| 0 <= r < rows.len() ==> (#[trigger] rows[r]).coefficients@.len() == n
}

/// Column `j` is zero in every row.
pub open spec fn column_zero(rows: Seq<Row>, j: int) -> bool {
    forall|r: int| 0 <= r < rows.len() ==> (#[trigger] rows[r]).coefficients@[j]@.0 == 0
}

/// A row holds at an assignment.
pub open spec fn row_holds(row: Row, x: Seq<(int, int)>) -> bool {
    holds(row_coefficients(row), row.bound@, row.strict, x)
}

/// Every row holds at an assignment.
pub open spec fn rows_hold(rows: Seq<Row>, x: Seq<(int, int)>) -> bool {
    forall|r: int| 0 <= r < rows.len() ==> row_holds(#[trigger] rows[r], x)
}

pub(crate) proof fn lemma_row_dens(row: Row)
    ensures
        positive_dens(row_coefficients(row)),
        row.bound@.1 > 0,
{
    assert forall|k: int| 0 <= k < row_coefficients(row).len() implies (#[trigger] row_coefficients(
        row,
    )[k]).1 > 0 by {
        assert(row_coefficients(row)[k] == row.coefficients@[k]@);
    }
}

pub(crate) fn copy_coefficients(v: &Vec<Q>) -> (r: Vec<Q>)
    ensures
        r@ == v@,
{
    let mut out: Vec<Q> = Vec::new();
    let mut i: usize = 0;
    while i < v.len()
        invariant
            i <= v@.len(),
            out@ == v@.take(i as int),
        decreases v@.len() - i,
    {
        out.push(v[i]);
        proof {
            assert(out@ =~= v@.take(i + 1));
        }
        i = i + 1;
    }
    proof {
        assert(out@ =~= v@);
    }
    out
}

pub(crate) fn copy_row(row: &Row) -> (r: Row)
    ensures
        r.coefficients@ == row.coefficients@,
        r.bound == row.bound,
        r.strict == row.strict,
{
    Row { coefficients: copy_coefficients(&row.coefficients), bound: row.bound, strict: row.strict }
}

/// `p * x + q * y`, each product and the sum reduced as `Q` stores them.
pub open spec fn scaled_sum(p: (int, int), x: (int, int), q: (int, int), y: (int, int)) -> (int, int) {
    reduce(rat_add(reduce(rat_mul(p, x)), reduce(rat_mul(q, y))))
}

/// Both products and their sum fit the storage of `Q`.
pub open spec fn sum_fits(p: (int, int), x: (int, int), q: (int, int), y: (int, int)) -> bool {
    &&& fits(reduce(rat_mul(p, x)))
    &&& fits(reduce(rat_mul(q, y)))
    &&& fits(scaled_sum(p, x, q, y))
}

/// Every entry of the combination of `upper` and `lower` cancelling column
/// `index` can be stored.
pub open spec fn combination_fits(upper: Row, lower: Row, index: int) -> bool {
    let p = rat_neg(lower.coefficients@[index]@);
    let q = upper.coefficients@[index]@;
    &&& forall|j: int|
        0 <= j < upper.coefficients@.len() ==> sum_fits(
            p,
            (#[trigger] upper.coefficients@[j])@,
            q,
            lower.coefficients@[j]@,
        )
    &&& sum_fits(p, upper.bound@, q, lower.bound@)
}

/// `row` is exactly the combination of `upper` and `lower` cancelling
/// column `index`.
pub open spec fn combined_exactly(upper: Row, lower: Row, index: int, row: Row) -> bool {
    let p = rat_neg(lower.coefficients@[index]@);
    let q = upper.coefficients@[index]@;
    &&& row.coefficients@.len() == upper.coefficients@.len()
    &&& forall|j: int|
        0 <= j < row.coefficients@.len() ==> (#[trigger] row.coefficients@[j])@ == scaled_sum(
            p,
            upper.coefficients@[j]@,
            q,
            lower.coefficients@[j]@,
        )
    &&& row.bound@ == scaled_sum(p, upper.bound@, q, lower.bound@)
    &&& row.strict == (upper.strict || lower.strict)
}

/// `(-c) * upper + a * lower`, which cancels the column where `upper` has
/// `a > 0` and `lower` has `c < 0`.
#[verifier::spinoff_prover]
pub(crate) fn combine(upper: &Row, lower: &Row, index: usize) -> (r: Result<Row, TimeError>)
    requires
        upper.coefficients@.len() == lower.coefficients@.len(),
        index < upper.coefficients@.len(),
        upper.coefficients@[index as int]@.0 > 0,
        lower.coefficients@[index as int]@.0 < 0,
    ensures
        r matches Ok(row) ==> {
            &&& row.coefficients@.len() == upper.coefficients@.len()
            &&& row.coefficients@[index as int]@.0 == 0
            &&& forall|j: int|
                0 <= j < row.coefficients@.len() && upper.coefficients@[j]@.0 == 0
                    && lower.coefficients@[j]@.0 == 0 ==> (#[trigger] row.coefficients@[j])@.0 == 0
            &&& row.strict == (upper.strict || lower.strict)
            &&& forall|x: Seq<(int, int)>|
                positive_dens(x) && x.len() >= upper.coefficients@.len() && row_holds(*upper, x)
                    && row_holds(*lower, x) ==> #[trigger] row_holds(row, x)
            &&& forall|x: Seq<(int, int)>|
                positive_dens(x) && x.len() >= upper.coefficients@.len() && row_holds(row, x)
                    ==> #[trigger] rows_pair_hold(*upper, *lower, index as int, x)
            &&& combined_exactly(*upper, *lower, index as int, row)
        },
        r matches Err(e) ==> e is Overflow,
        r is Ok <==> combination_fits(*upper, *lower, index as int),
{
    let a = upper.coefficients[index];
    let c = lower.coefficients[index];
    let scale_upper = c.neg();
    let scale_lower = a;
    let n = upper.coefficients.len();
    let mut coefficients: Vec<Q> = Vec::new();
    let mut j: usize = 0;
    while j < n
        invariant
            n == upper.coefficients@.len(),
            n == lower.coefficients@.len(),
            index < n,
            a == upper.coefficients@[index as int],
            c == lower.coefficients@[index as int],
            scale_upper@ == rat_neg(c@),
            scale_lower == a,
            j <= n,
            coefficients@.len() == j,
            forall|j2: int|
                0 <= j2 < j ==> (#[trigger] coefficients@[j2])@ == reduce(
                    rat_add(
                        reduce(rat_mul(scale_upper@, upper.coefficients@[j2]@)),
                        reduce(rat_mul(scale_lower@, lower.coefficients@[j2]@)),
                    ),
                ),
            forall|j2: int|
                0 <= j2 < j ==> sum_fits(
                    scale_upper@,
                    (#[trigger] upper.coefficients@[j2])@,
                    scale_lower@,
                    lower.coefficients@[j2]@,
                ),
        decreases n - j,
    {
        let left = match scale_upper.checked_mul(&upper.coefficients[j]) {
            Some(v) => v,
            None => {
                return Err(TimeError::Overflow);
            },
        };
        let right = match scale_lower.checked_mul(&lower.coefficients[j]) {
            Some(v) => v,
            None => {
                return Err(TimeError::Overflow);
            },
        };
        let sum = match left.checked_add(&right) {
            Some(v) => v,
            None => {
                return Err(TimeError::Overflow);
            },
        };
        coefficients.push(sum);
        j = j + 1;
    }
    let left = match scale_upper.checked_mul(&upper.bound) {
        Some(v) => v,
        None => {
            return Err(TimeError::Overflow);
        },
    };
    let right = match scale_lower.checked_mul(&lower.bound) {
        Some(v) => v,
        None => {
            return Err(TimeError::Overflow);
        },
    };
    let bound = match left.checked_add(&right) {
        Some(v) => v,
        None => {
            return Err(TimeError::Overflow);
        },
    };
    proof {
        let (a0, a1) = a@;
        let (c0, c1) = c@;
        // the pivot column cancels: (-c) * a + a * c == 0
        let m1 = reduce(rat_mul(rat_neg(c@), a@));
        let m2 = reduce(rat_mul(a@, c@));
        lemma_den_product(c1, a1);
        lemma_den_product(a1, c1);
        lemma_reduce_eq(rat_mul(rat_neg(c@), a@));
        lemma_reduce_eq(rat_mul(a@, c@));
        assert(m1.0 * (c1 * a1) == (-c0 * a0) * m1.1);
        assert(m2.0 * (a1 * c1) == (a0 * c0) * m2.1);
        vstd::arithmetic::mul::lemma_mul_is_commutative(c1, a1);
        assert(m1.0 * m2.1 + m2.0 * m1.1 == 0) by (nonlinear_arith)
            requires
                m1.0 * (c1 * a1) == (-c0 * a0) * m1.1,
                m2.0 * (a1 * c1) == (a0 * c0) * m2.1,
                c1 * a1 == a1 * c1,
                c1 * a1 > 0,
        ;
        assert(coefficients@[index as int]@ == reduce(rat_add(m1, m2)));
        lemma_reduce_zero(rat_add(m1, m2));
        assert forall|j2: int|
            0 <= j2 < n && upper.coefficients@[j2]@.0 == 0 && lower.coefficients@[j2]@.0
                == 0 implies (#[trigger] coefficients@[j2])@.0 == 0 by {
            let u = upper.coefficients@[j2]@;
            let l = lower.coefficients@[j2]@;
            lemma_den_product(scale_upper@.1, u.1);
            lemma_den_product(scale_lower@.1, l.1);
            assert(scale_upper@.0 * u.0 == 0) by (nonlinear_arith)
                requires
                    u.0 == 0,
            ;
            assert(scale_lower@.0 * l.0 == 0) by (nonlinear_arith)
                requires
                    l.0 == 0,
            ;
            lemma_reduce_zero(rat_mul(scale_upper@, u));
            lemma_reduce_zero(rat_mul(scale_lower@, l));
            let p1 = reduce(rat_mul(scale_upper@, u));
            let p2 = reduce(rat_mul(scale_lower@, l));
            lemma_reduce_eq(rat_mul(scale_upper@, u));
            lemma_reduce_eq(rat_mul(scale_lower@, l));
            lemma_den_product(p1.1, p2.1);
            assert(p1.0 == 0 && p2.0 == 0);
            assert(rat_add(p1, p2).0 == 0) by (nonlinear_arith)
                requires
                    p1.0 == 0,
                    p2.0 == 0,
                    rat_add(p1, p2).0 == p1.0 * p2.1 + p2.0 * p1.1,
            ;
            lemma_reduce_zero(rat_add(p1, p2));
            assert(coefficients@[j2]@ == reduce(rat_add(p1, p2)));
        }
    }
    let result = Row { coefficients, bound, strict: upper.strict || lower.strict };
    proof {
        let alpha = scale_upper@;
        let beta = scale_lower@;
        let u = row_coefficients(*upper);
        let l = row_coefficients(*lower);
        let w = row_coefficients(result);
        lemma_row_dens(*upper);
        lemma_row_dens(*lower);
        lemma_row_dens(result);
        assert forall|k: int| 0 <= k < w.len() implies rat_eq(
            #[trigger] w[k],
            rat_add(rat_mul(alpha, u[k]), rat_mul(beta, l[k])),
        ) by {
            assert(w[k] == coefficients@[k]@);
            assert(u[k] == upper.coefficients@[k]@);
            assert(l[k] == lower.coefficients@[k]@);
            lemma_exact_combination(w[k], alpha, u[k], beta, l[k]);
        }
        lemma_exact_combination(bound@, alpha, upper.bound@, beta, lower.bound@);
        assert forall|x: Seq<(int, int)>|
            positive_dens(x) && x.len() >= upper.coefficients@.len() && row_holds(*upper, x)
                && row_holds(*lower, x) implies #[trigger] row_holds(result, x) by {
            lemma_combination_holds(
                u,
                upper.bound@,
                upper.strict,
                l,
                lower.bound@,
                lower.strict,
                w,
                bound@,
                alpha,
                beta,
                x,
            );
        }
        assert forall|x: Seq<(int, int)>|
            positive_dens(x) && x.len() >= upper.coefficients@.len() && row_holds(result, x)
                implies #[trigger] rows_pair_hold(*upper, *lower, index as int, x) by {
            assert(u[index as int] == a@);
            assert(l[index as int] == c@);
            lemma_combination_pair(
                u,
                upper.bound@,
                l,
                lower.bound@,
                w,
                bound@,
                index as int,
                upper.strict || lower.strict,
                x,
            );
        }
    }
    Ok(result)
}

/// A reduced combination stands for the exact one.
proof fn lemma_exact_combination(
    w: (int, int),
    alpha: (int, int),
    u: (int, int),
    beta: (int, int),
    l: (int, int),
)
    requires
        w == reduce(rat_add(reduce(rat_mul(alpha, u)), reduce(rat_mul(beta, l)))),
        alpha.1 > 0,
        u.1 > 0,
        beta.1 > 0,
        l.1 > 0,
    ensures
        rat_eq(w, rat_add(rat_mul(alpha, u), rat_mul(beta, l))),
{
    lemma_den_product(alpha.1, u.1);
    lemma_den_product(beta.1, l.1);
    lemma_reduce_eq(rat_mul(alpha, u));
    lemma_reduce_eq(rat_mul(beta, l));
    lemma_step_add(
        w,
        reduce(rat_mul(alpha, u)),
        reduce(rat_mul(beta, l)),
        rat_mul(alpha, u),
        rat_mul(beta, l),
    );
}

/// The same row: equal coefficients, bound and strictness.
pub open spec fn same_row(a: Row, b: Row) -> bool {
    &&& a.coefficients@ == b.coefficients@
    &&& a.bound == b.bound
    &&& a.strict == b.strict
}

/// What a system left after eliminating variable `i` still says of the
/// system before, at `x`: its rows without the variable hold, and so does
/// every combination of a row bounding it above with one bounding it below.
pub open spec fn eliminated_at(rows: Seq<Row>, i: int, x: Seq<(int, int)>) -> bool {
    &&& forall|r: int|
        0 <= r < rows.len() && rows[r].coefficients@[i]@.0 == 0 ==> row_holds(#[trigger] rows[r], x)
    &&& forall|u: int, l: int|
        0 <= u < rows.len() && 0 <= l < rows.len() && rows[u].coefficients@[i]@.0 > 0
            && rows[l].coefficients@[i]@.0 < 0 ==> #[trigger] rows_pair_hold(rows[u], rows[l], i, x)
}

/// Wherever `after` holds, `before` is eliminated at variable `i`.
pub open spec fn elim_link(before: Seq<Row>, after: Seq<Row>, i: int, n: int) -> bool {
    forall|x: Seq<(int, int)>|
        positive_dens(x) && x.len() >= n && rows_hold(after, x) ==> #[trigger] eliminated_at(
            before,
            i,
            x,
        )
}

/// Every pair of an upper row among the first `u` (and the first `l` lower
/// rows of upper row `u`) with a lower row holds at `x`.
pub open spec fn pairs_hold_upto(
    rows: Seq<Row>,
    uppers: Seq<usize>,
    lowers: Seq<usize>,
    u: int,
    l: int,
    i: int,
    x: Seq<(int, int)>,
) -> bool {
    forall|uu: int, ll: int|
        (0 <= uu < u && 0 <= ll < lowers.len() || uu == u && 0 <= ll < l) ==> #[trigger] rows_pair_hold(
            rows[uppers[uu] as int],
            rows[lowers[ll] as int],
            i,
            x,
        )
}

/// The sign of a row's coefficient at `index`: -1, 0 or 1.
pub open spec fn sign_at(row: Row, index: int) -> int {
    let v = row.coefficients@[index]@.0;
    if v > 0 {
        1
    } else if v < 0 {
        -1
    } else {
        0
    }
}

/// How many rows have a coefficient of sign `s` at `index`.
pub open spec fn count_sign(rows: Seq<Row>, index: int, s: int) -> nat
    decreases rows.len(),
{
    if rows.len() == 0 {
        0
    } else {
        count_sign(rows.drop_last(), index, s) + if sign_at(rows.last(), index) == s {
            1nat
        } else {
            0nat
        }
    }
}

/// The rows eliminating `index` leaves: the rows without it, and one
/// combination for each row bounding it above paired with each bounding it
/// below.
pub open spec fn elimination_size(rows: Seq<Row>, index: int) -> nat {
    count_sign(rows, index, 0) + count_sign(rows, index, 1) * count_sign(rows, index, -1)
}

/// For every row bounding variable `index` above and every row bounding it
/// below, their combination is among the rows of `out` after those kept.
pub open spec fn pairs_combined(rows: Seq<Row>, index: int, out: Seq<Row>) -> bool {
    forall|ur: int, lr: int|
        0 <= ur < rows.len() && 0 <= lr < rows.len() && rows[ur].coefficients@[index]@.0 > 0
            && rows[lr].coefficients@[index]@.0 < 0 ==> exists|k: int|
            count_sign(rows, index, 0) <= k < out.len() && #[trigger] combined_exactly(
                rows[ur],
                rows[lr],
                index,
                out[k],
            )
}

/// Every row without variable `index` is among the first rows of `out`, one
/// for each such row.
pub open spec fn zero_rows_kept(rows: Seq<Row>, index: int, out: Seq<Row>) -> bool {
    forall|zr: int|
        0 <= zr < rows.len() && rows[zr].coefficients@[index]@.0 == 0 ==> exists|k: int|
            0 <= k < count_sign(rows, index, 0) && #[trigger] same_row(out[k], rows[zr])
}

/// Every pair of an upper row among the first `u` (and the first `l` lower
/// rows of upper row `u`) with a lower row has its combination among the
/// rows of `kept` from `z` on.
pub open spec fn pairs_built_upto(
    rows: Seq<Row>,
    uppers: Seq<usize>,
    lowers: Seq<usize>,
    u: int,
    l: int,
    index: int,
    kept: Seq<Row>,
    z: int,
) -> bool {
    forall|uu: int, ll: int|
        (0 <= uu < u && 0 <= ll < lowers.len() || uu == u && 0 <= ll < l) ==> #[trigger] built_from(
            rows[uppers[uu] as int],
            rows[lowers[ll] as int],
            index,
            kept,
            z,
        )
}

/// Some row of `kept` from `z` on is the combination of `upper` and `lower`.
pub open spec fn built_from(upper: Row, lower: Row, index: int, kept: Seq<Row>, z: int) -> bool {
    exists|k: int| z <= k < kept.len() && #[trigger] combined_exactly(upper, lower, index, kept[k])
}

/// `after` is what eliminating variable `index` from `before` leaves: as
/// many rows as the rows without it plus one per pair of a row bounding it
/// above and one bounding it below, holding each row without it and each
/// such combination.
pub open spec fn eliminates(before: Seq<Row>, index: int, after: Seq<Row>) -> bool {
    &&& after.len() == elimination_size(before, index)
    &&& zero_rows_kept(before, index, after)
    &&& pairs_combined(before, index, after)
}

/// System `k + 1` of the chain is what eliminating variable `n - 1 - k` from
/// system `k` leaves.
pub open spec fn chain_link(chain: Seq<Seq<Row>>, n: int, k: int) -> bool {
    eliminates(chain[k], n - 1 - k, chain[k + 1])
}

/// Each system of the chain eliminates the next variable, from the last of
/// `n` down.
pub open spec fn elimination_chain(chain: Seq<Seq<Row>>, n: int) -> bool {
    forall|k: int| 0 <= k < chain.len() - 1 ==> #[trigger] chain_link(chain, n, k)
}

/// Eliminates the variable `index`: keeps the rows without it and adds every
/// combination of a row bounding it above with one bounding it below.
#[verifier::rlimit(40)]
pub(crate) fn eliminate(rows: &Vec<Row>, index: usize, budget: usize, Ghost(n): Ghost<int>) -> (r: Result<
    Vec<Row>,
    TimeError,
>)
    requires
        0 <= index < n,
        rows_sized(rows@, n),
    ensures
        r matches Ok(out) ==> {
            &&& rows_sized(out@, n)
            &&& column_zero(out@, index as int)
            &&& forall|j: int| 0 <= j < n && column_zero(rows@, j) ==> #[trigger] column_zero(out@, j)
            &&& out@.len() <= budget
            &&& forall|x: Seq<(int, int)>|
                positive_dens(x) && x.len() >= n && rows_hold(rows@, x) ==> #[trigger] rows_hold(
                    out@,
                    x,
                )
            &&& elim_link(rows@, out@, index as int, n)
        },
        r matches Err(e) ==> e is Overflow || e == (TimeError::EliminationBudgetExceeded { budget }),
        (r matches Err(TimeError::EliminationBudgetExceeded { .. })) <==> elimination_size(
            rows@,
            index as int,
        ) > budget,
        r matches Err(TimeError::Overflow) ==> exists|ur: int, lr: int|
            0 <= ur < rows@.len() && 0 <= lr < rows@.len() && rows@[ur].coefficients@[index as int]@.0
                > 0 && rows@[lr].coefficients@[index as int]@.0 < 0 && !#[trigger] combination_fits(
                rows@[ur],
                rows@[lr],
                index as int,
            ),
        r matches Ok(out) ==> out@.len() == elimination_size(rows@, index as int),
        r matches Ok(out) ==> zero_rows_kept(rows@, index as int, out@),
        r matches Ok(out) ==> pairs_combined(rows@, index as int, out@),
{
    let mut kept: Vec<Row> = Vec::new();
    let mut uppers: Vec<usize> = Vec::new();
    let mut lowers: Vec<usize> = Vec::new();
    let ghost mut slot: Seq<int> = Seq::empty();
    let mut i: usize = 0;
    while i < rows.len()
        invariant
            0 <= index < n,
            rows_sized(rows@, n),
            i <= rows@.len(),
            rows_sized(kept@, n),
            column_zero(kept@, index as int),
            forall|j: int| 0 <= j < n && column_zero(rows@, j) ==> #[trigger] column_zero(kept@, j),
            forall|k: int|
                0 <= k < uppers@.len() ==> (#[trigger] uppers@[k]) < rows@.len() && rows@[uppers@[k] as int].coefficients@[index as int]@.0 > 0,
            forall|k: int|
                0 <= k < lowers@.len() ==> (#[trigger] lowers@[k]) < rows@.len() && rows@[lowers@[k] as int].coefficients@[index as int]@.0 < 0,
            kept@.len() + uppers@.len() + lowers@.len() == i,
            kept@.len() == count_sign(rows@.take(i as int), index as int, 0),
            uppers@.len() == count_sign(rows@.take(i as int), index as int, 1),
            lowers@.len() == count_sign(rows@.take(i as int), index as int, -1),
            forall|x: Seq<(int, int)>|
                positive_dens(x) && x.len() >= n && rows_hold(rows@, x) ==> #[trigger] rows_hold(
                    kept@,
                    x,
                ),
            slot.len() == i,
            forall|r: int|
                0 <= r < i && rows@[r].coefficients@[index as int]@.0 == 0 ==> 0 <= #[trigger] slot[r]
                    < kept@.len() && same_row(kept@[slot[r]], rows@[r]),
            forall|r: int|
                0 <= r < i && rows@[r].coefficients@[index as int]@.0 > 0 ==> 0 <= #[trigger] slot[r]
                    < uppers@.len() && uppers@[slot[r]] == r,
            forall|r: int|
                0 <= r < i && rows@[r].coefficients@[index as int]@.0 < 0 ==> 0 <= #[trigger] slot[r]
                    < lowers@.len() && lowers@[slot[r]] == r,
        decreases rows@.len() - i,
    {
        proof {
            let t = rows@.take(i + 1);
            assert(t.drop_last() =~= rows@.take(i as int));
            assert(t.last() == rows@[i as int]);
        }
        let coefficient = rows[i].coefficients[index];
        if coefficient.is_zero() {
            let ghost before = kept@;
            kept.push(copy_row(&rows[i]));
            proof {
                slot = slot.push(before.len() as int);
                assert forall|r: int|
                    0 <= r < i + 1 && rows@[r].coefficients@[index as int]@.0 == 0 implies 0
                        <= #[trigger] slot[r] < kept@.len() && same_row(kept@[slot[r]], rows@[r]) by {
                    if r < i {
                        assert(kept@[slot[r]] == before[slot[r]]);
                    }
                }
                assert forall|j: int| 0 <= j < n && column_zero(rows@, j) implies #[trigger] column_zero(kept@, j) by {
                    assert(column_zero(before, j));
                    assert forall|r: int| 0 <= r < kept@.len() implies (#[trigger] kept@[r]).coefficients@[j]@.0 == 0 by {
                        if r < before.len() {
                            assert(kept@[r] == before[r]);
                        } else {
                            assert(rows@[i as int].coefficients@[j]@.0 == 0);
                        }
                    }
                }
                assert forall|r: int| 0 <= r < kept@.len() implies (#[trigger] kept@[r]).coefficients@[index as int]@.0 == 0 by {
                    if r < before.len() {
                        assert(kept@[r] == before[r]);
                    }
                }
                assert forall|r: int| 0 <= r < kept@.len() implies (#[trigger] kept@[r]).coefficients@.len() == n by {
                    if r < before.len() {
                        assert(kept@[r] == before[r]);
                    }
                }
                assert forall|x: Seq<(int, int)>|
                    positive_dens(x) && x.len() >= n && rows_hold(rows@, x) implies #[trigger] rows_hold(
                    kept@,
                    x,
                ) by {
                    assert(rows_hold(before, x));
                    assert forall|r: int| 0 <= r < kept@.len() implies row_holds(#[trigger] kept@[r], x) by {
                        if r < before.len() {
                            assert(kept@[r] == before[r]);
                        } else {
                            assert(row_holds(rows@[i as int], x));
                            assert(row_coefficients(kept@[r]) =~= row_coefficients(rows@[i as int]));
                        }
                    }
                }
            }
        } else if coefficient.is_positive() {
            proof {
                slot = slot.push(uppers@.len() as int);
            }
            uppers.push(i);
        } else {
            proof {
                slot = slot.push(lowers@.len() as int);
            }
            lowers.push(i);
        }
        i = i + 1;
    }
    proof {
        assert(rows@.take(rows@.len() as int) =~= rows@);
    }
    let ghost z = kept@.len() as int;
    let ghost n_lower = lowers@.len() as int;
    proof {
        let a = uppers@.len() as int;
        let b = lowers@.len() as int;
        assert(a * b <= (usize::MAX as int) * (usize::MAX as int)) by (nonlinear_arith)
            requires
                0 <= a <= usize::MAX,
                0 <= b <= usize::MAX,
        ;
        assert((usize::MAX as int) * (usize::MAX as int) + (usize::MAX as int) <= u128::MAX)
            by (nonlinear_arith)
            requires
                0 <= (usize::MAX as int) <= 18446744073709551615int,
        ;
    }
    let total = (kept.len() as u128) + (uppers.len() as u128) * (lowers.len() as u128);
    proof {
        assert(total as int == elimination_size(rows@, index as int));
    }
    if total > budget as u128 {
        return Err(TimeError::EliminationBudgetExceeded { budget });
    }
    let mut u: usize = 0;
    while u < uppers.len()
        invariant
            0 <= index < n,
            rows_sized(rows@, n),
            rows_sized(kept@, n),
            column_zero(kept@, index as int),
            forall|j: int| 0 <= j < n && column_zero(rows@, j) ==> #[trigger] column_zero(kept@, j),
            forall|k: int|
                0 <= k < uppers@.len() ==> (#[trigger] uppers@[k]) < rows@.len() && rows@[uppers@[k] as int].coefficients@[index as int]@.0 > 0,
            forall|k: int|
                0 <= k < lowers@.len() ==> (#[trigger] lowers@[k]) < rows@.len() && rows@[lowers@[k] as int].coefficients@[index as int]@.0 < 0,
            u <= uppers@.len(),
            forall|x: Seq<(int, int)>|
                positive_dens(x) && x.len() >= n && rows_hold(rows@, x) ==> #[trigger] rows_hold(
                    kept@,
                    x,
                ),
            kept@.len() + (uppers@.len() - u) * lowers@.len() <= budget,
            z == count_sign(rows@, index as int, 0),
            uppers@.len() == count_sign(rows@, index as int, 1),
            lowers@.len() == count_sign(rows@, index as int, -1),
            elimination_size(rows@, index as int) <= budget,
            kept@.len() == z + u * lowers@.len(),
            forall|r: int|
                0 <= r < rows@.len() && rows@[r].coefficients@[index as int]@.0 == 0 ==> #[trigger] slot[r] < z,
            pairs_built_upto(rows@, uppers@, lowers@, u as int, 0, index as int, kept@, z),
            slot.len() == rows@.len(),
            forall|r: int|
                0 <= r < rows@.len() && rows@[r].coefficients@[index as int]@.0 == 0 ==> 0
                    <= #[trigger] slot[r] < kept@.len() && same_row(kept@[slot[r]], rows@[r]),
            forall|r: int|
                0 <= r < rows@.len() && rows@[r].coefficients@[index as int]@.0 > 0 ==> 0
                    <= #[trigger] slot[r] < uppers@.len() && uppers@[slot[r]] == r,
            forall|r: int|
                0 <= r < rows@.len() && rows@[r].coefficients@[index as int]@.0 < 0 ==> 0
                    <= #[trigger] slot[r] < lowers@.len() && lowers@[slot[r]] == r,
            forall|x: Seq<(int, int)>|
                positive_dens(x) && x.len() >= n && rows_hold(kept@, x) ==> #[trigger] pairs_hold_upto(
                    rows@,
                    uppers@,
                    lowers@,
                    u as int,
                    0,
                    index as int,
                    x,
                ),
        decreases uppers@.len() - u,
    {
        proof {
            assert((uppers@.len() - u - 1) * lowers@.len() + lowers@.len() == (uppers@.len() - u) * lowers@.len()) by (nonlinear_arith);
        }
        let mut l: usize = 0;
        while l < lowers.len()
            invariant
                0 <= index < n,
                rows_sized(rows@, n),
                rows_sized(kept@, n),
                column_zero(kept@, index as int),
                forall|j: int| 0 <= j < n && column_zero(rows@, j) ==> #[trigger] column_zero(kept@, j),
                forall|k: int|
                    0 <= k < uppers@.len() ==> (#[trigger] uppers@[k]) < rows@.len() && rows@[uppers@[k] as int].coefficients@[index as int]@.0 > 0,
                forall|k: int|
                    0 <= k < lowers@.len() ==> (#[trigger] lowers@[k]) < rows@.len() && rows@[lowers@[k] as int].coefficients@[index as int]@.0 < 0,
                u < uppers@.len(),
                l <= lowers@.len(),
                forall|x: Seq<(int, int)>|
                    positive_dens(x) && x.len() >= n && rows_hold(rows@, x) ==> #[trigger] rows_hold(
                        kept@,
                        x,
                    ),
                kept@.len() + (uppers@.len() - u - 1) * lowers@.len() + (lowers@.len() - l) <= budget,
                z == count_sign(rows@, index as int, 0),
                uppers@.len() == count_sign(rows@, index as int, 1),
                lowers@.len() == count_sign(rows@, index as int, -1),
                elimination_size(rows@, index as int) <= budget,
                kept@.len() == z + u * lowers@.len() + l,
                forall|r: int|
                    0 <= r < rows@.len() && rows@[r].coefficients@[index as int]@.0 == 0 ==> #[trigger] slot[r] < z,
                pairs_built_upto(rows@, uppers@, lowers@, u as int, l as int, index as int, kept@, z),
                slot.len() == rows@.len(),
                forall|r: int|
                    0 <= r < rows@.len() && rows@[r].coefficients@[index as int]@.0 == 0 ==> 0
                        <= #[trigger] slot[r] < kept@.len() && same_row(kept@[slot[r]], rows@[r]),
                forall|r: int|
                    0 <= r < rows@.len() && rows@[r].coefficients@[index as int]@.0 > 0 ==> 0
                        <= #[trigger] slot[r] < uppers@.len() && uppers@[slot[r]] == r,
                forall|r: int|
                    0 <= r < rows@.len() && rows@[r].coefficients@[index as int]@.0 < 0 ==> 0
                        <= #[trigger] slot[r] < lowers@.len() && lowers@[slot[r]] == r,
                forall|x: Seq<(int, int)>|
                    positive_dens(x) && x.len() >= n && rows_hold(kept@, x) ==> #[trigger] pairs_hold_upto(
                        rows@,
                        uppers@,
                        lowers@,
                        u as int,
                        l as int,
                        index as int,
                        x,
                    ),
            decreases lowers@.len() - l,
        {
            let upper_row = &rows[uppers[u]];
            let lower_row = &rows[lowers[l]];
            let combined = match combine(upper_row, lower_row, index) {
                Ok(row) => row,
                Err(e) => {
                    proof {
                        assert(!combination_fits(rows@[uppers@[u as int] as int], rows@[lowers@[l as int] as int], index as int));
                    }
                    return Err(e);
                },
            };
            let ghost before = kept@;
            kept.push(combined);
            proof {
                assert forall|uu: int, ll: int|
                    (0 <= uu < u && 0 <= ll < lowers@.len() || uu == u && 0 <= ll < l + 1) implies #[trigger] built_from(
                    rows@[uppers@[uu] as int],
                    rows@[lowers@[ll] as int],
                    index as int,
                    kept@,
                    z,
                ) by {
                    if uu == u && ll == l {
                        assert(combined_exactly(*upper_row, *lower_row, index as int, kept@[before.len() as int]));
                    } else {
                        assert(built_from(rows@[uppers@[uu] as int], rows@[lowers@[ll] as int], index as int, before, z));
                        let k = choose|k: int| z <= k < before.len() && #[trigger] combined_exactly(
                            rows@[uppers@[uu] as int],
                            rows@[lowers@[ll] as int],
                            index as int,
                            before[k],
                        );
                        assert(kept@[k] == before[k]);
                    }
                }
                assert forall|x: Seq<(int, int)>|
                    positive_dens(x) && x.len() >= n && rows_hold(kept@, x) implies #[trigger] pairs_hold_upto(
                    rows@,
                    uppers@,
                    lowers@,
                    u as int,
                    l + 1,
                    index as int,
                    x,
                ) by {
                    assert(rows_hold(before, x)) by {
                        assert forall|r: int| 0 <= r < before.len() implies row_holds(#[trigger] before[r], x) by {
                            assert(kept@[r] == before[r]);
                        }
                    }
                    assert(pairs_hold_upto(rows@, uppers@, lowers@, u as int, l as int, index as int, x));
                    assert(row_holds(kept@[before.len() as int], x));
                    assert(rows_pair_hold(*upper_row, *lower_row, index as int, x));
                }
                assert forall|r: int|
                    0 <= r < rows@.len() && rows@[r].coefficients@[index as int]@.0 == 0 implies 0
                        <= #[trigger] slot[r] < kept@.len() && same_row(kept@[slot[r]], rows@[r]) by {
                    assert(kept@[slot[r]] == before[slot[r]]);
                }
                assert forall|j: int| 0 <= j < n && column_zero(rows@, j) implies #[trigger] column_zero(kept@, j) by {
                    assert(column_zero(before, j));
                    assert forall|r: int| 0 <= r < kept@.len() implies (#[trigger] kept@[r]).coefficients@[j]@.0 == 0 by {
                        if r < before.len() {
                            assert(kept@[r] == before[r]);
                        } else {
                            assert(upper_row.coefficients@[j]@.0 == 0);
                            assert(lower_row.coefficients@[j]@.0 == 0);
                        }
                    }
                }
                assert forall|r: int| 0 <= r < kept@.len() implies (#[trigger] kept@[r]).coefficients@[index as int]@.0 == 0 by {
                    if r < before.len() {
                        assert(kept@[r] == before[r]);
                    }
                }
                assert forall|r: int| 0 <= r < kept@.len() implies (#[trigger] kept@[r]).coefficients@.len() == n by {
                    if r < before.len() {
                        assert(kept@[r] == before[r]);
                    }
                }
                assert forall|x: Seq<(int, int)>|
                    positive_dens(x) && x.len() >= n && rows_hold(rows@, x) implies #[trigger] rows_hold(
                    kept@,
                    x,
                ) by {
                    assert(rows_hold(before, x));
                    assert forall|r: int| 0 <= r < kept@.len() implies row_holds(#[trigger] kept@[r], x) by {
                        if r < before.len() {
                            assert(kept@[r] == before[r]);
                        } else {
                            assert(row_holds(*upper_row, x));
                            assert(row_holds(*lower_row, x));
                        }
                    }
                }
            }
            l = l + 1;
        }
        proof {
            assert forall|x: Seq<(int, int)>|
                positive_dens(x) && x.len() >= n && rows_hold(kept@, x) implies #[trigger] pairs_hold_upto(
                rows@,
                uppers@,
                lowers@,
                u + 1,
                0,
                index as int,
                x,
            ) by {
                assert(pairs_hold_upto(rows@, uppers@, lowers@, u as int, l as int, index as int, x));
            }
            assert forall|uu: int, ll: int|
                (0 <= uu < u + 1 && 0 <= ll < lowers@.len() || uu == u + 1 && 0 <= ll < 0) implies #[trigger] built_from(
                rows@[uppers@[uu] as int],
                rows@[lowers@[ll] as int],
                index as int,
                kept@,
                z,
            ) by {
                assert(pairs_built_upto(rows@, uppers@, lowers@, u as int, l as int, index as int, kept@, z));
            }
            assert(z + u * lowers@.len() + lowers@.len() == z + (u + 1) * lowers@.len()) by (nonlinear_arith);
        }
        u = u + 1;
    }
    proof {
        assert forall|x: Seq<(int, int)>|
            positive_dens(x) && x.len() >= n && rows_hold(kept@, x) implies #[trigger] eliminated_at(
            rows@,
            index as int,
            x,
        ) by {
            assert forall|r: int|
                0 <= r < rows@.len() && rows@[r].coefficients@[index as int]@.0 == 0 implies row_holds(
                #[trigger] rows@[r],
                x,
            ) by {
                assert(row_holds(kept@[slot[r]], x));
                assert(row_coefficients(kept@[slot[r]]) =~= row_coefficients(rows@[r]));
            }
            assert forall|ur: int, lr: int|
                0 <= ur < rows@.len() && 0 <= lr < rows@.len() && rows@[ur].coefficients@[index as int]@.0
                    > 0 && rows@[lr].coefficients@[index as int]@.0 < 0 implies #[trigger] rows_pair_hold(
                rows@[ur],
                rows@[lr],
                index as int,
                x,
            ) by {
                let uu = slot[ur];
                let ll = slot[lr];
                assert(pairs_hold_upto(rows@, uppers@, lowers@, uppers@.len() as int, 0, index as int, x));
                assert(rows_pair_hold(rows@[uppers@[uu] as int], rows@[lowers@[ll] as int], index as int, x));
            }
        }
        assert forall|zr: int|
            0 <= zr < rows@.len() && rows@[zr].coefficients@[index as int]@.0 == 0 implies exists|k: int|
                0 <= k < count_sign(rows@, index as int, 0) && #[trigger] same_row(kept@[k], rows@[zr]) by {
            assert(slot[zr] < z);
            assert(same_row(kept@[slot[zr]], rows@[zr]));
        }
        assert(zero_rows_kept(rows@, index as int, kept@));
        assert forall|ur: int, lr: int|
            0 <= ur < rows@.len() && 0 <= lr < rows@.len() && rows@[ur].coefficients@[index as int]@.0 > 0
                && rows@[lr].coefficients@[index as int]@.0 < 0 implies exists|k: int|
                count_sign(rows@, index as int, 0) <= k < kept@.len() && #[trigger] combined_exactly(
                    rows@[ur],
                    rows@[lr],
                    index as int,
                    kept@[k],
                ) by {
            let uu = slot[ur];
            let ll = slot[lr];
            assert(pairs_built_upto(rows@, uppers@, lowers@, uppers@.len() as int, 0, index as int, kept@, z));
            assert(built_from(rows@[uppers@[uu] as int], rows@[lowers@[ll] as int], index as int, kept@, z));
        }
        assert(pairs_combined(rows@, index as int, kept@));
        assert(u == uppers@.len());
        assert(kept@.len() == z + uppers@.len() * lowers@.len());
        assert(kept@.len() == elimination_size(rows@, index as int));
    }
    Ok(kept)
}

pub open spec fn bound_view(b: Option<(Q, bool)>) -> Option<((int, int), bool)> {
    match b {
        Some((q, strict)) => Some((q@, strict)),
        None => None,
    }
}

/// Picks a value between the tightest lower and upper bounds found.
pub(crate) fn pick_between(lower: Option<(Q, bool)>, upper: Option<(Q, bool)>) -> (r: Result<Q, TimeError>)
    ensures
        r matches Ok(v) ==> v@ == picked(bound_view(lower), bound_view(upper)),
        r matches Err(e) ==> e is Overflow,
        r is Ok <==> pick_fits(bound_view(lower), bound_view(upper)),
{
    let one = Q::one();
    match lower {
        Some((low, low_strict)) => match upper {
            Some((high, _)) => {
                if low.same_value(&high) {
                    Ok(low)
                } else {
                    let sum = match low.checked_add(&high) {
                        Some(v) => v,
                        None => {
                            return Err(TimeError::Overflow);
                        },
                    };
                    let two = Q::integer(2);
                    match sum.checked_div(&two) {
                        Some(v) => Ok(v),
                        None => Err(TimeError::Overflow),
                    }
                }
            },
            None => {
                if low_strict {
                    match low.checked_add(&one) {
                        Some(v) => Ok(v),
                        None => Err(TimeError::Overflow),
                    }
                } else {
                    Ok(low)
                }
            },
        },
        None => match upper {
            Some((high, high_strict)) => {
                if high_strict {
                    match high.checked_sub(&one) {
                        Some(v) => Ok(v),
                        None => Err(TimeError::Overflow),
                    }
                } else {
                    Ok(high)
                }
            },
            None => Ok(Q::zero()),
        },
    }
}

/// Rows without variable `i` hold wherever they held, whatever value `i`
/// takes.
proof fn lemma_rows_hold_update(rows: Seq<Row>, i: int, x: Seq<(int, int)>, t: (int, int), n: int)
    requires
        rows_sized(rows, n),
        0 <= i < n,
        x.len() == n,
        positive_dens(x),
        x[i] == (0int, 1int),
        t.1 > 0,
        column_zero(rows, i),
        rows_hold(rows, x),
    ensures
        rows_hold(rows, x.update(i, t)),
{
    assert forall|r: int| 0 <= r < rows.len() implies row_holds(#[trigger] rows[r], x.update(i, t)) by {
        let c = row_coefficients(rows[r]);
        lemma_row_dens(rows[r]);
        assert(c[i] == rows[r].coefficients@[i]@);
        lemma_row_at(c, rows[r].bound@, rows[r].strict, i, x, t);
    }
}

/// The systems of a history of eliminations, as sequences of rows.
pub open spec fn system_views(history: Seq<Vec<Row>>) -> Seq<Seq<Row>> {
    history.map_values(|v: Vec<Row>| v@)
}

/// `x` with the values from variable `k` on set to zero: what back
/// substitution has fixed before it reaches variable `k`.
pub open spec fn fixed_before(x: Seq<(int, int)>, k: int) -> Seq<(int, int)> {
    Seq::new(x.len(), |t: int| if t < k { x[t] } else { (0int, 1int) })
}

/// Back substitution may pick `x[j]` for variable `j`: some bounds the rows
/// of system `n - 1 - j` put on it, given the values fixed before it, admit a
/// computable pick that gives `x[j]`.
pub open spec fn picks_at(systems: Seq<Seq<Row>>, n: int, j: int, x: Seq<(int, int)>) -> bool {
    exists|lower: Option<((int, int), bool)>, upper: Option<((int, int), bool)>|
        #![trigger lower_facts(systems[n - 1 - j], j, fixed_before(x, j), lower), upper_facts(systems[n - 1 - j], j, fixed_before(x, j), upper)]
        lower_facts(systems[n - 1 - j], j, fixed_before(x, j), lower) && upper_facts(
            systems[n - 1 - j],
            j,
            fixed_before(x, j),
            upper,
        ) && pick_fits(lower, upper) && x[j] == picked(lower, upper)
}

/// `x` is a course of back substitution through the first `k` variables:
/// each of them picked, the rest still zero.
pub open spec fn substitution_path(systems: Seq<Seq<Row>>, n: int, k: int, x: Seq<(int, int)>) -> bool {
    &&& x.len() == n
    &&& forall|t: int| k <= t < n ==> x[t] == (0int, 1int)
    &&& forall|j: int| 0 <= j < k ==> #[trigger] picks_at(systems, n, j, x)
}

/// Along the course `x`, back substitution cannot go on at variable `k`:
/// the limit some row puts on it, or the pick between its bounds, leaves
/// the storage of `Q`.
pub open spec fn substitution_fails(systems: Seq<Seq<Row>>, n: int, k: int, x: Seq<(int, int)>) -> bool {
    &&& 0 <= k < n
    &&& substitution_path(systems, n, k, x)
    &&& {
        ||| exists|r: int|
            0 <= r < systems[n - 1 - k].len() && systems[n - 1 - k][r].coefficients@[k]@.0 != 0
                && !#[trigger] limit_fits(systems[n - 1 - k][r], k, x)
        ||| exists|lower: Option<((int, int), bool)>, upper: Option<((int, int), bool)>|
            #![trigger lower_facts(systems[n - 1 - k], k, x, lower), upper_facts(systems[n - 1 - k], k, x, upper)]
            lower_facts(systems[n - 1 - k], k, x, lower) && upper_facts(systems[n - 1 - k], k, x, upper)
                && !pick_fits(lower, upper)
    }
}

/// Recovers one assignment from the elimination history: `history[k]` is
/// the system before eliminating variable `n - 1 - k`, so walking it
/// backwards reintroduces the variables from the first to the last, each
/// placed between the tightest bounds its rows give once the earlier ones
/// are fixed. The assignment meets the first system.
#[verifier::rlimit(40)]
pub(crate) fn back_substitute(history: &Vec<Vec<Row>>, n: usize) -> (r: Result<Vec<Q>, TimeError>)
    requires
        history@.len() == n,
        forall|k: int| 0 <= k < n ==> rows_sized((#[trigger] history@[k])@, n as int),
        forall|k: int, j: int|
            0 <= k < n && n - k <= j < n ==> #[trigger] column_zero(history@[k]@, j),
        forall|k: int|
            #![trigger history@[k]]
            0 <= k < n - 1 ==> elim_link(history@[k]@, history@[k + 1]@, n - 1 - k, n as int),
        n > 0 ==> forall|x: Seq<(int, int)>|
            positive_dens(x) && x.len() >= n ==> #[trigger] eliminated_at(history@[n - 1]@, 0, x),
    ensures
        r matches Ok(values) ==> {
            &&& values@.len() == n
            &&& n > 0 ==> rows_hold(history@[0]@, q_values(values@))
        },
        r matches Err(e) ==> e is Overflow,
        r is Err ==> exists|k: int, x: Seq<(int, int)>|
            #[trigger] substitution_fails(system_views(history@), n as int, k, x),
{
    let ghost systems = system_views(history@);
    let mut values: Vec<Q> = Vec::new();
    let mut fill: usize = 0;
    while fill < n
        invariant
            fill <= n,
            values@.len() == fill,
            forall|j: int| 0 <= j < fill ==> (#[trigger] values@[j])@ == (0int, 1int),
        decreases n - fill,
    {
        values.push(Q::zero());
        fill = fill + 1;
    }
    let mut index: usize = 0;
    proof {
        assert(q_values(values@).len() == n);
    }
    while index < n
        invariant
            history@.len() == n,
            forall|k: int| 0 <= k < n ==> rows_sized((#[trigger] history@[k])@, n as int),
            forall|k: int, j: int|
                0 <= k < n && n - k <= j < n ==> #[trigger] column_zero(history@[k]@, j),
            forall|k: int|
                #![trigger history@[k]]
                0 <= k < n - 1 ==> elim_link(history@[k]@, history@[k + 1]@, n - 1 - k, n as int),
            n > 0 ==> forall|x: Seq<(int, int)>|
                positive_dens(x) && x.len() >= n ==> #[trigger] eliminated_at(history@[n - 1]@, 0, x),
            index <= n,
            values@.len() == n,
            forall|j: int| index <= j < n ==> (#[trigger] values@[j])@ == (0int, 1int),
            index > 0 ==> rows_hold(history@[n - index]@, q_values(values@)),
            systems == system_views(history@),
            substitution_path(systems, n as int, index as int, q_values(values@)),
        decreases n - index,
    {
        let step = n - 1 - index;
        let rows = &history[step];
        let ghost x0 = q_values(values@);
        proof {
            assert(systems[n - 1 - index] == rows@);
            assert(fixed_before(x0, index as int) =~= x0);
        }
        proof {
            assert forall|j: int| index < j < n implies #[trigger] column_zero(rows@, j) by {
                assert(column_zero(history@[step as int]@, j));
            }
        }
        let (lower, upper) = match bounds_at(rows, index, &values, Ghost(n as int)) {
            Ok(b) => b,
            Err(e) => {
                proof {
                    assert(substitution_fails(systems, n as int, index as int, x0));
                }
                return Err(e);
            },
        };
        let value = match pick_between(lower, upper) {
            Ok(v) => v,
            Err(e) => {
                proof {
                    assert(lower_facts(systems[n - 1 - index], index as int, x0, bound_view(lower)));
                    assert(upper_facts(systems[n - 1 - index], index as int, x0, bound_view(upper)));
                    assert(substitution_fails(systems, n as int, index as int, x0));
                }
                return Err(e);
            },
        };
        proof {
            let x = q_values(values@);
            lemma_q_values_dens(values@);
            assert(x[index as int] == values@[index as int]@);
            assert forall|t: (int, int)| t.1 > 0 implies #[trigger] eliminated_at(
                rows@,
                index as int,
                x.update(index as int, t),
            ) by {
                let y = x.update(index as int, t);
                assert(positive_dens(y)) by {
                    assert forall|k: int| 0 <= k < y.len() implies (#[trigger] y[k]).1 > 0 by {
                        if k != index {
                            assert(y[k] == x[k]);
                        }
                    }
                }
                if index == 0 {
                    assert(step == n - 1);
                } else {
                    let next = history@[n - index]@;
                    assert(history@[step as int + 1] == history@[n - index]);
                    assert(elim_link(history@[step as int]@, next, index as int, n as int));
                    assert(column_zero(next, index as int));
                    lemma_rows_hold_update(next, index as int, x, t, n as int);
                }
            }
            lemma_substitution(rows@, index as int, x, bound_view(lower), bound_view(upper), n as int);
        }
        let ghost old_values = values@;
        values.set(index, value);
        proof {
            assert(q_values(values@) =~= q_values(old_values).update(index as int, value@));
            assert(n - (index + 1) == step);
            let x1 = q_values(values@);
            assert(fixed_before(x1, index as int) =~= x0);
            assert(lower_facts(systems[n - 1 - index], index as int, fixed_before(x1, index as int), bound_view(lower)));
            assert(upper_facts(systems[n - 1 - index], index as int, fixed_before(x1, index as int), bound_view(upper)));
            assert(picks_at(systems, n as int, index as int, x1));
            assert forall|j: int| 0 <= j < index + 1 implies #[trigger] picks_at(systems, n as int, j, x1) by {
                if j < index {
                    assert(picks_at(systems, n as int, j, x0));
                    assert(fixed_before(x1, j) =~= fixed_before(x0, j));
                    assert(x1[j] == x0[j]);
                    let (lo, up) = choose|lo: Option<((int, int), bool)>, up: Option<((int, int), bool)>|
                        #![trigger lower_facts(systems[n - 1 - j], j, fixed_before(x0, j), lo), upper_facts(systems[n - 1 - j], j, fixed_before(x0, j), up)]
                        lower_facts(systems[n - 1 - j], j, fixed_before(x0, j), lo) && upper_facts(
                            systems[n - 1 - j],
                            j,
                            fixed_before(x0, j),
                            up,
                        ) && pick_fits(lo, up) && x0[j] == picked(lo, up);
                    assert(lower_facts(systems[n - 1 - j], j, fixed_before(x1, j), lo));
                    assert(upper_facts(systems[n - 1 - j], j, fixed_before(x1, j), up));
                }
            }
        }
        index = index + 1;
    }
    Ok(values)
}

/// The exact values of a list of rationals.
pub open spec fn q_values(v: Seq<Q>) -> Seq<(int, int)> {
    v.map_values(|q: Q| q@)
}

/// Every value of a list of rationals has a positive denominator.
pub(crate) proof fn lemma_q_values_dens(v: Seq<Q>)
    ensures
        positive_dens(q_values(v)),
        q_values(v).len() == v.len(),
{
    assert forall|k: int| 0 <= k < q_values(v).len() implies (#[trigger] q_values(v)[k]).1 > 0 by {
        assert(q_values(v)[k] == v[k]@);
    }
}

/// A prefix of a row's coefficients keeps positive denominators.
proof fn lemma_prefix_dens(c: Seq<(int, int)>, k: int)
    requires
        positive_dens(c),
        0 <= k <= c.len(),
    ensures
        positive_dens(c.take(k)),
{
    assert forall|j: int| 0 <= j < c.take(k).len() implies (#[trigger] c.take(k)[j]).1 > 0 by {
        assert(c.take(k)[j] == c[j]);
    }
}

/// The bound a row puts on variable `index` once the variables before it
/// have their values: `(b - sum_{j < index} a_j x_j) / a_index`. The row has
/// zero coefficients past `index`, so only the earlier variables contribute.
/// Computing the limit `row` puts on variable `i` at `x` stays within the
/// storage of `Q`: each product of a nonzero coefficient before `i` with its
/// value, each running remainder of the bound, and the limit itself.
pub open spec fn limit_fits(row: Row, i: int, x: Seq<(int, int)>) -> bool {
    let c = row_coefficients(row);
    &&& forall|o: int|
        0 <= o < i && c[o].0 != 0 ==> fits(reduce(rat_mul(c[o], x[o]))) && fits(
            reduce(rat_sub(row.bound@, #[trigger] dot(c.take(o + 1), x))),
        )
    &&& fits(reduce(row_bound_at(row, i, x)))
}

/// Picking a value between two bounds stays within storage: the midpoint
/// of distinct bounds, or one past a strict bound on one side.
pub open spec fn pick_fits(lower: Option<((int, int), bool)>, upper: Option<((int, int), bool)>) -> bool {
    match lower {
        Some((low, low_strict)) => match upper {
            Some((high, _)) => rat_eq(low, high) || (fits(reduce(rat_add(low, high))) && fits(
                reduce(rat_div(reduce(rat_add(low, high)), (2int, 1int))),
            )),
            None => low_strict ==> fits(reduce(rat_add(low, (1int, 1int)))),
        },
        None => match upper {
            Some((high, high_strict)) => high_strict ==> fits(reduce(rat_sub(high, (1int, 1int)))),
            None => true,
        },
    }
}

pub(crate) fn row_limit(row: &Row, index: usize, values: &Vec<Q>, Ghost(n): Ghost<int>) -> (r: Result<
    Q,
    TimeError,
>)
    requires
        row.coefficients@.len() == n,
        values@.len() == n,
        index < n,
        row.coefficients@[index as int]@.0 != 0,
        values@[index as int]@ == (0int, 1int),
        forall|j: int| index < j < n ==> (#[trigger] row.coefficients@[j])@.0 == 0,
    ensures
        r matches Ok(l) ==> rat_eq(
            l@,
            limit_of(
                row.coefficients@[index as int]@,
                dot(row_coefficients(*row), q_values(values@)),
                row.bound@,
            ),
        ),
        r matches Err(e) ==> e is Overflow,
        r is Err ==> !limit_fits(*row, index as int, q_values(values@)),
{
    let ghost c = row_coefficients(*row);
    let ghost x = q_values(values@);
    let ghost b = row.bound@;
    proof {
        lemma_row_dens(*row);
        lemma_q_values_dens(values@);
        assert(c.take(0) =~= Seq::<(int, int)>::empty());
        assert(rat_sub(b, (0int, 1int)) == (b.0 * 1 - 0 * b.1, b.1 * 1));
        assert(rat_eq(row.bound@, rat_sub(b, dot(c.take(0), x)))) by (nonlinear_arith)
            requires
                rat_sub(b, dot(c.take(0), x)) == (b.0 * 1 - 0 * b.1, b.1 * 1),
                row.bound@ == b,
        ;
    }
    let coefficient = row.coefficients[index];
    let mut rest = row.bound;
    let mut other: usize = 0;
    while other < index
        invariant
            c == row_coefficients(*row),
            x == q_values(values@),
            b == row.bound@,
            positive_dens(c),
            positive_dens(x),
            c.len() == n,
            x.len() == n,
            row.coefficients@.len() == n,
            values@.len() == n,
            index < n,
            other <= index,
            rat_eq(rest@, rat_sub(b, dot(c.take(other as int), x))),
        decreases index - other,
    {
        let ghost o = other as int;
        let ghost d = dot(c.take(o), x);
        let ghost m = rat_mul(c[o], x[o]);
        proof {
            assert(c.take(o + 1).drop_last() =~= c.take(o));
            assert(dot(c.take(o + 1), x) == rat_add(d, m));
            lemma_prefix_dens(c, o);
            lemma_dot_pos(c.take(o), x);
            lemma_pos_ops(c[o], x[o]);
            lemma_den_product(b.1, d.1);
            assert(c[o] == row.coefficients@[o]@);
            assert(x[o] == values@[o]@);
        }
        let value = row.coefficients[other];
        if !value.is_zero() {
            let product = match value.checked_mul(&values[other]) {
                Some(v) => v,
                None => {
                    proof {
                        assert(row_coefficients(*row)[o] == c[o]);
                        assert(c[o].0 != 0 && !fits(reduce(rat_mul(c[o], x[o]))));
                    }
                    return Err(TimeError::Overflow);
                },
            };
            let ghost before = rest@;
            proof {
                lemma_reduce_pos(m);
                lemma_reduce_eq(m);
                lemma_rat_eq_refl_symm(product@, m);
                lemma_rat_sub_congruent(rest@, product@, rat_sub(b, d), m);
                lemma_rat_sub_sub(b, d, m);
                lemma_den_product(rest@.1, product@.1);
                lemma_den_product(rat_sub(b, d).1, m.1);
                crate::algebra::lemma_reduce_unique(rat_sub(rest@, product@), rat_sub(b, dot(c.take(o + 1), x)));
            }
            rest = match rest.checked_sub(&product) {
                Some(v) => v,
                None => {
                    proof {
                        assert(c[o].0 != 0 && !fits(reduce(rat_sub(b, dot(c.take(o + 1), x)))));
                    }
                    return Err(TimeError::Overflow);
                },
            };
            proof {
                lemma_reduce_pos(m);
                lemma_step_sub(rest@, before, product@, rat_sub(b, d), m);
                lemma_rat_sub_sub(b, d, m);
            }
        } else {
            proof {
                assert(m.0 == 0) by (nonlinear_arith)
                    requires
                        m == (c[o].0 * x[o].0, c[o].1 * x[o].1),
                        c[o].0 == 0,
                ;
                lemma_rat_add_zero(d, m);
                lemma_rat_eq_refl_symm(rat_add(d, m), d);
                lemma_rat_eq_refl_symm(b, b);
                lemma_rat_sub_congruent(b, d, b, rat_add(d, m));
                lemma_rat_eq_trans(rest@, rat_sub(b, d), rat_sub(b, rat_add(d, m)));
            }
        }
        other = other + 1;
    }
    proof {
        assert forall|j: int| index <= j < c.len() implies (#[trigger] rat_mul(c[j], x[j])).0 == 0 by {
            assert(c[j] == row.coefficients@[j]@);
            if j == index {
                assert(x[j] == values@[j]@);
                assert(rat_mul(c[j], x[j]).0 == c[j].0 * 0);
            } else {
                assert(rat_mul(c[j], x[j]).0 == 0 * x[j].0);
            }
        }
        lemma_dot_prefix(c, x, index as int);
        lemma_dot_pos(c, x);
        let d = dot(c.take(index as int), x);
        lemma_den_product(b.1, d.1);
        lemma_rat_eq_refl_symm(b, b);
        lemma_rat_sub_congruent(b, d, b, dot(c, x));
        lemma_rat_eq_trans(rest@, rat_sub(b, d), rat_sub(b, dot(c, x)));
        lemma_den_product(b.1, dot(c, x).1);
        lemma_rat_eq_refl_symm(coefficient@, coefficient@);
        assert(coefficient@ == c[index as int]);
    }
    proof {
        crate::algebra::lemma_rat_div_congruent(rest@, coefficient@, rat_sub(b, dot(c, x)), coefficient@);
        crate::algebra::lemma_rat_div_positive_den(rest@, coefficient@);
        crate::algebra::lemma_rat_div_positive_den(rat_sub(b, dot(c, x)), coefficient@);
        crate::algebra::lemma_reduce_unique(rat_div(rest@, coefficient@), rat_div(rat_sub(b, dot(c, x)), coefficient@));
    }
    match rest.checked_div(&coefficient) {
        Some(v) => {
            proof {
                lemma_step_div(v@, rest@, coefficient@, rat_sub(b, dot(c, x)), coefficient@);
            }
            Ok(v)
        },
        None => Err(TimeError::Overflow),
    }
}

/// The bound row `row` puts on variable `i` at `x`.
pub open spec fn row_bound_at(row: Row, i: int, x: Seq<(int, int)>) -> (int, int) {
    limit_of(row.coefficients@[i]@, dot(row_coefficients(row), x), row.bound@)
}

/// `upper` is the least bound the rows that bound variable `i` from above put
/// on it at `x`, strict when a strict row attains it; `None` when no row
/// bounds it from above.
pub open spec fn upper_facts(
    rows: Seq<Row>,
    i: int,
    x: Seq<(int, int)>,
    upper: Option<((int, int), bool)>,
) -> bool {
    match upper {
        None => forall|r: int| 0 <= r < rows.len() ==> !((#[trigger] rows[r]).coefficients@[i]@.0 > 0),
        Some((best, best_strict)) => {
            &&& best.1 > 0
            &&& forall|r: int|
                0 <= r < rows.len() && (#[trigger] rows[r]).coefficients@[i]@.0 > 0 ==> rat_le(
                    best,
                    row_bound_at(rows[r], i, x),
                ) && (rows[r].strict && rat_eq(row_bound_at(rows[r], i, x), best) ==> best_strict)
            &&& exists|r: int|
                0 <= r < rows.len() && (#[trigger] rows[r]).coefficients@[i]@.0 > 0 && rat_eq(
                    row_bound_at(rows[r], i, x),
                    best,
                )
        },
    }
}

/// `lower` is the greatest bound the rows that bound variable `i` from below
/// put on it at `x`, strict when a strict row attains it; `None` when no row
/// bounds it from below.
pub open spec fn lower_facts(
    rows: Seq<Row>,
    i: int,
    x: Seq<(int, int)>,
    lower: Option<((int, int), bool)>,
) -> bool {
    match lower {
        None => forall|r: int| 0 <= r < rows.len() ==> !((#[trigger] rows[r]).coefficients@[i]@.0 < 0),
        Some((best, best_strict)) => {
            &&& best.1 > 0
            &&& forall|r: int|
                0 <= r < rows.len() && (#[trigger] rows[r]).coefficients@[i]@.0 < 0 ==> rat_le(
                    row_bound_at(rows[r], i, x),
                    best,
                ) && (rows[r].strict && rat_eq(row_bound_at(rows[r], i, x), best) ==> best_strict)
            &&& exists|r: int|
                0 <= r < rows.len() && (#[trigger] rows[r]).coefficients@[i]@.0 < 0 && rat_eq(
                    row_bound_at(rows[r], i, x),
                    best,
                )
        },
    }
}

/// A strict step followed by a non-strict one is strict.
proof fn lemma_rat_lt_le_trans(a: (int, int), b: (int, int), c: (int, int))
    requires
        a.1 > 0,
        b.1 > 0,
        c.1 > 0,
        rat_lt(a, b),
        rat_le(b, c),
    ensures
        rat_lt(a, c),
{
    assert(a.0 * c.1 * b.1 < c.0 * a.1 * b.1) by (nonlinear_arith)
        requires
            a.0 * b.1 < b.0 * a.1,
            b.0 * c.1 <= c.0 * b.1,
            a.1 > 0,
            c.1 > 0,
    ;
    assert(a.0 * c.1 < c.0 * a.1) by (nonlinear_arith)
        requires
            a.0 * c.1 * b.1 < c.0 * a.1 * b.1,
            b.1 > 0,
    ;
}

/// A row that does not bound the variable above leaves the upper facts.
proof fn lemma_upper_skip(
    rows: Seq<Row>,
    r: int,
    i: int,
    x: Seq<(int, int)>,
    upper: Option<((int, int), bool)>,
)
    requires
        0 <= r < rows.len(),
        !(rows[r].coefficients@[i]@.0 > 0),
        upper_facts(rows.take(r), i, x, upper),
    ensures
        upper_facts(rows.take(r + 1), i, x, upper),
{
    let p = rows.take(r);
    let q = rows.take(r + 1);
    assert forall|k: int| 0 <= k < r implies #[trigger] q[k] == p[k] by {}
    assert(q[r] == rows[r]);
    if let Some((best, _)) = upper {
        let w = choose|w: int|
            0 <= w < p.len() && (#[trigger] p[w]).coefficients@[i]@.0 > 0 && rat_eq(
                row_bound_at(p[w], i, x),
                best,
            );
        assert(q[w] == p[w]);
    }
}

/// A row that does not bound the variable below leaves the lower facts.
proof fn lemma_lower_skip(
    rows: Seq<Row>,
    r: int,
    i: int,
    x: Seq<(int, int)>,
    lower: Option<((int, int), bool)>,
)
    requires
        0 <= r < rows.len(),
        !(rows[r].coefficients@[i]@.0 < 0),
        lower_facts(rows.take(r), i, x, lower),
    ensures
        lower_facts(rows.take(r + 1), i, x, lower),
{
    let p = rows.take(r);
    let q = rows.take(r + 1);
    assert forall|k: int| 0 <= k < r implies #[trigger] q[k] == p[k] by {}
    assert(q[r] == rows[r]);
    if let Some((best, _)) = lower {
        let w = choose|w: int|
            0 <= w < p.len() && (#[trigger] p[w]).coefficients@[i]@.0 < 0 && rat_eq(
                row_bound_at(p[w], i, x),
                best,
            );
        assert(q[w] == p[w]);
    }
}

/// The least upper bound after one more row bounding the variable above.
pub open spec fn next_upper(upper: Option<((int, int), bool)>, limit: (int, int), strict: bool) -> Option<
    ((int, int), bool),
> {
    match upper {
        None => Some((limit, strict)),
        Some((best, best_strict)) => if rat_eq(limit, best) {
            Some((best, best_strict || strict))
        } else if rat_lt(limit, best) {
            Some((limit, strict))
        } else {
            Some((best, best_strict))
        },
    }
}

/// The greatest lower bound after one more row bounding the variable below.
pub open spec fn next_lower(lower: Option<((int, int), bool)>, limit: (int, int), strict: bool) -> Option<
    ((int, int), bool),
> {
    match lower {
        None => Some((limit, strict)),
        Some((best, best_strict)) => if rat_eq(limit, best) {
            Some((best, best_strict || strict))
        } else if rat_lt(best, limit) {
            Some((limit, strict))
        } else {
            Some((best, best_strict))
        },
    }
}

/// One more row bounding the variable above keeps the upper facts.
proof fn lemma_upper_step(
    rows: Seq<Row>,
    r: int,
    i: int,
    x: Seq<(int, int)>,
    upper: Option<((int, int), bool)>,
    limit: (int, int),
)
    requires
        0 <= r < rows.len(),
        rows[r].coefficients@[i]@.0 > 0,
        limit.1 > 0,
        row_bound_at(rows[r], i, x).1 > 0,
        rat_eq(limit, row_bound_at(rows[r], i, x)),
        upper_facts(rows.take(r), i, x, upper),
        forall|k: int| 0 <= k < r && (#[trigger] rows[k]).coefficients@[i]@.0 > 0 ==> row_bound_at(rows[k], i, x).1 > 0,
    ensures
        upper_facts(rows.take(r + 1), i, x, next_upper(upper, limit, rows[r].strict)),
{
    let p = rows.take(r);
    let q = rows.take(r + 1);
    let lim = row_bound_at(rows[r], i, x);
    assert forall|k: int| 0 <= k < r implies #[trigger] q[k] == p[k] by {}
    assert(q[r] == rows[r]);
    assert(rat_le(limit, lim) && rat_le(lim, limit));
    match upper {
        None => {
            assert(rat_eq(lim, limit));
        },
        Some((best, bs)) => {
            let w = choose|w: int|
                0 <= w < p.len() && (#[trigger] p[w]).coefficients@[i]@.0 > 0 && rat_eq(
                    row_bound_at(p[w], i, x),
                    best,
                );
            assert(q[w] == p[w]);
            if rat_eq(limit, best) {
                lemma_rat_eq_refl_symm(limit, best);
                lemma_rat_eq_trans(lim, limit, best);
                lemma_rat_eq_refl_symm(lim, best);
                assert(rat_le(best, lim));
            } else if rat_lt(limit, best) {
                assert forall|k: int|
                    0 <= k < q.len() && (#[trigger] q[k]).coefficients@[i]@.0 > 0 implies rat_le(
                    limit,
                    row_bound_at(q[k], i, x),
                ) && (q[k].strict && rat_eq(row_bound_at(q[k], i, x), limit) ==> rows[r].strict) by {
                    if k < r {
                        assert(q[k] == p[k]);
                        lemma_rat_lt_le_trans(limit, best, row_bound_at(p[k], i, x));
                    }
                }
                assert(rat_eq(row_bound_at(q[r], i, x), limit));
            } else {
                assert(rat_lt(best, limit));
                lemma_rat_eq_refl_symm(best, best);
                lemma_rat_lt_congruent(best, limit, best, lim);
                assert(rat_le(best, lim));
            }
        },
    }
}

/// One more row bounding the variable below keeps the lower facts.
proof fn lemma_lower_step(
    rows: Seq<Row>,
    r: int,
    i: int,
    x: Seq<(int, int)>,
    lower: Option<((int, int), bool)>,
    limit: (int, int),
)
    requires
        0 <= r < rows.len(),
        rows[r].coefficients@[i]@.0 < 0,
        limit.1 > 0,
        row_bound_at(rows[r], i, x).1 > 0,
        rat_eq(limit, row_bound_at(rows[r], i, x)),
        lower_facts(rows.take(r), i, x, lower),
        forall|k: int| 0 <= k < r && (#[trigger] rows[k]).coefficients@[i]@.0 < 0 ==> row_bound_at(rows[k], i, x).1 > 0,
    ensures
        lower_facts(rows.take(r + 1), i, x, next_lower(lower, limit, rows[r].strict)),
{
    let p = rows.take(r);
    let q = rows.take(r + 1);
    let lim = row_bound_at(rows[r], i, x);
    assert forall|k: int| 0 <= k < r implies #[trigger] q[k] == p[k] by {}
    assert(q[r] == rows[r]);
    assert(rat_le(limit, lim) && rat_le(lim, limit));
    match lower {
        None => {
            assert(rat_eq(lim, limit));
        },
        Some((best, bs)) => {
            let w = choose|w: int|
                0 <= w < p.len() && (#[trigger] p[w]).coefficients@[i]@.0 < 0 && rat_eq(
                    row_bound_at(p[w], i, x),
                    best,
                );
            assert(q[w] == p[w]);
            if rat_eq(limit, best) {
                lemma_rat_eq_refl_symm(limit, best);
                lemma_rat_eq_trans(lim, limit, best);
                assert(rat_le(lim, best));
            } else if rat_lt(best, limit) {
                assert forall|k: int|
                    0 <= k < q.len() && (#[trigger] q[k]).coefficients@[i]@.0 < 0 implies rat_le(
                    row_bound_at(q[k], i, x),
                    limit,
                ) && (q[k].strict && rat_eq(row_bound_at(q[k], i, x), limit) ==> rows[r].strict) by {
                    if k < r {
                        assert(q[k] == p[k]);
                        crate::algebra::lemma_rat_le_lt_trans(row_bound_at(p[k], i, x), best, limit);
                    }
                }
                assert(rat_eq(row_bound_at(q[r], i, x), limit));
            } else {
                assert(rat_lt(limit, best));
                lemma_rat_eq_refl_symm(best, best);
                lemma_rat_lt_congruent(limit, best, lim, best);
                assert(rat_le(lim, best));
            }
        },
    }
}

/// The tightest bounds the rows put on variable `index`, given the values of
/// the variables before it.
pub(crate) fn bounds_at(rows: &Vec<Row>, index: usize, values: &Vec<Q>, Ghost(n): Ghost<int>) -> (r: Result<
    (Option<(Q, bool)>, Option<(Q, bool)>),
    TimeError,
>)
    requires
        rows_sized(rows@, n),
        values@.len() == n,
        index < n,
        values@[index as int]@ == (0int, 1int),
        forall|j: int| index < j < n ==> #[trigger] column_zero(rows@, j),
    ensures
        r matches Ok((lower, upper)) ==> {
            &&& lower_facts(rows@, index as int, q_values(values@), bound_view(lower))
            &&& upper_facts(rows@, index as int, q_values(values@), bound_view(upper))
        },
        r matches Err(e) ==> e is Overflow,
        r is Err ==> exists|k: int|
            0 <= k < rows@.len() && rows@[k].coefficients@[index as int]@.0 != 0 && !#[trigger] limit_fits(
                rows@[k],
                index as int,
                q_values(values@),
            ),
{
    let ghost x = q_values(values@);
    let mut lower: Option<(Q, bool)> = None;
    let mut upper: Option<(Q, bool)> = None;
    let mut r: usize = 0;
    proof {
        lemma_q_values_dens(values@);
    }
    while r < rows.len()
        invariant
            rows_sized(rows@, n),
            values@.len() == n,
            index < n,
            values@[index as int]@ == (0int, 1int),
            forall|j: int| index < j < n ==> #[trigger] column_zero(rows@, j),
            x == q_values(values@),
            positive_dens(x),
            x.len() == n,
            r <= rows@.len(),
            upper_facts(rows@.take(r as int), index as int, x, bound_view(upper)),
            lower_facts(rows@.take(r as int), index as int, x, bound_view(lower)),
            forall|k: int|
                0 <= k < r && (#[trigger] rows@[k]).coefficients@[index as int]@.0 != 0
                    ==> row_bound_at(rows@[k], index as int, x).1 > 0,
        decreases rows@.len() - r,
    {
        let row = &rows[r];
        let coefficient = row.coefficients[index];
        if coefficient.is_zero() {
            proof {
                lemma_upper_skip(rows@, r as int, index as int, x, bound_view(upper));
                lemma_lower_skip(rows@, r as int, index as int, x, bound_view(lower));
            }
        } else {
            proof {
                assert forall|j: int| index < j < n implies (#[trigger] row.coefficients@[j])@.0 == 0 by {
                    assert(column_zero(rows@, j));
                }
            }
            let limit = match row_limit(row, index, values, Ghost(n)) {
                Ok(v) => v,
                Err(e) => {
                    proof {
                        assert(!limit_fits(rows@[r as int], index as int, q_values(values@)));
                    }
                    return Err(e);
                },
            };
            proof {
                lemma_row_dens(*row);
                lemma_dot_pos(row_coefficients(*row), x);
                lemma_row_bound(
                    coefficient@,
                    dot(row_coefficients(*row), x),
                    row.bound@,
                    (0int, 1int),
                );
                assert(coefficient@ == row.coefficients@[index as int]@);
            }
            if coefficient.is_positive() {
                let ghost before = bound_view(upper);
                upper = match upper {
                    Some((best, best_strict)) => {
                        if limit.same_value(&best) {
                            Some((best, best_strict || row.strict))
                        } else if limit.lt(&best) {
                            Some((limit, row.strict))
                        } else {
                            Some((best, best_strict))
                        }
                    },
                    None => Some((limit, row.strict)),
                };
                proof {
                    lemma_upper_step(rows@, r as int, index as int, x, before, limit@);
                    assert(bound_view(upper) == next_upper(before, limit@, row.strict));
                    lemma_lower_skip(rows@, r as int, index as int, x, bound_view(lower));
                }
            } else {
                let ghost before = bound_view(lower);
                lower = match lower {
                    Some((best, best_strict)) => {
                        if limit.same_value(&best) {
                            Some((best, best_strict || row.strict))
                        } else if best.lt(&limit) {
                            Some((limit, row.strict))
                        } else {
                            Some((best, best_strict))
                        }
                    },
                    None => Some((limit, row.strict)),
                };
                proof {
                    lemma_lower_step(rows@, r as int, index as int, x, before, limit@);
                    assert(bound_view(lower) == next_lower(before, limit@, row.strict));
                    lemma_upper_skip(rows@, r as int, index as int, x, bound_view(upper));
                }
            }
        }
        r = r + 1;
    }
    proof {
        assert(rows@.take(rows@.len() as int) =~= rows@);
    }
    Ok((lower, upper))
}

/// Where every system of `t` for variable `i` is eliminated, a row bounding
/// `i` below has its bound under that of a row bounding it above, strictly
/// when either is strict.
proof fn lemma_pair_at(rows: Seq<Row>, u: int, l: int, i: int, x: Seq<(int, int)>, n: int)
    requires
        rows_sized(rows, n),
        0 <= u < rows.len(),
        0 <= l < rows.len(),
        0 <= i < n,
        x.len() == n,
        positive_dens(x),
        x[i] == (0int, 1int),
        rows[u].coefficients@[i]@.0 > 0,
        rows[l].coefficients@[i]@.0 < 0,
        forall|t: (int, int)| t.1 > 0 ==> #[trigger] eliminated_at(rows, i, x.update(i, t)),
    ensures
        rat_le(row_bound_at(rows[l], i, x), row_bound_at(rows[u], i, x)),
        rows[u].strict || rows[l].strict ==> rat_lt(
            row_bound_at(rows[l], i, x),
            row_bound_at(rows[u], i, x),
        ),
        row_bound_at(rows[l], i, x).1 > 0,
        row_bound_at(rows[u], i, x).1 > 0,
{
    let cu = row_coefficients(rows[u]);
    let cl = row_coefficients(rows[l]);
    lemma_row_dens(rows[u]);
    lemma_row_dens(rows[l]);
    assert(cu[i] == rows[u].coefficients@[i]@);
    assert(cl[i] == rows[l].coefficients@[i]@);
    lemma_dot_pos(cu, x);
    lemma_dot_pos(cl, x);
    lemma_row_bound(cu[i], dot(cu, x), rows[u].bound@, (0int, 1int));
    lemma_row_bound(cl[i], dot(cl, x), rows[l].bound@, (0int, 1int));
    let t = row_bound_at(rows[l], i, x);
    assert(eliminated_at(rows, i, x.update(i, t)));
    assert(rows_pair_hold(rows[u], rows[l], i, x.update(i, t)));
    lemma_pair_limits(
        cu,
        rows[u].bound@,
        cl,
        rows[l].bound@,
        i,
        rows[u].strict || rows[l].strict,
        x,
    );
}

/// Placing variable `i` at the value picked between its tightest bounds
/// meets every row of the system before its elimination.
#[verifier::rlimit(40)]
proof fn lemma_substitution(
    rows: Seq<Row>,
    i: int,
    x: Seq<(int, int)>,
    lower: Option<((int, int), bool)>,
    upper: Option<((int, int), bool)>,
    n: int,
)
    requires
        rows_sized(rows, n),
        0 <= i < n,
        x.len() == n,
        positive_dens(x),
        x[i] == (0int, 1int),
        upper_facts(rows, i, x, upper),
        lower_facts(rows, i, x, lower),
        forall|t: (int, int)| t.1 > 0 ==> #[trigger] eliminated_at(rows, i, x.update(i, t)),
    ensures
        rows_hold(rows, x.update(i, picked(lower, upper))),
{
    lemma_picked(lower, upper);
    let t = picked(lower, upper);
    let y = x.update(i, t);
    assert(eliminated_at(rows, i, y));
    // both bounds present: they are ordered
    if let (Some((low, _)), Some((high, _))) = (lower, upper) {
        let wl = choose|w: int|
            0 <= w < rows.len() && (#[trigger] rows[w]).coefficients@[i]@.0 < 0 && rat_eq(
                row_bound_at(rows[w], i, x),
                low,
            );
        let wu = choose|w: int|
            0 <= w < rows.len() && (#[trigger] rows[w]).coefficients@[i]@.0 > 0 && rat_eq(
                row_bound_at(rows[w], i, x),
                high,
            );
        lemma_pair_at(rows, wu, wl, i, x, n);
        lemma_rat_eq_refl_symm(row_bound_at(rows[wl], i, x), low);
        lemma_rat_eq_refl_symm(row_bound_at(rows[wu], i, x), high);
        lemma_rat_le_congruent(row_bound_at(rows[wl], i, x), row_bound_at(rows[wu], i, x), low, high);
    }
    assert forall|r: int| 0 <= r < rows.len() implies row_holds(#[trigger] rows[r], y) by {
        let c = row_coefficients(rows[r]);
        lemma_row_dens(rows[r]);
        assert(c[i] == rows[r].coefficients@[i]@);
        lemma_row_at(c, rows[r].bound@, rows[r].strict, i, x, t);
        let lim = row_bound_at(rows[r], i, x);
        if c[i].0 > 0 {
            let (high, hs) = upper->0;
            assert(rat_le(high, lim));
            match lower {
                Some((low, _)) => {
                    if rat_eq(low, high) {
                        lemma_rat_eq_refl_symm(low, high);
                        lemma_rat_eq_refl_symm(lim, lim);
                        lemma_rat_le_congruent(high, lim, low, lim);
                        if rows[r].strict {
                            let wl = choose|w: int|
                                0 <= w < rows.len() && (#[trigger] rows[w]).coefficients@[i]@.0 < 0
                                    && rat_eq(row_bound_at(rows[w], i, x), low);
                            lemma_pair_at(rows, r, wl, i, x, n);
                            lemma_rat_lt_congruent(row_bound_at(rows[wl], i, x), lim, low, lim);
                        }
                    } else {
                        lemma_rat_lt_le_trans(t, high, lim);
                    }
                },
                None => {
                    if hs {
                        lemma_rat_lt_le_trans(t, high, lim);
                    } else {
                        if rows[r].strict {
                            assert(!rat_eq(lim, high));
                            assert(rat_lt(high, lim));
                        }
                    }
                },
            }
        } else if c[i].0 < 0 {
            let (low, ls) = lower->0;
            assert(rat_le(lim, low));
            match upper {
                Some((high, _)) => {
                    if rat_eq(low, high) {
                        if rows[r].strict {
                            let wu = choose|w: int|
                                0 <= w < rows.len() && (#[trigger] rows[w]).coefficients@[i]@.0 > 0
                                    && rat_eq(row_bound_at(rows[w], i, x), high);
                            lemma_pair_at(rows, wu, r, i, x, n);
                            lemma_rat_eq_refl_symm(lim, lim);
                            lemma_rat_eq_trans(row_bound_at(rows[wu], i, x), high, low);
                            lemma_rat_lt_congruent(lim, row_bound_at(rows[wu], i, x), lim, low);
                        }
                    } else {
                        crate::algebra::lemma_rat_le_lt_trans(lim, low, t);
                    }
                },
                None => {
                    if ls {
                        crate::algebra::lemma_rat_le_lt_trans(lim, low, t);
                    } else {
                        if rows[r].strict {
                            assert(!rat_eq(lim, low));
                            assert(rat_lt(lim, low));
                        }
                    }
                },
            }
        }
    }
}

} // verus!
