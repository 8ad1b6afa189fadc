//! Facts behind back substitution: how a row's value moves with one
//! variable, the bound a row puts on that variable, and why the bounds that
//! elimination leaves behind always admit a value.
use crate::algebra::{
    lemma_den_product, lemma_pos_ops, lemma_rat_add_assoc_comm, lemma_rat_add_congruent,
    lemma_rat_eq_refl_symm, lemma_rat_eq_trans, lemma_rat_le_congruent, lemma_rat_le_sub,
    lemma_rat_mul_congruent, lemma_reduce_pos, rat_add, reduce, rat_div, rat_eq, rat_le,
    rat_lt, rat_mul, rat_neg, rat_sub,
};
use crate::time::elimination::{
    dot, holds, lemma_dot_combination, lemma_dot_pos, lemma_rat_lt_congruent, positive_dens,
};
use vstd::prelude::*;

verus! {

/// A row's value reads only the entries it has coefficients for.
pub proof fn lemma_dot_agree(c: Seq<(int, int)>, x: Seq<(int, int)>, y: Seq<(int, int)>)
    requires
        c.len() <= x.len(),
        c.len() <= y.len(),
        forall|k: int| 0 <= k < c.len() ==> x[k] == y[k],
    ensures
        dot(c, x) == dot(c, y),
    decreases c.len(),
{
    if c.len() > 0 {
        lemma_dot_agree(c.drop_last(), x, y);
        assert(x[c.len() - 1] == y[c.len() - 1]);
    }
}

/// Adding a zero leaves a value unchanged.
pub proof fn lemma_rat_add_zero(d: (int, int), m: (int, int))
    requires
        d.1 > 0,
        m.1 > 0,
        m.0 == 0,
    ensures
        rat_eq(rat_add(d, m), d),
        rat_add(d, m).1 > 0,
{
    lemma_den_product(d.1, m.1);
    assert(rat_add(d, m).0 == d.0 * m.1) by (nonlinear_arith)
        requires
            m.0 == 0,
            rat_add(d, m) == (d.0 * m.1 + m.0 * d.1, d.1 * m.1),
    ;
    assert((d.0 * m.1) * d.1 == d.0 * (d.1 * m.1)) by (nonlinear_arith);
}

/// Setting entry `i` from zero to `t` moves a row's value by `c_i * t`.
pub proof fn lemma_dot_update(c: Seq<(int, int)>, x: Seq<(int, int)>, i: int, t: (int, int))
    requires
        0 <= i < c.len(),
        c.len() <= x.len(),
        positive_dens(c),
        positive_dens(x),
        t.1 > 0,
        x[i] == (0int, 1int),
    ensures
        rat_eq(dot(c, x.update(i, t)), rat_add(dot(c, x), rat_mul(c[i], t))),
        dot(c, x).1 > 0,
        dot(c, x.update(i, t)).1 > 0,
    decreases c.len(),
{
    let y = x.update(i, t);
    assert(positive_dens(y)) by {
        assert forall|k: int| 0 <= k < y.len() implies (#[trigger] y[k]).1 > 0 by {
            if k != i {
                assert(y[k] == x[k]);
            }
        }
    }
    lemma_dot_pos(c, x);
    lemma_dot_pos(c, y);
    let m = c.len() - 1;
    let p = c.drop_last();
    assert(positive_dens(p)) by {
        assert forall|k: int| 0 <= k < p.len() implies (#[trigger] p[k]).1 > 0 by {
            assert(p[k] == c[k]);
        }
    }
    lemma_dot_pos(p, x);
    lemma_dot_pos(p, y);
    let ci = c[i];
    lemma_pos_ops(ci, t);
    if m == i {
        lemma_dot_agree(p, x, y);
        // dot(c, y) == dot(p, x) + c_i t; dot(c, x) == dot(p, x) + c_i * 0
        let z = rat_mul(ci, x[i]);
        assert(z.0 == 0) by (nonlinear_arith)
            requires
                z == (ci.0 * 0, ci.1 * 1),
        ;
        lemma_pos_ops(ci, x[i]);
        lemma_rat_add_zero(dot(p, x), z);
        lemma_rat_eq_refl_symm(rat_add(dot(p, x), z), dot(p, x));
        lemma_rat_eq_refl_symm(rat_mul(ci, t), rat_mul(ci, t));
        lemma_rat_add_congruent(dot(p, x), rat_mul(ci, t), rat_add(dot(p, x), z), rat_mul(ci, t));
        assert(dot(c, y) == rat_add(dot(p, y), rat_mul(c.last(), y[m])));
        assert(dot(c, x) == rat_add(dot(p, x), z));
    } else {
        lemma_dot_update(p, x, i, t);
        assert(p[i] == ci);
        let cm = rat_mul(c[m], x[m]);
        assert(y[m] == x[m]);
        lemma_pos_ops(c[m], x[m]);
        // dot(c, y) = dot(p, y) + cm ~ (dot(p, x) + c_i t) + cm
        lemma_rat_eq_refl_symm(cm, cm);
        lemma_rat_add_congruent(dot(p, y), cm, rat_add(dot(p, x), rat_mul(ci, t)), cm);
        // (dot(p, x) + c_i t) + cm == (dot(p, x) + cm) + c_i t
        lemma_rat_add_assoc_comm(dot(p, x), rat_mul(ci, t), cm);
        lemma_rat_add_assoc_comm(rat_mul(ci, t), cm, cm);
        lemma_rat_add_assoc_comm(dot(p, x), cm, rat_mul(ci, t));
        assert(dot(c, y) == rat_add(dot(p, y), cm));
        assert(dot(c, x) == rat_add(dot(p, x), cm));
    }
}

/// The bound row `s + a * t <= b` puts on `t`: `(b - s) / a`.
pub open spec fn limit_of(a: (int, int), s: (int, int), b: (int, int)) -> (int, int) {
    rat_div(rat_sub(b, s), a)
}

/// `s + a * t <= b` bounds `t` by `(b - s) / a`: from above when `a > 0`,
/// from below when `a < 0`, strictly when the row is strict.
pub proof fn lemma_row_bound(a: (int, int), s: (int, int), b: (int, int), t: (int, int))
    requires
        a.0 != 0,
        a.1 > 0,
        s.1 > 0,
        b.1 > 0,
        t.1 > 0,
    ensures
        limit_of(a, s, b).1 > 0,
        rat_add(s, rat_mul(a, t)).1 > 0,
        a.0 > 0 ==> (rat_le(rat_add(s, rat_mul(a, t)), b) <==> rat_le(t, limit_of(a, s, b))),
        a.0 > 0 ==> (rat_lt(rat_add(s, rat_mul(a, t)), b) <==> rat_lt(t, limit_of(a, s, b))),
        a.0 < 0 ==> (rat_le(rat_add(s, rat_mul(a, t)), b) <==> rat_le(limit_of(a, s, b), t)),
        a.0 < 0 ==> (rat_lt(rat_add(s, rat_mul(a, t)), b) <==> rat_lt(limit_of(a, s, b), t)),
{
    let m = rat_mul(a, t);
    let d = rat_sub(b, s);
    lemma_pos_ops(a, t);
    lemma_pos_ops(s, m);
    lemma_den_product(b.1, s.1);
    lemma_rat_le_sub(m, b, s);
    let (a0, a1, t0, t1, d0, d1) = (a.0, a.1, t.0, t.1, d.0, d.1);
    assert((a0 * t0) * d1 == t0 * (d1 * a0)) by (nonlinear_arith);
    assert(d0 * (a1 * t1) == (d0 * a1) * t1) by (nonlinear_arith);
    if a0 > 0 {
        assert(d1 * a0 > 0) by (nonlinear_arith)
            requires
                d1 > 0,
                a0 > 0,
        ;
    } else {
        assert(-(d1 * a0) > 0) by (nonlinear_arith)
            requires
                d1 > 0,
                a0 < 0,
        ;
        assert(-(d0 * a1) * t1 == -((d0 * a1) * t1)) by (nonlinear_arith);
        assert(t0 * -(d1 * a0) == -(t0 * (d1 * a0))) by (nonlinear_arith);
    }
}

/// A common summand cancels from both sides of an order.
pub proof fn lemma_rat_cancel_add(p: (int, int), q: (int, int), r: (int, int))
    requires
        p.1 > 0,
        q.1 > 0,
        r.1 > 0,
    ensures
        rat_le(rat_add(p, q), rat_add(r, q)) ==> rat_le(p, r),
        rat_lt(rat_add(p, q), rat_add(r, q)) ==> rat_lt(p, r),
{
    let (p0, p1, q0, q1, r0, r1) = (p.0, p.1, q.0, q.1, r.0, r.1);
    let k = q1 * q1;
    assert(k > 0) by (nonlinear_arith)
        requires
            k == q1 * q1,
            q1 > 0,
    ;
    let left = (p0 * q1 + q0 * p1) * (r1 * q1);
    let right = (r0 * q1 + q0 * r1) * (p1 * q1);
    let common = q0 * p1 * r1 * q1;
    assert(left == k * (p0 * r1) + common) by (nonlinear_arith)
        requires
            left == (p0 * q1 + q0 * p1) * (r1 * q1),
            k == q1 * q1,
            common == q0 * p1 * r1 * q1,
    ;
    let x1 = r0 * q1;
    let x2 = q0 * r1;
    let y = p1 * q1;
    assert(right == x1 * y + x2 * y) by (nonlinear_arith)
        requires
            right == (x1 + x2) * y,
    ;
    assert(x1 * y == k * (r0 * p1)) by (nonlinear_arith)
        requires
            x1 == r0 * q1,
            y == p1 * q1,
            k == q1 * q1,
    ;
    assert(x2 * y == common) by (nonlinear_arith)
        requires
            x2 == q0 * r1,
            y == p1 * q1,
            common == q0 * p1 * r1 * q1,
    ;
    if left <= right {
        assert(p0 * r1 <= r0 * p1) by (nonlinear_arith)
            requires
                k * (p0 * r1) <= k * (r0 * p1),
                k > 0,
        ;
    }
    if left < right {
        assert(p0 * r1 < r0 * p1) by (nonlinear_arith)
            requires
                k * (p0 * r1) < k * (r0 * p1),
                k > 0,
        ;
    }
}

/// A positive factor cancels from both sides of an order.
pub proof fn lemma_rat_cancel_scale(alpha: (int, int), p: (int, int), r: (int, int))
    requires
        alpha.0 > 0,
        alpha.1 > 0,
    ensures
        rat_le(rat_mul(alpha, p), rat_mul(alpha, r)) ==> rat_le(p, r),
        rat_lt(rat_mul(alpha, p), rat_mul(alpha, r)) ==> rat_lt(p, r),
{
    let k = alpha.0 * alpha.1;
    assert(k > 0) by (nonlinear_arith)
        requires
            k == alpha.0 * alpha.1,
            alpha.0 > 0,
            alpha.1 > 0,
    ;
    assert((alpha.0 * p.0) * (alpha.1 * r.1) == k * (p.0 * r.1)) by (nonlinear_arith)
        requires
            k == alpha.0 * alpha.1,
    ;
    assert((alpha.0 * r.0) * (alpha.1 * p.1) == k * (r.0 * p.1)) by (nonlinear_arith)
        requires
            k == alpha.0 * alpha.1,
    ;
    if k * (p.0 * r.1) <= k * (r.0 * p.1) {
        assert(p.0 * r.1 <= r.0 * p.1) by (nonlinear_arith)
            requires
                k * (p.0 * r.1) <= k * (r.0 * p.1),
                k > 0,
        ;
    }
    if k * (p.0 * r.1) < k * (r.0 * p.1) {
        assert(p.0 * r.1 < r.0 * p.1) by (nonlinear_arith)
            requires
                k * (p.0 * r.1) < k * (r.0 * p.1),
                k > 0,
        ;
    }
}

/// The combination of a row bounding variable `i` from above (`u`) with one
/// bounding it from below (`l`) holds at `x`: `(-l_i) * u + u_i * l`.
pub open spec fn pair_holds(
    u: Seq<(int, int)>,
    bu: (int, int),
    l: Seq<(int, int)>,
    bl: (int, int),
    i: int,
    strict: bool,
    x: Seq<(int, int)>,
) -> bool {
    let alpha = rat_neg(l[i]);
    let beta = u[i];
    let lhs = rat_add(rat_mul(alpha, dot(u, x)), rat_mul(beta, dot(l, x)));
    let rhs = rat_add(rat_mul(alpha, bu), rat_mul(beta, bl));
    if strict {
        rat_lt(lhs, rhs)
    } else {
        rat_le(lhs, rhs)
    }
}

/// Where the combination of an upper and a lower row holds, the lower row's
/// bound does not pass the upper row's, and stays strictly below it when
/// either row is strict.
pub proof fn lemma_pair_limits(
    u: Seq<(int, int)>,
    bu: (int, int),
    l: Seq<(int, int)>,
    bl: (int, int),
    i: int,
    strict: bool,
    x: Seq<(int, int)>,
)
    requires
        u.len() == l.len(),
        0 <= i < u.len(),
        u.len() <= x.len(),
        positive_dens(u),
        positive_dens(l),
        positive_dens(x),
        bu.1 > 0,
        bl.1 > 0,
        x[i] == (0int, 1int),
        u[i].0 > 0,
        l[i].0 < 0,
        pair_holds(u, bu, l, bl, i, strict, x.update(i, limit_of(l[i], dot(l, x), bl))),
    ensures
        rat_le(limit_of(l[i], dot(l, x), bl), limit_of(u[i], dot(u, x), bu)),
        strict ==> rat_lt(limit_of(l[i], dot(l, x), bl), limit_of(u[i], dot(u, x), bu)),
{
    let (a, c) = (u[i], l[i]);
    let (su, sl) = (dot(u, x), dot(l, x));
    lemma_dot_pos(u, x);
    lemma_dot_pos(l, x);
    let t = limit_of(c, sl, bl);
    lemma_row_bound(c, sl, bl, (0int, 1int));
    lemma_row_bound(c, sl, bl, t);
    lemma_row_bound(a, su, bu, t);
    let y = x.update(i, t);
    lemma_dot_update(l, x, i, t);
    lemma_dot_update(u, x, i, t);
    let (du, dl) = (dot(u, y), dot(l, y));
    // the lower row meets its bound exactly at t
    let vl = rat_add(sl, rat_mul(c, t));
    assert(rat_le(vl, bl));
    assert(!rat_lt(vl, bl));
    assert(rat_eq(vl, bl));
    lemma_rat_eq_trans(dl, vl, bl);
    let alpha = rat_neg(c);
    let beta = a;
    lemma_rat_eq_refl_symm(beta, beta);
    lemma_rat_mul_congruent(beta, dl, beta, bl);
    let au = rat_mul(alpha, du);
    lemma_pos_ops(alpha, du);
    lemma_pos_ops(beta, dl);
    lemma_pos_ops(beta, bl);
    lemma_pos_ops(alpha, bu);
    lemma_rat_eq_refl_symm(au, au);
    lemma_rat_add_congruent(au, rat_mul(beta, dl), au, rat_mul(beta, bl));
    let lhs = rat_add(au, rat_mul(beta, dl));
    let lhs2 = rat_add(au, rat_mul(beta, bl));
    let rhs = rat_add(rat_mul(alpha, bu), rat_mul(beta, bl));
    lemma_pos_ops(au, rat_mul(beta, dl));
    lemma_pos_ops(au, rat_mul(beta, bl));
    lemma_pos_ops(rat_mul(alpha, bu), rat_mul(beta, bl));
    lemma_rat_eq_refl_symm(rhs, rhs);
    lemma_rat_le_congruent(lhs, rhs, lhs2, rhs);
    lemma_rat_cancel_add(au, rat_mul(beta, bl), rat_mul(alpha, bu));
    lemma_rat_cancel_scale(alpha, du, bu);
    let vu = rat_add(su, rat_mul(a, t));
    lemma_rat_eq_refl_symm(du, vu);
    lemma_rat_eq_refl_symm(bu, bu);
    lemma_rat_le_congruent(du, bu, vu, bu);
    if strict {
        lemma_rat_lt_congruent(lhs, rhs, lhs2, rhs);
        lemma_rat_lt_congruent(du, bu, vu, bu);
    }
}

/// A row at `x` with entry `i` set to `t`: unchanged when its coefficient
/// there is zero, and met when `t` keeps to the row's bound otherwise.
pub proof fn lemma_row_at(
    c: Seq<(int, int)>,
    b: (int, int),
    strict: bool,
    i: int,
    x: Seq<(int, int)>,
    t: (int, int),
)
    requires
        0 <= i < c.len(),
        c.len() <= x.len(),
        positive_dens(c),
        positive_dens(x),
        b.1 > 0,
        t.1 > 0,
        x[i] == (0int, 1int),
    ensures
        c[i].0 == 0 ==> (holds(c, b, strict, x) ==> holds(c, b, strict, x.update(i, t))),
        c[i].0 > 0 ==> ((if strict {
            rat_lt(t, limit_of(c[i], dot(c, x), b))
        } else {
            rat_le(t, limit_of(c[i], dot(c, x), b))
        }) ==> holds(c, b, strict, x.update(i, t))),
        c[i].0 < 0 ==> ((if strict {
            rat_lt(limit_of(c[i], dot(c, x), b), t)
        } else {
            rat_le(limit_of(c[i], dot(c, x), b), t)
        }) ==> holds(c, b, strict, x.update(i, t))),
        c[i].0 != 0 ==> limit_of(c[i], dot(c, x), b).1 > 0,
{
    let y = x.update(i, t);
    lemma_dot_update(c, x, i, t);
    let s = dot(c, x);
    let v = rat_add(s, rat_mul(c[i], t));
    let d = dot(c, y);
    lemma_pos_ops(c[i], t);
    lemma_pos_ops(s, rat_mul(c[i], t));
    lemma_rat_eq_refl_symm(d, v);
    lemma_rat_eq_refl_symm(b, b);
    if c[i].0 == 0 {
        let m = rat_mul(c[i], t);
        assert(m.0 == 0) by (nonlinear_arith)
            requires
                m == (c[i].0 * t.0, c[i].1 * t.1),
                c[i].0 == 0,
        ;
        lemma_rat_add_zero(s, m);
        lemma_rat_eq_trans(d, v, s);
        lemma_rat_eq_refl_symm(d, s);
        if holds(c, b, strict, x) {
            if strict {
                lemma_rat_lt_congruent(s, b, d, b);
            } else {
                lemma_rat_le_congruent(s, b, d, b);
            }
        }
    } else {
        lemma_row_bound(c[i], s, b, t);
        if strict {
            if rat_lt(v, b) {
                lemma_rat_lt_congruent(v, b, d, b);
            }
        } else {
            if rat_le(v, b) {
                lemma_rat_le_congruent(v, b, d, b);
            }
        }
    }
}

/// The value picked between optional bounds: the common value of equal
/// bounds, the midpoint of distinct ones, one past a strict lone bound, the
/// bound itself when it is not strict, and zero when unbounded.
pub open spec fn picked(lower: Option<((int, int), bool)>, upper: Option<((int, int), bool)>) -> (int, int) {
    match lower {
        Some((low, low_strict)) => match upper {
            Some((high, _)) => if rat_eq(low, high) {
                low
            } else {
                reduce(rat_div(reduce(rat_add(low, high)), (2int, 1int)))
            },
            None => if low_strict {
                reduce(rat_add(low, (1int, 1int)))
            } else {
                low
            },
        },
        None => match upper {
            Some((high, high_strict)) => if high_strict {
                reduce(rat_sub(high, (1int, 1int)))
            } else {
                high
            },
            None => (0int, 1int),
        },
    }
}

/// The picked value lies between its bounds: strictly inside distinct ones,
/// past a strict lone bound, and on a non-strict lone bound.
pub proof fn lemma_picked(lower: Option<((int, int), bool)>, upper: Option<((int, int), bool)>)
    requires
        lower matches Some((low, _)) ==> low.1 > 0,
        upper matches Some((high, _)) ==> high.1 > 0,
    ensures
        picked(lower, upper).1 > 0,
        match (lower, upper) {
            (Some((low, _)), Some((high, _))) => rat_le(low, high) ==> {
                &&& rat_eq(low, high) ==> picked(lower, upper) == low
                &&& !rat_eq(low, high) ==> rat_lt(low, picked(lower, upper)) && rat_lt(
                    picked(lower, upper),
                    high,
                )
            },
            (Some((low, low_strict)), None) => {
                &&& low_strict ==> rat_lt(low, picked(lower, upper))
                &&& !low_strict ==> picked(lower, upper) == low
            },
            (None, Some((high, high_strict))) => {
                &&& high_strict ==> rat_lt(picked(lower, upper), high)
                &&& !high_strict ==> picked(lower, upper) == high
            },
            (None, None) => true,
        },
{
    match lower {
        Some((low, low_strict)) => match upper {
            Some((high, _)) => {
                if !rat_eq(low, high) {
                    let m = rat_add(low, high);
                    lemma_pos_ops(low, high);
                    lemma_reduce_pos(m);
                    let rm = reduce(m);
                    let h = rat_div(rm, (2int, 1int));
                    assert(h == (rm.0 * 1, rm.1 * 2));
                    lemma_reduce_pos(h);
                    let t = reduce(h);
                    let mid = rat_div(m, (2int, 1int));
                    assert(mid == (m.0 * 1, m.1 * 2));
                    lemma_rat_eq_refl_symm((2int, 1int), (2int, 1int));
                    crate::algebra::lemma_rat_div_congruent(rm, (2int, 1int), m, (2int, 1int));
                    lemma_rat_eq_trans(t, h, mid);
                    lemma_rat_eq_refl_symm(t, mid);
                    if rat_le(low, high) {
                        let (l0, l1, h0, h1) = (low.0, low.1, high.0, high.1);
                        assert(l0 * h1 < h0 * l1);
                        assert(rat_lt(low, mid)) by (nonlinear_arith)
                            requires
                                l0 * h1 < h0 * l1,
                                l1 > 0,
                                h1 > 0,
                                mid == ((l0 * h1 + h0 * l1) * 1, (l1 * h1) * 2),
                                low == (l0, l1),
                        ;
                        assert(rat_lt(mid, high)) by (nonlinear_arith)
                            requires
                                l0 * h1 < h0 * l1,
                                l1 > 0,
                                h1 > 0,
                                mid == ((l0 * h1 + h0 * l1) * 1, (l1 * h1) * 2),
                                high == (h0, h1),
                        ;
                        lemma_rat_eq_refl_symm(low, low);
                        lemma_rat_eq_refl_symm(high, high);
                        lemma_rat_lt_congruent(low, mid, low, t);
                        lemma_rat_lt_congruent(mid, high, t, high);
                    }
                }
            },
            None => {
                if low_strict {
                    let m = rat_add(low, (1int, 1int));
                    lemma_pos_ops(low, (1int, 1int));
                    lemma_reduce_pos(m);
                    assert(rat_lt(low, m)) by (nonlinear_arith)
                        requires
                            low.1 > 0,
                            m == (low.0 * 1 + 1 * low.1, low.1 * 1),
                    ;
                    lemma_rat_eq_refl_symm(low, low);
                    lemma_rat_lt_congruent(low, m, low, reduce(m));
                }
            },
        },
        None => match upper {
            Some((high, high_strict)) => {
                if high_strict {
                    let m = rat_sub(high, (1int, 1int));
                    lemma_den_product(high.1, 1);
                    lemma_reduce_pos(m);
                    assert(rat_lt(m, high)) by (nonlinear_arith)
                        requires
                            high.1 > 0,
                            m == (high.0 * 1 - 1 * high.1, high.1 * 1),
                    ;
                    lemma_rat_eq_refl_symm(high, high);
                    lemma_rat_lt_congruent(m, high, reduce(m), high);
                }
            },
            None => {},
        },
    }
}

/// A row that is the combination `(-l_i) * u + u_i * l` and holds at `x`
/// makes the pair of `u` and `l` hold there.
pub proof fn lemma_combination_pair(
    u: Seq<(int, int)>,
    bu: (int, int),
    l: Seq<(int, int)>,
    bl: (int, int),
    w: Seq<(int, int)>,
    bw: (int, int),
    i: int,
    strict: bool,
    x: Seq<(int, int)>,
)
    requires
        u.len() == l.len(),
        w.len() == u.len(),
        0 <= i < u.len(),
        u.len() <= x.len(),
        positive_dens(u),
        positive_dens(l),
        positive_dens(w),
        positive_dens(x),
        bu.1 > 0,
        bl.1 > 0,
        bw.1 > 0,
        forall|k: int|
            0 <= k < w.len() ==> rat_eq(
                #[trigger] w[k],
                rat_add(rat_mul(rat_neg(l[i]), u[k]), rat_mul(u[i], l[k])),
            ),
        rat_eq(bw, rat_add(rat_mul(rat_neg(l[i]), bu), rat_mul(u[i], bl))),
        holds(w, bw, strict, x),
    ensures
        pair_holds(u, bu, l, bl, i, strict, x),
{
    let alpha = rat_neg(l[i]);
    let beta = u[i];
    lemma_dot_combination(u, l, w, alpha, beta, x);
    lemma_dot_pos(u, x);
    lemma_dot_pos(l, x);
    lemma_dot_pos(w, x);
    let lhs = rat_add(rat_mul(alpha, dot(u, x)), rat_mul(beta, dot(l, x)));
    let rhs = rat_add(rat_mul(alpha, bu), rat_mul(beta, bl));
    lemma_pos_ops(alpha, dot(u, x));
    lemma_pos_ops(beta, dot(l, x));
    lemma_pos_ops(alpha, bu);
    lemma_pos_ops(beta, bl);
    lemma_pos_ops(rat_mul(alpha, dot(u, x)), rat_mul(beta, dot(l, x)));
    lemma_pos_ops(rat_mul(alpha, bu), rat_mul(beta, bl));
    if strict {
        lemma_rat_lt_congruent(dot(w, x), bw, lhs, rhs);
    } else {
        lemma_rat_le_congruent(dot(w, x), bw, lhs, rhs);
    }
}

/// Terms that vanish past position `k` leave a row's value at its prefix.
pub proof fn lemma_dot_prefix(c: Seq<(int, int)>, x: Seq<(int, int)>, k: int)
    requires
        0 <= k <= c.len(),
        c.len() <= x.len(),
        positive_dens(c),
        positive_dens(x),
        forall|j: int| k <= j < c.len() ==> (#[trigger] rat_mul(c[j], x[j])).0 == 0,
    ensures
        rat_eq(dot(c.take(k), x), dot(c, x)),
        dot(c.take(k), x).1 > 0,
    decreases c.len(),
{
    if c.len() == k {
        assert(c.take(k) =~= c);
        lemma_dot_pos(c, x);
    } else {
        let p = c.drop_last();
        assert(positive_dens(p)) by {
            assert forall|j: int| 0 <= j < p.len() implies (#[trigger] p[j]).1 > 0 by {
                assert(p[j] == c[j]);
            }
        }
        assert forall|j: int| k <= j < p.len() implies (#[trigger] rat_mul(p[j], x[j])).0 == 0 by {
            assert(p[j] == c[j]);
            assert(rat_mul(c[j], x[j]).0 == 0);
        }
        lemma_dot_prefix(p, x, k);
        assert(p.take(k) =~= c.take(k));
        let m = rat_mul(c[c.len() - 1], x[c.len() - 1]);
        assert(m.0 == 0);
        lemma_dot_pos(p, x);
        lemma_pos_ops(c[c.len() - 1], x[c.len() - 1]);
        lemma_rat_add_zero(dot(p, x), m);
        assert(dot(c, x) == rat_add(dot(p, x), m));
        lemma_rat_eq_refl_symm(dot(c, x), dot(p, x));
        lemma_rat_eq_trans(dot(c.take(k), x), dot(p, x), dot(c, x));
    }
}

/// Subtracting two amounts in turn subtracts their sum.
pub proof fn lemma_rat_sub_sub(b: (int, int), d: (int, int), m: (int, int))
    ensures
        rat_sub(rat_sub(b, d), m) == rat_sub(b, rat_add(d, m)),
{
    let (b0, b1, d0, d1, m0, m1) = (b.0, b.1, d.0, d.1, m.0, m.1);
    assert((b0 * d1 - d0 * b1) * m1 - m0 * (b1 * d1) == b0 * (d1 * m1) - (d0 * m1 + m0 * d1)
        * b1) by (nonlinear_arith);
    assert((b1 * d1) * m1 == b1 * (d1 * m1)) by (nonlinear_arith);
}

} // verus!
