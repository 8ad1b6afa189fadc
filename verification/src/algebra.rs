//! Exact arithmetic: integers, greatest common divisors and rationals.
//!
//! A rational `Q` is stored as a numerator and a strictly positive
//! denominator, both 64-bit. Every operation computes the exact result with
//! 128-bit intermediates, divides out the greatest common divisor, and reports
//! `None` when the reduced result does not fit. Its view is the pair
//! `(numerator, denominator)`; two views denote the same number when
//! `rat_eq` holds.
use vstd::arithmetic::div_mod::*;
use vstd::arithmetic::mul::{
    lemma_mul_is_associative, lemma_mul_is_commutative, lemma_mul_is_distributive_add_other_way,
    lemma_mul_is_distributive_sub_other_way,
};
use vstd::prelude::*;

verus! {

/// An exact integer.
pub type Z = i64;

/// Greatest common divisor, by Euclid's recursion.
pub open spec fn gcd(a: nat, b: nat) -> nat
    decreases b,
{
    if b == 0 {
        a
    } else {
        gcd(b, a % b)
    }
}

pub open spec fn abs_int(x: int) -> int {
    if x < 0 {
        -x
    } else {
        x
    }
}

/// `d` divides `x`.
pub open spec fn divides(d: int, x: int) -> bool {
    exists|k: int| #[trigger] (d * k) == x
}

/// The greatest common divisor divides both arguments.
pub proof fn lemma_gcd_divides(a: nat, b: nat)
    ensures
        divides(gcd(a, b) as int, a as int),
        divides(gcd(a, b) as int, b as int),
    decreases b,
{
    if b == 0 {
        assert(gcd(a, b) as int * 1 == a as int);
        assert(gcd(a, b) as int * 0 == b as int);
    } else {
        let r = a % b;
        lemma_gcd_divides(b, r);
        let g = gcd(b, r) as int;
        let p = choose|k: int| #[trigger] (g * k) == b as int;
        let q = choose|k: int| #[trigger] (g * k) == r as int;
        lemma_fundamental_div_mod(a as int, b as int);
        let m = a as int / b as int;
        assert(a as int == b as int * m + r as int);
        assert(g * (p * m + q) == a as int) by (nonlinear_arith)
            requires
                g * p == b as int,
                g * q == r as int,
                a as int == b as int * m + r as int,
        ;
        assert(gcd(a, b) as int == g);
    }
}

/// The greatest common divisor is positive when either argument is.
pub proof fn lemma_gcd_positive(a: nat, b: nat)
    requires
        a > 0 || b > 0,
    ensures
        gcd(a, b) > 0,
    decreases b,
{
    if b != 0 {
        lemma_gcd_positive(b, a % b);
    }
}

/// If `g` is positive and divides `x`, then `x / g` is the exact cofactor.
pub proof fn lemma_exact_div(x: int, g: int)
    requires
        g > 0,
        divides(g, x),
    ensures
        g * (x / g) == x,
{
    let k = choose|k: int| #[trigger] (g * k) == x;
    lemma_fundamental_div_mod(x, g);
    lemma_mod_multiples_basic(k, g);
    assert(k * g == g * k) by (nonlinear_arith);
}

/// Executable greatest common divisor.
pub fn gcd_u128(a: u128, b: u128) -> (g: u128)
    ensures
        g as nat == gcd(a as nat, b as nat),
{
    let mut x = a;
    let mut y = b;
    while y != 0
        invariant
            gcd(x as nat, y as nat) == gcd(a as nat, b as nat),
        decreases y,
    {
        let r = x % y;
        x = y;
        y = r;
    }
    x
}

/// A pair `(n, d)` with `d > 0` reduced by the greatest common divisor of
/// `|n|` and `d`.
pub open spec fn reduce(p: (int, int)) -> (int, int) {
    let g = gcd(abs_int(p.0) as nat, p.1 as nat) as int;
    if g <= 0 {
        p
    } else {
        (p.0 / g, p.1 / g)
    }
}

/// A pair fits the storage of `Q`.
pub open spec fn fits(p: (int, int)) -> bool {
    &&& i64::MIN < p.0 <= i64::MAX
    &&& 0 < p.1 <= i64::MAX
}

/// Two pairs denote the same rational.
pub open spec fn rat_eq(a: (int, int), b: (int, int)) -> bool {
    a.0 * b.1 == b.0 * a.1
}

pub open spec fn rat_lt(a: (int, int), b: (int, int)) -> bool {
    a.0 * b.1 < b.0 * a.1
}

pub open spec fn rat_le(a: (int, int), b: (int, int)) -> bool {
    a.0 * b.1 <= b.0 * a.1
}

pub open spec fn rat_add(a: (int, int), b: (int, int)) -> (int, int) {
    (a.0 * b.1 + b.0 * a.1, a.1 * b.1)
}

pub open spec fn rat_sub(a: (int, int), b: (int, int)) -> (int, int) {
    (a.0 * b.1 - b.0 * a.1, a.1 * b.1)
}

pub open spec fn rat_mul(a: (int, int), b: (int, int)) -> (int, int) {
    (a.0 * b.0, a.1 * b.1)
}

/// Division, with the sign moved to the numerator.
pub open spec fn rat_div(a: (int, int), b: (int, int)) -> (int, int) {
    if b.0 > 0 {
        (a.0 * b.1, a.1 * b.0)
    } else {
        (-(a.0 * b.1), -(a.1 * b.0))
    }
}

pub open spec fn rat_neg(a: (int, int)) -> (int, int) {
    (-a.0, a.1)
}

/// Reduction does not change the value.
pub proof fn lemma_reduce_eq(p: (int, int))
    requires
        p.1 > 0,
    ensures
        rat_eq(reduce(p), p),
        reduce(p).1 > 0,
        abs_int(reduce(p).0) <= abs_int(p.0),
        reduce(p).1 <= p.1,
{
    let g = gcd(abs_int(p.0) as nat, p.1 as nat) as int;
    lemma_gcd_positive(abs_int(p.0) as nat, p.1 as nat);
    lemma_gcd_divides(abs_int(p.0) as nat, p.1 as nat);
    let ka = choose|k: int| #[trigger] (g * k) == abs_int(p.0);
    assert(divides(g, p.0)) by {
        if p.0 < 0 {
            assert(g * (-ka) == p.0) by (nonlinear_arith)
                requires
                    g * ka == -p.0,
            ;
        } else {
            assert(g * ka == p.0);
        }
    }
    lemma_exact_div(p.0, g);
    lemma_exact_div(p.1, g);
    let n = p.0 / g;
    let d = p.1 / g;
    assert(n * p.1 == p.0 * d) by (nonlinear_arith)
        requires
            g * n == p.0,
            g * d == p.1,
    ;
    assert(d > 0 && d <= p.1) by (nonlinear_arith)
        requires
            g * d == p.1,
            g > 0,
            p.1 > 0,
    ;
    assert(abs_int(n) <= abs_int(p.0)) by (nonlinear_arith)
        requires
            g * n == p.0,
            g >= 1,
            abs_int(n) == (if n < 0 { -n } else { n }),
            abs_int(p.0) == (if p.0 < 0 { -p.0 } else { p.0 }),
    ;
}

/// Every common divisor divides the greatest common divisor.
pub proof fn lemma_gcd_greatest(a: nat, b: nat, c: int)
    requires
        c > 0,
        divides(c, a as int),
        divides(c, b as int),
    ensures
        divides(c, gcd(a, b) as int),
    decreases b,
{
    if b != 0 {
        let r = a % b;
        let ka = choose|k: int| #[trigger] (c * k) == a as int;
        let kb = choose|k: int| #[trigger] (c * k) == b as int;
        lemma_fundamental_div_mod(a as int, b as int);
        let m = a as int / b as int;
        assert(c * (ka - kb * m) == r as int) by (nonlinear_arith)
            requires
                c * ka == a as int,
                c * kb == b as int,
                a as int == b as int * m + r as int,
        ;
        lemma_gcd_greatest(b, r, c);
    }
}

/// Scaling both arguments scales the greatest common divisor.
pub proof fn lemma_gcd_scale(a: nat, b: nat, k: nat)
    requires
        k > 0,
    ensures
        gcd(k * a, k * b) == k * gcd(a, b),
    decreases b,
{
    if b == 0 {
        assert(k * b == 0) by (nonlinear_arith)
            requires
                b == 0,
        ;
    } else {
        let r = a % b;
        lemma_fundamental_div_mod(a as int, b as int);
        lemma_mod_bound(a as int, b as int);
        let m = a as int / b as int;
        let ka: int = (k * a) as int;
        let kb: int = (k * b) as int;
        let kr: int = (k * r) as int;
        assert(ka == kb * m + kr && 0 <= kr && kr < kb) by (nonlinear_arith)
            requires
                a as int == b as int * m + r as int,
                0 <= r < b,
                k > 0,
                ka == k * a,
                kb == k * b,
                kr == k * r,
        ;
        lemma_fundamental_div_mod_converse(ka, kb, m, kr);
        assert((k * a) % (k * b) == k * r);
        lemma_gcd_scale(b, r, k);
    }
}

/// A reduced pair has no common factor left.
proof fn lemma_reduce_coprime(p: (int, int))
    requires
        p.1 > 0,
    ensures
        gcd(abs_int(reduce(p).0) as nat, reduce(p).1 as nat) == 1,
{
    let g = gcd(abs_int(p.0) as nat, p.1 as nat) as int;
    lemma_gcd_positive(abs_int(p.0) as nat, p.1 as nat);
    lemma_reduce_eq(p);
    lemma_gcd_divides(abs_int(p.0) as nat, p.1 as nat);
    let ka = choose|k: int| #[trigger] (g * k) == abs_int(p.0);
    assert(divides(g, p.0)) by {
        if p.0 < 0 {
            assert(g * (-ka) == p.0) by (nonlinear_arith)
                requires
                    g * ka == -p.0,
            ;
        } else {
            assert(g * ka == p.0);
        }
    }
    lemma_exact_div(p.0, g);
    lemma_exact_div(p.1, g);
    let x = p.0 / g;
    let y = p.1 / g;
    assert(reduce(p) == (x, y));
    assert(g * abs_int(x) == abs_int(p.0)) by (nonlinear_arith)
        requires
            g * x == p.0,
            g > 0,
            abs_int(x) == (if x < 0 { -x } else { x }),
            abs_int(p.0) == (if p.0 < 0 { -p.0 } else { p.0 }),
    ;
    assert(y >= 0) by (nonlinear_arith)
        requires
            g * y == p.1,
            g > 0,
            p.1 > 0,
    ;
    lemma_gcd_scale(abs_int(x) as nat, y as nat, g as nat);
    assert((g as nat * abs_int(x) as nat) == abs_int(p.0) as nat);
    assert((g as nat * y as nat) == p.1 as nat);
    assert(g * gcd(abs_int(x) as nat, y as nat) == g);
    assert(gcd(abs_int(x) as nat, y as nat) == 1) by (nonlinear_arith)
        requires
            g * gcd(abs_int(x) as nat, y as nat) == g,
            g > 0,
    ;
}

/// `b` divides `a * d` while sharing no factor with `a`: it divides `d`.
pub proof fn lemma_coprime_divides(a: int, b: int, d: int)
    requires
        b > 0,
        d > 0,
        gcd(abs_int(a) as nat, b as nat) == 1,
        divides(b, a * d),
    ensures
        divides(b, d),
{
    let k = choose|k: int| #[trigger] (b * k) == a * d;
    assert(divides(b, (d * abs_int(a)) as int)) by {
        if a < 0 {
            assert(b * (-k) == d * abs_int(a)) by (nonlinear_arith)
                requires
                    b * k == a * d,
                    abs_int(a) == -a,
            ;
        } else {
            assert(b * k == d * abs_int(a)) by (nonlinear_arith)
                requires
                    b * k == a * d,
                    abs_int(a) == a,
            ;
        }
    }
    assert(b * d == d * b) by (nonlinear_arith);
    assert(divides(b, (d * b) as int));
    assert(abs_int(a) >= 0);
    lemma_gcd_scale(abs_int(a) as nat, b as nat, d as nat);
    assert((d as nat * abs_int(a) as nat) as int == d * abs_int(a));
    assert((d as nat * b as nat) as int == d * b);
    lemma_gcd_greatest((d as nat * abs_int(a) as nat), (d as nat * b as nat), b);
    assert(d as nat * gcd(abs_int(a) as nat, b as nat) == d);
}

/// Equal rationals have one reduced form.
pub proof fn lemma_reduce_unique(p: (int, int), q: (int, int))
    requires
        p.1 > 0,
        q.1 > 0,
        rat_eq(p, q),
    ensures
        reduce(p) == reduce(q),
{
    lemma_reduce_eq(p);
    lemma_reduce_eq(q);
    let (x, y) = reduce(p);
    let (u, v) = reduce(q);
    lemma_rat_eq_trans(reduce(p), p, q);
    lemma_rat_eq_refl_symm(q, reduce(q));
    lemma_rat_eq_refl_symm(reduce(q), q);
    lemma_rat_eq_trans(reduce(p), q, reduce(q));
    assert(x * v == u * y);
    lemma_reduce_coprime(p);
    lemma_reduce_coprime(q);
    assert(y * u == x * v) by (nonlinear_arith)
        requires
            x * v == u * y,
    ;
    assert(divides(y, x * v));
    lemma_coprime_divides(x, y, v);
    assert(v * x == u * y) by (nonlinear_arith)
        requires
            x * v == u * y,
    ;
    assert(divides(v, u * y));
    lemma_coprime_divides(u, v, y);
    let k1 = choose|k: int| #[trigger] (y * k) == v;
    let k2 = choose|k: int| #[trigger] (v * k) == y;
    assert(y == v) by (nonlinear_arith)
        requires
            y * k1 == v,
            v * k2 == y,
            y > 0,
            v > 0,
    ;
    assert(x == u) by (nonlinear_arith)
        requires
            x * v == u * y,
            y == v,
            v > 0,
    ;
}

/// `rat_eq` is an equivalence on pairs with positive denominators.
pub proof fn lemma_rat_eq_trans(a: (int, int), b: (int, int), c: (int, int))
    requires
        b.1 != 0,
        rat_eq(a, b),
        rat_eq(b, c),
    ensures
        rat_eq(a, c),
{
    assert(a.0 * c.1 * b.1 == c.0 * a.1 * b.1) by (nonlinear_arith)
        requires
            a.0 * b.1 == b.0 * a.1,
            b.0 * c.1 == c.0 * b.1,
    ;
    assert(a.0 * c.1 == c.0 * a.1) by (nonlinear_arith)
        requires
            a.0 * c.1 * b.1 == c.0 * a.1 * b.1,
            b.1 != 0,
    ;
}

/// Rearranging a product of four factors.
pub proof fn lemma_mul4(x: int, y: int, z: int, w: int)
    ensures
        (x * y) * (z * w) == (x * z) * (y * w),
        (x * y) * (z * w) == (x * w) * (y * z),
        (x * y) * (z * w) == (y * x) * (z * w),
{
    assert((x * y) * (z * w) == (x * z) * (y * w)) by (nonlinear_arith);
    assert((x * y) * (z * w) == (x * w) * (y * z)) by (nonlinear_arith);
    assert((x * y) * (z * w) == (y * x) * (z * w)) by (nonlinear_arith);
}

/// Distributing a product over a sum or difference.
pub proof fn lemma_distrib(p: int, q: int, r: int)
    ensures
        (p + q) * r == p * r + q * r,
        (p - q) * r == p * r - q * r,
{
    assert((p + q) * r == p * r + q * r) by (nonlinear_arith);
    assert((p - q) * r == p * r - q * r) by (nonlinear_arith);
}

/// Addition respects `rat_eq`.
pub proof fn lemma_rat_add_congruent(a: (int, int), b: (int, int), c: (int, int), d: (int, int))
    requires
        rat_eq(a, c),
        rat_eq(b, d),
    ensures
        rat_eq(rat_add(a, b), rat_add(c, d)),
{
    lemma_distrib(a.0 * b.1, b.0 * a.1, c.1 * d.1);
    lemma_distrib(c.0 * d.1, d.0 * c.1, a.1 * b.1);
    lemma_mul4(a.0, b.1, c.1, d.1);
    lemma_mul4(c.0, a.1, b.1, d.1);
    lemma_mul4(c.0, d.1, a.1, b.1);
    lemma_mul4(b.0, a.1, c.1, d.1);
    lemma_mul4(b.0, d.1, a.1, c.1);
    lemma_mul4(d.0, b.1, a.1, c.1);
    lemma_mul4(d.0, c.1, a.1, b.1);
    lemma_mul4(a.1, c.1, d.1, b.1);
    assert((a.0 * b.1) * (c.1 * d.1) == (c.0 * d.1) * (a.1 * b.1));
    assert((b.0 * a.1) * (c.1 * d.1) == (d.0 * c.1) * (a.1 * b.1));
}

/// Subtraction respects `rat_eq`.
pub proof fn lemma_rat_sub_congruent(a: (int, int), b: (int, int), c: (int, int), d: (int, int))
    requires
        rat_eq(a, c),
        rat_eq(b, d),
    ensures
        rat_eq(rat_sub(a, b), rat_sub(c, d)),
{
    lemma_distrib(a.0 * b.1, b.0 * a.1, c.1 * d.1);
    lemma_distrib(c.0 * d.1, d.0 * c.1, a.1 * b.1);
    lemma_mul4(a.0, b.1, c.1, d.1);
    lemma_mul4(c.0, a.1, b.1, d.1);
    lemma_mul4(c.0, d.1, a.1, b.1);
    lemma_mul4(b.0, a.1, c.1, d.1);
    lemma_mul4(b.0, d.1, a.1, c.1);
    lemma_mul4(d.0, b.1, a.1, c.1);
    lemma_mul4(d.0, c.1, a.1, b.1);
    lemma_mul4(a.1, c.1, d.1, b.1);
    assert((a.0 * b.1) * (c.1 * d.1) == (c.0 * d.1) * (a.1 * b.1));
    assert((b.0 * a.1) * (c.1 * d.1) == (d.0 * c.1) * (a.1 * b.1));
}

/// A product of positive denominators is positive.
pub proof fn lemma_den_product(x: int, y: int)
    requires
        x > 0,
        y > 0,
    ensures
        x * y > 0,
{
    assert(x * y > 0) by (nonlinear_arith)
        requires
            x > 0,
            y > 0,
    ;
}

/// Products of two 64-bit magnitudes fit in 128 bits.
pub proof fn lemma_wide_product(a: int, b: int)
    requires
        -0x8000_0000_0000_0000 <= a <= 0x8000_0000_0000_0000,
        -0x8000_0000_0000_0000 <= b <= 0x8000_0000_0000_0000,
    ensures
        -0x4000_0000_0000_0000_0000_0000_0000_0000 <= a * b <= 0x4000_0000_0000_0000_0000_0000_0000_0000,
{
    assert(-0x4000_0000_0000_0000_0000_0000_0000_0000 <= a * b <= 0x4000_0000_0000_0000_0000_0000_0000_0000)
        by (nonlinear_arith)
        requires
            -0x8000_0000_0000_0000 <= a <= 0x8000_0000_0000_0000,
            -0x8000_0000_0000_0000 <= b <= 0x8000_0000_0000_0000,
    ;
}

/// Multiplication respects `rat_eq`.
pub proof fn lemma_rat_mul_congruent(a: (int, int), b: (int, int), c: (int, int), d: (int, int))
    requires
        rat_eq(a, c),
        rat_eq(b, d),
    ensures
        rat_eq(rat_mul(a, b), rat_mul(c, d)),
{
    assert((a.0 * b.0) * (c.1 * d.1) == (c.0 * d.0) * (a.1 * b.1)) by (nonlinear_arith)
        requires
            a.0 * c.1 == c.0 * a.1,
            b.0 * d.1 == d.0 * b.1,
    ;
}

/// The rounding conventions of the exact layer.
#[derive(Debug, Clone, Copy, PartialEq, Eq, Hash, Structural)]
pub enum RoundingConvention {
    /// Toward negative infinity.
    Floor,
    /// Toward positive infinity.
    Ceiling,
    /// To the nearest integer, ties away from zero.
    NearestHalfAwayFromZero,
    /// To the nearest integer, ties to the even neighbour.
    NearestHalfToEven,
}

/// The integer `round(n / d)` under a convention, for `d > 0`.
pub open spec fn round_spec(n: int, d: int, convention: RoundingConvention) -> int {
    match convention {
        RoundingConvention::Floor => n / d,
        RoundingConvention::Ceiling => -((-n) / d),
        RoundingConvention::NearestHalfAwayFromZero => if n >= 0 {
            (2 * n + d) / (2 * d)
        } else {
            -((2 * (-n) + d) / (2 * d))
        },
        RoundingConvention::NearestHalfToEven => {
            let f = n / d;
            let twice_rem = 2 * (n - f * d);
            if twice_rem < d {
                f
            } else if twice_rem > d {
                f + 1
            } else if f % 2 == 0 {
                f
            } else {
                f + 1
            }
        },
    }
}

/// `n / d` rounded down, written through the quotient and remainder.
proof fn lemma_floor_facts(n: int, d: int)
    requires
        d > 0,
    ensures
        (n / d) * d <= n,
        n < (n / d + 1) * d,
{
    lemma_fundamental_div_mod(n, d);
    lemma_mod_bound(n, d);
    assert((n / d) * d <= n && n < (n / d + 1) * d) by (nonlinear_arith)
        requires
            n == d * (n / d) + n % d,
            0 <= n % d < d,
    ;
}

/// Rounding down is monotone across denominators.
proof fn lemma_floor_monotone(n1: int, d1: int, n2: int, d2: int)
    requires
        d1 > 0,
        d2 > 0,
        n1 * d2 <= n2 * d1,
    ensures
        n1 / d1 <= n2 / d2,
{
    lemma_floor_facts(n1, d1);
    lemma_floor_facts(n2, d2);
    let f1 = n1 / d1;
    let f2 = n2 / d2;
    assert(f1 * d2 <= n2) by (nonlinear_arith)
        requires
            f1 * d1 <= n1,
            n1 * d2 <= n2 * d1,
            d1 > 0,
            d2 > 0,
    ;
    assert(f1 <= f2) by (nonlinear_arith)
        requires
            f1 * d2 <= n2,
            n2 < (f2 + 1) * d2,
            d2 > 0,
    ;
}

/// Floor and ceiling bracket the exact value: the floor is at or below it,
/// the ceiling at or above it, and the two are at most one step apart.
pub proof fn law_floor_and_ceiling_bracket(n: int, d: int)
    requires
        d > 0,
    ensures
        round_spec(n, d, RoundingConvention::Floor) * d <= n,
        n <= round_spec(n, d, RoundingConvention::Ceiling) * d,
        0 <= round_spec(n, d, RoundingConvention::Ceiling) - round_spec(n, d, RoundingConvention::Floor) <= 1,
{
    lemma_floor_facts(n, d);
    lemma_floor_facts(-n, d);
    let f = n / d;
    let g = (-n) / d;
    assert(n <= -g * d) by (nonlinear_arith)
        requires
            -n < (g + 1) * d,
            g * d <= -n,
    ;
    assert(0 <= -g - f <= 1) by (nonlinear_arith)
        requires
            f * d <= n,
            n < (f + 1) * d,
            g * d <= -n,
            -n < (g + 1) * d,
            d > 0,
    ;
}

/// Every convention leaves a value that is already whole where it is.
pub proof fn law_whole_values_are_fixed(k: int, d: int, convention: RoundingConvention)
    requires
        d > 0,
    ensures
        round_spec(k * d, d, convention) == k,
{
    let n = k * d;
    lemma_fundamental_div_mod_converse(n, d, k, 0);
    assert(-n == (-k) * d) by (nonlinear_arith)
        requires
            n == k * d,
    ;
    lemma_fundamental_div_mod_converse(-n, d, -k, 0);
    if n >= 0 {
        assert(2 * n + d == k * (2 * d) + d) by (nonlinear_arith)
            requires
                n == k * d,
        ;
        lemma_fundamental_div_mod_converse(2 * n + d, 2 * d, k, d);
    } else {
        assert(2 * (-n) + d == (-k) * (2 * d) + d) by (nonlinear_arith)
            requires
                n == k * d,
        ;
        lemma_fundamental_div_mod_converse(2 * (-n) + d, 2 * d, -k, d);
    }
    assert(n - k * d == 0);
}

/// Rounding down and rounding up never move a larger value below a smaller
/// one, whatever the denominators.
pub proof fn law_directed_rounding_is_monotone(
    n1: int,
    d1: int,
    n2: int,
    d2: int,
    convention: RoundingConvention,
)
    requires
        d1 > 0,
        d2 > 0,
        n1 * d2 <= n2 * d1,
        convention is Floor || convention is Ceiling,
    ensures
        round_spec(n1, d1, convention) <= round_spec(n2, d2, convention),
{
    lemma_floor_monotone(n1, d1, n2, d2);
    assert((-n2) * d1 <= (-n1) * d2) by (nonlinear_arith)
        requires
            n1 * d2 <= n2 * d1,
    ;
    lemma_floor_monotone(-n2, d2, -n1, d1);
}

/// Both nearest conventions land within half a step of the exact value.
pub proof fn law_nearest_is_within_half_a_step(n: int, d: int, convention: RoundingConvention)
    requires
        d > 0,
        convention is NearestHalfAwayFromZero || convention is NearestHalfToEven,
    ensures
        -d <= 2 * (n - round_spec(n, d, convention) * d) <= d,
{
    let r = round_spec(n, d, convention);
    if convention is NearestHalfAwayFromZero {
        if n >= 0 {
            lemma_floor_facts(2 * n + d, 2 * d);
            assert(-d <= 2 * (n - r * d) <= d) by (nonlinear_arith)
                requires
                    r == (2 * n + d) / (2 * d),
                    r * (2 * d) <= 2 * n + d,
                    2 * n + d < (r + 1) * (2 * d),
            ;
        } else {
            let q = (2 * (-n) + d) / (2 * d);
            lemma_floor_facts(2 * (-n) + d, 2 * d);
            assert(-d <= 2 * (n - r * d) <= d) by (nonlinear_arith)
                requires
                    r == -q,
                    q * (2 * d) <= 2 * (-n) + d,
                    2 * (-n) + d < (q + 1) * (2 * d),
            ;
        }
    } else {
        let f = n / d;
        lemma_floor_facts(n, d);
        assert(-d <= 2 * (n - r * d) <= d) by (nonlinear_arith)
            requires
                f * d <= n,
                n < (f + 1) * d,
                r == f || r == f + 1,
                r == f ==> 2 * (n - f * d) <= d,
                r == f + 1 ==> 2 * (n - f * d) >= d,
        ;
    }
}

/// Floor division on 128-bit integers with a positive divisor.
fn floor_div_i128(n: i128, d: i128) -> (r: i128)
    requires
        d > 0,
        n > i128::MIN,
    ensures
        r == n / d,
        n >= 0 ==> 0 <= r <= n,
        n < 0 ==> n <= r < 0,
{
    if n >= 0 {
        proof {
            lemma_div_pos_is_pos(n as int, d as int);
            lemma_div_is_ordered_by_denominator(n as int, 1, d as int);
        }
        (n as u128 / d as u128) as i128
    } else {
        let m = (-n) as u128;
        let q = (m - 1) / (d as u128);
        proof {
            lemma_fundamental_div_mod((m - 1) as int, d as int);
            lemma_mod_bound((m - 1) as int, d as int);
            let s = (m - 1) as int % d as int;
            let qq = q as int;
            assert(n == d * (-qq - 1) + (d - s - 1)) by (nonlinear_arith)
                requires
                    (m - 1) as int == d * qq + s,
                    m as int == -n,
            ;
            lemma_fundamental_div_mod_converse(n as int, d as int, -qq - 1, d - s - 1);
            lemma_div_is_ordered_by_denominator((m - 1) as int, 1, d as int);
        }
        -(q as i128) - 1
    }
}

impl RoundingConvention {
    /// Rounds `n / d` to an integer, for `d > 0`.
    pub fn round_ratio(self, n: i128, d: i128) -> (r: i128)
        requires
            d > 0,
            d <= i64::MAX,
            -(i64::MAX as int) * (i64::MAX as int) <= n <= (i64::MAX as int) * (i64::MAX as int),
        ensures
            r == round_spec(n as int, d as int, self),
    {
        match self {
            RoundingConvention::Floor => floor_div_i128(n, d),
            RoundingConvention::Ceiling => {
                let f = floor_div_i128(-n, d);
                -f
            },
            RoundingConvention::NearestHalfAwayFromZero => {
                if n >= 0 {
                    (2 * n + d) / (2 * d)
                } else {
                    -((2 * (-n) + d) / (2 * d))
                }
            },
            RoundingConvention::NearestHalfToEven => {
                let f = floor_div_i128(n, d);
                proof {
                    lemma_fundamental_div_mod(n as int, d as int);
                    lemma_mod_bound(n as int, d as int);
                }
                proof {
                    let m = n as int % d as int;
                    assert(0 <= n - f * d < d) by (nonlinear_arith)
                        requires
                            n as int == d * (f as int) + m,
                            0 <= m < d,
                    ;
                }
                let twice_rem = 2 * (n - f * d);
                if twice_rem < d {
                    f
                } else if twice_rem > d {
                    f + 1
                } else if f % 2 == 0 {
                    f
                } else {
                    f + 1
                }
            },
        }
    }
}

/// An exact rational number with 64-bit numerator and denominator.
#[derive(Debug, Clone, Copy, PartialEq, Eq, Hash, Structural)]
pub struct Q {
    num: i64,
    den: i64,
}

impl View for Q {
    type V = (int, int);

    closed spec fn view(&self) -> (int, int) {
        if self.den > 0 && lowest((self.num as int, self.den as int)) {
            (self.num as int, self.den as int)
        } else {
            (0, 1)
        }
    }
}

/// Every rational has a positive denominator within 64 bits.
pub broadcast proof fn lemma_q_view(q: Q)
    ensures
        #![trigger q@]
        0 < q@.1 <= i64::MAX,
        i64::MIN <= q@.0 <= i64::MAX,
{
}

/// The result of an arithmetic step: the reduced exact value when it fits.
pub open spec fn checked_result(r: Option<Q>, exact: (int, int)) -> bool {
    &&& r is Some <==> fits(reduce(exact))
    &&& r matches Some(q) ==> q@ == reduce(exact)
}

/// Dividing by a nonzero rational keeps a positive denominator.
pub proof fn lemma_rat_div_positive_den(a: (int, int), b: (int, int))
    requires
        a.1 > 0,
        b.0 != 0,
    ensures
        rat_div(a, b).1 > 0,
{
    if b.0 > 0 {
        lemma_den_product(a.1, b.0);
    } else {
        lemma_den_product(a.1, -b.0);
        assert(a.1 * (-b.0) == -(a.1 * b.0)) by (nonlinear_arith);
    }
}

/// A pair in lowest terms: its numerator and denominator share no factor.
pub open spec fn lowest(p: (int, int)) -> bool {
    gcd(abs_int(p.0) as nat, p.1 as nat) == 1
}

/// A pair in lowest terms is its own reduced form.
pub proof fn lemma_lowest_reduced(p: (int, int))
    requires
        lowest(p),
    ensures
        reduce(p) == p,
{
}

/// The reduced form of a pair is in lowest terms.
pub proof fn lemma_reduce_lowest(p: (int, int))
    requires
        p.1 > 0,
    ensures
        lowest(reduce(p)),
{
    lemma_reduce_coprime(p);
}

/// Coprimality does not depend on the order of the two numbers.
proof fn lemma_gcd_one_swap(a: nat, b: nat)
    requires
        a > 0,
        b > 0,
        gcd(a, b) == 1,
    ensures
        gcd(b, a) == 1,
{
    lemma_gcd_positive(b, a);
    lemma_gcd_divides(b, a);
    let g = gcd(b, a) as int;
    lemma_gcd_greatest(a, b, g);
    let k = choose|k: int| #[trigger] (g * k) == 1;
    assert(g == 1) by (nonlinear_arith)
        requires
            g * k == 1,
            g > 0,
    ;
}

impl Q {
    #[verifier::type_invariant]
    spec fn inv(self) -> bool {
        self.den > 0 && self.num > i64::MIN && lowest((self.num as int, self.den as int))
    }

    /// Every rational is held in lowest terms, so it is its own reduced
    /// form.
    pub proof fn lemma_lowest_terms(q: Q)
        ensures
            lowest(q@),
            reduce(q@) == q@,
    {
        reveal_with_fuel(gcd, 3);
        assert(abs_int(0) as nat % 1 == 0);
    }

    /// Two rationals of equal value hold the same numerator and denominator.
    pub proof fn lemma_equal_values(a: Q, b: Q)
        requires
            rat_eq(a@, b@),
        ensures
            a@ == b@,
    {
        Self::lemma_lowest_terms(a);
        Self::lemma_lowest_terms(b);
        lemma_reduce_unique(a@, b@);
    }

    /// Builds the reduced form of a pair known to fit after reduction.
    fn from_wide(n: i128, d: i128) -> (r: Option<Q>)
        requires
            d > 0,
            -(i64::MAX as int) * (i64::MAX as int) * 2 <= n <= (i64::MAX as int) * (i64::MAX
                as int) * 2,
            d <= (i64::MAX as int) * (i64::MAX as int),
        ensures
            checked_result(r, (n as int, d as int)),
    {
        let mag: u128 = if n < 0 {
            (-n) as u128
        } else {
            n as u128
        };
        let g = gcd_u128(mag, d as u128);
        proof {
            lemma_gcd_positive(mag as nat, d as nat);
            lemma_reduce_eq((n as int, d as int));
            lemma_gcd_divides(mag as nat, d as nat);
            assert(abs_int(n as int) == mag as int);
        }
        let rn_mag = mag / g;
        let rd = (d as u128) / g;
        proof {
            let gi = g as int;
            lemma_exact_div(d as int, gi);
            lemma_exact_div(mag as int, gi);
            if n < 0 {
                let k = (mag as int) / gi;
                assert(gi * (-k) == n as int) by (nonlinear_arith)
                    requires
                        gi * k == mag as int,
                        mag as int == -(n as int),
                ;
                lemma_fundamental_div_mod_converse(n as int, gi, -k, 0);
                assert(reduce((n as int, d as int)).0 == -(rn_mag as int));
            } else {
                assert(reduce((n as int, d as int)).0 == rn_mag as int);
            }
            assert(reduce((n as int, d as int)).1 == rd as int);
        }
        if rn_mag > i64::MAX as u128 || rd > i64::MAX as u128 {
            None
        } else {
            let num: i64 = if n < 0 {
                -(rn_mag as i64)
            } else {
                rn_mag as i64
            };
            proof {
                lemma_reduce_coprime((n as int, d as int));
            }
            Some(Q { num, den: rd as i64 })
        }
    }

    /// Zero.
    pub fn zero() -> (r: Q)
        ensures
            r@ == (0int, 1int),
    {
        proof {
            reveal_with_fuel(gcd, 3);
        }
        Q { num: 0, den: 1 }
    }

    /// One.
    pub fn one() -> (r: Q)
        ensures
            r@ == (1int, 1int),
    {
        proof {
            reveal_with_fuel(gcd, 3);
        }
        Q { num: 1, den: 1 }
    }

    /// An integer as a rational.
    pub fn integer(n: i64) -> (r: Q)
        requires
            n > i64::MIN,
        ensures
            r@ == (n as int, 1int),
    {
        proof {
            reveal_with_fuel(gcd, 3);
            assert(abs_int(n as int) as nat % 1 == 0);
        }
        Q { num: n, den: 1 }
    }

    /// `numerator / denominator` in lowest terms.
    pub fn new(numerator: i64, denominator: i64) -> (r: Q)
        requires
            denominator != 0,
            numerator > i64::MIN,
            denominator > i64::MIN,
        ensures
            r@ == reduce(
                if denominator > 0 {
                    (numerator as int, denominator as int)
                } else {
                    (-numerator, -denominator)
                },
            ),
            rat_eq(r@, (numerator as int, denominator as int)),
    {
        proof {
            let p = if denominator > 0 {
                (numerator as int, denominator as int)
            } else {
                (-numerator, -denominator)
            };
            lemma_reduce_eq(p);
            let x = reduce(p);
            assert(x.0 * denominator == numerator * x.1) by (nonlinear_arith)
                requires
                    x.0 * p.1 == p.0 * x.1,
                    p == (if denominator > 0 {
                        (numerator as int, denominator as int)
                    } else {
                        (-numerator, -denominator)
                    }),
            ;
        }
        let (n, d) = if denominator > 0 {
            (numerator as i128, denominator as i128)
        } else {
            (-(numerator as i128), -(denominator as i128))
        };
        proof {
            lemma_reduce_eq((n as int, d as int));
        }
        let r = Self::from_wide(n, d);
        match r {
            Some(q) => q,
            None => Self::zero(),
        }
    }

    /// The numerator in lowest terms.
    pub fn numer(&self) -> (r: i64)
        ensures
            r == self@.0,
    {
        proof {
            use_type_invariant(self);
        }
        self.num
    }

    /// The positive denominator.
    pub fn denom(&self) -> (r: i64)
        ensures
            r == self@.1,
            r > 0,
    {
        proof {
            use_type_invariant(self);
        }
        self.den
    }

    /// Exact sum.
    pub fn checked_add(&self, other: &Q) -> (r: Option<Q>)
        ensures
            checked_result(r, rat_add(self@, other@)),
    {
        proof {
            use_type_invariant(self);
            use_type_invariant(other);
        }
        let a = self.num as i128;
        let b = self.den as i128;
        let c = other.num as i128;
        let d = other.den as i128;
        proof {
            assert(-(i64::MAX as int) * (i64::MAX as int) <= a * d <= (i64::MAX as int) * (
            i64::MAX as int)) by (nonlinear_arith)
                requires
                    -(i64::MAX as int) <= a <= i64::MAX,
                    0 < d <= i64::MAX,
            ;
            assert(-(i64::MAX as int) * (i64::MAX as int) <= c * b <= (i64::MAX as int) * (
            i64::MAX as int)) by (nonlinear_arith)
                requires
                    -(i64::MAX as int) <= c <= i64::MAX,
                    0 < b <= i64::MAX,
            ;
            assert(0 < b * d <= (i64::MAX as int) * (i64::MAX as int)) by (nonlinear_arith)
                requires
                    0 < d <= i64::MAX,
                    0 < b <= i64::MAX,
            ;
        }
        Self::from_wide(a * d + c * b, b * d)
    }

    /// Exact difference.
    pub fn checked_sub(&self, other: &Q) -> (r: Option<Q>)
        ensures
            checked_result(r, rat_sub(self@, other@)),
    {
        proof {
            use_type_invariant(self);
            use_type_invariant(other);
        }
        let a = self.num as i128;
        let b = self.den as i128;
        let c = other.num as i128;
        let d = other.den as i128;
        proof {
            assert(-(i64::MAX as int) * (i64::MAX as int) <= a * d <= (i64::MAX as int) * (
            i64::MAX as int)) by (nonlinear_arith)
                requires
                    -(i64::MAX as int) <= a <= i64::MAX,
                    0 < d <= i64::MAX,
            ;
            assert(-(i64::MAX as int) * (i64::MAX as int) <= c * b <= (i64::MAX as int) * (
            i64::MAX as int)) by (nonlinear_arith)
                requires
                    -(i64::MAX as int) <= c <= i64::MAX,
                    0 < b <= i64::MAX,
            ;
            assert(0 < b * d <= (i64::MAX as int) * (i64::MAX as int)) by (nonlinear_arith)
                requires
                    0 < d <= i64::MAX,
                    0 < b <= i64::MAX,
            ;
        }
        Self::from_wide(a * d - c * b, b * d)
    }

    /// Exact product.
    pub fn checked_mul(&self, other: &Q) -> (r: Option<Q>)
        ensures
            checked_result(r, rat_mul(self@, other@)),
    {
        proof {
            use_type_invariant(self);
            use_type_invariant(other);
        }
        let a = self.num as i128;
        let b = self.den as i128;
        let c = other.num as i128;
        let d = other.den as i128;
        proof {
            assert(-(i64::MAX as int) * (i64::MAX as int) <= a * c <= (i64::MAX as int) * (
            i64::MAX as int)) by (nonlinear_arith)
                requires
                    -(i64::MAX as int) <= a <= i64::MAX,
                    -(i64::MAX as int) <= c <= i64::MAX,
            ;
            assert(0 < b * d <= (i64::MAX as int) * (i64::MAX as int)) by (nonlinear_arith)
                requires
                    0 < d <= i64::MAX,
                    0 < b <= i64::MAX,
            ;
        }
        Self::from_wide(a * c, b * d)
    }

    /// Exact quotient by a non-zero rational.
    pub fn checked_div(&self, other: &Q) -> (r: Option<Q>)
        requires
            other@.0 != 0,
        ensures
            checked_result(r, rat_div(self@, other@)),
    {
        proof {
            use_type_invariant(self);
            use_type_invariant(other);
        }
        let a = self.num as i128;
        let b = self.den as i128;
        let c = other.num as i128;
        let d = other.den as i128;
        proof {
            assert(-(i64::MAX as int) * (i64::MAX as int) <= a * d <= (i64::MAX as int) * (
            i64::MAX as int)) by (nonlinear_arith)
                requires
                    -(i64::MAX as int) <= a <= i64::MAX,
                    0 < d <= i64::MAX,
            ;
            assert(-(i64::MAX as int) * (i64::MAX as int) <= b * c <= (i64::MAX as int) * (
            i64::MAX as int)) by (nonlinear_arith)
                requires
                    -(i64::MAX as int) <= c <= i64::MAX,
                    0 < b <= i64::MAX,
            ;
            assert(c > 0 ==> 0 < b * c) by (nonlinear_arith)
                requires
                    0 < b,
            ;
            assert(c < 0 ==> 0 < -(b * c)) by (nonlinear_arith)
                requires
                    0 < b,
            ;
        }
        if c > 0 {
            Self::from_wide(a * d, b * c)
        } else {
            Self::from_wide(-(a * d), -(b * c))
        }
    }

    /// The additive inverse.
    pub fn neg(&self) -> (r: Q)
        ensures
            r@ == rat_neg(self@),
    {
        proof {
            use_type_invariant(self);
        }
        Q { num: -self.num, den: self.den }
    }

    /// The magnitude.
    pub fn abs(&self) -> (r: Q)
        ensures
            r@ == (abs_int(self@.0), self@.1),
    {
        proof {
            use_type_invariant(self);
        }
        if self.num < 0 {
            Q { num: -self.num, den: self.den }
        } else {
            *self
        }
    }

    /// The reciprocal of a non-zero rational.
    pub fn recip(&self) -> (r: Q)
        requires
            self@.0 != 0,
        ensures
            r@ == rat_div((1, 1), self@),
            r@ == (if self@.0 > 0 { (self@.1, self@.0) } else { (-self@.1, -self@.0) }),
    {
        proof {
            use_type_invariant(self);
            lemma_gcd_one_swap(abs_int(self.num as int) as nat, self.den as nat);
        }
        if self.num > 0 {
            Q { num: self.den, den: self.num }
        } else {
            Q { num: -self.den, den: -self.num }
        }
    }

    /// Whether the value is strictly positive.
    pub fn is_positive(&self) -> (r: bool)
        ensures
            r == (self@.0 > 0),
    {
        proof {
            use_type_invariant(self);
        }
        self.num > 0
    }

    /// Whether the value is strictly negative.
    pub fn is_negative(&self) -> (r: bool)
        ensures
            r == (self@.0 < 0),
    {
        proof {
            use_type_invariant(self);
        }
        self.num < 0
    }

    /// Whether the value is zero.
    pub fn is_zero(&self) -> (r: bool)
        ensures
            r == (self@.0 == 0),
    {
        proof {
            use_type_invariant(self);
        }
        self.num == 0
    }

    /// Whether the value is an integer.
    pub fn is_integer(&self) -> (r: bool)
        ensures
            r == (self@.0 % self@.1 == 0),
    {
        proof {
            use_type_invariant(self);
        }
        let f = floor_div_i128(self.num as i128, self.den as i128);
        proof {
            lemma_fundamental_div_mod(self.num as int, self.den as int);
            lemma_wide_product(f as int, self.den as int);
        }
        let m = (self.num as i128) - f * (self.den as i128);
        m == 0
    }

    /// Exact equality of values.
    pub fn same_value(&self, other: &Q) -> (r: bool)
        ensures
            r == rat_eq(self@, other@),
    {
        proof {
            use_type_invariant(self);
            use_type_invariant(other);
        }
        proof {
            lemma_wide_product(self.num as int, other.den as int);
            lemma_wide_product(other.num as int, self.den as int);
        }
        (self.num as i128) * (other.den as i128) == (other.num as i128) * (self.den as i128)
    }

    /// Exact strict order.
    pub fn lt(&self, other: &Q) -> (r: bool)
        ensures
            r == rat_lt(self@, other@),
    {
        proof {
            use_type_invariant(self);
            use_type_invariant(other);
        }
        proof {
            lemma_wide_product(self.num as int, other.den as int);
            lemma_wide_product(other.num as int, self.den as int);
        }
        (self.num as i128) * (other.den as i128) < (other.num as i128) * (self.den as i128)
    }

    /// Exact non-strict order.
    pub fn le(&self, other: &Q) -> (r: bool)
        ensures
            r == rat_le(self@, other@),
    {
        proof {
            use_type_invariant(self);
            use_type_invariant(other);
        }
        proof {
            lemma_wide_product(self.num as int, other.den as int);
            lemma_wide_product(other.num as int, self.den as int);
        }
        (self.num as i128) * (other.den as i128) <= (other.num as i128) * (self.den as i128)
    }

    /// Rounds to an integer under a convention.
    pub fn round(&self, convention: RoundingConvention) -> (r: i128)
        ensures
            r == round_spec(self@.0, self@.1, convention),
    {
        proof {
            use_type_invariant(self);
        }
        convention.round_ratio(self.num as i128, self.den as i128)
    }
}

} // verus!

verus! {

/// One reduced addition step keeps the exact value of its operands.
pub proof fn lemma_step_add(x: (int, int), a: (int, int), b: (int, int), aa: (int, int), bb: (int, int))
    requires
        x == reduce(rat_add(a, b)),
        a.1 > 0,
        b.1 > 0,
        aa.1 > 0,
        bb.1 > 0,
        rat_eq(a, aa),
        rat_eq(b, bb),
    ensures
        rat_eq(x, rat_add(aa, bb)),
        x.1 > 0,
{
    lemma_den_product(a.1, b.1);
    lemma_reduce_eq(rat_add(a, b));
    lemma_rat_add_congruent(a, b, aa, bb);
    lemma_rat_eq_trans(x, rat_add(a, b), rat_add(aa, bb));
}

/// One reduced subtraction step keeps the exact value of its operands.
pub proof fn lemma_step_sub(x: (int, int), a: (int, int), b: (int, int), aa: (int, int), bb: (int, int))
    requires
        x == reduce(rat_sub(a, b)),
        a.1 > 0,
        b.1 > 0,
        aa.1 > 0,
        bb.1 > 0,
        rat_eq(a, aa),
        rat_eq(b, bb),
    ensures
        rat_eq(x, rat_sub(aa, bb)),
        x.1 > 0,
{
    lemma_den_product(a.1, b.1);
    lemma_reduce_eq(rat_sub(a, b));
    lemma_rat_sub_congruent(a, b, aa, bb);
    lemma_rat_eq_trans(x, rat_sub(a, b), rat_sub(aa, bb));
}

/// One reduced multiplication step keeps the exact value of its operands.
pub proof fn lemma_step_mul(x: (int, int), a: (int, int), b: (int, int), aa: (int, int), bb: (int, int))
    requires
        x == reduce(rat_mul(a, b)),
        a.1 > 0,
        b.1 > 0,
        aa.1 > 0,
        bb.1 > 0,
        rat_eq(a, aa),
        rat_eq(b, bb),
    ensures
        rat_eq(x, rat_mul(aa, bb)),
        x.1 > 0,
{
    lemma_den_product(a.1, b.1);
    lemma_reduce_eq(rat_mul(a, b));
    lemma_rat_mul_congruent(a, b, aa, bb);
    lemma_rat_eq_trans(x, rat_mul(a, b), rat_mul(aa, bb));
}

/// Division respects `rat_eq`.
pub proof fn lemma_rat_div_congruent(a: (int, int), b: (int, int), c: (int, int), d: (int, int))
    requires
        rat_eq(a, c),
        rat_eq(b, d),
        b.0 != 0,
        b.1 > 0,
        d.1 > 0,
    ensures
        rat_eq(rat_div(a, b), rat_div(c, d)),
        d.0 != 0,
        (b.0 > 0) == (d.0 > 0),
{
    assert(d.0 != 0 && (b.0 > 0) == (d.0 > 0)) by (nonlinear_arith)
        requires
            b.0 * d.1 == d.0 * b.1,
            b.0 != 0,
            b.1 > 0,
            d.1 > 0,
    ;
    lemma_mul4(a.0, b.1, c.1, d.0);
    lemma_mul4(c.0, d.1, a.1, b.0);
    lemma_mul4(a.0, c.1, b.1, d.0);
    lemma_mul4(c.0, a.1, d.1, b.0);
    lemma_mul4(b.1, d.0, c.0, a.1);
    assert((a.0 * b.1) * (c.1 * d.0) == (c.0 * d.1) * (a.1 * b.0)) by (nonlinear_arith)
        requires
            a.0 * c.1 == c.0 * a.1,
            b.0 * d.1 == d.0 * b.1,
    ;
    assert(rat_eq(rat_div(a, b), rat_div(c, d))) by (nonlinear_arith)
        requires
            (a.0 * b.1) * (c.1 * d.0) == (c.0 * d.1) * (a.1 * b.0),
            (b.0 > 0) == (d.0 > 0),
            rat_div(a, b) == (if b.0 > 0 {
                (a.0 * b.1, a.1 * b.0)
            } else {
                (-(a.0 * b.1), -(a.1 * b.0))
            }),
            rat_div(c, d) == (if d.0 > 0 {
                (c.0 * d.1, c.1 * d.0)
            } else {
                (-(c.0 * d.1), -(c.1 * d.0))
            }),
    ;
}

/// One reduced division step keeps the exact value of its operands.
pub proof fn lemma_step_div(x: (int, int), a: (int, int), b: (int, int), aa: (int, int), bb: (int, int))
    requires
        x == reduce(rat_div(a, b)),
        a.1 > 0,
        b.1 > 0,
        b.0 != 0,
        aa.1 > 0,
        bb.1 > 0,
        rat_eq(a, aa),
        rat_eq(b, bb),
    ensures
        rat_eq(x, rat_div(aa, bb)),
        x.1 > 0,
        bb.0 != 0,
{
    lemma_rat_div_positive(a, b);
    lemma_reduce_eq(rat_div(a, b));
    lemma_rat_div_congruent(a, b, aa, bb);
    lemma_rat_eq_trans(x, rat_div(a, b), rat_div(aa, bb));
}

/// A quotient by a non-zero value has a positive denominator.
pub proof fn lemma_rat_div_positive(a: (int, int), b: (int, int))
    requires
        a.1 > 0,
        b.0 != 0,
    ensures
        rat_div(a, b).1 > 0,
{
    assert(rat_div(a, b).1 > 0) by (nonlinear_arith)
        requires
            a.1 > 0,
            b.0 != 0,
            rat_div(a, b).1 == (if b.0 > 0 { a.1 * b.0 } else { -(a.1 * b.0) }),
    ;
}

/// `rat_eq` is reflexive and symmetric.
pub proof fn lemma_rat_eq_refl_symm(a: (int, int), b: (int, int))
    ensures
        rat_eq(a, a),
        rat_eq(a, b) ==> rat_eq(b, a),
{
}

} // verus!

verus! {

/// Floor division does not depend on the representation of the fraction.
pub proof fn lemma_floor_congruent(n: int, d: int, m: int, e: int)
    requires
        d > 0,
        e > 0,
        n * e == m * d,
    ensures
        n / d == m / e,
{
    let q = n / d;
    lemma_fundamental_div_mod(n, d);
    lemma_mod_bound(n, d);
    let r = n % d;
    assert(q * d <= n < q * d + d);
    assert(q * e <= m < q * e + e) by (nonlinear_arith)
        requires
            q * d <= n < q * d + d,
            n * e == m * d,
            d > 0,
            e > 0,
    ;
    lemma_fundamental_div_mod_converse(m, e, q, m - q * e);
}

/// Rounding does not depend on the representation of the fraction.
pub proof fn lemma_round_congruent(n: int, d: int, m: int, e: int, convention: RoundingConvention)
    requires
        d > 0,
        e > 0,
        n * e == m * d,
    ensures
        round_spec(n, d, convention) == round_spec(m, e, convention),
{
    match convention {
        RoundingConvention::Floor => {
            lemma_floor_congruent(n, d, m, e);
        },
        RoundingConvention::Ceiling => {
            assert((-n) * e == (-m) * d) by (nonlinear_arith)
                requires
                    n * e == m * d,
            ;
            lemma_floor_congruent(-n, d, -m, e);
        },
        RoundingConvention::NearestHalfAwayFromZero => {
            assert((n >= 0) == (m >= 0)) by (nonlinear_arith)
                requires
                    n * e == m * d,
                    d > 0,
                    e > 0,
            ;
            if n >= 0 {
                assert((2 * n + d) * (2 * e) == (2 * m + e) * (2 * d)) by (nonlinear_arith)
                    requires
                        n * e == m * d,
                ;
                lemma_den_product(2, d);
                lemma_den_product(2, e);
                lemma_floor_congruent(2 * n + d, 2 * d, 2 * m + e, 2 * e);
            } else {
                assert((2 * (-n) + d) * (2 * e) == (2 * (-m) + e) * (2 * d)) by (nonlinear_arith)
                    requires
                        n * e == m * d,
                ;
                lemma_den_product(2, d);
                lemma_den_product(2, e);
                lemma_floor_congruent(2 * (-n) + d, 2 * d, 2 * (-m) + e, 2 * e);
            }
        },
        RoundingConvention::NearestHalfToEven => {
            lemma_floor_congruent(n, d, m, e);
            let f = n / d;
            let a = 2 * (n - f * d);
            let b = 2 * (m - f * e);
            assert(a * e == b * d) by (nonlinear_arith)
                requires
                    n * e == m * d,
                    a == 2 * (n - f * d),
                    b == 2 * (m - f * e),
            ;
            assert((a < d) == (b < e)) by (nonlinear_arith)
                requires
                    a * e == b * d,
                    d > 0,
                    e > 0,
            ;
            assert((a > d) == (b > e)) by (nonlinear_arith)
                requires
                    a * e == b * d,
                    d > 0,
                    e > 0,
            ;
        },
    }
}

} // verus!

verus! {

/// The magnitude of a pair.
pub open spec fn abs_pair(p: (int, int)) -> (int, int) {
    (abs_int(p.0), p.1)
}

/// Order is transitive through a non-strict step.
pub proof fn lemma_rat_le_lt_trans(a: (int, int), b: (int, int), c: (int, int))
    requires
        a.1 > 0,
        b.1 > 0,
        c.1 > 0,
        rat_le(a, b),
        rat_lt(b, c),
    ensures
        rat_lt(a, c),
        !rat_lt(c, a),
{
    assert(a.0 * c.1 * b.1 < c.0 * a.1 * b.1) by (nonlinear_arith)
        requires
            a.0 * b.1 <= b.0 * a.1,
            b.0 * c.1 < c.0 * b.1,
            a.1 > 0,
            c.1 > 0,
    ;
    assert(a.0 * c.1 < c.0 * a.1) by (nonlinear_arith)
        requires
            a.0 * c.1 * b.1 < c.0 * a.1 * b.1,
            b.1 > 0,
    ;
}

/// Order is total.
pub proof fn lemma_rat_lt_total(a: (int, int), b: (int, int))
    ensures
        !rat_lt(a, b) ==> rat_le(b, a),
{
}

} // verus!

verus! {

/// The order on rationals with positive denominators is transitive.
pub proof fn lemma_rat_le_trans(a: (int, int), b: (int, int), c: (int, int))
    requires
        a.1 > 0,
        b.1 > 0,
        c.1 > 0,
        rat_le(a, b),
        rat_le(b, c),
    ensures
        rat_le(a, c),
{
    assert(a.0 * c.1 * b.1 <= c.0 * a.1 * b.1) by (nonlinear_arith)
        requires
            a.0 * b.1 <= b.0 * a.1,
            b.0 * c.1 <= c.0 * b.1,
            a.1 > 0,
            c.1 > 0,
    ;
    assert(a.0 * c.1 <= c.0 * a.1) by (nonlinear_arith)
        requires
            a.0 * c.1 * b.1 <= c.0 * a.1 * b.1,
            b.1 > 0,
    ;
}

/// Sums of ordered pairs are ordered.
pub proof fn lemma_rat_le_add(a: (int, int), b: (int, int), c: (int, int), d: (int, int))
    requires
        a.1 > 0,
        b.1 > 0,
        c.1 > 0,
        d.1 > 0,
        rat_le(a, b),
        rat_le(c, d),
    ensures
        rat_le(rat_add(a, c), rat_add(b, d)),
        rat_add(a, c).1 > 0,
        rat_add(b, d).1 > 0,
{
    lemma_den_product(a.1, c.1);
    lemma_den_product(b.1, d.1);
    lemma_den_product(c.1, d.1);
    lemma_den_product(a.1, b.1);
    assert((a.0 * b.1) * (c.1 * d.1) <= (b.0 * a.1) * (c.1 * d.1)) by (nonlinear_arith)
        requires
            a.0 * b.1 <= b.0 * a.1,
            c.1 * d.1 > 0,
    ;
    assert((c.0 * d.1) * (a.1 * b.1) <= (d.0 * c.1) * (a.1 * b.1)) by (nonlinear_arith)
        requires
            c.0 * d.1 <= d.0 * c.1,
            a.1 * b.1 > 0,
    ;
    lemma_distrib(a.0 * c.1, c.0 * a.1, b.1 * d.1);
    lemma_distrib(b.0 * d.1, d.0 * b.1, a.1 * c.1);
    lemma_mul4(a.0, c.1, b.1, d.1);
    lemma_mul4(c.0, a.1, b.1, d.1);
    lemma_mul4(b.0, d.1, a.1, c.1);
    lemma_mul4(d.0, b.1, a.1, c.1);
    lemma_mul4(b.0, a.1, c.1, d.1);
    lemma_mul4(d.0, c.1, a.1, b.1);
    lemma_mul4(c.0, d.1, a.1, b.1);
}

/// Exact addition of pairs is associative and commutative.
pub proof fn lemma_rat_add_assoc_comm(a: (int, int), b: (int, int), c: (int, int))
    ensures
        rat_add(rat_add(a, b), c) == rat_add(a, rat_add(b, c)),
        rat_add(a, b) == rat_add(b, a),
{
    let (a0, a1, b0, b1, c0, c1) = (a.0, a.1, b.0, b.1, c.0, c.1);
    lemma_mul_is_distributive_add_other_way(c1, a0 * b1, b0 * a1);
    lemma_mul_is_distributive_add_other_way(a1, b0 * c1, c0 * b1);
    lemma_mul_is_associative(a0, b1, c1);
    lemma_mul_is_associative(b0, a1, c1);
    lemma_mul_is_associative(b0, c1, a1);
    lemma_mul_is_commutative(a1, c1);
    lemma_mul_is_associative(c0, b1, a1);
    lemma_mul_is_commutative(a1, b1);
    lemma_mul_is_associative(a1, b1, c1);
    assert(a.0 * b.1 + b.0 * a.1 == b.0 * a.1 + a.0 * b.1);
}

/// The order does not depend on the representation of either side.
pub proof fn lemma_rat_le_congruent(a: (int, int), b: (int, int), c: (int, int), d: (int, int))
    requires
        a.1 > 0,
        b.1 > 0,
        c.1 > 0,
        d.1 > 0,
        rat_eq(a, c),
        rat_eq(b, d),
        rat_le(a, b),
    ensures
        rat_le(c, d),
{
    assert(rat_le(c, a)) by {
        assert(c.0 * a.1 == a.0 * c.1) by (nonlinear_arith)
            requires
                a.0 * c.1 == c.0 * a.1,
        ;
    }
    lemma_rat_le_trans(c, a, b);
    assert(rat_le(b, d)) by {
        assert(b.0 * d.1 == d.0 * b.1);
    }
    lemma_rat_le_trans(c, b, d);
}

/// Adding a non-negative amount does not decrease a value.
pub proof fn lemma_rat_le_add_nonneg(a: (int, int), c: (int, int))
    requires
        a.1 > 0,
        c.1 > 0,
        c.0 >= 0,
    ensures
        rat_le(a, rat_add(a, c)),
        rat_le(a, rat_add(c, a)),
        rat_add(a, c).1 > 0,
{
    lemma_den_product(a.1, c.1);
    assert(a.0 * (a.1 * c.1) <= (a.0 * c.1 + c.0 * a.1) * a.1) by (nonlinear_arith)
        requires
            a.1 > 0,
            c.0 >= 0,
    ;
    lemma_rat_add_assoc_comm(a, c, a);
}

/// A difference telescopes through an intermediate value.
pub proof fn lemma_rat_sub_telescope(x: (int, int), y: (int, int), z: (int, int))
    requires
        x.1 > 0,
        y.1 > 0,
        z.1 > 0,
    ensures
        rat_eq(rat_sub(z, x), rat_add(rat_sub(y, x), rat_sub(z, y))),
        rat_sub(z, x).1 > 0,
        rat_sub(y, x).1 > 0,
        rat_sub(z, y).1 > 0,
{
    lemma_den_product(z.1, x.1);
    lemma_den_product(y.1, x.1);
    lemma_den_product(z.1, y.1);
    let (x0, x1, y0, y1, z0, z1) = (x.0, x.1, y.0, y.1, z.0, z.1);
    lemma_mul_is_distributive_sub_other_way(z1 * y1, y0 * x1, x0 * y1);
    lemma_mul_is_distributive_sub_other_way(y1 * x1, z0 * y1, y0 * z1);
    assert((y0 * x1) * (z1 * y1) == (y0 * z1) * (y1 * x1)) by (nonlinear_arith);
    let s = (y0 * x1 - x0 * y1) * (z1 * y1) + (z0 * y1 - y0 * z1) * (y1 * x1);
    assert(s == (z0 * y1) * (y1 * x1) - (x0 * y1) * (z1 * y1));
    lemma_mul_is_distributive_sub_other_way(z1 * x1, (z0 * y1) * (y1 * x1), (x0 * y1) * (z1 * y1));
    lemma_mul_is_distributive_sub_other_way((y1 * x1) * (z1 * y1), z0 * x1, x0 * z1);
    assert(((z0 * y1) * (y1 * x1)) * (z1 * x1) == (z0 * x1) * ((y1 * x1) * (z1 * y1)))
        by (nonlinear_arith);
    assert(((x0 * y1) * (z1 * y1)) * (z1 * x1) == (x0 * z1) * ((y1 * x1) * (z1 * y1)))
        by (nonlinear_arith);
}

/// `a <= b - c` exactly when `a + c <= b`, and `b - c <= a` exactly when
/// `b <= c + a`.
pub proof fn lemma_rat_le_sub(a: (int, int), b: (int, int), c: (int, int))
    requires
        a.1 > 0,
        b.1 > 0,
        c.1 > 0,
    ensures
        rat_le(a, rat_sub(b, c)) <==> rat_le(rat_add(c, a), b),
        rat_le(rat_sub(b, c), a) <==> rat_le(b, rat_add(c, a)),
{
    lemma_den_product(b.1, c.1);
    lemma_den_product(c.1, a.1);
    let (a0, a1, b0, b1, c0, c1) = (a.0, a.1, b.0, b.1, c.0, c.1);
    lemma_mul_is_distributive_sub_other_way(a1, b0 * c1, c0 * b1);
    lemma_mul_is_associative(b0, c1, a1);
    lemma_mul_is_distributive_add_other_way(b1, c0 * a1, a0 * c1);
    lemma_mul_is_associative(c0, b1, a1);
    lemma_mul_is_associative(c0, a1, b1);
    lemma_mul_is_commutative(b1, a1);
    lemma_mul_is_associative(a0, c1, b1);
    lemma_mul_is_commutative(b1, c1);
    assert((b0 * c1 - c0 * b1) * a1 - a0 * (b1 * c1) == b0 * (c1 * a1) - (c0 * a1 + a0 * c1)
        * b1);
}

} // verus!

verus! {

/// `l <= b - a` exactly when `a - b <= -l`.
pub proof fn lemma_rat_le_neg_flip(l: (int, int), a: (int, int), b: (int, int))
    ensures
        rat_le(l, rat_sub(b, a)) <==> rat_le(rat_sub(a, b), rat_neg(l)),
{
    let (l0, l1, a0, a1, b0, b1) = (l.0, l.1, a.0, a.1, b.0, b.1);
    lemma_mul_is_distributive_sub_other_way(l1, b0 * a1, a0 * b1);
    lemma_mul_is_distributive_sub_other_way(l1, a0 * b1, b0 * a1);
    lemma_mul_is_commutative(b1, a1);
    vstd::arithmetic::mul::lemma_mul_unary_negation(l0, b1 * a1);
}

/// A difference of a value with itself is zero.
pub proof fn lemma_rat_sub_self(x: (int, int), w: (int, int))
    requires
        x.1 > 0,
        w.1 > 0,
        rat_le(rat_sub(x, x), w),
    ensures
        w.0 >= 0,
{
    lemma_den_product(x.1, x.1);
    assert(rat_sub(x, x).0 == 0);
    assert(0 * w.1 == 0);
    assert(w.0 * (x.1 * x.1) >= 0);
    assert(w.0 >= 0) by (nonlinear_arith)
        requires
            w.0 * (x.1 * x.1) >= 0,
            x.1 * x.1 > 0,
    ;
}

/// A zero numerator stays zero under reduction, and only a zero numerator
/// reduces to zero.
pub proof fn lemma_reduce_zero(p: (int, int))
    requires
        p.1 > 0,
    ensures
        (reduce(p).0 == 0) <==> (p.0 == 0),
{
    lemma_reduce_eq(p);
    let r = reduce(p);
    if r.0 == 0 {
        assert(p.0 * r.1 == 0);
        assert(p.0 == 0) by (nonlinear_arith)
            requires
                p.0 * r.1 == 0,
                r.1 > 0,
        ;
    }
    if p.0 == 0 {
        assert(r.0 * p.1 == 0);
        assert(r.0 == 0) by (nonlinear_arith)
            requires
                r.0 * p.1 == 0,
                p.1 > 0,
        ;
    }
}

/// Exact multiplication of pairs is associative.
pub proof fn lemma_rat_mul_assoc(a: (int, int), b: (int, int), c: (int, int))
    ensures
        rat_mul(rat_mul(a, b), c) == rat_mul(a, rat_mul(b, c)),
{
    lemma_mul_is_associative(a.0, b.0, c.0);
    lemma_mul_is_associative(a.1, b.1, c.1);
}

/// Multiplication distributes over addition, up to representation.
pub proof fn lemma_rat_distrib(a: (int, int), b: (int, int), c: (int, int))
    requires
        a.1 > 0,
        b.1 > 0,
        c.1 > 0,
    ensures
        rat_eq(rat_mul(rat_add(a, b), c), rat_add(rat_mul(a, c), rat_mul(b, c))),
{
    let (a0, a1, b0, b1, c0, c1) = (a.0, a.1, b.0, b.1, c.0, c.1);
    // left: ((a0 b1 + b0 a1) c0, (a1 b1) c1)
    // right: ((a0 c0)(b1 c1) + (b0 c0)(a1 c1), (a1 c1)(b1 c1))
    lemma_mul_is_distributive_add_other_way(c0, a0 * b1, b0 * a1);
    lemma_mul_is_distributive_add_other_way((a1 * c1) * (b1 * c1), (a0 * b1) * c0, (b0 * a1) * c0);
    lemma_mul_is_distributive_add_other_way((a1 * b1) * c1, (a0 * c0) * (b1 * c1), (b0 * c0) * (a1 * c1));
    lemma_six(a0, b1, c0, a1, c1);
    lemma_six(b0, a1, c0, b1, c1);
    lemma_mul_is_commutative(a1 * c1, b1 * c1);
    lemma_mul_is_commutative(b1, a1);
    assert((b1 * a1) * c1 == (a1 * b1) * c1);
}

/// A reduced result stands for its exact value: `reduce(p)` equals `p` as a
/// rational, with a positive denominator.
pub proof fn lemma_reduce_pos(p: (int, int))
    requires
        p.1 > 0,
    ensures
        rat_eq(reduce(p), p),
        rat_eq(p, reduce(p)),
        reduce(p).1 > 0,
{
    lemma_reduce_eq(p);
}

/// Products and sums of pairs with positive denominators have positive
/// denominators.
pub proof fn lemma_pos_ops(a: (int, int), b: (int, int))
    requires
        a.1 > 0,
        b.1 > 0,
    ensures
        rat_mul(a, b).1 > 0,
        rat_add(a, b).1 > 0,
{
    lemma_den_product(a.1, b.1);
}

/// `((x y) z) ((w v) (y v)) == ((x z) (y v)) ((w y) v)`.
proof fn lemma_six(x: int, y: int, z: int, w: int, v: int)
    ensures
        ((x * y) * z) * ((w * v) * (y * v)) == ((x * z) * (y * v)) * ((w * y) * v),
{
    let p = x * z;
    let q = y * v;
    assert((x * y) * z == p * y) by (nonlinear_arith)
        requires
            p == x * z,
    ;
    assert((w * v) * (y * v) == (w * v) * q) by (nonlinear_arith)
        requires
            q == y * v,
    ;
    assert((p * y) * ((w * v) * q) == (p * q) * ((w * y) * v)) by (nonlinear_arith)
        requires
            q == y * v,
    ;
}

} // verus!
