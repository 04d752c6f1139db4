//! Why the sum of two points of a curve over a prime field is a point of
//! the curve: the chord and tangent construction, followed through the
//! integers modulo the prime.

use crate::algebra::ops;
use crate::algebra::{
    add_spec, cube_spec, div_spec, lemma_div_valid, lemma_field_closed, mul_spec, neg_spec,
    one_spec, reciprocal_spec, sqr_spec, sub_spec, three_spec, two_spec, zero_spec,
    CommutativeOp, Configurable,
};
use crate::base_traits::Natural;
use crate::fermat::is_prime;
use crate::mod_field::{lemma_reciprocal_cancels, lemma_reciprocal_exists, ModField, ModFieldCfg};
use crate::points_group::{
    curve_ok, curve_rhs, lemma_curve_rhs_valid, lemma_sum_valid, on_curve, slope,
    slope_defined, slope_denominator, slope_numerator, sum_x, sum_y, vertical_pair, Point,
    PointCfg,
};
use vstd::arithmetic::div_mod::*;
use vstd::arithmetic::mul::*;
use vstd::prelude::*;

verus! {

/// `x` is a multiple of `p`.
pub open spec fn vanishes(x: int, p: int) -> bool {
    x % p == 0
}

/// Sums and multiples of multiples of `p` are multiples of `p`.
pub proof fn lemma_vanishes_combine(u: int, k: int, v: int, m: int, p: int)
    requires
        p > 0,
        vanishes(u, p),
        vanishes(v, p),
    ensures
        vanishes(k * u + m * v, p),
{
    lemma_mul_mod_noop_right(k, u, p);
    lemma_mul_mod_noop_right(m, v, p);
    assert(k * (u % p) == 0) by (nonlinear_arith)
        requires
            u % p == 0,
    ;
    assert(m * (v % p) == 0) by (nonlinear_arith)
        requires
            v % p == 0,
    ;
    lemma_small_mod(0, p as nat);
    assert((k * u) % p == 0);
    assert((m * v) % p == 0);
    lemma_add_mod_noop(k * u, m * v, p);
}

/// `y^2 - (x^3 + a x + b)`: zero modulo `p` where `(x, y)` is on the curve.
pub open spec fn curve_defect(x: int, y: int, a: int, b: int) -> int {
    y * y - (x * x * x + a * x + b)
}

/// What the line `y = l x + q` leaves of the curve over `x`:
/// `(l x + q)^2 - (x^3 + a x + b)`, written by powers of `x`.
pub open spec fn line_defect(x: int, l: int, q: int, a: int, b: int) -> int {
    -(x * x * x) + (l * l) * (x * x) + (2 * (l * q) - a) * x + (q * q - b)
}

/// The defect of the point of the line over `x`, by powers of `x`.
pub proof fn lemma_line_defect(x: int, l: int, q: int, a: int, b: int)
    ensures
        curve_defect(x, l * x + q, a, b) == line_defect(x, l, q, a, b),
{
    let z = l * x;
    assert((z + q) * (z + q) == z * z + 2 * (z * q) + q * q) by (nonlinear_arith);
    assert(z * z == (l * l) * (x * x)) by (nonlinear_arith)
        requires
            z == l * x,
    ;
    assert(z * q == (l * q) * x) by (nonlinear_arith)
        requires
            z == l * x,
    ;
    assert((2 * (l * q) - a) * x == 2 * ((l * q) * x) - a * x) by (nonlinear_arith);
}

/// `k (a - b + c) == k a - k b + k c`.
pub proof fn lemma_spread(k: int, a: int, b: int, c: int)
    ensures
        k * (a - b + c) == k * a - k * b + k * c,
{
    lemma_mul_is_distributive_add(k, a - b, c);
    lemma_mul_is_distributive_sub(k, a, b);
}

/// `(x - x1) (x - x2) (x - t)` by powers of `x`.
pub proof fn lemma_monic_cubic(x: int, x1: int, x2: int, t: int)
    ensures
        (x - x1) * ((x - x2) * (x - t)) == x * x * x - (x1 + x2 + t) * (x * x) + (x1 * x2 + (x1
            + x2) * t) * x - (x1 * x2) * t,
{
    let xx = x * x;
    let s = x2 + t;
    let bc = (x - x2) * (x - t);
    // (x - x2) (x - t) == xx - s x + x2 t
    lemma_mul_is_distributive_sub_other_way(x - t, x, x2);
    lemma_mul_is_distributive_sub(x, x, t);
    lemma_mul_is_distributive_sub(x2, x, t);
    lemma_mul_is_distributive_add_other_way(x, x2, t);
    lemma_mul_is_commutative(x, t);
    assert(bc == xx - s * x + x2 * t);
    // times x, and times x1
    lemma_spread(x, xx, s * x, x2 * t);
    lemma_mul_is_associative(x, s, x);
    lemma_mul_is_commutative(x, s);
    lemma_mul_is_associative(s, x, x);
    lemma_mul_is_commutative(x, x2 * t);
    lemma_mul_is_commutative(x, xx);
    assert(x * bc == xx * x - s * xx + (x2 * t) * x);
    lemma_spread(x1, xx, s * x, x2 * t);
    lemma_mul_is_associative(x1, s, x);
    lemma_mul_is_associative(x1, x2, t);
    assert(x1 * bc == x1 * xx - (x1 * s) * x + (x1 * x2) * t);
    lemma_mul_is_distributive_sub_other_way(bc, x, x1);
    assert((x - x1) * bc == x * bc - x1 * bc);
    // collect by powers of x
    lemma_mul_is_distributive_add(x1, x2, t);
    lemma_mul_is_distributive_add_other_way(t, x1, x2);
    lemma_mul_is_distributive_add_other_way(xx, x1, s);
    lemma_mul_is_distributive_add_other_way(x, x1 * x2 + x1 * t, x2 * t);
}

/// The slope term that must vanish for the line to pass through two points
/// of the curve over `x1` and `x2`.
pub open spec fn alpha(l: int, q: int, a: int, x1: int, x2: int) -> int {
    2 * (l * q) - a + (x1 * x2 + (x1 + x2) * (l * l - x1 - x2))
}

/// The constant term that goes with `alpha`.
pub open spec fn beta(l: int, q: int, b: int, x1: int, x2: int) -> int {
    q * q - b - (x1 * x2) * (l * l - x1 - x2)
}

/// Over any `x`, what the line leaves of the curve is
/// `alpha x + beta - (x - x1) (x - x2) (x - t)` with `t = l^2 - x1 - x2`.
pub proof fn lemma_line_factors(x: int, l: int, q: int, a: int, b: int, x1: int, x2: int)
    ensures
        line_defect(x, l, q, a, b) + (x - x1) * ((x - x2) * (x - (l * l - x1 - x2))) == alpha(
            l,
            q,
            a,
            x1,
            x2,
        ) * x + beta(l, q, b, x1, x2),
{
    let t = l * l - x1 - x2;
    let k1 = x1 * x2 + (x1 + x2) * t;
    let c1 = 2 * (l * q) - a;
    lemma_monic_cubic(x, x1, x2, t);
    assert(x1 + x2 + t == l * l);
    lemma_mul_is_distributive_add_other_way(x, c1, k1);
}

/// A point that differs from the one opposite `(x, l x + q)` by multiples
/// of `p` has the same defect modulo `p`.
pub proof fn lemma_mirror_defect(p: int, a: int, b: int, x: int, w: int, y: int)
    requires
        p > 0,
        vanishes(curve_defect(x, w, a, b), p),
        vanishes(y + w, p),
    ensures
        vanishes(curve_defect(x, y, a, b), p),
{
    let v = y + w;
    // y y == w w + (v - 2 w) v
    lemma_mul_is_distributive_sub(v - w, v, w);
    lemma_mul_is_distributive_sub_other_way(v, v, w);
    lemma_mul_is_distributive_sub_other_way(w, v, w);
    lemma_mul_is_commutative(v, w);
    lemma_mul_is_distributive_sub_other_way(v, v, 2 * w);
    lemma_mul_is_associative(2, w, v);
    assert(y * y == w * w + (v - 2 * w) * v);
    lemma_vanishes_combine(curve_defect(x, w, a, b), 1, v, v - 2 * w, p);
}

/// The third point of the curve on a line. All of it modulo `p`: where a
/// line with slope `l` passes through `(x1, y1)` on the curve and `alpha`
/// vanishes, any `(x3, y3)` with `x3` congruent to `l^2 - x1 - x2` and `y3`
/// to `-(l (x3 - x1) + y1)` is on the curve.
pub proof fn lemma_third_point(
    p: int,
    a: int,
    b: int,
    x1: int,
    y1: int,
    x2: int,
    l: int,
    x3: int,
    y3: int,
)
    requires
        p > 0,
        vanishes(curve_defect(x1, y1, a, b), p),
        vanishes(alpha(l, y1 - l * x1, a, x1, x2), p),
        vanishes(x3 - (l * l - x1 - x2), p),
        vanishes(y3 + (l * (x3 - x1) + y1), p),
    ensures
        vanishes(curve_defect(x3, y3, a, b), p),
{
    let q = y1 - l * x1;
    let t = l * l - x1 - x2;
    let al = alpha(l, q, a, x1, x2);
    let be = beta(l, q, b, x1, x2);
    // over x1 the line meets the curve, so beta vanishes with alpha
    lemma_line_defect(x1, l, q, a, b);
    lemma_line_factors(x1, l, q, a, b, x1, x2);
    lemma_mul_basics((x1 - x2) * (x1 - t));
    assert(vanishes(al * x1 + be, p));
    lemma_vanishes_combine(al * x1 + be, 1, al, -x1, p);
    lemma_mul_is_commutative(-x1, al);
    lemma_mul_unary_negation(al, x1);
    assert(1 * (al * x1 + be) + (-x1) * al == be);
    // over x3 the product has a factor that vanishes
    let u = x3 - t;
    let front = (x3 - x1) * (x3 - x2);
    lemma_line_factors(x3, l, q, a, b, x1, x2);
    lemma_mul_is_associative(x3 - x1, x3 - x2, u);
    lemma_vanishes_combine(al, x3, be, 1, p);
    lemma_mul_is_commutative(x3, al);
    lemma_vanishes_combine(al * x3 + be, 1, u, -front, p);
    lemma_mul_unary_negation(front, u);
    assert(1 * (al * x3 + be) + (-front) * u == line_defect(x3, l, q, a, b));
    lemma_line_defect(x3, l, q, a, b);
    // the point found is the one opposite the point of the line
    lemma_mul_is_distributive_sub(l, x3, x1);
    assert(l * (x3 - x1) + y1 == l * x3 + q);
    lemma_mirror_defect(p, a, b, x3, l * x3 + q, y3);
}

/// For the chord through two points of the curve with different `x`,
/// `alpha` vanishes modulo `p`: `l` is the slope and `r` the reciprocal of
/// the difference of the `x`.
pub proof fn lemma_chord_alpha(
    p: int,
    a: int,
    b: int,
    x1: int,
    y1: int,
    x2: int,
    y2: int,
    l: int,
    r: int,
)
    requires
        p > 0,
        vanishes(curve_defect(x1, y1, a, b), p),
        vanishes(curve_defect(x2, y2, a, b), p),
        vanishes(l * (x2 - x1) - (y2 - y1), p),
        vanishes(r * (x2 - x1) - 1, p),
    ensures
        vanishes(alpha(l, y1 - l * x1, a, x1, x2), p),
{
    let q = y1 - l * x1;
    let t = l * l - x1 - x2;
    let dx = x2 - x1;
    let h = l * dx - (y2 - y1);
    let al = alpha(l, q, a, x1, x2);
    let be = beta(l, q, b, x1, x2);
    // the line meets the curve over x1
    lemma_line_defect(x1, l, q, a, b);
    lemma_line_factors(x1, l, q, a, b, x1, x2);
    lemma_mul_basics((x1 - x2) * (x1 - t));
    let f1 = al * x1 + be;
    assert(vanishes(f1, p));
    // and over x2, where it passes h above y2
    lemma_mul_is_distributive_sub(l, x2, x1);
    assert(l * x2 + q == h + y2);
    lemma_mul_is_distributive_add(h + y2, h, y2);
    lemma_mul_is_distributive_add_other_way(h, h, y2);
    lemma_mul_is_distributive_add_other_way(y2, h, y2);
    lemma_mul_is_commutative(h, y2);
    lemma_mul_is_distributive_add_other_way(h, h, 2 * y2);
    lemma_mul_is_associative(2, y2, h);
    assert((h + y2) * (h + y2) == y2 * y2 + (h + 2 * y2) * h);
    lemma_vanishes_combine(curve_defect(x2, y2, a, b), 1, h, h + 2 * y2, p);
    lemma_line_defect(x2, l, q, a, b);
    lemma_line_factors(x2, l, q, a, b, x1, x2);
    lemma_mul_basics(x2 - t);
    lemma_mul_basics(x2 - x1);
    let f2 = al * x2 + be;
    assert(vanishes(f2, p));
    // so alpha times the difference vanishes, and with the reciprocal alpha
    lemma_mul_is_distributive_sub(al, x2, x1);
    lemma_vanishes_combine(f2, 1, f1, -1, p);
    assert(1 * f2 + (-1) * f1 == al * dx);
    let rr = r * dx - 1;
    lemma_vanishes_combine(al * dx, r, rr, -al, p);
    lemma_mul_is_associative(r, al, dx);
    lemma_mul_is_commutative(r, al);
    lemma_mul_is_associative(al, r, dx);
    lemma_mul_is_distributive_sub(al, r * dx, 1);
    lemma_mul_unary_negation(al, rr);
    assert(r * (al * dx) + (-al) * rr == al);
}

/// For the tangent at a point, `alpha` is what the slope condition leaves:
/// `l (2 y1) - (3 x1^2 + a)`.
pub proof fn lemma_tangent_alpha(a: int, x1: int, y1: int, l: int)
    ensures
        alpha(l, y1 - l * x1, a, x1, x1) == l * (2 * y1) - (3 * (x1 * x1) + a),
{
    let ll = l * l;
    let q = y1 - l * x1;
    lemma_mul_is_distributive_sub(l, y1, l * x1);
    lemma_mul_is_associative(l, l, x1);
    assert(l * q == l * y1 - ll * x1);
    lemma_mul_is_distributive_sub(x1 + x1, ll, x1 + x1);
    lemma_mul_is_distributive_add_other_way(ll, x1, x1);
    lemma_mul_is_distributive_add_other_way(x1 + x1, x1, x1);
    lemma_mul_is_distributive_add(x1, x1, x1);
    lemma_mul_is_commutative(x1, ll);
    assert((x1 + x1) * (ll - x1 - x1) == 2 * (ll * x1) - 4 * (x1 * x1));
    lemma_mul_is_associative(l, 2, y1);
    lemma_mul_is_commutative(l, 2);
    lemma_mul_is_associative(2, l, y1);
    assert(l * (2 * y1) == 2 * (l * y1));
}

/// `x` and `y` are congruent modulo `p`.
pub open spec fn cong(x: int, y: int, p: int) -> bool {
    x % p == y % p
}

/// A number is congruent to its remainder.
pub proof fn lemma_cong_mod(x: int, p: int)
    requires
        p > 0,
    ensures
        cong(x % p, x, p),
{
    lemma_mod_twice(x, p);
}

/// Congruent numbers differ by a multiple of the modulus.
pub proof fn lemma_cong_vanishes(x: int, y: int, p: int)
    requires
        p > 0,
    ensures
        cong(x, y, p) <==> vanishes(x - y, p),
{
    lemma_mod_equivalence(x, y, p);
}

/// Sums, differences and negatives of congruent numbers are congruent.
pub proof fn lemma_cong_add(x: int, x0: int, y: int, y0: int, p: int)
    requires
        p > 0,
        cong(x, x0, p),
        cong(y, y0, p),
    ensures
        cong(x + y, x0 + y0, p),
        cong(x - y, x0 - y0, p),
        cong(-y, -y0, p),
{
    lemma_add_mod_noop(x, y, p);
    lemma_add_mod_noop(x0, y0, p);
    lemma_sub_mod_noop(x, y, p);
    lemma_sub_mod_noop(x0, y0, p);
    lemma_sub_mod_noop(0, y, p);
    lemma_sub_mod_noop(0, y0, p);
}

/// Products of congruent numbers are congruent.
pub proof fn lemma_cong_mul(x: int, x0: int, y: int, y0: int, p: int)
    requires
        p > 0,
        cong(x, x0, p),
        cong(y, y0, p),
    ensures
        cong(x * y, x0 * y0, p),
{
    lemma_mul_mod_noop(x, y, p);
    lemma_mul_mod_noop(x0, y0, p);
}

/// Congruent numbers below the modulus are equal.
pub proof fn lemma_cong_small(x: int, y: int, p: int)
    requires
        0 <= x < p,
        0 <= y < p,
        cong(x, y, p),
    ensures
        x == y,
{
    lemma_small_mod(x as nat, p as nat);
    lemma_small_mod(y as nat, p as nat);
}

/// The number that an element holds, as an integer.
pub open spec fn iv<I: Natural>(a: ModField<I>) -> int {
    a.value() as int
}

/// The operations of the field are those of the integers modulo the
/// modulus.
pub proof fn lemma_field_values<I: Natural>(a: ModField<I>, b: ModField<I>, c: &ModFieldCfg<I>)
    requires
        ModField::<I>::cfg_ok(c),
        a.valid(c),
        b.valid(c),
    ensures
        cong(iv(add_spec(a, b, c)), iv(a) + iv(b), c.rem.value() as int),
        cong(iv(neg_spec(a, c)), -iv(a), c.rem.value() as int),
        cong(iv(sub_spec(a, b, c)), iv(a) - iv(b), c.rem.value() as int),
        cong(iv(mul_spec(a, b, c)), iv(a) * iv(b), c.rem.value() as int),
        cong(iv(sqr_spec(a, c)), iv(a) * iv(a), c.rem.value() as int),
        cong(iv(cube_spec(a, c)), iv(a) * iv(a) * iv(a), c.rem.value() as int),
{
    let p = c.rem.value() as int;
    lemma_field_closed(a, b, c);
    let nb = neg_spec(b, c);
    ModField::<I>::lemma_residue_valid(((iv(a) + iv(b)) % p) as nat, c);
    lemma_cong_mod(iv(a) + iv(b), p);
    ModField::<I>::lemma_residue_valid(((p - iv(a)) % p) as nat, c);
    ModField::<I>::lemma_residue_valid(((p - iv(b)) % p) as nat, c);
    lemma_cong_mod(p - iv(a), p);
    lemma_cong_mod(p - iv(b), p);
    lemma_mod_self_0(p);
    lemma_small_mod(0, p as nat);
    lemma_cong_add(p, 0, iv(a), iv(a), p);
    lemma_cong_add(p, 0, iv(b), iv(b), p);
    ModField::<I>::lemma_residue_valid(((iv(a) + iv(nb)) % p) as nat, c);
    lemma_cong_mod(iv(a) + iv(nb), p);
    lemma_cong_add(iv(a), iv(a), iv(nb), -iv(b), p);
    lemma_mul_nonnegative(iv(a), iv(b));
    lemma_mul_nonnegative(iv(a), iv(a));
    lemma_mod_bound(iv(a) * iv(b), p);
    lemma_mod_bound(iv(a) * iv(a), p);
    ModField::<I>::lemma_residue_valid(((iv(a) * iv(b)) % p) as nat, c);
    ModField::<I>::lemma_residue_valid(((iv(a) * iv(a)) % p) as nat, c);
    lemma_cong_mod(iv(a) * iv(b), p);
    lemma_cong_mod(iv(a) * iv(a), p);
    let sq = sqr_spec(a, c);
    lemma_mul_nonnegative(iv(sq), iv(a));
    lemma_mod_bound(iv(sq) * iv(a), p);
    ModField::<I>::lemma_residue_valid(((iv(sq) * iv(a)) % p) as nat, c);
    lemma_cong_mod(iv(sq) * iv(a), p);
    lemma_cong_mul(iv(sq), iv(a) * iv(a), iv(a), iv(a), p);
}

/// The right side of the curve equation is `x^3 + a x + b` modulo the
/// modulus.
pub proof fn lemma_curve_rhs_value<I: Natural>(x: ModField<I>, c: &PointCfg<ModField<I>>)
    requires
        curve_ok(c),
        x.valid(&c.cf),
    ensures
        cong(
            iv(curve_rhs(x, c)),
            iv(x) * iv(x) * iv(x) + iv(c.a) * iv(x) + iv(c.b),
            c.cf.rem.value() as int,
        ),
{
    let cf = &c.cf;
    let p = cf.rem.value() as int;
    let cu = cube_spec(x, cf);
    let ax = mul_spec(c.a, x, cf);
    lemma_field_closed(x, x, cf);
    lemma_field_closed(c.a, x, cf);
    lemma_field_values(x, x, cf);
    lemma_field_values(c.a, x, cf);
    lemma_field_closed(cu, ax, cf);
    lemma_field_values(cu, ax, cf);
    let s1 = add_spec(cu, ax, cf);
    lemma_field_values(s1, c.b, cf);
    lemma_cong_add(iv(cu), iv(x) * iv(x) * iv(x), iv(ax), iv(c.a) * iv(x), p);
    lemma_cong_mod(iv(c.b), p);
    lemma_cong_add(iv(s1), iv(x) * iv(x) * iv(x) + iv(c.a) * iv(x), iv(c.b), iv(c.b), p);
}

/// A pair of field elements is on the curve exactly where its defect
/// vanishes modulo the modulus.
pub proof fn lemma_on_curve_defect<I: Natural>(
    x: ModField<I>,
    y: ModField<I>,
    c: &PointCfg<ModField<I>>,
)
    requires
        curve_ok(c),
        x.valid(&c.cf),
        y.valid(&c.cf),
    ensures
        on_curve(x, y, c) <==> vanishes(
            curve_defect(iv(x), iv(y), iv(c.a), iv(c.b)),
            c.cf.rem.value() as int,
        ),
{
    let cf = &c.cf;
    let p = cf.rem.value() as int;
    let lhs = sqr_spec(y, cf);
    let rhs = curve_rhs(x, c);
    let poly = iv(x) * iv(x) * iv(x) + iv(c.a) * iv(x) + iv(c.b);
    lemma_field_closed(y, y, cf);
    lemma_field_values(y, y, cf);
    lemma_curve_rhs_valid(x, c);
    lemma_curve_rhs_value(x, c);
    lhs.lemma_residue_of_value(cf);
    rhs.lemma_residue_of_value(cf);
    lemma_cong_vanishes(iv(y) * iv(y), poly, p);
    if vanishes(curve_defect(iv(x), iv(y), iv(c.a), iv(c.b)), p) {
        lemma_cong_small(iv(lhs), iv(rhs), p);
    }
}

/// Over a field with a prime modulus the sum of two points of the curve
/// lies on the curve: where the pair is not vertical and the slope
/// exists, the point that the formulas give satisfies the equation.
pub proof fn lemma_sum_on_curve<I: Natural>(
    pa: Point<ModField<I>>,
    pb: Point<ModField<I>>,
    c: &PointCfg<ModField<I>>,
)
    requires
        curve_ok(c),
        is_prime(c.cf.rem.value()),
        pa.valid(c),
        pb.valid(c),
        !vertical_pair(pa, pb),
        slope_defined(pa, pb, c),
    ensures
        on_curve(sum_x(pa, pb, c), sum_y(pa, pb, c), c),
        <Point<ModField<I>> as CommutativeOp<ops::Add>>::op_defined(pa, pb, c),
{
    let cf = &c.cf;
    let p = cf.rem.value() as int;
    let (x1, y1, x2, y2) = (iv(pa.x), iv(pa.y), iv(pb.x), iv(pb.y));
    let (a, b) = (iv(c.a), iv(c.b));
    let num = slope_numerator(pa, pb, c);
    let den = slope_denominator(pa, pb, c);
    let rden = reciprocal_spec(den, cf).unwrap();
    let l = slope(pa, pb, c);
    let x3 = sum_x(pa, pb, c);
    let y3 = sum_y(pa, pb, c);
    lemma_sum_valid(pa, pb, c);
    lemma_div_valid(num, den, cf);
    lemma_on_curve_defect(pa.x, pa.y, c);
    lemma_on_curve_defect(pb.x, pb.y, c);
    // the slope times the denominator is the numerator
    lemma_reciprocal_cancels(den, cf);
    lemma_field_values(rden, den, cf);
    ModField::<I>::lemma_residue_valid(1, cf);
    lemma_field_values(num, rden, cf);
    lemma_cong_mod(iv(den), p);
    lemma_cong_mul(iv(l), iv(num) * iv(rden), iv(den), iv(den), p);
    lemma_mul_is_associative(iv(num), iv(rden), iv(den));
    lemma_cong_mod(iv(num), p);
    lemma_cong_mul(iv(num), iv(num), iv(rden) * iv(den), 1, p);
    assert(cong(iv(l) * iv(den), iv(num), p));
    lemma_cong_mod(iv(l), p);
    lemma_cong_mod(iv(rden), p);
    // alpha vanishes
    if pa != pb {
        lemma_field_values(pb.x, pa.x, cf);
        lemma_field_values(pb.y, pa.y, cf);
        lemma_cong_mul(iv(l), iv(l), iv(den), x2 - x1, p);
        lemma_cong_mul(iv(rden), iv(rden), iv(den), x2 - x1, p);
        lemma_cong_vanishes(iv(l) * (x2 - x1), y2 - y1, p);
        lemma_cong_vanishes(iv(rden) * (x2 - x1), 1, p);
        lemma_chord_alpha(p, a, b, x1, y1, x2, y2, iv(l), iv(rden));
    } else {
        let two = two_spec::<ModField<I>>(cf);
        let three = three_spec::<ModField<I>>(cf);
        let one = one_spec::<ModField<I>>(cf);
        lemma_field_closed(one, one, cf);
        lemma_field_values(one, one, cf);
        lemma_field_values(two, one, cf);
        lemma_cong_mod(1, p);
        lemma_cong_add(iv(two), 2, iv(one), 1, p);
        lemma_field_values(two, pa.y, cf);
        lemma_cong_mod(y1, p);
        lemma_cong_mul(iv(two), 2, y1, y1, p);
        let sq = sqr_spec(pa.x, cf);
        lemma_field_closed(pa.x, pa.x, cf);
        lemma_field_values(pa.x, pa.x, cf);
        lemma_field_closed(three, sq, cf);
        lemma_field_values(three, sq, cf);
        lemma_cong_mul(iv(three), 3, iv(sq), x1 * x1, p);
        let tsq = mul_spec(three, sq, cf);
        lemma_field_values(tsq, c.a, cf);
        lemma_cong_mod(a, p);
        lemma_cong_add(iv(tsq), 3 * (x1 * x1), a, a, p);
        lemma_cong_mul(iv(l), iv(l), iv(den), 2 * y1, p);
        lemma_cong_vanishes(iv(l) * (2 * y1), 3 * (x1 * x1) + a, p);
        lemma_tangent_alpha(a, x1, y1, iv(l));
    }
    // the coordinates of the sum are those of the third point
    let ll = sqr_spec(l, cf);
    let sx = add_spec(pa.x, pb.x, cf);
    lemma_field_closed(l, l, cf);
    lemma_field_values(l, l, cf);
    lemma_field_closed(pa.x, pb.x, cf);
    lemma_field_values(pa.x, pb.x, cf);
    lemma_field_values(ll, sx, cf);
    lemma_cong_add(iv(ll), iv(l) * iv(l), iv(sx), x1 + x2, p);
    let dx = sub_spec(x3, pa.x, cf);
    lemma_field_closed(x3, pa.x, cf);
    lemma_field_values(x3, pa.x, cf);
    lemma_field_closed(l, dx, cf);
    lemma_field_values(l, dx, cf);
    lemma_cong_mul(iv(l), iv(l), iv(dx), iv(x3) - x1, p);
    let ldx = mul_spec(l, dx, cf);
    lemma_field_closed(ldx, pa.y, cf);
    lemma_field_values(ldx, pa.y, cf);
    lemma_cong_mod(y1, p);
    lemma_cong_add(iv(ldx), iv(l) * (iv(x3) - x1), y1, y1, p);
    let w = add_spec(ldx, pa.y, cf);
    lemma_field_values(w, w, cf);
    lemma_cong_add(0, 0, iv(w), iv(l) * (iv(x3) - x1) + y1, p);
    lemma_cong_vanishes(iv(x3), iv(l) * iv(l) - x1 - x2, p);
    lemma_cong_vanishes(iv(y3), -(iv(l) * (iv(x3) - x1) + y1), p);
    lemma_third_point(p, a, b, x1, y1, x2, iv(l), iv(x3), iv(y3));
    lemma_on_curve_defect(x3, y3, c);
}

/// Over a field with a prime modulus two points of the curve have a sum
/// unless they are mirror images of each other, or are one point whose
/// `2 y` is zero.
pub proof fn lemma_sum_defined<I: Natural>(
    pa: Point<ModField<I>>,
    pb: Point<ModField<I>>,
    c: &PointCfg<ModField<I>>,
)
    requires
        curve_ok(c),
        is_prime(c.cf.rem.value()),
        pa.valid(c),
        pb.valid(c),
    ensures
        <Point<ModField<I>> as CommutativeOp<ops::Add>>::op_defined(pa, pb, c) <==> !vertical_pair(
            pa,
            pb,
        ) && (pa == pb ==> mul_spec(two_spec::<ModField<I>>(&c.cf), pa.y, &c.cf) != zero_spec::<
            ModField<I>,
        >(&c.cf)),
{
    let cf = &c.cf;
    let p = cf.rem.value() as int;
    let den = slope_denominator(pa, pb, c);
    let zero = zero_spec::<ModField<I>>(cf);
    lemma_field_closed(pb.x, pa.x, cf);
    lemma_field_closed(two_spec::<ModField<I>>(cf), pa.y, cf);
    lemma_reciprocal_exists(den, cf);
    if !vertical_pair(pa, pb) {
        if pa != pb {
            // different x have a difference other than zero
            lemma_field_values(pb.x, pa.x, cf);
            ModField::<I>::lemma_residue_valid(0, cf);
            if den == zero {
                lemma_small_mod(0, p as nat);
                lemma_cong_vanishes(iv(pb.x), iv(pa.x), p);
                lemma_cong_small(iv(pb.x), iv(pa.x), p);
                pa.x.lemma_residue_of_value(cf);
                pb.x.lemma_residue_of_value(cf);
            }
        }
        if den != zero {
            lemma_sum_on_curve(pa, pb, c);
        }
    }
}

} // verus!
