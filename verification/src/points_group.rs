//! The points of a curve `y^2 = x^3 + a x + b` over a field, with chord
//! and tangent addition. The point at infinity is left out, so the sum of
//! a point and its mirror image is not defined.

use crate::algebra::ops;
use crate::algebra::{
    add_spec, cube_spec, div_spec, lemma_div_valid, lemma_field_closed, lemma_sqr_neg, mul_spec,
    neg_spec, reciprocal_spec, sqr_spec, sub_spec, three_spec, two_spec, CommutativeOp,
    Configurable, DiscreteRoot, Field, InitialPoint, Inverse,
};
use crate::base_traits::{FromRandom, RandomSource, RW};
use vstd::prelude::*;
use vstd::slice::slice_subrange;

verus! {

/// A point of a curve `y^2 = x^3 + a x + b` over the field `F`. With the
/// configuration `c` a point is valid where its coordinates are valid
/// field elements that satisfy the equation of `c`.
#[derive(Debug, PartialEq, Eq)]
pub struct Point<F> {
    pub x: F,
    pub y: F,
}

impl<F: Copy> Clone for Point<F> {
    fn clone(&self) -> (r: Self)
        ensures
            r == *self,
    {
        *self
    }
}

impl<F: Copy> Copy for Point<F> {

}

/// A curve: its coefficients, its generator and the configuration of the
/// field it is built on.
pub struct PointCfg<F: Field> {
    pub g: Point<F>,
    pub a: F,
    pub b: F,
    pub cf: F::Cfg,
}

/// The field and the two coefficients are usable.
pub open spec fn curve_ok<F: Field>(cp: &PointCfg<F>) -> bool {
    &&& F::cfg_ok(&cp.cf)
    &&& cp.a.valid(&cp.cf)
    &&& cp.b.valid(&cp.cf)
}

/// `x^3 + a x + b`.
pub open spec fn curve_rhs<F: Field>(x: F, cp: &PointCfg<F>) -> F {
    add_spec(add_spec(cube_spec(x, &cp.cf), mul_spec(cp.a, x, &cp.cf), &cp.cf), cp.b, &cp.cf)
}

/// `y^2 = x^3 + a x + b`.
pub open spec fn on_curve<F: Field>(x: F, y: F, cp: &PointCfg<F>) -> bool {
    sqr_spec(y, &cp.cf) == curve_rhs(x, cp)
}

/// The right side of the curve equation is a valid field element.
pub proof fn lemma_curve_rhs_valid<F: Field>(x: F, cp: &PointCfg<F>)
    requires
        curve_ok(cp),
        x.valid(&cp.cf),
    ensures
        curve_rhs(x, cp).valid(&cp.cf),
{
    let cf = &cp.cf;
    lemma_field_closed(x, x, cf);
    lemma_field_closed(cp.a, x, cf);
    lemma_field_closed(cube_spec(x, cf), mul_spec(cp.a, x, cf), cf);
    lemma_field_closed(add_spec(cube_spec(x, cf), mul_spec(cp.a, x, cf), cf), cp.b, cf);
}

/// Computes `x^3 + a x + b`.
pub fn eval_curve<F: Field>(x: F, cp: &PointCfg<F>) -> (r: F)
    requires
        curve_ok(cp),
        x.valid(&cp.cf),
    ensures
        r == curve_rhs(x, cp),
        r.valid(&cp.cf),
{
    F::add(F::add(x.cube(&cp.cf), F::mul(cp.a, x, &cp.cf), &cp.cf), cp.b, &cp.cf)
}

/// Whether `(x, y)` satisfies the equation of the curve.
pub fn satisfies_curve<F: Field>(x: F, y: F, cp: &PointCfg<F>) -> (r: bool)
    requires
        curve_ok(cp),
        x.valid(&cp.cf),
        y.valid(&cp.cf),
    ensures
        r == on_curve(x, y, cp),
{
    let lhs = y.sqr(&cp.cf);
    let rhs = eval_curve(x, cp);
    lhs.same(rhs)
}

/// The slope of the line through `p` and `q` has a denominator with a
/// reciprocal: `x2 - x1` for two points, `2 y1` for the tangent at one.
pub open spec fn slope_defined<F: Field>(p: Point<F>, q: Point<F>, c: &PointCfg<F>) -> bool {
    reciprocal_spec(slope_denominator(p, q, c), &c.cf) is Some
}

/// `y2 - y1` for two points, `3 x1^2 + a` for one.
pub open spec fn slope_numerator<F: Field>(p: Point<F>, q: Point<F>, c: &PointCfg<F>) -> F {
    if p != q {
        sub_spec(q.y, p.y, &c.cf)
    } else {
        add_spec(mul_spec(three_spec::<F>(&c.cf), sqr_spec(p.x, &c.cf), &c.cf), c.a, &c.cf)
    }
}

/// `x2 - x1` for two points, `2 y1` for one.
pub open spec fn slope_denominator<F: Field>(p: Point<F>, q: Point<F>, c: &PointCfg<F>) -> F {
    if p != q {
        sub_spec(q.x, p.x, &c.cf)
    } else {
        mul_spec(two_spec::<F>(&c.cf), p.y, &c.cf)
    }
}

/// `(y2 - y1) / (x2 - x1)` for two points, `(3 x1^2 + a) / (2 y1)` for one.
pub open spec fn slope<F: Field>(p: Point<F>, q: Point<F>, c: &PointCfg<F>) -> F {
    div_spec(slope_numerator(p, q, c), slope_denominator(p, q, c), &c.cf)
}

/// `l^2 - (x1 + x2)`.
pub open spec fn sum_x<F: Field>(p: Point<F>, q: Point<F>, c: &PointCfg<F>) -> F {
    sub_spec(sqr_spec(slope(p, q, c), &c.cf), add_spec(p.x, q.x, &c.cf), &c.cf)
}

/// `-(l (x3 - x1) + y1)`.
pub open spec fn sum_y<F: Field>(p: Point<F>, q: Point<F>, c: &PointCfg<F>) -> F {
    neg_spec(
        add_spec(
            mul_spec(slope(p, q, c), sub_spec(sum_x(p, q, c), p.x, &c.cf), &c.cf),
            p.y,
            &c.cf,
        ),
        &c.cf,
    )
}

/// The two points share `x` and differ in `y`: their sum would be the
/// point at infinity, which this group does not have.
pub open spec fn vertical_pair<F: Field>(p: Point<F>, q: Point<F>) -> bool {
    p.x == q.x && p.y != q.y
}

/// Where the slope exists, it and the coordinates of the sum are valid
/// field elements.
pub proof fn lemma_sum_valid<F: Field>(p: Point<F>, q: Point<F>, c: &PointCfg<F>)
    requires
        curve_ok(c),
        p.x.valid(&c.cf),
        p.y.valid(&c.cf),
        q.x.valid(&c.cf),
        q.y.valid(&c.cf),
        slope_defined(p, q, c),
    ensures
        slope_numerator(p, q, c).valid(&c.cf),
        slope_denominator(p, q, c).valid(&c.cf),
        slope(p, q, c).valid(&c.cf),
        sum_x(p, q, c).valid(&c.cf),
        sum_y(p, q, c).valid(&c.cf),
{
    let cf = &c.cf;
    lemma_field_closed(q.y, p.y, cf);
    lemma_field_closed(q.x, p.x, cf);
    lemma_field_closed(p.x, q.x, cf);
    lemma_field_closed(three_spec::<F>(cf), sqr_spec(p.x, cf), cf);
    lemma_field_closed(mul_spec(three_spec::<F>(cf), sqr_spec(p.x, cf), cf), c.a, cf);
    lemma_field_closed(two_spec::<F>(cf), p.y, cf);
    lemma_div_valid(slope_numerator(p, q, c), slope_denominator(p, q, c), cf);
    let l = slope(p, q, c);
    lemma_field_closed(l, l, cf);
    lemma_field_closed(sqr_spec(l, cf), add_spec(p.x, q.x, cf), cf);
    let x3 = sum_x(p, q, c);
    lemma_field_closed(x3, p.x, cf);
    lemma_field_closed(l, sub_spec(x3, p.x, cf), cf);
    lemma_field_closed(mul_spec(l, sub_spec(x3, p.x, cf), cf), p.y, cf);
    lemma_field_closed(add_spec(mul_spec(l, sub_spec(x3, p.x, cf), cf), p.y, cf), p.y, cf);
}

impl<F: Field> Point<F> {
    /// Makes a point of coordinates that are not checked against any curve.
    pub fn new_unsafe(x: F, y: F) -> (r: Self)
        ensures
            r == (Point { x, y }),
    {
        Self { x, y }
    }

    /// Makes a point of coordinates that satisfy the equation of the curve.
    pub fn new(x: F, y: F, cp: &PointCfg<F>) -> (r: Self)
        requires
            curve_ok(cp),
            x.valid(&cp.cf),
            y.valid(&cp.cf),
            on_curve(x, y, cp),
        ensures
            r == (Point { x, y }),
            r.valid(cp),
    {
        Self { x, y }
    }

    /// Makes a point of coordinates where they satisfy the equation of the
    /// curve, and `None` where they do not.
    pub fn try_new(x: F, y: F, cp: &PointCfg<F>) -> (r: Option<Self>)
        requires
            curve_ok(cp),
        ensures
            r == (if (Point { x, y }).valid(cp) {
                Some(Point { x, y })
            } else {
                None
            }),
    {
        let p = Self { x, y };
        if p.validate(cp) {
            Some(p)
        } else {
            None
        }
    }

    /// Whether the coordinates are valid field elements that satisfy the
    /// equation of the curve.
    pub fn validate(self, cp: &PointCfg<F>) -> (r: bool)
        requires
            curve_ok(cp),
        ensures
            r == self.valid(cp),
    {
        if !self.x.is_valid(&cp.cf) {
            return false;
        }
        if !self.y.is_valid(&cp.cf) {
            return false;
        }
        satisfies_curve(self.x, self.y, cp)
    }

    /// The first coordinate.
    pub fn x(self) -> (r: F)
        ensures
            r == self.x,
    {
        self.x
    }

    /// The second coordinate.
    pub fn y(self) -> (r: F)
        ensures
            r == self.y,
    {
        self.y
    }
}

impl<F: Field> Configurable for Point<F> {
    type Cfg = PointCfg<F>;

    /// The curve is usable and its generator lies on it.
    open spec fn cfg_ok(c: &PointCfg<F>) -> bool {
        &&& curve_ok(c)
        &&& c.g.x.valid(&c.cf)
        &&& c.g.y.valid(&c.cf)
        &&& on_curve(c.g.x, c.g.y, c)
    }

    open spec fn valid(self, c: &PointCfg<F>) -> bool {
        &&& self.x.valid(&c.cf)
        &&& self.y.valid(&c.cf)
        &&& on_curve(self.x, self.y, c)
    }

    fn is_valid(self, c: &PointCfg<F>) -> (r: bool) {
        self.validate(c)
    }

    fn same(self, rhs: Self) -> (r: bool) {
        self.x.same(rhs.x) && self.y.same(rhs.y)
    }
}

impl<F: Field> CommutativeOp<ops::Add> for Point<F> {
    /// The pair is not vertical, the slope exists, and what the formulas
    /// give lies on the curve.
    open spec fn op_defined(a: Self, b: Self, c: &PointCfg<F>) -> bool {
        &&& !vertical_pair(a, b)
        &&& slope_defined(a, b, c)
        &&& on_curve(sum_x(a, b, c), sum_y(a, b, c), c)
    }

    /// The third point of the curve on the line through `a` and `b`,
    /// mirrored: chord addition, and tangent doubling where `a == b`.
    open spec fn op_spec(a: Self, b: Self, c: &PointCfg<F>) -> Self {
        Point { x: sum_x(a, b, c), y: sum_y(a, b, c) }
    }

    proof fn lemma_op_valid(a: Self, b: Self, c: &PointCfg<F>) {
        lemma_sum_valid(a, b, c);
    }

    fn op(a: Self, b: Self, c: &PointCfg<F>) -> (r: Self) {
        let Point { x: x1, y: y1 } = a;
        let Point { x: x2, y: y2 } = b;
        let cf = &c.cf;
        proof {
            lemma_sum_valid(a, b, c);
        }
        let l = if !a.same(b) {
            F::div(F::sub(y2, y1, cf), F::sub(x2, x1, cf), cf)
        } else {
            F::div(
                F::add(F::mul(F::three(cf), x1.sqr(cf), cf), c.a, cf),
                F::mul(F::two(cf), y1, cf),
                cf,
            )
        };
        let x3 = F::sub(l.sqr(cf), F::add(x1, x2, cf), cf);
        let y3 = F::neg(F::add(F::mul(l, F::sub(x3, x1, cf), cf), y1, cf), cf);
        Point::new(x3, y3, c)
    }

    fn try_op(a: Self, b: Self, c: &PointCfg<F>) -> (r: Option<Self>) {
        let Point { x: x1, y: y1 } = a;
        let Point { x: x2, y: y2 } = b;
        let cf = &c.cf;
        let same_x = x1.same(x2);
        let same_y = y1.same(y2);
        if same_x && !same_y {
            return None;
        }
        let (num, den) = if !(same_x && same_y) {
            (F::sub(y2, y1, cf), F::sub(x2, x1, cf))
        } else {
            (F::add(F::mul(F::three(cf), x1.sqr(cf), cf), c.a, cf), F::mul(F::two(cf), y1, cf))
        };
        let l = match F::reciprocal(den, cf) {
            None => {
                return None;
            },
            Some(rden) => F::mul(num, rden, cf),
        };
        let x3 = F::sub(l.sqr(cf), F::add(x1, x2, cf), cf);
        let y3 = F::neg(F::add(F::mul(l, F::sub(x3, x1, cf), cf), y1, cf), cf);
        if satisfies_curve(x3, y3, c) {
            Some(Point { x: x3, y: y3 })
        } else {
            None
        }
    }
}

impl<F: Field> Inverse<ops::Add> for Point<F> {
    /// The mirror image `(x, -y)`.
    open spec fn inv_spec(self, c: &PointCfg<F>) -> Self {
        Point { x: self.x, y: neg_spec(self.y, &c.cf) }
    }

    proof fn lemma_inv_valid(self, c: &PointCfg<F>) {
        lemma_field_closed(self.y, self.y, &c.cf);
        lemma_sqr_neg(self.y, &c.cf);
    }

    fn inv(self, c: &PointCfg<F>) -> (r: Self) {
        proof {
            self.lemma_inv_valid(c);
        }
        Self { x: self.x, y: F::neg(self.y, &c.cf) }
    }
}

impl<F: Field + DiscreteRoot<ops::Mul>> Point<F> {
    /// The point with the given `x` whose `y` is the root that the field
    /// finds of `x^3 + a x + b`; `None` where it finds none.
    pub fn from_x(x: F, cp: &PointCfg<F>) -> (r: Option<Self>)
        requires
            curve_ok(cp),
            F::root_cfg_ok(&cp.cf),
            x.valid(&cp.cf),
        ensures
            r == lift_x(x, cp),
            r matches Some(p) ==> p.valid(cp),
    {
        let y2 = eval_curve(x, cp);
        proof {
            y2.lemma_sqrt(&cp.cf);
        }
        match y2.sqrt(&cp.cf) {
            None => None,
            Some(yres) => Some(Self::new(x, yres, cp)),
        }
    }

    /// As `from_x`, for an `x` that need not be a valid field element:
    /// `None` where it is not.
    pub fn try_from_x(x: F, cp: &PointCfg<F>) -> (r: Option<Self>)
        requires
            curve_ok(cp),
            F::root_cfg_ok(&cp.cf),
        ensures
            r == try_lift_x(x, cp),
            r matches Some(p) ==> p.valid(cp),
    {
        if x.is_valid(&cp.cf) {
            Self::from_x(x, cp)
        } else {
            None
        }
    }
}

/// The point over `x`, where the field finds a root of `x^3 + a x + b`.
pub open spec fn lift_x<F: Field + DiscreteRoot<ops::Mul>>(x: F, cp: &PointCfg<F>) -> Option<
    Point<F>,
> {
    match curve_rhs(x, cp).sqrt_spec(&cp.cf) {
        None => None,
        Some(y) => Some(Point { x, y }),
    }
}

/// The point over `x`, where `x` is a valid field element and the field
/// finds a root of `x^3 + a x + b`.
pub open spec fn try_lift_x<F: Field + DiscreteRoot<ops::Mul>>(x: F, cp: &PointCfg<F>) -> Option<
    Point<F>,
> {
    if x.valid(&cp.cf) {
        lift_x(x, cp)
    } else {
        None
    }
}

/// How often `Point::random` draws an `x` before it gives up.
pub const POINT_DRAWS: usize = 128;

/// `res` is what the search for a point ends with when it draws the
/// elements `drawn`, in this order: each is an element that `F::random` can
/// give, none but the last lifts to the curve, the last lifts to `res`, and
/// the search gives up only after `POINT_DRAWS` draws.
pub open spec fn point_search<F: Field + DiscreteRoot<ops::Mul> + FromRandom<F::Cfg>>(
    drawn: Seq<F>,
    cfg: &PointCfg<F>,
    res: Option<Point<F>>,
) -> bool {
    &&& 1 <= drawn.len() <= POINT_DRAWS
    &&& forall|i: int| 0 <= i < drawn.len() ==> (#[trigger] drawn[i]).random_ok(&cfg.cf)
    &&& forall|i: int| 0 <= i < drawn.len() - 1 ==> try_lift_x(#[trigger] drawn[i], cfg) is None
    &&& res == try_lift_x(drawn.last(), cfg)
    &&& res is None ==> drawn.len() == POINT_DRAWS
}

impl<F: Field + DiscreteRoot<ops::Mul> + FromRandom<F::Cfg>> Point<F> {
    /// Draws `x` until one lifts to the curve, at most `POINT_DRAWS` times;
    /// `None` where none did. Whatever is drawn, the result is the point
    /// over the first `x` drawn that lifts.
    pub fn random<R: RandomSource>(r: &mut R, cfg: &PointCfg<F>) -> (res: Option<Self>)
        requires
            curve_ok(cfg),
            F::root_cfg_ok(&cfg.cf),
            F::random_cfg_ok(&cfg.cf),
        ensures
            exists|drawn: Seq<F>| #[trigger] point_search(drawn, cfg, res),
            res matches Some(p) ==> p.valid(cfg) && lift_x(p.x, cfg) == Some(p),
    {
        let mut left: usize = POINT_DRAWS;
        let ghost mut seen: Seq<F> = Seq::empty();
        while left > 0
            invariant
                curve_ok(cfg),
                F::root_cfg_ok(&cfg.cf),
                F::random_cfg_ok(&cfg.cf),
                left <= POINT_DRAWS,
                seen.len() == POINT_DRAWS - left,
                forall|i: int| 0 <= i < seen.len() ==> (#[trigger] seen[i]).random_ok(&cfg.cf),
                forall|i: int| 0 <= i < seen.len() ==> try_lift_x(#[trigger] seen[i], cfg) is None,
            decreases left,
        {
            let x = F::random(r, &cfg.cf);
            let found = Self::try_from_x(x, cfg);
            proof {
                seen = seen.push(x);
            }
            match found {
                Some(p) => {
                    proof {
                        assert(point_search(seen, cfg, found));
                    }
                    return Some(p);
                },
                None => {},
            }
            left = left - 1;
        }
        proof {
            assert(point_search(seen, cfg, None));
        }
        None
    }
}

impl<F: RW + Field> Point<F> {
    /// The encoding of the point: the bytes of `x`, then those of `y`.
    pub fn bytes(self) -> (r: Vec<u8>)
        ensures
            r@ == self.bytes_spec(),
    {
        let mut r: Vec<u8> = Vec::new();
        self.to_bytes(&mut r);
        proof {
            assert(r@ =~= self.bytes_spec());
        }
        r
    }
}

impl<F: RW + Field> RW for Point<F> {
    const LEN: usize = F::LEN * 2;

    open spec fn len_spec() -> nat {
        2 * F::len_spec()
    }

    /// The bytes of `x`, then those of `y`.
    open spec fn bytes_spec(self) -> Seq<u8> {
        self.x.bytes_spec() + self.y.bytes_spec()
    }

    open spec fn from_bytes_spec(b: Seq<u8>) -> Self {
        Point {
            x: F::from_bytes_spec(b.subrange(0, F::len_spec() as int)),
            y: F::from_bytes_spec(b.subrange(F::len_spec() as int, 2 * F::len_spec() as int)),
        }
    }

    proof fn lemma_len() {
        F::lemma_len();
        assert(F::LEN * 2 <= usize::MAX ==> <Point<F> as RW>::LEN == F::LEN * 2);
    }

    proof fn lemma_bytes(self) {
        let n = F::len_spec() as int;
        let b = self.bytes_spec();
        self.x.lemma_bytes();
        self.y.lemma_bytes();
        assert(b.subrange(0, n) =~= self.x.bytes_spec());
        assert(b.subrange(n, 2 * n) =~= self.y.bytes_spec());
        assert(<Point<F> as RW>::len_spec() == 2 * n);
        assert(<Point<F> as RW>::from_bytes_spec(b) == Point {
            x: F::from_bytes_spec(b.subrange(0, n)),
            y: F::from_bytes_spec(b.subrange(n, 2 * n)),
        });
    }

    proof fn lemma_from_bytes(b: Seq<u8>) {
        let n = F::len_spec() as int;
        F::lemma_from_bytes(b.subrange(0, n));
        F::lemma_from_bytes(b.subrange(n, 2 * n));
        assert(b.subrange(0, n) + b.subrange(n, 2 * n) =~= b);
    }

    fn to_bytes(self, w: &mut Vec<u8>) -> (n: usize) {
        let n1 = self.x.to_bytes(w);
        let n2 = self.y.to_bytes(w);
        let total = w.len();
        proof {
            self.x.lemma_bytes();
            self.y.lemma_bytes();
            assert(w@ =~= old(w)@ + self.bytes_spec());
            assert(total == old(w)@.len() + n1 + n2);
            assert(<Point<F> as RW>::len_spec() == n1 + n2);
        }
        n1 + n2
    }

    fn from_bytes(r: &[u8]) -> (v: Self) {
        let available = r.len();
        proof {
            F::lemma_len();
            assert(<Point<F> as RW>::len_spec() == 2 * F::len_spec());
            assert(2 * F::len_spec() <= available);
        }
        let n = F::LEN;
        let x = F::from_bytes(slice_subrange(r, 0, n));
        let y = F::from_bytes(slice_subrange(r, n, n + n));
        proof {
            let whole = r@.subrange(0, 2 * n);
            assert(r@.subrange(0, n as int).subrange(0, n as int) =~= whole.subrange(0, n as int));
            assert(r@.subrange(n as int, n + n).subrange(0, n as int) =~= whole.subrange(
                n as int,
                2 * n,
            ));
        }
        Self::new_unsafe(x, y)
    }
}

impl<F: Field> InitialPoint<Point<F>> for PointCfg<F> {
    open spec fn g_spec(&self) -> Point<F> {
        self.g
    }

    fn g(&self) -> (r: Point<F>) {
        self.g
    }
}

} // verus!
