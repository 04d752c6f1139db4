//! Operations, neutral elements and inverses as traits that take their
//! configuration at run time; exponentiation by repeated squaring; the
//! laws of monoids, groups and fields, and what follows from them.

use crate::base_traits::Natural;
use vstd::prelude::*;

pub mod ops;

verus! {

/// A type whose values only make sense together with a configuration
/// (a modulus, a curve) that is handed to every operation.
pub trait Configurable: Sized + Copy {
    type Cfg;

    /// The configuration itself is usable.
    spec fn cfg_ok(c: &Self::Cfg) -> bool;

    /// `self` is an element of the structure that `c` describes.
    spec fn valid(self, c: &Self::Cfg) -> bool;

    fn is_valid(self, c: &Self::Cfg) -> (r: bool)
        requires
            Self::cfg_ok(c),
        ensures
            r == self.valid(c),
    ;

    fn same(self, rhs: Self) -> (r: bool)
        ensures
            r == (self == rhs),
    ;
}

/// A commutative binary operation, tagged by `Op`. The operation may be
/// partial: `op_defined` says where it has a result.
pub trait CommutativeOp<Op>: Configurable {
    spec fn op_defined(a: Self, b: Self, c: &Self::Cfg) -> bool;

    spec fn op_spec(a: Self, b: Self, c: &Self::Cfg) -> Self;

    proof fn lemma_op_valid(a: Self, b: Self, c: &Self::Cfg)
        requires
            Self::cfg_ok(c),
            a.valid(c),
            b.valid(c),
            Self::op_defined(a, b, c),
        ensures
            Self::op_spec(a, b, c).valid(c),
    ;

    fn op(a: Self, b: Self, c: &Self::Cfg) -> (r: Self)
        requires
            Self::cfg_ok(c),
            a.valid(c),
            b.valid(c),
            Self::op_defined(a, b, c),
        ensures
            r == Self::op_spec(a, b, c),
            r.valid(c),
    ;

    /// The operation with its domain checked at run time.
    fn try_op(a: Self, b: Self, c: &Self::Cfg) -> (r: Option<Self>)
        requires
            Self::cfg_ok(c),
            a.valid(c),
            b.valid(c),
        ensures
            r == (if Self::op_defined(a, b, c) {
                Some(Self::op_spec(a, b, c))
            } else {
                None
            }),
            r matches Some(v) ==> v.valid(c),
    ;
}

/// The neutral element of the operation tagged by `Op`.
pub trait Identity<Op>: Configurable {
    spec fn identity_spec(c: &Self::Cfg) -> Self;

    proof fn lemma_identity_valid(c: &Self::Cfg)
        requires
            Self::cfg_ok(c),
        ensures
            Self::identity_spec(c).valid(c),
    ;

    fn identity(c: &Self::Cfg) -> (r: Self)
        requires
            Self::cfg_ok(c),
        ensures
            r == Self::identity_spec(c),
            r.valid(c),
    ;
}

/// An inverse that every valid element has.
pub trait Inverse<Op>: Configurable {
    spec fn inv_spec(self, c: &Self::Cfg) -> Self;

    proof fn lemma_inv_valid(self, c: &Self::Cfg)
        requires
            Self::cfg_ok(c),
            self.valid(c),
        ensures
            self.inv_spec(c).valid(c),
    ;

    fn inv(self, c: &Self::Cfg) -> (r: Self)
        requires
            Self::cfg_ok(c),
            self.valid(c),
        ensures
            r == self.inv_spec(c),
            r.valid(c),
    ;
}

/// An inverse that some elements lack, as zero lacks a reciprocal.
pub trait InverseNonZero<Op>: Configurable {
    /// The inverse, where there is one.
    spec fn try_inv_spec(self, c: &Self::Cfg) -> Option<Self>;

    proof fn lemma_try_inv_valid(self, c: &Self::Cfg)
        requires
            Self::cfg_ok(c),
            self.valid(c),
        ensures
            self.try_inv_spec(c) matches Some(v) ==> v.valid(c),
    ;

    fn inv(self, c: &Self::Cfg) -> (r: Option<Self>)
        requires
            Self::cfg_ok(c),
            self.valid(c),
        ensures
            r == self.try_inv_spec(c),
            r matches Some(v) ==> v.valid(c),
    ;
}

/// A commutative operation that is total on the valid elements, is
/// associative and has a neutral element.
pub trait CommutativeMonoid<Op>: CommutativeOp<Op> + Identity<Op> {
    proof fn lemma_total(a: Self, b: Self, c: &Self::Cfg)
        requires
            Self::cfg_ok(c),
            a.valid(c),
            b.valid(c),
        ensures
            Self::op_defined(a, b, c),
    ;

    proof fn lemma_commutative(a: Self, b: Self, c: &Self::Cfg)
        requires
            Self::cfg_ok(c),
            a.valid(c),
            b.valid(c),
        ensures
            Self::op_spec(a, b, c) == Self::op_spec(b, a, c),
    ;

    proof fn lemma_associative(a: Self, b: Self, d: Self, c: &Self::Cfg)
        requires
            Self::cfg_ok(c),
            a.valid(c),
            b.valid(c),
            d.valid(c),
        ensures
            Self::op_spec(Self::op_spec(a, b, c), d, c) == Self::op_spec(
                a,
                Self::op_spec(b, d, c),
                c,
            ),
    ;

    proof fn lemma_neutral(a: Self, c: &Self::Cfg)
        requires
            Self::cfg_ok(c),
            a.valid(c),
        ensures
            Self::op_spec(a, Self::identity_spec(c), c) == a,
    ;
}

/// A commutative monoid in which every element has an inverse.
pub trait AbelianGroup<Op>: CommutativeMonoid<Op> + Inverse<Op> {
    proof fn lemma_inverse(a: Self, c: &Self::Cfg)
        requires
            Self::cfg_ok(c),
            a.valid(c),
        ensures
            Self::op_spec(a, a.inv_spec(c), c) == Self::identity_spec(c),
    ;
}

/// Square roots with respect to the operation tagged by `Op`.
pub trait DiscreteRoot<Op>: CommutativeOp<Op> {
    /// The configuration is one for which roots can be computed.
    spec fn root_cfg_ok(c: &Self::Cfg) -> bool;

    spec fn sqrt_spec(self, c: &Self::Cfg) -> Option<Self>;

    /// Whatever `sqrt_spec` gives, operated with itself, is `self` again.
    proof fn lemma_sqrt(self, c: &Self::Cfg)
        requires
            Self::cfg_ok(c),
            Self::root_cfg_ok(c),
            self.valid(c),
        ensures
            self.sqrt_spec(c) matches Some(r) ==> r.valid(c) && Self::op_defined(r, r, c)
                && Self::op_spec(r, r, c) == self,
    ;

    fn sqrt(self, cfg: &Self::Cfg) -> (r: Option<Self>)
        requires
            Self::cfg_ok(cfg),
            Self::root_cfg_ok(cfg),
            self.valid(cfg),
        ensures
            r == self.sqrt_spec(cfg),
    ;
}

/// A configuration that names a distinguished element: the generator.
pub trait InitialPoint<P> {
    spec fn g_spec(&self) -> P;

    fn g(&self) -> (r: P)
        ensures
            r == self.g_spec(),
    ;
}

/// What square-and-multiply yields for `n >= 1`: halve the exponent, take
/// the result for the half, operate it with itself, and once more with `x`
/// where `n` is odd.
pub open spec fn exp_spec<Op, T: CommutativeOp<Op>>(x: T, n: nat, c: &T::Cfg) -> T
    decreases n,
{
    if n <= 1 {
        x
    } else {
        let r = exp_spec::<Op, T>(x, n / 2, c);
        if n % 2 == 0 {
            T::op_spec(r, r, c)
        } else {
            T::op_spec(r, T::op_spec(r, x, c), c)
        }
    }
}

/// Every application of the operation that `exp_spec` makes is defined.
/// Never so for `n == 0`: without a neutral element there is no zeroth power.
pub open spec fn exp_defined<Op, T: CommutativeOp<Op>>(x: T, n: nat, c: &T::Cfg) -> bool
    decreases n,
{
    if n == 0 {
        false
    } else if n == 1 {
        true
    } else {
        let r = exp_spec::<Op, T>(x, n / 2, c);
        &&& exp_defined::<Op, T>(x, n / 2, c)
        &&& if n % 2 == 0 {
            T::op_defined(r, r, c)
        } else {
            T::op_defined(r, x, c) && T::op_defined(r, T::op_spec(r, x, c), c)
        }
    }
}

/// The zeroth power of a monoid element is the neutral element.
pub open spec fn monoid_exp_spec<Op, T: CommutativeMonoid<Op>>(x: T, n: nat, c: &T::Cfg) -> T {
    if n == 0 {
        T::identity_spec(c)
    } else {
        exp_spec::<Op, T>(x, n, c)
    }
}

/// A power that is defined is a valid element.
pub proof fn lemma_exp_valid<Op, T: CommutativeOp<Op>>(x: T, n: nat, c: &T::Cfg)
    requires
        T::cfg_ok(c),
        x.valid(c),
        exp_defined::<Op, T>(x, n, c),
    ensures
        exp_spec::<Op, T>(x, n, c).valid(c),
    decreases n,
{
    if n > 1 {
        let r = exp_spec::<Op, T>(x, n / 2, c);
        lemma_exp_valid::<Op, T>(x, n / 2, c);
        if n % 2 == 0 {
            T::lemma_op_valid(r, r, c);
        } else {
            T::lemma_op_valid(r, x, c);
            T::lemma_op_valid(r, T::op_spec(r, x, c), c);
        }
    }
}

/// In a monoid every positive power is defined.
pub proof fn lemma_exp_defined_in_monoid<Op, T: CommutativeMonoid<Op>>(x: T, n: nat, c: &T::Cfg)
    requires
        T::cfg_ok(c),
        x.valid(c),
        n >= 1,
    ensures
        exp_defined::<Op, T>(x, n, c),
        exp_spec::<Op, T>(x, n, c).valid(c),
    decreases n,
{
    if n > 1 {
        let r = exp_spec::<Op, T>(x, n / 2, c);
        lemma_exp_defined_in_monoid::<Op, T>(x, n / 2, c);
        if n % 2 == 0 {
            T::lemma_total(r, r, c);
        } else {
            T::lemma_total(r, x, c);
            T::lemma_op_valid(r, x, c);
            T::lemma_total(r, T::op_spec(r, x, c), c);
        }
    }
    lemma_exp_valid::<Op, T>(x, n, c);
}

/// Exponentiation by repeated squaring, for an exponent of at least one.
pub fn exp<Op, T: CommutativeOp<Op>, I: Natural>(x: T, n: I, cfg: &T::Cfg) -> (r: T)
    requires
        T::cfg_ok(cfg),
        x.valid(cfg),
        exp_defined::<Op, T>(x, n.value(), cfg),
    ensures
        r == exp_spec::<Op, T>(x, n.value(), cfg),
        r.valid(cfg),
    decreases n.value(),
{
    if n.equals(I::one()) {
        x
    } else {
        let m = n.quotient(I::two());
        let r = exp::<Op, T, I>(x, m, cfg);
        if n.remainder(I::two()).equals(I::zero()) {
            T::op(r, r, cfg)
        } else {
            T::op(r, T::op(r, x, cfg), cfg)
        }
    }
}

/// Exponentiation by repeated squaring that reports, instead of assuming,
/// whether the power is defined.
pub fn try_exp<Op, T: CommutativeOp<Op>, I: Natural>(x: T, n: I, cfg: &T::Cfg) -> (r: Option<T>)
    requires
        T::cfg_ok(cfg),
        x.valid(cfg),
    ensures
        r == (if exp_defined::<Op, T>(x, n.value(), cfg) {
            Some(exp_spec::<Op, T>(x, n.value(), cfg))
        } else {
            None
        }),
        r matches Some(v) ==> v.valid(cfg),
    decreases n.value(),
{
    if n.equals(I::zero()) {
        None
    } else if n.equals(I::one()) {
        Some(x)
    } else {
        let m = n.quotient(I::two());
        match try_exp::<Op, T, I>(x, m, cfg) {
            None => None,
            Some(r) => {
                if n.remainder(I::two()).equals(I::zero()) {
                    T::try_op(r, r, cfg)
                } else {
                    match T::try_op(r, x, cfg) {
                        None => None,
                        Some(rx) => T::try_op(r, rx, cfg),
                    }
                }
            },
        }
    }
}

/// Exponentiation in a monoid: as `exp`, and the neutral element for an
/// exponent of zero.
pub fn monoid_exp<Op, T: CommutativeMonoid<Op>, I: Natural>(x: T, n: I, cfg: &T::Cfg) -> (r: T)
    requires
        T::cfg_ok(cfg),
        x.valid(cfg),
    ensures
        r == monoid_exp_spec::<Op, T>(x, n.value(), cfg),
        r.valid(cfg),
{
    if n.equals(I::zero()) {
        T::identity(cfg)
    } else {
        proof {
            lemma_exp_defined_in_monoid::<Op, T>(x, n.value(), cfg);
        }
        exp::<Op, T, I>(x, n, cfg)
    }
}

/// `a + b`.
pub open spec fn add_spec<T: CommutativeOp<ops::Add>>(a: T, b: T, cfg: &T::Cfg) -> T {
    <T as CommutativeOp<ops::Add>>::op_spec(a, b, cfg)
}

/// `-a`.
pub open spec fn neg_spec<T: Inverse<ops::Add>>(a: T, cfg: &T::Cfg) -> T {
    <T as Inverse<ops::Add>>::inv_spec(a, cfg)
}

/// `a - b`, which is `a + (-b)`.
pub open spec fn sub_spec<T: CommutativeOp<ops::Add> + Inverse<ops::Add>>(
    a: T,
    b: T,
    cfg: &T::Cfg,
) -> T {
    add_spec(a, neg_spec(b, cfg), cfg)
}

/// `a * b`.
pub open spec fn mul_spec<T: CommutativeOp<ops::Mul>>(a: T, b: T, cfg: &T::Cfg) -> T {
    <T as CommutativeOp<ops::Mul>>::op_spec(a, b, cfg)
}

/// `1 / a`, where there is one.
pub open spec fn reciprocal_spec<T: InverseNonZero<ops::Mul>>(a: T, cfg: &T::Cfg) -> Option<T> {
    <T as InverseNonZero<ops::Mul>>::try_inv_spec(a, cfg)
}

/// `a / b`, where `b` has a reciprocal.
pub open spec fn div_spec<T: CommutativeOp<ops::Mul> + InverseNonZero<ops::Mul>>(
    a: T,
    b: T,
    cfg: &T::Cfg,
) -> T {
    mul_spec(a, reciprocal_spec(b, cfg).unwrap(), cfg)
}

/// The neutral element of addition.
pub open spec fn zero_spec<T: Identity<ops::Add>>(cfg: &T::Cfg) -> T {
    <T as Identity<ops::Add>>::identity_spec(cfg)
}

/// The neutral element of multiplication.
pub open spec fn one_spec<T: Identity<ops::Mul>>(cfg: &T::Cfg) -> T {
    <T as Identity<ops::Mul>>::identity_spec(cfg)
}

/// `1 + 1`.
pub open spec fn two_spec<T: CommutativeOp<ops::Add> + Identity<ops::Mul>>(cfg: &T::Cfg) -> T {
    add_spec(one_spec::<T>(cfg), one_spec::<T>(cfg), cfg)
}

/// `2 + 1`.
pub open spec fn three_spec<T: CommutativeOp<ops::Add> + Identity<ops::Mul>>(cfg: &T::Cfg) -> T {
    add_spec(two_spec::<T>(cfg), one_spec::<T>(cfg), cfg)
}

/// `2 + 2`.
pub open spec fn four_spec<T: CommutativeOp<ops::Add> + Identity<ops::Mul>>(cfg: &T::Cfg) -> T {
    add_spec(two_spec::<T>(cfg), two_spec::<T>(cfg), cfg)
}

/// `a` to the power `n`, by square-and-multiply; one for `n == 0`.
pub open spec fn pow_spec<T: CommutativeMonoid<ops::Mul>>(a: T, n: nat, cfg: &T::Cfg) -> T {
    monoid_exp_spec::<ops::Mul, T>(a, n, cfg)
}

/// `a * a`.
pub open spec fn sqr_spec<T: CommutativeOp<ops::Mul>>(a: T, cfg: &T::Cfg) -> T {
    mul_spec(a, a, cfg)
}

/// `(a * a) * a`.
pub open spec fn cube_spec<T: CommutativeOp<ops::Mul>>(a: T, cfg: &T::Cfg) -> T {
    mul_spec(sqr_spec(a, cfg), a, cfg)
}

/// Addition and multiplication on one type, with the usual derived
/// operations. Both are total and multiplication distributes over addition;
/// division is defined where the divisor has a multiplicative inverse.
pub trait Field: AbelianGroup<ops::Add> + CommutativeMonoid<ops::Mul> + InverseNonZero<ops::Mul> {
    proof fn lemma_distributive(a: Self, b: Self, d: Self, cfg: &Self::Cfg)
        requires
            Self::cfg_ok(cfg),
            a.valid(cfg),
            b.valid(cfg),
            d.valid(cfg),
        ensures
            mul_spec(a, add_spec(b, d, cfg), cfg) == add_spec(
                mul_spec(a, b, cfg),
                mul_spec(a, d, cfg),
                cfg,
            ),
    ;

    fn add(a: Self, b: Self, cfg: &Self::Cfg) -> (r: Self)
        requires
            Self::cfg_ok(cfg),
            a.valid(cfg),
            b.valid(cfg),
        ensures
            r == add_spec(a, b, cfg),
            r.valid(cfg),
    {
        proof {
            <Self as CommutativeMonoid<ops::Add>>::lemma_total(a, b, cfg);
        }
        CommutativeOp::<ops::Add>::op(a, b, cfg)
    }

    fn sub(a: Self, b: Self, cfg: &Self::Cfg) -> (r: Self)
        requires
            Self::cfg_ok(cfg),
            a.valid(cfg),
            b.valid(cfg),
        ensures
            r == sub_spec(a, b, cfg),
            r.valid(cfg),
    {
        let nb = Inverse::<ops::Add>::inv(b, cfg);
        proof {
            <Self as CommutativeMonoid<ops::Add>>::lemma_total(a, nb, cfg);
        }
        CommutativeOp::<ops::Add>::op(a, nb, cfg)
    }

    fn mul(a: Self, b: Self, cfg: &Self::Cfg) -> (r: Self)
        requires
            Self::cfg_ok(cfg),
            a.valid(cfg),
            b.valid(cfg),
        ensures
            r == mul_spec(a, b, cfg),
            r.valid(cfg),
    {
        proof {
            <Self as CommutativeMonoid<ops::Mul>>::lemma_total(a, b, cfg);
        }
        CommutativeOp::<ops::Mul>::op(a, b, cfg)
    }

    fn div(a: Self, b: Self, cfg: &Self::Cfg) -> (r: Self)
        requires
            Self::cfg_ok(cfg),
            a.valid(cfg),
            b.valid(cfg),
            reciprocal_spec(b, cfg) is Some,
        ensures
            r == div_spec(a, b, cfg),
            r.valid(cfg),
    {
        let rb = InverseNonZero::<ops::Mul>::inv(b, cfg).unwrap();
        proof {
            <Self as CommutativeMonoid<ops::Mul>>::lemma_total(a, rb, cfg);
        }
        CommutativeOp::<ops::Mul>::op(a, rb, cfg)
    }

    fn zero(cfg: &Self::Cfg) -> (r: Self)
        requires
            Self::cfg_ok(cfg),
        ensures
            r == zero_spec::<Self>(cfg),
            r.valid(cfg),
    {
        Identity::<ops::Add>::identity(cfg)
    }

    fn one(cfg: &Self::Cfg) -> (r: Self)
        requires
            Self::cfg_ok(cfg),
        ensures
            r == one_spec::<Self>(cfg),
            r.valid(cfg),
    {
        Identity::<ops::Mul>::identity(cfg)
    }

    fn two(cfg: &Self::Cfg) -> (r: Self)
        requires
            Self::cfg_ok(cfg),
        ensures
            r == two_spec::<Self>(cfg),
            r.valid(cfg),
    {
        let one = Self::one(cfg);
        Self::add(one, one, cfg)
    }

    fn three(cfg: &Self::Cfg) -> (r: Self)
        requires
            Self::cfg_ok(cfg),
        ensures
            r == three_spec::<Self>(cfg),
            r.valid(cfg),
    {
        Self::add(Self::two(cfg), Self::one(cfg), cfg)
    }

    fn four(cfg: &Self::Cfg) -> (r: Self)
        requires
            Self::cfg_ok(cfg),
        ensures
            r == four_spec::<Self>(cfg),
            r.valid(cfg),
    {
        let two = Self::two(cfg);
        Self::add(two, two, cfg)
    }

    fn pow<N: Natural>(self, n: N, cfg: &Self::Cfg) -> (r: Self)
        requires
            Self::cfg_ok(cfg),
            self.valid(cfg),
        ensures
            r == pow_spec(self, n.value(), cfg),
            r.valid(cfg),
    {
        monoid_exp::<ops::Mul, Self, N>(self, n, cfg)
    }

    fn reciprocal(self, cfg: &Self::Cfg) -> (r: Option<Self>)
        requires
            Self::cfg_ok(cfg),
            self.valid(cfg),
        ensures
            r == reciprocal_spec(self, cfg),
            r matches Some(v) ==> v.valid(cfg),
    {
        InverseNonZero::inv(self, cfg)
    }

    fn neg(self, cfg: &Self::Cfg) -> (r: Self)
        requires
            Self::cfg_ok(cfg),
            self.valid(cfg),
        ensures
            r == neg_spec(self, cfg),
            r.valid(cfg),
    {
        Inverse::inv(self, cfg)
    }

    fn sqr(self, cfg: &Self::Cfg) -> (r: Self)
        requires
            Self::cfg_ok(cfg),
            self.valid(cfg),
        ensures
            r == sqr_spec(self, cfg),
            r.valid(cfg),
    {
        Self::mul(self, self, cfg)
    }

    fn cube(self, cfg: &Self::Cfg) -> (r: Self)
        requires
            Self::cfg_ok(cfg),
            self.valid(cfg),
        ensures
            r == cube_spec(self, cfg),
            r.valid(cfg),
    {
        Self::mul(Self::sqr(self, cfg), self, cfg)
    }
}

/// Sums, differences, products and negations of valid elements are valid,
/// and so are the small constants.
pub proof fn lemma_field_closed<F: Field>(a: F, b: F, cfg: &F::Cfg)
    requires
        F::cfg_ok(cfg),
        a.valid(cfg),
        b.valid(cfg),
    ensures
        add_spec(a, b, cfg).valid(cfg),
        neg_spec(a, cfg).valid(cfg),
        sub_spec(a, b, cfg).valid(cfg),
        mul_spec(a, b, cfg).valid(cfg),
        sqr_spec(a, cfg).valid(cfg),
        cube_spec(a, cfg).valid(cfg),
        zero_spec::<F>(cfg).valid(cfg),
        one_spec::<F>(cfg).valid(cfg),
        two_spec::<F>(cfg).valid(cfg),
        three_spec::<F>(cfg).valid(cfg),
        four_spec::<F>(cfg).valid(cfg),
{
    <F as CommutativeMonoid<ops::Add>>::lemma_total(a, b, cfg);
    <F as CommutativeOp<ops::Add>>::lemma_op_valid(a, b, cfg);
    <F as Inverse<ops::Add>>::lemma_inv_valid(a, cfg);
    <F as Inverse<ops::Add>>::lemma_inv_valid(b, cfg);
    let nb = neg_spec(b, cfg);
    <F as CommutativeMonoid<ops::Add>>::lemma_total(a, nb, cfg);
    <F as CommutativeOp<ops::Add>>::lemma_op_valid(a, nb, cfg);
    <F as CommutativeMonoid<ops::Mul>>::lemma_total(a, b, cfg);
    <F as CommutativeOp<ops::Mul>>::lemma_op_valid(a, b, cfg);
    <F as CommutativeMonoid<ops::Mul>>::lemma_total(a, a, cfg);
    <F as CommutativeOp<ops::Mul>>::lemma_op_valid(a, a, cfg);
    let aa = sqr_spec(a, cfg);
    <F as CommutativeMonoid<ops::Mul>>::lemma_total(aa, a, cfg);
    <F as CommutativeOp<ops::Mul>>::lemma_op_valid(aa, a, cfg);
    <F as Identity<ops::Add>>::lemma_identity_valid(cfg);
    <F as Identity<ops::Mul>>::lemma_identity_valid(cfg);
    let one = one_spec::<F>(cfg);
    <F as CommutativeMonoid<ops::Add>>::lemma_total(one, one, cfg);
    <F as CommutativeOp<ops::Add>>::lemma_op_valid(one, one, cfg);
    let two = two_spec::<F>(cfg);
    <F as CommutativeMonoid<ops::Add>>::lemma_total(two, one, cfg);
    <F as CommutativeOp<ops::Add>>::lemma_op_valid(two, one, cfg);
    <F as CommutativeMonoid<ops::Add>>::lemma_total(two, two, cfg);
    <F as CommutativeOp<ops::Add>>::lemma_op_valid(two, two, cfg);
}

/// A quotient by an element that has a reciprocal is valid.
pub proof fn lemma_div_valid<F: Field>(a: F, b: F, cfg: &F::Cfg)
    requires
        F::cfg_ok(cfg),
        a.valid(cfg),
        b.valid(cfg),
        reciprocal_spec(b, cfg) is Some,
    ensures
        reciprocal_spec(b, cfg).unwrap().valid(cfg),
        div_spec(a, b, cfg).valid(cfg),
{
    <F as InverseNonZero<ops::Mul>>::lemma_try_inv_valid(b, cfg);
    lemma_field_closed(a, reciprocal_spec(b, cfg).unwrap(), cfg);
}

/// An element whose sum with `v` is zero is the negative of `v`.
pub proof fn lemma_neg_unique<F: Field>(u: F, v: F, cfg: &F::Cfg)
    requires
        F::cfg_ok(cfg),
        u.valid(cfg),
        v.valid(cfg),
        add_spec(u, v, cfg) == zero_spec::<F>(cfg),
    ensures
        u == neg_spec(v, cfg),
{
    let zero = zero_spec::<F>(cfg);
    let nv = neg_spec(v, cfg);
    lemma_field_closed(u, v, cfg);
    lemma_field_closed(v, v, cfg);
    <F as CommutativeMonoid<ops::Add>>::lemma_neutral(u, cfg);
    <F as AbelianGroup<ops::Add>>::lemma_inverse(v, cfg);
    <F as CommutativeMonoid<ops::Add>>::lemma_associative(u, v, nv, cfg);
    <F as CommutativeMonoid<ops::Add>>::lemma_commutative(zero, nv, cfg);
    <F as CommutativeMonoid<ops::Add>>::lemma_neutral(nv, cfg);
    assert(u == add_spec(u, zero, cfg));
    assert(add_spec(u, zero, cfg) == add_spec(u, add_spec(v, nv, cfg), cfg));
    assert(add_spec(u, add_spec(v, nv, cfg), cfg) == add_spec(add_spec(u, v, cfg), nv, cfg));
    assert(add_spec(zero, nv, cfg) == nv);
}

/// Any element times zero is zero.
pub proof fn lemma_mul_zero<F: Field>(a: F, cfg: &F::Cfg)
    requires
        F::cfg_ok(cfg),
        a.valid(cfg),
    ensures
        mul_spec(a, zero_spec::<F>(cfg), cfg) == zero_spec::<F>(cfg),
{
    let zero = zero_spec::<F>(cfg);
    let z = mul_spec(a, zero, cfg);
    let nz = neg_spec(z, cfg);
    <F as Identity<ops::Add>>::lemma_identity_valid(cfg);
    lemma_field_closed(a, zero, cfg);
    lemma_field_closed(z, z, cfg);
    <F as CommutativeMonoid<ops::Add>>::lemma_neutral(zero, cfg);
    F::lemma_distributive(a, zero, zero, cfg);
    assert(z == add_spec(z, z, cfg));
    <F as AbelianGroup<ops::Add>>::lemma_inverse(z, cfg);
    <F as CommutativeMonoid<ops::Add>>::lemma_associative(z, z, nz, cfg);
    <F as CommutativeMonoid<ops::Add>>::lemma_neutral(z, cfg);
    assert(add_spec(add_spec(z, z, cfg), nz, cfg) == add_spec(z, zero, cfg));
}

/// The product with a negative is the negative of the product.
pub proof fn lemma_neg_mul<F: Field>(a: F, b: F, cfg: &F::Cfg)
    requires
        F::cfg_ok(cfg),
        a.valid(cfg),
        b.valid(cfg),
    ensures
        mul_spec(neg_spec(a, cfg), b, cfg) == neg_spec(mul_spec(a, b, cfg), cfg),
{
    let na = neg_spec(a, cfg);
    lemma_field_closed(a, b, cfg);
    lemma_field_closed(na, b, cfg);
    <F as CommutativeMonoid<ops::Mul>>::lemma_commutative(na, b, cfg);
    <F as CommutativeMonoid<ops::Mul>>::lemma_commutative(a, b, cfg);
    F::lemma_distributive(b, na, a, cfg);
    <F as CommutativeMonoid<ops::Add>>::lemma_commutative(na, a, cfg);
    <F as AbelianGroup<ops::Add>>::lemma_inverse(a, cfg);
    lemma_mul_zero(b, cfg);
    assert(add_spec(mul_spec(na, b, cfg), mul_spec(a, b, cfg), cfg) == mul_spec(
        b,
        add_spec(na, a, cfg),
        cfg,
    ));
    lemma_neg_unique(mul_spec(na, b, cfg), mul_spec(a, b, cfg), cfg);
}

/// The negative of the negative is the element itself.
pub proof fn lemma_neg_neg<F: Field>(a: F, cfg: &F::Cfg)
    requires
        F::cfg_ok(cfg),
        a.valid(cfg),
    ensures
        neg_spec(neg_spec(a, cfg), cfg) == a,
{
    lemma_field_closed(a, a, cfg);
    <F as AbelianGroup<ops::Add>>::lemma_inverse(a, cfg);
    lemma_neg_unique(a, neg_spec(a, cfg), cfg);
}

/// An element and its negative have the same square.
pub proof fn lemma_sqr_neg<F: Field>(a: F, cfg: &F::Cfg)
    requires
        F::cfg_ok(cfg),
        a.valid(cfg),
    ensures
        sqr_spec(neg_spec(a, cfg), cfg) == sqr_spec(a, cfg),
{
    let na = neg_spec(a, cfg);
    lemma_field_closed(a, a, cfg);
    lemma_neg_mul(a, na, cfg);
    <F as CommutativeMonoid<ops::Mul>>::lemma_commutative(a, na, cfg);
    lemma_neg_mul(a, a, cfg);
    lemma_neg_neg(mul_spec(a, a, cfg), cfg);
}

/// Taking `b` away and adding it again gives `a` back: `(a - b) + b == a`.
pub proof fn lemma_sub_add_cancel<F: Field>(a: F, b: F, cfg: &F::Cfg)
    requires
        F::cfg_ok(cfg),
        a.valid(cfg),
        b.valid(cfg),
    ensures
        add_spec(sub_spec(a, b, cfg), b, cfg) == a,
{
    let nb = neg_spec(b, cfg);
    lemma_field_closed(b, b, cfg);
    <F as CommutativeMonoid<ops::Add>>::lemma_associative(a, nb, b, cfg);
    <F as CommutativeMonoid<ops::Add>>::lemma_commutative(nb, b, cfg);
    <F as AbelianGroup<ops::Add>>::lemma_inverse(b, cfg);
    <F as CommutativeMonoid<ops::Add>>::lemma_neutral(a, cfg);
}

/// `x` operated with itself until it occurs `n` times, one at a time.
pub open spec fn repeat_spec<Op, T: CommutativeOp<Op>>(x: T, n: nat, c: &T::Cfg) -> T
    decreases n,
{
    if n <= 1 {
        x
    } else {
        T::op_spec(repeat_spec::<Op, T>(x, (n - 1) as nat, c), x, c)
    }
}

/// Repetitions of a valid element are valid.
pub proof fn lemma_repeat_valid<Op, T: CommutativeMonoid<Op>>(x: T, n: nat, c: &T::Cfg)
    requires
        T::cfg_ok(c),
        x.valid(c),
    ensures
        repeat_spec::<Op, T>(x, n, c).valid(c),
    decreases n,
{
    if n > 1 {
        let before = repeat_spec::<Op, T>(x, (n - 1) as nat, c);
        lemma_repeat_valid::<Op, T>(x, (n - 1) as nat, c);
        T::lemma_total(before, x, c);
        T::lemma_op_valid(before, x, c);
    }
}

/// In a monoid, `a + b` occurrences are `a` occurrences operated with `b`
/// occurrences.
pub proof fn lemma_repeat_adds<Op, T: CommutativeMonoid<Op>>(x: T, a: nat, b: nat, c: &T::Cfg)
    requires
        T::cfg_ok(c),
        x.valid(c),
        a >= 1,
        b >= 1,
    ensures
        repeat_spec::<Op, T>(x, a + b, c) == T::op_spec(
            repeat_spec::<Op, T>(x, a, c),
            repeat_spec::<Op, T>(x, b, c),
            c,
        ),
    decreases b,
{
    if b > 1 {
        let xa = repeat_spec::<Op, T>(x, a, c);
        let xb1 = repeat_spec::<Op, T>(x, (b - 1) as nat, c);
        lemma_repeat_adds::<Op, T>(x, a, (b - 1) as nat, c);
        lemma_repeat_valid::<Op, T>(x, a, c);
        lemma_repeat_valid::<Op, T>(x, (b - 1) as nat, c);
        T::lemma_associative(xa, xb1, x, c);
        assert(repeat_spec::<Op, T>(x, a + b, c) == T::op_spec(
            repeat_spec::<Op, T>(x, (a + b - 1) as nat, c),
            x,
            c,
        ));
    }
}

/// In a monoid, square-and-multiply yields `n` occurrences of `x`.
pub proof fn lemma_exp_is_repeat<Op, T: CommutativeMonoid<Op>>(x: T, n: nat, c: &T::Cfg)
    requires
        T::cfg_ok(c),
        x.valid(c),
        n >= 1,
    ensures
        exp_spec::<Op, T>(x, n, c) == repeat_spec::<Op, T>(x, n, c),
    decreases n,
{
    if n > 1 {
        let h = n / 2;
        lemma_exp_is_repeat::<Op, T>(x, h, c);
        if n % 2 == 0 {
            lemma_repeat_adds::<Op, T>(x, h, h, c);
        } else {
            lemma_repeat_adds::<Op, T>(x, h, h + 1, c);
            assert(repeat_spec::<Op, T>(x, h + 1, c) == T::op_spec(
                repeat_spec::<Op, T>(x, h, c),
                x,
                c,
            ));
        }
    }
}

/// In a monoid, `b` occurrences of `a` occurrences are `a * b` occurrences.
pub proof fn lemma_repeat_multiplies<Op, T: CommutativeMonoid<Op>>(
    x: T,
    a: nat,
    b: nat,
    c: &T::Cfg,
)
    requires
        T::cfg_ok(c),
        x.valid(c),
        a >= 1,
        b >= 1,
    ensures
        repeat_spec::<Op, T>(repeat_spec::<Op, T>(x, a, c), b, c) == repeat_spec::<Op, T>(
            x,
            a * b,
            c,
        ),
    decreases b,
{
    if b > 1 {
        lemma_repeat_multiplies::<Op, T>(x, a, (b - 1) as nat, c);
        assert(a * (b - 1) >= 1 && a * (b - 1) + a == a * b) by (nonlinear_arith)
            requires
                a >= 1,
                b > 1,
        ;
        lemma_repeat_adds::<Op, T>(x, (a * (b - 1)) as nat, a, c);
    } else {
        assert(a * 1 == a);
    }
}

/// In a monoid, powers of powers do not depend on the order of the
/// exponents.
pub proof fn lemma_exp_exchanges<Op, T: CommutativeMonoid<Op>>(x: T, a: nat, b: nat, c: &T::Cfg)
    requires
        T::cfg_ok(c),
        x.valid(c),
        a >= 1,
        b >= 1,
    ensures
        exp_spec::<Op, T>(exp_spec::<Op, T>(x, a, c), b, c) == exp_spec::<Op, T>(
            exp_spec::<Op, T>(x, b, c),
            a,
            c,
        ),
{
    lemma_exp_is_repeat::<Op, T>(x, a, c);
    lemma_exp_is_repeat::<Op, T>(x, b, c);
    lemma_repeat_valid::<Op, T>(x, a, c);
    lemma_repeat_valid::<Op, T>(x, b, c);
    lemma_exp_is_repeat::<Op, T>(repeat_spec::<Op, T>(x, a, c), b, c);
    lemma_exp_is_repeat::<Op, T>(repeat_spec::<Op, T>(x, b, c), a, c);
    lemma_repeat_multiplies::<Op, T>(x, a, b, c);
    lemma_repeat_multiplies::<Op, T>(x, b, a, c);
    assert(a * b == b * a) by (nonlinear_arith);
}

/// In a group, adding `s` and then its inverse leaves `m`:
/// `(s + m) + (-s) == m`.
pub proof fn lemma_group_cancel<Op, T: AbelianGroup<Op>>(s: T, m: T, c: &T::Cfg)
    requires
        T::cfg_ok(c),
        s.valid(c),
        m.valid(c),
    ensures
        T::op_spec(T::op_spec(s, m, c), s.inv_spec(c), c) == m,
{
    let ns = s.inv_spec(c);
    s.lemma_inv_valid(c);
    T::lemma_commutative(s, m, c);
    T::lemma_associative(m, s, ns, c);
    T::lemma_inverse(s, c);
    T::lemma_neutral(m, c);
}

} // verus!
