//! The integers modulo a modulus given at run time, on any fixed-width
//! natural: addition that never exceeds the width, multiplication by
//! repeated addition, reciprocals by Fermat's little theorem and square
//! roots for moduli congruent to 3 modulo 4.

use crate::algebra::ops;
use crate::algebra::{
    div_spec, exp_spec, lemma_div_valid, monoid_exp, monoid_exp_spec, mul_spec, one_spec,
    reciprocal_spec, sqr_spec, zero_spec, AbelianGroup, CommutativeMonoid, CommutativeOp,
    Configurable, DiscreteRoot, Field, Identity, Inverse, InverseNonZero,
};
use crate::arith::{gcd_spec, lemma_gcd_spec_step};
use crate::fermat::{is_prime, lemma_fermat_little, lemma_prime_coprime};
use crate::base_traits::{Capacitor, FromRandom, Natural, RandomSource, RW};
use vstd::arithmetic::div_mod::*;
use vstd::arithmetic::mul::*;
use vstd::arithmetic::power::*;
use vstd::prelude::*;

verus! {

/// The configuration of a modular field: its modulus.
#[derive(PartialEq, Eq, Debug)]
pub struct ModFieldCfg<I> {
    pub rem: I,
}

impl<I: Copy> Clone for ModFieldCfg<I> {
    fn clone(&self) -> (r: Self)
        ensures
            r == *self,
    {
        *self
    }
}

impl<I: Copy> Copy for ModFieldCfg<I> {

}

/// A residue modulo the configured modulus. With the configuration `c` a
/// value is valid where it is reduced: `val < c.rem`.
#[derive(PartialEq, Eq, Debug)]
pub struct ModField<I: Natural> {
    pub val: I,
}

impl<I: Natural> Clone for ModField<I> {
    fn clone(&self) -> (r: Self)
        ensures
            r == *self,
    {
        *self
    }
}

impl<I: Natural> Copy for ModField<I> {

}

/// The element that holds `n`.
pub open spec fn residue<I: Natural>(n: nat) -> ModField<I> {
    ModField { val: I::from_value(n) }
}

impl<I: Natural> ModField<I> {
    /// The number that the element holds.
    pub open spec fn value(self) -> nat {
        self.val.value()
    }

    /// The element that holds `p` reduced modulo the modulus.
    pub fn new(p: I, cfg: &ModFieldCfg<I>) -> (r: Self)
        requires
            cfg.rem.value() != 0,
        ensures
            r == residue::<I>(p.value() % cfg.rem.value()),
            r.value() == p.value() % cfg.rem.value(),
    {
        let val = p.remainder(cfg.rem);
        proof {
            val.lemma_value();
        }
        Self { val }
    }

    /// The number that the element holds.
    pub fn natural(self) -> (r: I)
        ensures
            r == self.val,
    {
        self.val
    }

    /// A valid element is the residue of its own value.
    pub proof fn lemma_residue_of_value(self, c: &ModFieldCfg<I>)
        ensures
            residue::<I>(self.value()) == self,
            self.valid(c) ==> residue::<I>(self.value() % c.rem.value()) == self,
    {
        self.val.lemma_value();
        if self.valid(c) {
            lemma_small_mod(self.value(), c.rem.value());
        }
    }

    /// The residue of a number below the modulus is valid and holds it.
    pub proof fn lemma_residue_valid(n: nat, c: &ModFieldCfg<I>)
        requires
            n < c.rem.value(),
        ensures
            residue::<I>(n).value() == n,
            residue::<I>(n).valid(c),
    {
        c.rem.lemma_value();
        I::lemma_from_value(n);
    }
}

impl<I: Natural> Configurable for ModField<I> {
    type Cfg = ModFieldCfg<I>;

    /// The modulus is at least two.
    open spec fn cfg_ok(c: &Self::Cfg) -> bool {
        c.rem.value() >= 2
    }

    open spec fn valid(self, c: &Self::Cfg) -> bool {
        self.val.value() < c.rem.value()
    }

    fn is_valid(self, c: &Self::Cfg) -> (r: bool) {
        self.val.less_than(c.rem)
    }

    fn same(self, rhs: Self) -> (r: bool) {
        self.val.equals(rhs.val)
    }
}

/// The greatest common divisor of `a` and `b`; zero where both are zero.
pub fn gcd<S>(a: S, b: S) -> (r: S) where S: Natural
    ensures
        r.value() == gcd_spec(a.value(), b.value()),
    decreases a.value() + b.value(),
{
    proof {
        lemma_gcd_spec_step(a.value(), b.value());
    }
    if a.equals(b) {
        proof {
            if a.value() > 0 {
                lemma_mod_self_0(a.value() as int);
                assert(gcd_spec(a.value(), a.value()) == gcd_spec(a.value(), 0));
            }
        }
        return a;
    }
    if a.equals(S::zero()) {
        proof {
            lemma_gcd_spec_step(b.value(), 0);
            lemma_small_mod(0, b.value());
        }
        return b;
    }
    if b.equals(S::zero()) {
        return a;
    }
    if b.less_than(a) {
        gcd(a.remainder(b), b)
    } else {
        gcd(a, b.remainder(a))
    }
}

impl<I: Natural> CommutativeOp<ops::Add> for ModField<I> {
    open spec fn op_defined(a: Self, b: Self, c: &ModFieldCfg<I>) -> bool {
        true
    }

    /// The sum modulo the modulus.
    open spec fn op_spec(a: Self, b: Self, c: &ModFieldCfg<I>) -> Self {
        residue::<I>((a.value() + b.value()) % c.rem.value())
    }

    proof fn lemma_op_valid(a: Self, b: Self, c: &ModFieldCfg<I>) {
        Self::lemma_residue_valid((a.value() + b.value()) % c.rem.value(), c);
    }

    /// Adds without ever exceeding the width of `I`: where `a + b` would
    /// pass the maximum, the sum is taken as `max + (b - (max - a))`, each
    /// part reduced first.
    fn op(a: Self, b: Self, c: &ModFieldCfg<I>) -> (r: Self) {
        let max = I::max();
        let rem = c.rem;
        proof {
            a.val.lemma_value();
            b.val.lemma_value();
            rem.lemma_value();
        }
        if max.minus(b.val).less_than(a.val) {
            let r1 = max.remainder(rem);
            let over = b.val.minus(max.minus(a.val));
            let r2 = over.remainder(rem);
            proof {
                let m = I::max_value() as int;
                let p = rem.value() as int;
                let s = (a.value() + b.value()) as int;
                assert(over.value() == s - m);
                lemma_add_mod_noop(m, s - m, p);
                lemma_fundamental_div_mod(m, p);
                if m < 2 * p - 1 {
                    // the modulus is over half the maximum: `max % rem` is `max - rem`
                    lemma_fundamental_div_mod_converse(m, p, 1, m - p);
                }
            }
            Self::new(r1.plus(r2), c)
        } else {
            Self::new(a.val.plus(b.val), c)
        }
    }

    fn try_op(a: Self, b: Self, c: &ModFieldCfg<I>) -> (r: Option<Self>) {
        Some(<Self as CommutativeOp<ops::Add>>::op(a, b, c))
    }
}

impl<I: Natural> Identity<ops::Add> for ModField<I> {
    open spec fn identity_spec(c: &ModFieldCfg<I>) -> Self {
        residue::<I>(0)
    }

    proof fn lemma_identity_valid(c: &ModFieldCfg<I>) {
        Self::lemma_residue_valid(0, c);
    }

    fn identity(c: &ModFieldCfg<I>) -> (r: Self) {
        let val = I::zero();
        proof {
            val.lemma_value();
        }
        Self { val }
    }
}

impl<I: Natural> Inverse<ops::Add> for ModField<I> {
    /// The residue of `rem - val`: zero for zero.
    open spec fn inv_spec(self, c: &ModFieldCfg<I>) -> Self {
        residue::<I>(((c.rem.value() - self.value()) as nat) % c.rem.value())
    }

    proof fn lemma_inv_valid(self, c: &ModFieldCfg<I>) {
        Self::lemma_residue_valid(((c.rem.value() - self.value()) as nat) % c.rem.value(), c);
    }

    fn inv(self, cfg: &ModFieldCfg<I>) -> (r: Self) {
        if self.val.equals(I::zero()) {
            proof {
                self.val.lemma_value();
                lemma_mod_self_0(cfg.rem.value() as int);
            }
            self
        } else {
            let val = cfg.rem.minus(self.val);
            proof {
                val.lemma_value();
                lemma_small_mod(val.value(), cfg.rem.value());
            }
            Self { val }
        }
    }
}

impl<I: Natural> CommutativeMonoid<ops::Add> for ModField<I> {
    proof fn lemma_total(a: Self, b: Self, c: &ModFieldCfg<I>) {
    }

    proof fn lemma_commutative(a: Self, b: Self, c: &ModFieldCfg<I>) {
    }

    proof fn lemma_associative(a: Self, b: Self, d: Self, c: &ModFieldCfg<I>) {
        let p = c.rem.value() as int;
        let (x, y, z) = (a.value() as int, b.value() as int, d.value() as int);
        Self::lemma_residue_valid(((x + y) % p) as nat, c);
        Self::lemma_residue_valid(((y + z) % p) as nat, c);
        lemma_add_mod_noop(x + y, z, p);
        lemma_add_mod_noop(x, y + z, p);
        lemma_small_mod(x as nat, p as nat);
        lemma_small_mod(z as nat, p as nat);
    }

    proof fn lemma_neutral(a: Self, c: &ModFieldCfg<I>) {
        Self::lemma_residue_valid(0, c);
        a.lemma_residue_of_value(c);
    }
}

impl<I: Natural> AbelianGroup<ops::Add> for ModField<I> {
    proof fn lemma_inverse(a: Self, c: &ModFieldCfg<I>) {
        let p = c.rem.value() as int;
        let x = a.value() as int;
        Self::lemma_residue_valid(((p - x) % p) as nat, c);
        lemma_add_mod_noop_right(x, p - x, p);
        lemma_mod_self_0(p);
    }
}

/// `v` to the power `n`, modulo `p`.
pub open spec fn pow_mod(v: nat, n: nat, p: nat) -> nat {
    (pow(v as int, n) % (p as int)) as nat
}

/// Adding an element to itself `n` times is multiplying its value by `n`.
pub proof fn lemma_repeated_sum<I: Natural>(a: ModField<I>, n: nat, c: &ModFieldCfg<I>)
    requires
        ModField::<I>::cfg_ok(c),
        a.valid(c),
    ensures
        monoid_exp_spec::<ops::Add, ModField<I>>(a, n, c) == residue::<I>(
            (a.value() * n) % c.rem.value(),
        ),
    decreases n,
{
    let p = c.rem.value() as int;
    let x = a.value() as int;
    if n == 0 {
        lemma_small_mod(0, p as nat);
        assert(x * 0 == 0);
    } else if n == 1 {
        a.lemma_residue_of_value(c);
        assert(x * 1 == x);
    } else {
        let h = n / 2;
        let r = exp_spec::<ops::Add, ModField<I>>(a, h, c);
        lemma_repeated_sum(a, h, c);
        lemma_mul_nonnegative(x, h as int);
        lemma_mod_bound(x * h, p);
        let rv = ((x * h) % p) as nat;
        ModField::<I>::lemma_residue_valid(rv, c);
        assert(r == residue::<I>(rv));
        assert(r.value() == rv);
        lemma_add_mod_noop(x * h, x * h, p);
        if n % 2 == 0 {
            assert(x * h + x * h == x * n) by (nonlinear_arith)
                requires
                    n == 2 * h,
            ;
            assert((rv + rv) as int % p == (x * n) % p);
            assert(exp_spec::<ops::Add, ModField<I>>(a, n, c) == <ModField<I> as CommutativeOp<
                ops::Add,
            >>::op_spec(r, r, c));
        } else {
            let t = ((rv + x) % p) as nat;
            lemma_mod_bound(rv + x, p);
            ModField::<I>::lemma_residue_valid(t, c);
            lemma_small_mod(x as nat, p as nat);
            lemma_add_mod_noop(x * h, x, p);
            assert(t == (x * h + x) % p);
            lemma_add_mod_noop(x * h, x * h + x, p);
            assert(x * h + (x * h + x) == x * n) by (nonlinear_arith)
                requires
                    n == 2 * h + 1,
            ;
            assert((rv + t) as int % p == (x * n) % p);
            let inner = <ModField<I> as CommutativeOp<ops::Add>>::op_spec(r, a, c);
            assert(inner == residue::<I>(t));
            assert(inner.value() == t);
            assert(exp_spec::<ops::Add, ModField<I>>(a, n, c) == <ModField<I> as CommutativeOp<
                ops::Add,
            >>::op_spec(r, inner, c));
        }
    }
}

/// Multiplying an element by itself `n` times is raising its value to `n`.
pub proof fn lemma_repeated_product<I: Natural>(a: ModField<I>, n: nat, c: &ModFieldCfg<I>)
    requires
        ModField::<I>::cfg_ok(c),
        a.valid(c),
    ensures
        monoid_exp_spec::<ops::Mul, ModField<I>>(a, n, c) == residue::<I>(
            pow_mod(a.value(), n, c.rem.value()),
        ),
        pow_mod(a.value(), n, c.rem.value()) < c.rem.value(),
    decreases n,
{
    let p = c.rem.value() as int;
    let x = a.value() as int;
    lemma_mod_bound(pow(x, n), p);
    if n == 0 {
        lemma_pow0(x);
        lemma_small_mod(1, p as nat);
    } else if n == 1 {
        lemma_pow1(x);
        a.lemma_residue_of_value(c);
    } else {
        let h = n / 2;
        let r = exp_spec::<ops::Mul, ModField<I>>(a, h, c);
        lemma_repeated_product(a, h, c);
        let rv = pow_mod(a.value(), h, c.rem.value());
        ModField::<I>::lemma_residue_valid(rv, c);
        assert(r == residue::<I>(rv));
        assert(r.value() == rv);
        lemma_mul_mod_noop(pow(x, h), pow(x, h), p);
        lemma_pow_adds(x, h, h);
        if n % 2 == 0 {
            assert(h + h == n);
            assert((rv * rv) as int % p == pow(x, n) % p);
            assert(exp_spec::<ops::Mul, ModField<I>>(a, n, c) == <ModField<I> as CommutativeOp<
                ops::Mul,
            >>::op_spec(r, r, c));
        } else {
            let t = ((rv * x) % p) as nat;
            lemma_mul_nonnegative(rv as int, x);
            lemma_mod_bound(rv * x, p);
            ModField::<I>::lemma_residue_valid(t, c);
            lemma_pow1(x);
            lemma_pow_adds(x, h, 1);
            lemma_pow_adds(x, h, h + 1);
            lemma_mul_mod_noop_left(pow(x, h), x, p);
            assert(t == pow(x, h + 1) % p);
            lemma_mul_mod_noop(pow(x, h), pow(x, h + 1), p);
            assert(h + (h + 1) == n);
            assert((rv * t) as int % p == pow(x, n) % p);
            let inner = <ModField<I> as CommutativeOp<ops::Mul>>::op_spec(r, a, c);
            assert(inner == residue::<I>(t));
            assert(inner.value() == t);
            assert(exp_spec::<ops::Mul, ModField<I>>(a, n, c) == <ModField<I> as CommutativeOp<
                ops::Mul,
            >>::op_spec(r, inner, c));
        }
    }
}

impl<I: Natural> CommutativeOp<ops::Mul> for ModField<I> {
    open spec fn op_defined(a: Self, b: Self, c: &ModFieldCfg<I>) -> bool {
        true
    }

    /// The product modulo the modulus.
    open spec fn op_spec(a: Self, b: Self, c: &ModFieldCfg<I>) -> Self {
        residue::<I>((a.value() * b.value()) % c.rem.value())
    }

    proof fn lemma_op_valid(a: Self, b: Self, c: &ModFieldCfg<I>) {
        lemma_mul_nonnegative(a.value() as int, b.value() as int);
        lemma_mod_bound((a.value() * b.value()) as int, c.rem.value() as int);
        Self::lemma_residue_valid((a.value() * b.value()) % c.rem.value(), c);
    }

    /// Multiplies by adding `a` to itself `b` times, by doubling: no
    /// product wider than `I` is ever formed.
    fn op(a: Self, b: Self, c: &ModFieldCfg<I>) -> (r: Self) {
        proof {
            lemma_repeated_sum(a, b.value(), c);
        }
        monoid_exp::<ops::Add, Self, I>(a, b.val, c)
    }

    fn try_op(a: Self, b: Self, c: &ModFieldCfg<I>) -> (r: Option<Self>) {
        Some(<Self as CommutativeOp<ops::Mul>>::op(a, b, c))
    }
}

impl<I: Natural> Identity<ops::Mul> for ModField<I> {
    open spec fn identity_spec(c: &ModFieldCfg<I>) -> Self {
        residue::<I>(1)
    }

    proof fn lemma_identity_valid(c: &ModFieldCfg<I>) {
        Self::lemma_residue_valid(1, c);
    }

    fn identity(c: &ModFieldCfg<I>) -> (r: Self) {
        let val = I::one();
        proof {
            val.lemma_value();
        }
        Self { val }
    }
}

impl<I: Natural> CommutativeMonoid<ops::Mul> for ModField<I> {
    proof fn lemma_total(a: Self, b: Self, c: &ModFieldCfg<I>) {
    }

    proof fn lemma_commutative(a: Self, b: Self, c: &ModFieldCfg<I>) {
        lemma_mul_is_commutative(a.value() as int, b.value() as int);
    }

    proof fn lemma_associative(a: Self, b: Self, d: Self, c: &ModFieldCfg<I>) {
        let p = c.rem.value() as int;
        let (x, y, z) = (a.value() as int, b.value() as int, d.value() as int);
        <Self as CommutativeOp<ops::Mul>>::lemma_op_valid(a, b, c);
        <Self as CommutativeOp<ops::Mul>>::lemma_op_valid(b, d, c);
        Self::lemma_residue_valid(((x * y) % p) as nat, c);
        Self::lemma_residue_valid(((y * z) % p) as nat, c);
        lemma_mul_mod_noop_left(x * y, z, p);
        lemma_mul_mod_noop_right(x, y * z, p);
        lemma_mul_is_associative(x, y, z);
    }

    proof fn lemma_neutral(a: Self, c: &ModFieldCfg<I>) {
        Self::lemma_residue_valid(1, c);
        a.lemma_residue_of_value(c);
    }
}

impl<I: Natural> InverseNonZero<ops::Mul> for ModField<I> {
    /// Where the value is coprime to the modulus, its power `rem - 2`: by
    /// Fermat's little theorem the inverse, provided the modulus is prime.
    open spec fn try_inv_spec(self, c: &ModFieldCfg<I>) -> Option<Self> {
        if gcd_spec(c.rem.value(), self.value()) != 1 {
            None
        } else {
            Some(residue::<I>(pow_mod(self.value(), (c.rem.value() - 2) as nat, c.rem.value())))
        }
    }

    proof fn lemma_try_inv_valid(self, c: &ModFieldCfg<I>) {
        lemma_repeated_product(self, (c.rem.value() - 2) as nat, c);
        Self::lemma_residue_valid(
            pow_mod(self.value(), (c.rem.value() - 2) as nat, c.rem.value()),
            c,
        );
    }

    fn inv(self, c: &ModFieldCfg<I>) -> (r: Option<Self>) {
        if !gcd(c.rem, self.natural()).equals(I::one()) {
            return None;
        }
        proof {
            lemma_repeated_product(self, (c.rem.value() - 2) as nat, c);
        }
        Some(monoid_exp::<ops::Mul, Self, I>(self, c.rem.minus(I::two()), c))
    }
}

impl<I: Natural> Field for ModField<I> {
    proof fn lemma_distributive(a: Self, b: Self, d: Self, c: &ModFieldCfg<I>) {
        let p = c.rem.value() as int;
        let (x, y, z) = (a.value() as int, b.value() as int, d.value() as int);
        lemma_mul_nonnegative(x, y);
        lemma_mul_nonnegative(x, z);
        lemma_mod_bound(y + z, p);
        lemma_mod_bound(x * y, p);
        lemma_mod_bound(x * z, p);
        Self::lemma_residue_valid(((y + z) % p) as nat, c);
        Self::lemma_residue_valid(((x * y) % p) as nat, c);
        Self::lemma_residue_valid(((x * z) % p) as nat, c);
        lemma_mul_mod_noop_right(x, y + z, p);
        lemma_add_mod_noop(x * y, x * z, p);
        lemma_mul_is_distributive_add(x, y, z);
    }
}

impl<I: Natural> ModField<I> {
    /// The reciprocal of an element that has one.
    pub fn invert(self, c: &ModFieldCfg<I>) -> (r: Self)
        requires
            Self::cfg_ok(c),
            self.valid(c),
            reciprocal_spec(self, c) is Some,
        ensures
            Some(r) == reciprocal_spec(self, c),
            r.valid(c),
    {
        self.reciprocal(c).unwrap()
    }
}

impl<I: Natural> DiscreteRoot<ops::Mul> for ModField<I> {
    /// The modulus is congruent to 3 modulo 4.
    open spec fn root_cfg_ok(c: &ModFieldCfg<I>) -> bool {
        c.rem.value() % 4 == 3
    }

    /// Where Euler's criterion holds of the value, its power `(rem + 1) / 4`.
    open spec fn sqrt_spec(self, c: &ModFieldCfg<I>) -> Option<Self> {
        let p = c.rem.value();
        if pow_mod(self.value(), ((p - 1) / 2) as nat, p) != 1 {
            None
        } else {
            Some(residue::<I>(pow_mod(self.value(), (p + 1) / 4, p)))
        }
    }

    proof fn lemma_sqrt(self, c: &ModFieldCfg<I>) {
        let p = c.rem.value() as int;
        let x = self.value() as int;
        let e = ((p - 1) / 2) as nat;
        let k = ((p + 1) / 4) as nat;
        if pow_mod(self.value(), e, p as nat) == 1 {
            let rv = pow_mod(self.value(), k, p as nat);
            lemma_repeated_product(self, k, c);
            Self::lemma_residue_valid(rv, c);
            assert(k + k == e + 1);
            lemma_mul_mod_noop(pow(x, k), pow(x, k), p);
            lemma_pow_adds(x, k, k);
            lemma_pow_adds(x, e, 1);
            lemma_pow1(x);
            lemma_mul_mod_noop_left(pow(x, e), x, p);
            lemma_small_mod(x as nat, p as nat);
            self.lemma_residue_of_value(c);
        }
    }

    fn sqrt(self, c: &ModFieldCfg<I>) -> (r: Option<Self>) {
        let e = c.rem.minus(I::one()).quotient(I::two());
        let one = Self::one(c);
        proof {
            lemma_repeated_product(self, e.value(), c);
            Self::lemma_residue_valid(pow_mod(self.value(), e.value(), c.rem.value()), c);
            Self::lemma_residue_valid(1, c);
        }
        if !self.pow(e, c).same(one) {
            return None;
        }
        proof {
            c.rem.lemma_value();
            I::lemma_max_value();
        }
        let four = I::two().plus(I::two());
        let k = c.rem.quotient(four).plus(I::one());
        proof {
            lemma_repeated_product(self, k.value(), c);
        }
        Some(self.pow(k, c))
    }
}

/// How often `random_nonzero` draws before it gives up.
pub const NONZERO_DRAWS: usize = 128;

impl<I: Natural + FromRandom<()>> FromRandom<ModFieldCfg<I>> for ModField<I> {
    open spec fn random_cfg_ok(cfg: &ModFieldCfg<I>) -> bool {
        cfg.rem.value() != 0 && <I as FromRandom<()>>::random_cfg_ok(&())
    }

    /// Whatever is drawn is reduced.
    open spec fn random_ok(self, cfg: &ModFieldCfg<I>) -> bool {
        self.valid(cfg)
    }

    fn random<R: RandomSource>(rng: &mut R, cfg: &ModFieldCfg<I>) -> (r: Self) {
        let drawn = I::random(rng, &());
        proof {
            lemma_mod_bound(drawn.value() as int, cfg.rem.value() as int);
        }
        Self::new(drawn, cfg)
    }
}

/// The element of a number drawn, unless that element is zero.
pub open spec fn nonzero_of<I: Natural>(drawn: I, cfg: &ModFieldCfg<I>) -> Option<ModField<I>> {
    if drawn.value() % cfg.rem.value() != 0 {
        Some(residue::<I>(drawn.value() % cfg.rem.value()))
    } else {
        None
    }
}

/// `res` is what the search for an element other than zero ends with when
/// it draws the numbers `drawn`, in this order: each is a number that
/// `I::random` can give, each but the last gives zero, the last gives
/// `res`, and the search gives up only after `NONZERO_DRAWS` draws.
pub open spec fn nonzero_search<I: Natural + FromRandom<()>>(
    drawn: Seq<I>,
    cfg: &ModFieldCfg<I>,
    res: Option<ModField<I>>,
) -> bool {
    &&& 1 <= drawn.len() <= NONZERO_DRAWS
    &&& forall|i: int| 0 <= i < drawn.len() ==> (#[trigger] drawn[i]).random_ok(&())
    &&& forall|i: int| 0 <= i < drawn.len() - 1 ==> nonzero_of(#[trigger] drawn[i], cfg) is None
    &&& res == nonzero_of(drawn.last(), cfg)
    &&& res is None ==> drawn.len() == NONZERO_DRAWS
}

impl<I: Natural + FromRandom<()>> ModField<I> {
    /// Draws until an element other than zero comes, at most
    /// `NONZERO_DRAWS` times; `None` where every draw was zero. Whatever is
    /// drawn, the result is the element of the first number drawn that
    /// does not give zero.
    pub fn random_nonzero<R: RandomSource>(r: &mut R, cfg: &ModFieldCfg<I>) -> (res: Option<Self>)
        requires
            <Self as FromRandom<ModFieldCfg<I>>>::random_cfg_ok(cfg),
        ensures
            exists|drawn: Seq<I>| #[trigger] nonzero_search(drawn, cfg, res),
            res matches Some(x) ==> x.valid(cfg) && x.value() != 0,
    {
        let mut left: usize = NONZERO_DRAWS;
        let ghost mut seen: Seq<I> = Seq::empty();
        while left > 0
            invariant
                <Self as FromRandom<ModFieldCfg<I>>>::random_cfg_ok(cfg),
                left <= NONZERO_DRAWS,
                seen.len() == NONZERO_DRAWS - left,
                forall|i: int| 0 <= i < seen.len() ==> (#[trigger] seen[i]).random_ok(&()),
                forall|i: int| 0 <= i < seen.len() ==> nonzero_of(#[trigger] seen[i], cfg) is None,
            decreases left,
        {
            let drawn = I::random(r, &());
            let found = Self::nonzero_from(drawn, cfg);
            proof {
                seen = seen.push(drawn);
            }
            match found {
                Some(x) => {
                    proof {
                        assert(nonzero_search(seen, cfg, found));
                    }
                    return Some(x);
                },
                None => {},
            }
            left = left - 1;
        }
        proof {
            assert(nonzero_search(seen, cfg, None));
        }
        None
    }
}

impl<I: Natural> ModField<I> {
    /// The element of a number drawn, unless that element is zero.
    pub fn nonzero_from(drawn: I, cfg: &ModFieldCfg<I>) -> (res: Option<Self>)
        requires
            cfg.rem.value() != 0,
        ensures
            res == nonzero_of(drawn, cfg),
            res matches Some(x) ==> x.valid(cfg) && x.value() != 0,
    {
        let x = Self::new(drawn, cfg);
        proof {
            lemma_mod_bound(drawn.value() as int, cfg.rem.value() as int);
        }
        if x.val.equals(I::zero()) {
            None
        } else {
            Some(x)
        }
    }
}

impl<I: Natural + RW> RW for ModField<I> {
    const LEN: usize = I::LEN;

    open spec fn len_spec() -> nat {
        I::len_spec()
    }

    /// The bytes of the number it holds.
    open spec fn bytes_spec(self) -> Seq<u8> {
        self.val.bytes_spec()
    }

    /// The element that holds the number read; it is not reduced.
    open spec fn from_bytes_spec(b: Seq<u8>) -> Self {
        ModField { val: I::from_bytes_spec(b) }
    }

    proof fn lemma_len() {
        I::lemma_len();
        assert(<ModField<I> as RW>::LEN == I::LEN);
    }

    proof fn lemma_bytes(self) {
        self.val.lemma_bytes();
        assert(<ModField<I> as RW>::from_bytes_spec(self.bytes_spec()) == ModField {
            val: I::from_bytes_spec(self.val.bytes_spec()),
        });
    }

    proof fn lemma_from_bytes(b: Seq<u8>) {
        I::lemma_from_bytes(b);
    }

    fn to_bytes(self, w: &mut Vec<u8>) -> (n: usize) {
        self.val.to_bytes(w)
    }

    fn from_bytes(r: &[u8]) -> (v: Self) {
        Self { val: I::from_bytes(r) }
    }
}

/// The number of base-256 digits of `n`.
pub open spec fn byte_len(n: nat) -> nat
    decreases n,
{
    if n == 0 {
        0
    } else {
        1 + byte_len(n / 256)
    }
}

impl<I: Natural> Capacitor for ModField<I> {
    /// The number of bytes that the modulus takes, as far as `usize` can
    /// count them.
    open spec fn capacity_spec(cfg: &ModFieldCfg<I>) -> nat {
        if byte_len(cfg.rem.value()) <= usize::MAX {
            byte_len(cfg.rem.value())
        } else {
            usize::MAX as nat
        }
    }

    fn capacity(cfg: &ModFieldCfg<I>) -> (r: usize) {
        let two = I::two();
        let zero = I::zero();
        let mut left = cfg.rem;
        let mut count: usize = 0;
        while !left.equals(zero) && count < usize::MAX
            invariant
                two.value() == 2,
                zero.value() == 0,
                count + byte_len(left.value()) == byte_len(cfg.rem.value()),
            decreases left.value(),
        {
            let mut halvings: usize = 0;
            let ghost before = left.value();
            let ghost mut divisor: nat = 1;
            proof {
                lemma_pow0(2);
            }
            while halvings < 8
                invariant
                    two.value() == 2,
                    halvings <= 8,
                    divisor >= 1,
                    divisor == pow(2, halvings as nat),
                    left.value() == before / divisor,
                decreases 8 - halvings,
            {
                proof {
                    lemma_div_denominator(before as int, divisor as int, 2);
                    lemma_pow_adds(2, halvings as nat, 1);
                    lemma_pow1(2);
                    lemma_pow_positive(2, (halvings + 1) as nat);
                }
                left = left.quotient(two);
                halvings = halvings + 1;
                proof {
                    divisor = divisor * 2;
                }
            }
            proof {
                lemma_pow_adds(2, 4, 4);
                lemma_pow_adds(2, 2, 2);
                lemma_pow_adds(2, 1, 1);
                lemma_pow1(2);
                assert(pow(2, 8) == 256) by (nonlinear_arith)
                    requires
                        pow(2, 8) == pow(2, 4) * pow(2, 4),
                        pow(2, 4) == pow(2, 2) * pow(2, 2),
                        pow(2, 2) == pow(2, 1) * pow(2, 1),
                        pow(2, 1) == 2,
                ;
            }
            count = count + 1;
        }
        count
    }
}

/// Modulo a prime, every element but zero has a reciprocal, and zero has
/// none.
pub proof fn lemma_reciprocal_exists<I: Natural>(a: ModField<I>, c: &ModFieldCfg<I>)
    requires
        ModField::<I>::cfg_ok(c),
        is_prime(c.rem.value()),
        a.valid(c),
    ensures
        reciprocal_spec(a, c) is Some <==> a != zero_spec::<ModField<I>>(c),
{
    let p = c.rem.value();
    a.lemma_residue_of_value(c);
    ModField::<I>::lemma_residue_valid(0, c);
    if a.value() == 0 {
        assert(gcd_spec(p, 0) == p);
    } else {
        lemma_small_mod(a.value(), p);
        lemma_prime_coprime(p, a.value());
    }
}

/// Modulo a prime, the reciprocal times the element is one:
/// `a.reciprocal() * a == one()`.
pub proof fn lemma_reciprocal_cancels<I: Natural>(a: ModField<I>, c: &ModFieldCfg<I>)
    requires
        ModField::<I>::cfg_ok(c),
        is_prime(c.rem.value()),
        a.valid(c),
        reciprocal_spec(a, c) is Some,
    ensures
        mul_spec(reciprocal_spec(a, c).unwrap(), a, c) == one_spec::<ModField<I>>(c),
{
    let p = c.rem.value() as int;
    let x = a.value() as int;
    let e = (p - 2) as nat;
    lemma_reciprocal_exists(a, c);
    a.lemma_residue_of_value(c);
    assert(x != 0);
    lemma_repeated_product(a, e, c);
    let rv = pow_mod(a.value(), e, p as nat);
    ModField::<I>::lemma_residue_valid(rv, c);
    lemma_mul_mod_noop_left(pow(x, e), x, p);
    lemma_pow1(x);
    lemma_pow_adds(x, e, 1);
    lemma_fermat_little(a.value(), p as nat);
}

/// Modulo a prime, dividing by an element with a reciprocal and
/// multiplying by it again gives `a` back: `(a / b) * b == a`.
pub proof fn lemma_div_mul_cancel<I: Natural>(a: ModField<I>, b: ModField<I>, c: &ModFieldCfg<I>)
    requires
        ModField::<I>::cfg_ok(c),
        is_prime(c.rem.value()),
        a.valid(c),
        b.valid(c),
        reciprocal_spec(b, c) is Some,
    ensures
        mul_spec(div_spec(a, b, c), b, c) == a,
{
    let rb = reciprocal_spec(b, c).unwrap();
    lemma_div_valid(a, b, c);
    lemma_reciprocal_cancels(b, c);
    <ModField<I> as CommutativeMonoid<ops::Mul>>::lemma_associative(a, rb, b, c);
    <ModField<I> as CommutativeMonoid<ops::Mul>>::lemma_neutral(a, c);
}

/// Modulo a prime congruent to 3 modulo 4, the square of every element but
/// zero has a root that `sqrt_spec` finds: `None` means that an element is
/// zero or no square.
pub proof fn lemma_sqrt_finds_roots<I: Natural>(r: ModField<I>, c: &ModFieldCfg<I>)
    requires
        ModField::<I>::cfg_ok(c),
        ModField::<I>::root_cfg_ok(c),
        is_prime(c.rem.value()),
        r.valid(c),
        r != zero_spec::<ModField<I>>(c),
    ensures
        sqr_spec(r, c).sqrt_spec(c) is Some,
{
    let p = c.rem.value() as int;
    let x = r.value() as int;
    let e = ((p - 1) / 2) as nat;
    let v = sqr_spec(r, c);
    r.lemma_residue_of_value(c);
    ModField::<I>::lemma_residue_valid(0, c);
    assert(x != 0);
    lemma_mul_nonnegative(x, x);
    lemma_mod_bound(x * x, p);
    ModField::<I>::lemma_residue_valid(((x * x) % p) as nat, c);
    assert(v.value() == (x * x) % p);
    lemma_pow_mod_noop(x * x, e, p);
    lemma_square_is_pow2(x);
    lemma_pow_multiplies(x, 2, e);
    assert(2 * e == p - 1);
    lemma_fermat_little(x as nat, p as nat);
}

} // verus!
