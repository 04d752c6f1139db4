//! Divisibility and the greatest common divisor of natural numbers.

use vstd::arithmetic::div_mod::*;
use vstd::arithmetic::mul::*;
use vstd::prelude::*;

verus! {

/// `d` divides `n`. Zero divides only zero.
pub open spec fn divides(d: nat, n: nat) -> bool {
    if d == 0 {
        n == 0
    } else {
        n % d == 0
    }
}

/// `g` is a common divisor of `a` and `b` that every common divisor divides.
pub open spec fn is_gcd(g: nat, a: nat, b: nat) -> bool {
    &&& divides(g, a)
    &&& divides(g, b)
    &&& forall|d: nat| divides(d, a) && divides(d, b) ==> #[trigger] divides(d, g)
}

/// The greatest common divisor, by Euclid's recursion.
pub open spec fn gcd_spec(a: nat, b: nat) -> nat
    decreases b,
{
    if b == 0 {
        a
    } else {
        gcd_spec(b, a % b)
    }
}

/// Modulo a multiple of `d`, divisibility by `d` is unchanged.
pub proof fn lemma_divides_mod(d: nat, a: nat, b: nat)
    requires
        b > 0,
        divides(d, b),
    ensures
        divides(d, a) == divides(d, a % b),
{
    assert(d > 0);
    let q = (a / b) as int;
    let k = (b / d) as int;
    lemma_fundamental_div_mod(a as int, b as int);
    lemma_fundamental_div_mod(b as int, d as int);
    assert(b == d * k);
    assert(a == b * q + a % b);
    assert(b * q == d * (k * q)) by {
        lemma_mul_is_associative(d as int, k, q);
    }
    lemma_mod_multiples_vanish(k * q, (a % b) as int, d as int);
    assert(d * (k * q) == (k * q) * d) by {
        lemma_mul_is_commutative(d as int, k * q);
    }
}

/// Euclid's recursion yields the greatest common divisor.
pub proof fn lemma_gcd_spec_is_gcd(a: nat, b: nat)
    ensures
        is_gcd(gcd_spec(a, b), a, b),
    decreases b,
{
    if b == 0 {
        if a > 0 {
            lemma_mod_self_0(a as int);
        }
    } else {
        let g = gcd_spec(b, a % b);
        lemma_gcd_spec_is_gcd(b, a % b);
        assert(g > 0);
        lemma_divides_mod(g, a, b);
        assert forall|d: nat| divides(d, a) && divides(d, b) implies #[trigger] divides(d, g) by {
            lemma_divides_mod(d, a, b);
        }
    }
}

/// The greatest common divisor does not depend on the order.
pub proof fn lemma_gcd_spec_symmetric(a: nat, b: nat)
    ensures
        gcd_spec(a, b) == gcd_spec(b, a),
{
    if a == 0 || b == 0 {
        if a > 0 {
            assert(gcd_spec(0, a) == gcd_spec(a, 0nat % a));
            lemma_small_mod(0, a);
        }
        if b > 0 {
            assert(gcd_spec(0, b) == gcd_spec(b, 0nat % b));
            lemma_small_mod(0, b);
        }
    } else if a < b {
        lemma_small_mod(a, b);
        assert(gcd_spec(a, b) == gcd_spec(b, a % b));
    } else if b < a {
        lemma_small_mod(b, a);
        assert(gcd_spec(b, a) == gcd_spec(a, b % a));
    }
}

/// One step of Euclid's algorithm, on either argument.
pub proof fn lemma_gcd_spec_step(a: nat, b: nat)
    ensures
        b > 0 ==> gcd_spec(a, b) == gcd_spec(a % b, b),
        a > 0 ==> gcd_spec(a, b) == gcd_spec(a, b % a),
{
    if b > 0 {
        lemma_gcd_spec_symmetric(a % b, b);
    }
    if a > 0 {
        lemma_gcd_spec_symmetric(a, b);
        lemma_gcd_spec_symmetric(a, b % a);
    }
}

} // verus!
