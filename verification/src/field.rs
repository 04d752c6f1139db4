//! Euclid's algorithm on machine words, plain and extended.

use crate::arith::{gcd_spec, lemma_gcd_spec_step};
use crate::fermat::{bezout, lemma_bezout};
use vstd::arithmetic::div_mod::*;
use vstd::prelude::*;

verus! {

/// The greatest common divisor of `a` and `b`; zero where both are zero.
pub fn gcd(a: u64, b: u64) -> (r: u64)
    ensures
        r == gcd_spec(a as nat, b as nat),
    decreases a + b,
{
    proof {
        lemma_gcd_spec_step(a as nat, b as nat);
    }
    if a == b {
        proof {
            if a > 0 {
                vstd::arithmetic::div_mod::lemma_mod_self_0(a as int);
                assert(gcd_spec(a as nat, a as nat) == gcd_spec(a as nat, 0));
            }
        }
        return a;
    }
    if a == 0 {
        proof {
            lemma_gcd_spec_step(b as nat, 0);
            vstd::arithmetic::div_mod::lemma_small_mod(0, b as nat);
        }
        return b;
    }
    if b == 0 {
        return a;
    }
    if a > b {
        gcd(a % b, b)
    } else {
        gcd(a, b % a)
    }
}

/// The absolute value.
pub open spec fn abs(x: int) -> int {
    if x < 0 {
        -x
    } else {
        x
    }
}

/// The greatest common divisor of `a` and `b` with the coefficients of
/// Bezout's identity: `(d, x, y)` with `a x + b y == d`.
pub fn extended_gcd(a: u64, b: u64) -> (r: (u64, i64, i64))
    requires
        a <= i64::MAX,
        b <= i64::MAX,
    ensures
        r.0 == gcd_spec(a as nat, b as nat),
        (r.1 as int, r.2 as int) == bezout(a as nat, b as nat),
        a * r.1 + b * r.2 == r.0,
{
    let mut old_r: i64 = a as i64;
    let mut r: i64 = b as i64;
    let mut old_s: i64 = 1;
    let mut s: i64 = 0;
    let mut old_t: i64 = 0;
    let mut t: i64 = 1;
    proof {
        lemma_bezout(a as nat, b as nat);
        assert(abs(0) * old_r + abs(1) * r == b) by (nonlinear_arith)
            requires
                r == b,
        ;
        assert(abs(1) * old_r + abs(0) * r == a) by (nonlinear_arith)
            requires
                old_r == a,
        ;
    }
    while r != 0
        invariant
            a <= i64::MAX,
            b <= i64::MAX,
            0 <= old_r,
            0 <= r,
            gcd_spec(old_r as nat, r as nat) == gcd_spec(a as nat, b as nat),
            // the final coefficients, from those of what is left to do
            bezout(a as nat, b as nat).0 == old_s * bezout(old_r as nat, r as nat).0 + s * bezout(
                old_r as nat,
                r as nat,
            ).1,
            bezout(a as nat, b as nat).1 == old_t * bezout(old_r as nat, r as nat).0 + t * bezout(
                old_r as nat,
                r as nat,
            ).1,
            // the coefficients alternate in sign and stay within the inputs
            (old_s >= 0 && s <= 0) || (old_s <= 0 && s >= 0),
            (old_t >= 0 && t <= 0) || (old_t <= 0 && t >= 0),
            abs(s as int) * old_r + abs(old_s as int) * r == b,
            abs(t as int) * old_r + abs(old_t as int) * r == a,
        decreases r,
    {
        let quotient: i64 = old_r / r;
        proof {
            let q = quotient as int;
            let (ori, ri) = (old_r as int, r as int);
            lemma_fundamental_div_mod(ori, ri);
            lemma_mod_bound(ori, ri);
            assert(q >= 0) by {
                lemma_div_pos_is_pos(ori, ri);
            }
            assert(ori - q * ri == ori % ri) by (nonlinear_arith)
                requires
                    ori == ri * q + ori % ri,
            ;
            assert(q * ri <= ori);
            lemma_step_bounds(q, ori, ri, old_s as int, s as int, b as int);
            lemma_step_bounds(q, ori, ri, old_t as int, t as int, a as int);
            let (x1, y1) = bezout(r as nat, (ori % ri) as nat);
            assert(bezout(old_r as nat, r as nat) == (y1, x1 - q * y1));
            assert(old_s * y1 + s * (x1 - q * y1) == s * x1 + (old_s - q * s) * y1)
                by (nonlinear_arith);
            assert(old_t * y1 + t * (x1 - q * y1) == t * x1 + (old_t - q * t) * y1)
                by (nonlinear_arith);
        }
        let next_r: i64 = old_r - quotient * r;
        let next_s: i64 = old_s - quotient * s;
        let next_t: i64 = old_t - quotient * t;
        old_r = r;
        r = next_r;
        old_s = s;
        s = next_s;
        old_t = t;
        t = next_t;
    }
    proof {
        lemma_bezout(a as nat, b as nat);
        assert(bezout(old_r as nat, 0) == (1int, 0int));
        assert(old_s * 1 + s * 0 == old_s) by (nonlinear_arith);
        assert(old_t * 1 + t * 0 == old_t) by (nonlinear_arith);
    }
    (old_r as u64, old_s, old_t)
}

/// One step of the algorithm keeps a coefficient within the bound: with
/// `|s| old_r + |old_s| r == bound` before, `|old_s - q s| r + |s| (old_r - q r)
/// == bound` after, and neither `q s` nor the new coefficient exceeds `bound`.
pub proof fn lemma_step_bounds(q: int, old_r: int, r: int, old_s: int, s: int, bound: int)
    requires
        q >= 0,
        r > 0,
        old_r >= q * r,
        (old_s >= 0 && s <= 0) || (old_s <= 0 && s >= 0),
        abs(s) * old_r + abs(old_s) * r == bound,
    ensures
        abs(old_s - q * s) == abs(old_s) + q * abs(s),
        abs(old_s - q * s) * r + abs(s) * (old_r - q * r) == bound,
        abs(q * s) <= bound,
        abs(old_s - q * s) <= bound,
        (s >= 0 && old_s - q * s <= 0) || (s <= 0 && old_s - q * s >= 0),
{
    let n = old_s - q * s;
    assert(q * abs(s) >= 0) by (nonlinear_arith)
        requires
            q >= 0,
            abs(s) >= 0,
    ;
    assert(abs(q * s) == q * abs(s)) by (nonlinear_arith)
        requires
            q >= 0,
    ;
    assert(abs(n) == abs(old_s) + q * abs(s)) by (nonlinear_arith)
        requires
            n == old_s - q * s,
            q >= 0,
            (old_s >= 0 && s <= 0) || (old_s <= 0 && s >= 0),
    ;
    assert(abs(n) * r + abs(s) * (old_r - q * r) == bound) by (nonlinear_arith)
        requires
            abs(n) == abs(old_s) + q * abs(s),
            abs(s) * old_r + abs(old_s) * r == bound,
    ;
    assert(abs(n) <= bound) by (nonlinear_arith)
        requires
            abs(n) * r + abs(s) * (old_r - q * r) == bound,
            r > 0,
            abs(n) >= 0,
            abs(s) >= 0,
            old_r - q * r >= 0,
    ;
    assert((s >= 0 && n <= 0) || (s <= 0 && n >= 0)) by (nonlinear_arith)
        requires
            n == old_s - q * s,
            q >= 0,
            (old_s >= 0 && s <= 0) || (old_s <= 0 && s >= 0),
    ;
}

} // verus!
