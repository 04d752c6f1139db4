//! Primes: Bezout's identity, Euclid's lemma and Fermat's little theorem.

use crate::arith::{divides, gcd_spec, is_gcd, lemma_gcd_spec_is_gcd};
use vstd::arithmetic::div_mod::*;
use vstd::arithmetic::mul::*;
use vstd::arithmetic::power::*;
use vstd::prelude::*;

verus! {

/// `p` is at least two and no number strictly between one and `p` divides it.
pub open spec fn is_prime(p: nat) -> bool {
    &&& p >= 2
    &&& forall|d: nat| 1 < d < p ==> !#[trigger] divides(d, p)
}

/// Coefficients `(x, y)` with `a x + b y == gcd(a, b)`, by the recursion
/// of the extended Euclidean algorithm.
pub open spec fn bezout(a: nat, b: nat) -> (int, int)
    decreases b,
{
    if b == 0 {
        (1, 0)
    } else {
        let (x, y) = bezout(b, a % b);
        (y, x - (a / b) * y)
    }
}

/// Bezout's identity.
pub proof fn lemma_bezout(a: nat, b: nat)
    ensures
        a * bezout(a, b).0 + b * bezout(a, b).1 == gcd_spec(a, b),
    decreases b,
{
    if b != 0 {
        let (x, y) = bezout(b, a % b);
        let q = (a / b) as int;
        let r = (a % b) as int;
        lemma_bezout(b, a % b);
        lemma_fundamental_div_mod(a as int, b as int);
        assert(a * y + b * (x - q * y) == b * x + r * y) by (nonlinear_arith)
            requires
                a == b * q + r,
        ;
    }
}

/// A prime has no common divisor but one with a number it does not divide.
pub proof fn lemma_prime_coprime(p: nat, a: nat)
    requires
        is_prime(p),
        a % p != 0,
    ensures
        gcd_spec(p, a) == 1,
{
    let g = gcd_spec(p, a);
    lemma_gcd_spec_is_gcd(p, a);
    assert(divides(g, p) && divides(g, a));
    assert(g != 0);
    if g > p {
        lemma_small_mod(p, g);
    }
    if g == p {
        assert(a % p == 0);
    }
    if 1 < g && g < p {
        assert(!divides(g, p));
    }
}

/// Euclid's lemma: a prime that divides a product divides a factor.
pub proof fn lemma_euclid(p: nat, x: nat, y: nat)
    requires
        is_prime(p),
        (x * y) % p == 0,
    ensures
        x % p == 0 || y % p == 0,
{
    if x % p != 0 {
        lemma_prime_coprime(p, x);
        lemma_bezout(p, x);
        let (u, v) = bezout(p, x);
        let pi = p as int;
        let xi = x as int;
        let yi = y as int;
        assert(yi == (u * yi) * pi + v * (xi * yi)) by (nonlinear_arith)
            requires
                pi * u + xi * v == 1,
        ;
        lemma_mul_mod_noop_right(v, xi * yi, pi);
        assert((v * (xi * yi)) % pi == 0) by {
            assert((v * ((xi * yi) % pi)) == 0) by (nonlinear_arith)
                requires
                    (xi * yi) % pi == 0,
            ;
            lemma_small_mod(0, p);
        }
        lemma_mod_multiples_vanish(u * yi, v * (xi * yi), pi);
    }
}

/// The product of the numbers of a sequence.
pub open spec fn product(s: Seq<nat>) -> nat
    decreases s.len(),
{
    if s.len() == 0 {
        1
    } else {
        product(s.drop_last()) * s.last()
    }
}

/// No number occurs twice in `s`.
pub open spec fn distinct(s: Seq<nat>) -> bool {
    forall|i: int, j: int| 0 <= i < s.len() && 0 <= j < s.len() && i != j ==> s[i] != s[j]
}

/// Taking one factor out of a product.
pub proof fn lemma_product_remove(s: Seq<nat>, j: int)
    requires
        0 <= j < s.len(),
    ensures
        product(s) == product(s.remove(j)) * s[j],
    decreases s.len(),
{
    if j == s.len() - 1 {
        assert(s.remove(j) =~= s.drop_last());
    } else {
        let front = s.drop_last();
        lemma_product_remove(front, j);
        assert(front.remove(j) =~= s.remove(j).drop_last());
        assert(s.remove(j).last() == s.last());
        let a = product(front.remove(j));
        assert((a * s[j]) * s.last() == (a * s.last()) * s[j]) by (nonlinear_arith);
    }
}

/// Two sequences of the same length without repetitions, one of which
/// holds every number of the other, have the same product.
pub proof fn lemma_product_rearranged(s: Seq<nat>, t: Seq<nat>)
    requires
        s.len() == t.len(),
        distinct(s),
        distinct(t),
        forall|i: int| 0 <= i < s.len() ==> t.contains(#[trigger] s[i]),
    ensures
        product(s) == product(t),
    decreases s.len(),
{
    if s.len() > 0 {
        let x = s.last();
        assert(t.contains(s[s.len() - 1]));
        let j = choose|j: int| 0 <= j < t.len() && t[j] == x;
        let s1 = s.drop_last();
        let t1 = t.remove(j);
        assert forall|i: int| 0 <= i < s1.len() implies t1.contains(#[trigger] s1[i]) by {
            assert(t.contains(s[i]));
            let k = choose|k: int| 0 <= k < t.len() && t[k] == s[i];
            assert(k != j);
            if k < j {
                assert(t1[k] == s1[i]);
            } else {
                assert(t1[k - 1] == s1[i]);
            }
        }
        assert(distinct(t1)) by {
            assert forall|a: int, b: int|
                0 <= a < t1.len() && 0 <= b < t1.len() && a != b implies t1[a] != t1[b] by {
                let a0 = if a < j {
                    a
                } else {
                    a + 1
                };
                let b0 = if b < j {
                    b
                } else {
                    b + 1
                };
                assert(t1[a] == t[a0] && t1[b] == t[b0]);
            }
        }
        lemma_product_rearranged(s1, t1);
        lemma_product_remove(t, j);
    }
}

/// The numbers `1, 2, ..., n`.
pub open spec fn one_to(n: nat) -> Seq<nat> {
    Seq::new(n, |i: int| (i + 1) as nat)
}

/// The residues of `a, 2 a, ..., n a` modulo `p`.
pub open spec fn multiples_mod(a: nat, n: nat, p: nat) -> Seq<nat> {
    Seq::new(n, |i: int| (a * (i + 1)) as nat % p)
}

/// Below a prime `p`, the product `1 * 2 * ... * n` is not divisible by `p`.
pub proof fn lemma_factorial_mod_prime(n: nat, p: nat)
    requires
        is_prime(p),
        n < p,
    ensures
        product(one_to(n)) % p != 0,
    decreases n,
{
    if n == 0 {
        lemma_small_mod(1, p);
    } else {
        let m = (n - 1) as nat;
        assert(one_to(n).drop_last() =~= one_to(m));
        lemma_factorial_mod_prime(m, p);
        lemma_small_mod(n, p);
        if (product(one_to(m)) * n) % p == 0 {
            lemma_euclid(p, product(one_to(m)), n);
        }
    }
}

/// The product of the residues of `a, 2 a, ..., n a` is congruent to
/// `a^n * n!`.
pub proof fn lemma_multiples_product(a: nat, n: nat, p: nat)
    requires
        p > 0,
    ensures
        product(multiples_mod(a, n, p)) % p == (pow(a as int, n) * product(one_to(n))) % (
        p as int),
    decreases n,
{
    let pi = p as int;
    if n == 0 {
        lemma_pow0(a as int);
    } else {
        let m = (n - 1) as nat;
        assert(multiples_mod(a, n, p).drop_last() =~= multiples_mod(a, m, p));
        assert(one_to(n).drop_last() =~= one_to(m));
        lemma_multiples_product(a, m, p);
        let left = product(multiples_mod(a, m, p)) as int;
        let fact = product(one_to(m)) as int;
        let am = pow(a as int, m);
        let an = (a * n) as int;
        // product(multiples_mod(a, n, p)) == left * (an % p)
        lemma_mul_mod_noop_right(left, an, pi);
        lemma_mul_mod_noop_left(left, an, pi);
        lemma_mul_mod_noop_left(am * fact, an, pi);
        assert((left * an) % pi == ((am * fact) * an) % pi);
        lemma_pow1(a as int);
        lemma_pow_adds(a as int, m, 1);
        assert((am * fact) * an == (am * a) * (fact * n)) by (nonlinear_arith)
            requires
                an == a * n,
        ;
    }
}

/// Fermat's little theorem: for a prime `p` and `0 < a < p`,
/// `a^(p - 1)` is congruent to one modulo `p`.
pub proof fn lemma_fermat_little(a: nat, p: nat)
    requires
        is_prime(p),
        0 < a < p,
    ensures
        pow(a as int, (p - 1) as nat) % (p as int) == 1,
{
    let n = (p - 1) as nat;
    let pi = p as int;
    let s = multiples_mod(a, n, p);
    let t = one_to(n);
    lemma_small_mod(a, p);
    // every residue is one of 1, ..., p - 1
    assert forall|i: int| 0 <= i < s.len() implies t.contains(#[trigger] s[i]) by {
        let k = (i + 1) as nat;
        lemma_small_mod(k, p);
        lemma_mul_nonnegative(a as int, k as int);
        if (a * k) % p == 0 {
            lemma_euclid(p, a, k);
        }
        lemma_mod_bound((a * k) as int, pi);
        assert(t[s[i] - 1] == s[i]);
    }
    // no residue comes twice
    assert(distinct(s)) by {
        assert forall|i: int, j: int|
            0 <= i < s.len() && 0 <= j < s.len() && i != j implies s[i] != s[j] by {
            let (lo, hi) = if i < j {
                (i + 1, j + 1)
            } else {
                (j + 1, i + 1)
            };
            if s[i] == s[j] {
                lemma_mod_equivalence(a * hi, a * lo, pi);
                assert(a * hi - a * lo == a * (hi - lo)) by (nonlinear_arith);
                lemma_mul_nonnegative(a as int, hi - lo);
                lemma_euclid(p, a, (hi - lo) as nat);
                lemma_small_mod((hi - lo) as nat, p);
            }
        }
    }
    assert(distinct(t));
    lemma_product_rearranged(s, t);
    lemma_multiples_product(a, n, p);
    lemma_factorial_mod_prime(n, p);
    let fact = product(t) as int;
    let an = pow(a as int, n);
    lemma_pow_positive(a as int, n);
    // fact == a^n * fact modulo p, so p divides (a^n - 1) * fact
    lemma_mod_equivalence(an * fact, fact, pi);
    assert(an * fact - fact == (an - 1) * fact) by (nonlinear_arith);
    lemma_mul_nonnegative(an - 1, fact);
    lemma_euclid(p, (an - 1) as nat, fact as nat);
    assert((an - 1) % pi == 0);
    lemma_mod_equivalence(an, 1, pi);
    lemma_small_mod(1, p);
}

} // verus!
