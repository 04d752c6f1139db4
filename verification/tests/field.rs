use ec_elgamal::algebra::Field;
use ec_elgamal::base_traits::RandomSource;
use ec_elgamal::field::{extended_gcd, gcd};
use ec_elgamal::mod_field::{ModField, ModFieldCfg};
use rand::SeedableRng;

/// The seeded generator of the tests, as a source of words.
struct Seeded(rand_chacha::ChaCha8Rng);

impl RandomSource for Seeded {
    fn next_word(&mut self) -> u64 {
        rand::RngCore::next_u64(&mut self.0)
    }
}

#[test]
fn field_gcd1() {
    assert_eq!(gcd(11, 1), 1);
}

#[test]
fn field_gcd2() {
    assert_eq!(gcd(12, 10), 2);
}

#[test]
fn field_gcd3() {
    assert_eq!(gcd(1224832904, 1), 1);
}

#[test]
fn field_gcd4() {
    assert_eq!(gcd(123, 66), 3);
}

#[test]
fn gcd_edges() {
    assert_eq!(gcd(0, 0), 0);
    assert_eq!(gcd(0, 9), 9);
    assert_eq!(gcd(9, 0), 9);
    assert_eq!(gcd(9, 9), 9);
    assert_eq!(gcd(u64::MAX, 3), 3);
}

#[test]
fn extended_gcd_gives_bezout_coefficients() {
    assert_eq!(extended_gcd(240, 46), (2, -9, 47));
    assert_eq!(extended_gcd(46, 240), (2, 47, -9));
    assert_eq!(extended_gcd(5, 0), (5, 1, 0));
    assert_eq!(extended_gcd(0, 5), (5, 0, 1));
    assert_eq!(extended_gcd(0, 0), (0, 1, 0));
    assert_eq!(extended_gcd(7, 7), (7, 0, 1));
    assert_eq!(extended_gcd(11, 19), (1, 7, -4));
    let big = i64::MAX as u64;
    for (a, b) in [(big, big - 1), (big, 2), (3, big), (1224832904, 1), (123, 66)] {
        let (d, x, y) = extended_gcd(a, b);
        assert_eq!(d, gcd(a, b));
        assert_eq!(a as i128 * x as i128 + b as i128 * y as i128, d as i128);
    }
}

type F = ModField<u64>;

fn cfg() -> ModFieldCfg<u64> {
    ModFieldCfg { rem: 19 }
}

fn f(a: u64) -> F {
    F::new(a, &cfg())
}

#[test]
fn field_simple() {
    assert_eq!(f(27), f(8));
}

#[test]
fn field_add() {
    assert_eq!(F::add(f(7), f(13), &cfg()), f(1));
}

#[test]
fn field_mul() {
    assert_eq!(F::mul(f(7), f(13), &cfg()), f(15));
}

#[test]
fn field_sub() {
    assert_eq!(F::sub(f(7), f(13), &cfg()), f(13));
}

#[test]
fn field_div() {
    assert_eq!(F::div(f(11), f(5), &cfg()), f(6));
}

#[test]
fn field_inv() {
    assert_eq!(f(11).reciprocal(&cfg()).unwrap(), f(7));
}

#[test]
fn field_neg() {
    assert_eq!(f(11).neg(&cfg()), f(8));
}

#[test]
fn field_div_circ() {
    let mut gen = Seeded(rand_chacha::ChaCha8Rng::from_seed([1u8; 32]));
    for _ in 0..100 {
        let a = F::new(gen.next_word(), &cfg());
        let b = F::nonzero_from(gen.next_word(), &cfg()).unwrap_or(F::one(&cfg()));
        assert_eq!(
            F::mul(F::div(a, b, &cfg()), b, &cfg()),
            a,
            "a: {:?}, b: {:?}, a/b: {:?}",
            a,
            b,
            F::div(a, b, &cfg())
        );
    }
}

#[test]
fn field_inv_circ() {
    let mut gen = Seeded(rand_chacha::ChaCha8Rng::from_seed([1u8; 32]));
    for _ in 0..100 {
        let a = F::nonzero_from(gen.next_word(), &cfg()).unwrap_or(F::one(&cfg()));
        assert_eq!(
            F::mul(a.reciprocal(&cfg()).unwrap(), a, &cfg()),
            f(1),
            "a: {:?}, a^-1: {:?}",
            a,
            a.reciprocal(&cfg()).unwrap()
        );
    }
}

#[test]
fn field_sub_circ() {
    let mut gen = Seeded(rand_chacha::ChaCha8Rng::from_seed([1u8; 32]));
    for _ in 0..100 {
        let a = F::new(gen.next_word(), &cfg());
        let b = F::new(gen.next_word(), &cfg());
        assert_eq!(F::add(F::sub(a, b, &cfg()), b, &cfg()), a, "a: {:?}, b: {:?}", a, b);
    }
}
