use ec_elgamal::algebra::ops;
use ec_elgamal::algebra::{
    CommutativeOp, Configurable, DiscreteRoot, Field, Identity, Inverse, InverseNonZero,
};
use ec_elgamal::base_traits::{Capacitor, FromRandom, RW};
use ec_elgamal::mod_field::{gcd, ModField, ModFieldCfg};
use rand::SeedableRng;
use ec_elgamal::base_traits::RandomSource;

/// The seeded generator of the tests, as a source of words.
struct Seeded(rand_chacha::ChaCha8Rng);

impl RandomSource for Seeded {
    fn next_word(&mut self) -> u64 {
        rand::RngCore::next_u64(&mut self.0)
    }
}

type F = ModField<u64>;

fn cfg() -> ModFieldCfg<u64> {
    ModFieldCfg { rem: 19 }
}

fn f(a: u64) -> F {
    F::new(a, &cfg())
}

#[test]
fn mod_field_simple() {
    assert_eq!(f(27), f(8));
}

#[test]
fn mod_field_add() {
    assert_eq!(F::add(f(7), f(13), &cfg()), f(1));
}

type H = ModField<u8>;

#[test]
fn add_overflow1() {
    let cfg = ModFieldCfg { rem: 79 };
    assert_eq!(H::add(H::new(11, &cfg), H::new(150, &cfg), &cfg), H::new(3, &cfg));
}

#[test]
fn add_overflow2() {
    let cfg = ModFieldCfg { rem: 79 };
    assert_eq!(H::add(H::new(110, &cfg), H::new(150, &cfg), &cfg), H::new(23, &cfg));
}

#[test]
fn add_overflow3() {
    let cfg = ModFieldCfg { rem: 251 };
    assert_eq!(H::add(H::new(110, &cfg), H::new(150, &cfg), &cfg), H::new(9, &cfg));
}

#[test]
fn add_overflow4() {
    let cfg = ModFieldCfg { rem: 251 };
    assert_eq!(H::add(H::new(4, &cfg), H::new(255, &cfg), &cfg), H::new(8, &cfg));
}

#[test]
fn add_overflow5() {
    let cfg = ModFieldCfg { rem: 251 };
    assert_eq!(H::add(H::new(255, &cfg), H::new(4, &cfg), &cfg), H::new(8, &cfg));
}

#[test]
fn add_overflow6() {
    let cfg = ModFieldCfg { rem: 251 };
    assert_eq!(H::add(H::new(249, &cfg), H::new(250, &cfg), &cfg), H::new(248, &cfg));
}

#[test]
fn mod_field_mul() {
    assert_eq!(F::mul(f(7), f(13), &cfg()), f(15));
}

#[test]
fn mod_field_sub() {
    assert_eq!(F::sub(f(7), f(13), &cfg()), f(13));
}

#[test]
fn mod_field_div() {
    assert_eq!(F::div(f(11), f(5), &cfg()), f(6));
}

#[test]
fn mod_field_inv() {
    assert_eq!(f(11).reciprocal(&cfg()), Some(f(7)));
}

#[test]
fn mod_field_neg() {
    assert_eq!(f(11).neg(&cfg()), f(8));
}

#[test]
fn mod_field_gcd1() {
    assert_eq!(gcd(11u64, 1), 1);
}

#[test]
fn mod_field_gcd2() {
    assert_eq!(gcd(12u64, 10), 2);
}

#[test]
fn mod_field_gcd3() {
    assert_eq!(gcd(1224832904u64, 1), 1);
}

#[test]
fn mod_field_gcd4() {
    assert_eq!(gcd(123u64, 66), 3);
}

#[test]
fn mod_field_div_circ() {
    let mut gen = Seeded(rand_chacha::ChaCha8Rng::from_seed([1u8; 32]));
    for _ in 0..100 {
        let a = F::random(&mut gen, &cfg());
        let b = F::random_nonzero(&mut gen, &cfg()).unwrap();
        assert_eq!(
            F::mul(F::div(a, b, &cfg()), b, &cfg()),
            a,
            "a: {:?}, b: {:?}, a/b: {:?}",
            a,
            b,
            F::div(a, b, &cfg())
        );
    }
}

#[test]
fn mod_field_inv_circ() {
    let mut gen = Seeded(rand_chacha::ChaCha8Rng::from_seed([1u8; 32]));
    for _ in 0..100 {
        let a = F::random_nonzero(&mut gen, &cfg()).unwrap();
        assert_eq!(
            F::mul(a.reciprocal(&cfg()).unwrap(), a, &cfg()),
            F::one(&cfg()),
            "a: {:?}, a^-1: {:?}",
            a,
            a.reciprocal(&cfg()).unwrap()
        );
    }
}

#[test]
fn mod_field_sub_circ() {
    let mut gen = Seeded(rand_chacha::ChaCha8Rng::from_seed([1u8; 32]));
    for _ in 0..100 {
        let a = F::random(&mut gen, &cfg());
        let b = F::random(&mut gen, &cfg());
        assert_eq!(F::add(F::sub(a, b, &cfg()), b, &cfg()), a, "a: {:?}, b: {:?}", a, b);
    }
}

#[test]
fn gcd_with_zero_and_equal_arguments() {
    assert_eq!(gcd(0u64, 0), 0);
    assert_eq!(gcd(0u64, 7), 7);
    assert_eq!(gcd(7u64, 0), 7);
    assert_eq!(gcd(7u64, 7), 7);
    assert_eq!(gcd(255u8, 85), 85);
}

#[test]
fn negation_of_zero_is_zero() {
    assert_eq!(f(0).neg(&cfg()), f(0));
    assert_eq!(f(0).neg(&cfg()).natural(), 0);
    assert_eq!(f(1).neg(&cfg()).natural(), 18);
}

#[test]
fn every_pair_adds_and_multiplies_as_the_integers_do() {
    let c = cfg();
    for a in 0..19u64 {
        for b in 0..19u64 {
            assert_eq!(F::add(f(a), f(b), &c).natural(), (a + b) % 19);
            assert_eq!(F::mul(f(a), f(b), &c).natural(), (a * b) % 19);
            assert_eq!(F::sub(f(a), f(b), &c).natural(), (a + 19 - b) % 19);
            assert_eq!(F::add(F::sub(f(a), f(b), &c), f(b), &c), f(a));
        }
    }
}

#[test]
fn every_unit_has_its_reciprocal() {
    let c = cfg();
    assert_eq!(f(0).reciprocal(&c), None);
    for a in 1..19u64 {
        let r = f(a).reciprocal(&c).unwrap();
        assert_eq!(F::mul(r, f(a), &c), F::one(&c));
        for b in 0..19u64 {
            assert_eq!(F::mul(F::div(f(b), f(a), &c), f(a), &c), f(b));
        }
    }
}

#[test]
fn elements_that_share_a_factor_with_the_modulus_have_no_reciprocal() {
    let c = ModFieldCfg { rem: 15u64 };
    assert_eq!(F::new(3, &c).reciprocal(&c), None);
    assert_eq!(F::new(10, &c).reciprocal(&c), None);
    assert_eq!(F::new(0, &c).reciprocal(&c), None);
}

#[test]
fn powers_and_small_constants() {
    let c = cfg();
    assert_eq!(f(3).pow(0u64, &c), f(1));
    assert_eq!(f(3).pow(1u64, &c), f(3));
    assert_eq!(f(3).pow(5u64, &c), f(243 % 19));
    assert_eq!(f(2).pow(18u64, &c), f(1));
    assert_eq!(F::zero(&c).natural(), 0);
    assert_eq!(F::one(&c).natural(), 1);
    assert_eq!(F::two(&c).natural(), 2);
    assert_eq!(F::three(&c).natural(), 3);
    assert_eq!(F::four(&c).natural(), 4);
    assert_eq!(f(5).sqr(&c), f(6));
    assert_eq!(f(5).cube(&c), f(11));
    assert_eq!(<F as Identity<ops::Add>>::identity(&c), f(0));
    assert_eq!(<F as Identity<ops::Mul>>::identity(&c), f(1));
    assert_eq!(<F as Inverse<ops::Add>>::inv(f(4), &c), f(15));
    assert_eq!(<F as InverseNonZero<ops::Mul>>::inv(f(4), &c), Some(f(5)));
    assert_eq!(<F as CommutativeOp<ops::Mul>>::try_op(f(4), f(5), &c), Some(f(1)));
    assert_eq!(<F as CommutativeOp<ops::Add>>::try_op(f(14), f(5), &c), Some(f(0)));
}

#[test]
fn square_roots_modulo_nineteen() {
    let c = cfg();
    // the squares modulo 19 are 1, 4, 5, 6, 7, 9, 11, 16, 17
    for a in 1..19u64 {
        match f(a).sqrt(&c) {
            Some(r) => assert_eq!(F::mul(r, r, &c), f(a)),
            None => assert!(![1, 4, 5, 6, 7, 9, 11, 16, 17].contains(&a)),
        }
    }
    assert_eq!(f(4).sqrt(&c), Some(f(17)));
    assert_eq!(f(2).sqrt(&c), None);
    assert_eq!(f(0).sqrt(&c), None);
}

#[test]
fn validity_and_equality() {
    let c = cfg();
    assert!(f(18).is_valid(&c));
    assert!(!(ModField { val: 19u64 }).is_valid(&c));
    assert!(f(3).same(f(22)));
    assert!(!f(3).same(f(4)));
}

#[test]
fn field_bytes_are_those_of_the_number() {
    let mut buf = vec![];
    assert_eq!(f(17).to_bytes(&mut buf), 8);
    assert_eq!(buf, vec![17, 0, 0, 0, 0, 0, 0, 0]);
    assert_eq!(F::from_bytes(&buf), f(17));
    assert_eq!(F::from_bytes(&[20, 0, 0, 0, 0, 0, 0, 0]).natural(), 20);
    assert_eq!(<F as RW>::LEN, 8);
}

#[test]
fn capacity_is_the_byte_length_of_the_modulus() {
    assert_eq!(F::capacity(&cfg()), 1);
    assert_eq!(F::capacity(&ModFieldCfg { rem: 255u64 }), 1);
    assert_eq!(F::capacity(&ModFieldCfg { rem: 256u64 }), 2);
    assert_eq!(F::capacity(&ModFieldCfg { rem: 0x0014_4C3B_27FFu64 }), 5);
    assert_eq!(F::capacity(&ModFieldCfg { rem: u64::MAX }), 8);
    assert_eq!(H::capacity(&ModFieldCfg { rem: 251u8 }), 1);
}

#[test]
fn random_elements_are_reduced() {
    let mut gen = Seeded(rand_chacha::ChaCha8Rng::from_seed([7u8; 32]));
    let c = cfg();
    for _ in 0..200 {
        assert!(F::random(&mut gen, &c).natural() < 19);
        let x = F::random_nonzero(&mut gen, &c).unwrap();
        assert!(0 < x.natural() && x.natural() < 19);
    }
    // modulo one every draw is zero, so the search gives up
    assert_eq!(F::random_nonzero(&mut gen, &ModFieldCfg { rem: 1u64 }), None);
}

#[test]
fn reciprocals_need_a_prime_modulus() {
    // 2 is coprime to 15, but its power 13 is not its reciprocal
    let c = ModFieldCfg { rem: 15u64 };
    let two = F::new(2, &c);
    let r = two.reciprocal(&c).unwrap();
    assert_eq!(r, F::new(2, &c));
    assert_eq!(F::mul(r, two, &c), F::new(4, &c));
    assert_eq!(F::mul(F::div(F::new(1, &c), two, &c), two, &c), F::new(4, &c));
}

#[test]
fn nonzero_from_refuses_multiples_of_the_modulus() {
    let c = cfg();
    assert_eq!(F::nonzero_from(38, &c), None);
    assert_eq!(F::nonzero_from(0, &c), None);
    assert_eq!(F::nonzero_from(39, &c), Some(f(1)));
}

#[test]
fn invert_is_the_reciprocal() {
    let c = cfg();
    assert_eq!(f(11).invert(&c), f(7));
    for a in 1..19u64 {
        assert_eq!(Some(f(a).invert(&c)), f(a).reciprocal(&c));
    }
}

#[test]
fn random_nonzero_is_the_first_draw_that_is_not_zero() {
    let c = ModFieldCfg { rem: 2u64 };
    let mut gen = Seeded(rand_chacha::ChaCha8Rng::from_seed([6u8; 32]));
    let mut same = Seeded(rand_chacha::ChaCha8Rng::from_seed([6u8; 32]));
    for _ in 0..20 {
        let found = F::random_nonzero(&mut gen, &c);
        let mut expected = None;
        for _ in 0..128 {
            let drawn = <u64 as FromRandom<()>>::random(&mut same, &());
            expected = F::nonzero_from(drawn, &c);
            if expected.is_some() {
                break;
            }
        }
        assert_eq!(found, expected);
    }
    assert_eq!(gen.next_word(), same.next_word());
}
