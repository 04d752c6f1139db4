use ec_elgamal::algebra::ops;
use ec_elgamal::algebra::{exp, CommutativeOp, Configurable, Field};
use ec_elgamal::base_traits::{Capacitor, FromRandom, Natural, RW};
use ec_elgamal::mod_field::{gcd, ModField, ModFieldCfg};
use ec_elgamal::points_group::{Point, PointCfg};
use ec_elgamal::wide::{wide_from_halves, Nat256};
use primitive_types::U256;
use rand::SeedableRng;
use ec_elgamal::base_traits::RandomSource;

/// The seeded generator of the tests, as a source of words.
struct Seeded(rand_chacha::ChaCha8Rng);

impl RandomSource for Seeded {
    fn next_word(&mut self) -> u64 {
        rand::RngCore::next_u64(&mut self.0)
    }
}

fn wide(x: U256) -> Nat256 {
    Nat256 { w0: x.0[0], w1: x.0[1], w2: x.0[2], w3: x.0[3] }
}

fn narrow(x: Nat256) -> U256 {
    U256([x.w0, x.w1, x.w2, x.w3])
}

fn small(n: u64) -> Nat256 {
    Nat256 { w0: n, w1: 0, w2: 0, w3: 0 }
}

#[test]
fn wide_arithmetic_is_that_of_u256() {
    let a = U256::from_dec_str(
        "115792089237316195423570985008687907853269984665640564039457584007908834671663",
    )
    .unwrap();
    let b = U256::from_dec_str(
        "55066263022277343669578718895168534326250603453777594175500187360389116729240",
    )
    .unwrap();
    assert_eq!(narrow(wide(a).minus(wide(b))), a - b);
    assert_eq!(narrow(wide(a - b).plus(wide(b))), a);
    assert_eq!(narrow(wide(a).quotient(wide(U256::from(977u64)))), a / 977u64);
    assert_eq!(narrow(wide(a).remainder(wide(b))), a % b);
    assert_eq!(narrow(wide(b).remainder(wide(a))), b);
    let m = 0xffff_ffff_ffffu64;
    assert_eq!(narrow(small(m).times(small(m))), U256::from(m) * U256::from(m));
    assert_eq!(small(7).plus(small(8)), small(15));
    assert_eq!(small(7).times(small(8)), small(56));
    assert_eq!(small(u64::MAX).plus(small(1)), Nat256 { w0: 0, w1: 1, w2: 0, w3: 0 });
    assert_eq!(Nat256 { w0: 0, w1: 1, w2: 0, w3: 0 }.minus(small(1)), small(u64::MAX));
    assert_eq!(small(57).quotient(small(8)), small(7));
    assert_eq!(small(57).remainder(small(8)), small(1));
}

#[test]
fn wide_constants_and_order() {
    assert_eq!(narrow(Nat256::zero()), U256::zero());
    assert_eq!(narrow(Nat256::one()), U256::one());
    assert_eq!(narrow(Nat256::two()), U256::from(2u64));
    assert_eq!(narrow(Nat256::max()), U256::MAX);
    let low = Nat256 { w0: u64::MAX, w1: u64::MAX, w2: u64::MAX, w3: 0 };
    let high = Nat256 { w0: 0, w1: 0, w2: 0, w3: 1 };
    assert!(low.less_than(high));
    assert!(!high.less_than(low));
    assert!(!high.less_than(high));
    assert!(small(3).less_than(small(4)));
    assert!(Nat256 { w0: 9, w1: 1, w2: 0, w3: 0 }.less_than(Nat256 { w0: 0, w1: 2, w2: 0, w3: 0 }));
    assert!(high.equals(high));
    assert!(!high.equals(low));
    assert_eq!(gcd(small(12), small(10)), small(2));
}

#[test]
fn wide_bytes_are_little_endian() {
    let x = Nat256 {
        w0: 0x0807060504030201,
        w1: 0x100f0e0d0c0b0a09,
        w2: 0x1817161514131211,
        w3: 0x201f1e1d1c1b1a19,
    };
    let mut buf = vec![];
    assert_eq!(x.to_bytes(&mut buf), 32);
    assert_eq!(buf, (1u8..=32).collect::<Vec<u8>>());
    assert_eq!(Nat256::from_bytes(&buf), x);
    buf.push(99);
    assert_eq!(Nat256::from_bytes(&buf), x);
    assert_eq!(<Nat256 as RW>::LEN, 32);
    assert_eq!(Nat256::from_base64(&x.to_base64()), Ok(x));
}

#[test]
fn wide_random_is_two_halves() {
    let mut a = Seeded(rand_chacha::ChaCha8Rng::from_seed([1u8; 32]));
    let mut b = Seeded(rand_chacha::ChaCha8Rng::from_seed([1u8; 32]));
    let l1 = <u128 as FromRandom<()>>::random(&mut b, &());
    let l2 = <u128 as FromRandom<()>>::random(&mut b, &());
    let x = <Nat256 as FromRandom<()>>::random(&mut a, &());
    assert_eq!(narrow(x), (U256::from(l1) << 128) + U256::from(l2));
    assert_eq!(wide_from_halves(1, 2), Nat256 { w0: 2, w1: 0, w2: 1, w3: 0 });
    assert_eq!(wide_from_halves(u128::MAX, 0), Nat256 { w0: 0, w1: 0, w2: u64::MAX, w3: u64::MAX });
}

fn secp256k1() -> PointCfg<ModField<Nat256>> {
    let cf = ModFieldCfg {
        rem: Nat256 {
            w0: 0xFFFFFFFEFFFFFC2F,
            w1: 0xFFFFFFFFFFFFFFFF,
            w2: 0xFFFFFFFFFFFFFFFF,
            w3: 0xFFFFFFFFFFFFFFFF,
        },
    };
    PointCfg {
        g: Point::new_unsafe(
            ModField {
                val: Nat256 {
                    w0: 0x59F2815B16F81798,
                    w1: 0x029BFCDB2DCE28D9,
                    w2: 0x55A06295CE870B07,
                    w3: 0x79BE667EF9DCBBAC,
                },
            },
            ModField {
                val: Nat256 {
                    w0: 0x9C47D08FFB10D4B8,
                    w1: 0xFD17B448A6855419,
                    w2: 0x5DA4FBFC0E1108A8,
                    w3: 0x483ADA7726A3C465,
                },
            },
        ),
        a: ModField { val: small(0) },
        b: ModField { val: small(7) },
        cf,
    }
}

#[test]
fn the_generator_of_secp256k1_lies_on_its_curve() {
    let c = secp256k1();
    assert!(c.g.validate(&c));
    assert_eq!(ModField::<Nat256>::capacity(&c.cf), 32);
    let seven = ModField::new(small(7), &c.cf);
    assert_eq!(ModField::add(seven, seven, &c.cf).natural(), small(14));
    let top = ModField { val: c.cf.rem.minus(small(1)) };
    assert_eq!(ModField::add(top, seven, &c.cf).natural(), small(6));
    assert_eq!(ModField::mul(top, top, &c.cf).natural(), small(1));
}

#[test]
fn doubling_the_generator_of_secp256k1() {
    let c = secp256k1();
    let g2 = Point::op(c.g, c.g, &c);
    // 2 G of secp256k1
    let x = U256::from_str_radix(
        "C6047F9441ED7D6D3045406E95C07CD85C778E4B8CEF3CA7ABAC09B95C709EE5",
        16,
    )
    .unwrap();
    let y = U256::from_str_radix(
        "1AE168FEA63DC339A3C58419466CEAEEF7F632653266D0E1236431A950CFE52A",
        16,
    )
    .unwrap();
    assert_eq!(narrow(g2.x().natural()), x);
    assert_eq!(narrow(g2.y().natural()), y);
    assert!(g2.is_valid(&c));
    assert_eq!(exp::<ops::Add, _, u64>(c.g, 2, &c), g2);
}
