use ec_elgamal::algebra::ops;
use ec_elgamal::algebra::{exp, CommutativeOp, Configurable, InitialPoint};
use ec_elgamal::base_traits::TransportError;
use ec_elgamal::ecc::{gen_keys, keys_from_scalar, PrivateKey, PublicKey};
use ec_elgamal::mod_field::{ModField, ModFieldCfg};
use ec_elgamal::points_group::{Point, PointCfg};
use rand::SeedableRng;
use ec_elgamal::base_traits::RandomSource;

/// The seeded generator of the tests, as a source of words.
struct Seeded(rand_chacha::ChaCha8Rng);

impl RandomSource for Seeded {
    fn next_word(&mut self) -> u64 {
        rand::RngCore::next_u64(&mut self.0)
    }
}

type P = Point<ModField<u64>>;

fn cfg() -> PointCfg<ModField<u64>> {
    let cfg_field = ModFieldCfg { rem: 0x0014_4C3B_27FFu64 };
    PointCfg {
        g: Point::new_unsafe(ModField::new(2500, &cfg_field), ModField::new(125001, &cfg_field)),
        a: ModField::new(100, &cfg_field),
        b: ModField::new(1, &cfg_field),
        cf: cfg_field,
    }
}

fn p(x: u64, y: u64) -> P {
    Point::try_new(ModField::new(x, &cfg().cf), ModField::new(y, &cfg().cf), &cfg()).unwrap()
}

#[test]
fn ecc_g_belongs() {
    assert!(cfg().g.validate(&cfg()));
}

#[test]
fn ecc_back_forth() {
    let cfg = cfg();
    let mut gen = Seeded(rand_chacha::ChaCha8Rng::from_seed([1u8; 32]));
    for _ in 0..100 {
        let (pr, pb) = gen_keys::<P, u128, _>(&mut gen, &cfg).unwrap();
        let msg = Point::random(&mut gen, &cfg).unwrap();
        let encrypted = pb.encrypt::<u128, _>(msg, &mut gen, &cfg).unwrap();
        let decrypted = pr.decrypt(encrypted, &cfg).unwrap();
        assert_eq!(msg, decrypted);
    }
}

#[test]
fn ecc_points_add_itself() {
    let a = p(232, 3537);
    assert_eq!(Point::op(a, a, &cfg()), p(74095187791, 9434911276));
}

// http://christelbach.com/ECCalculator.aspx
#[test]
fn ecc_points_add_two() {
    let a = p(82226830584, 16727101863);
    let b = p(17120951320, 15809323217);
    assert_eq!(Point::op(a, b, &cfg()), p(3851261364, 66206903692));
}

#[test]
fn the_public_key_is_the_scalar_times_the_generator() {
    let c = cfg();
    let (pr, pb) = keys_from_scalar::<P, u64>(5, &c).unwrap();
    assert_eq!(pr.0, 5);
    assert_eq!(pb.0, exp::<ops::Add, _, u64>(c.g(), 5, &c));
    assert!(pb.0.is_valid(&c));
    assert!(keys_from_scalar::<P, u64>(0, &c).is_none());
}

#[test]
fn encryption_with_a_given_scalar() {
    let c = cfg();
    let (pr, pb) = keys_from_scalar::<P, u64>(5, &c).unwrap();
    let msg = p(232, 3537);
    let (c1, c2) = pb.encrypt_with::<u64>(msg, 3, &c).unwrap();
    assert_eq!(c1, exp::<ops::Add, _, u64>(c.g(), 3, &c));
    assert_eq!(c2, Point::op(exp::<ops::Add, _, u64>(pb.0, 3, &c), msg, &c));
    assert_eq!(pr.decrypt((c1, c2), &c), Some(msg));
    assert_eq!(pb.encrypt_with::<u64>(msg, 0, &c), None);
    assert_eq!(PrivateKey(0u64).decrypt((c1, c2), &c), None);
}

#[test]
fn keys_travel_as_base64() {
    let c = cfg();
    let (pr, pb) =
        keys_from_scalar::<P, u128>(0x0123_4567_89ab_cdef_0011_2233_4455_6677, &c).unwrap();
    let text = pr.base64();
    assert_eq!(text, "d2ZVRDMiEQDvzauJZ0UjAQ==");
    assert_eq!(PrivateKey::<u128>::from_base64(&text).unwrap().0, pr.0);
    let text = pb.base64();
    assert_eq!(PublicKey::<P>::from_base64(&text).unwrap().0, pb.0);
    assert_eq!(PublicKey::<P>::from_base64("????").map(|k| k.0), Err(TransportError::Encoding));
    assert_eq!(PublicKey::<P>::from_base64("AAAA").map(|k| k.0), Err(TransportError::Length));
    assert_eq!(PrivateKey::<u128>::from_base64("AAAA").map(|k| k.0), Err(TransportError::Length));
}

#[test]
fn main_g_belongs() {
    let c = cfg();
    assert!(ec_elgamal::points_group::satisfies_curve(c.g.x(), c.g.y(), &c));
}

#[test]
fn main_back_forth() {
    let cfg = cfg();
    let mut gen = Seeded(rand_chacha::ChaCha8Rng::from_seed([1u8; 32]));
    for _ in 0..100 {
        let (pr, pb) = gen_keys::<P, u128, _>(&mut gen, &cfg).unwrap();
        let msg = Point::random(&mut gen, &cfg).unwrap();
        let encrypted = pb.encrypt::<u128, _>(msg, &mut gen, &cfg).unwrap();
        let decrypted = pr.decrypt(encrypted, &cfg).unwrap();
        assert_eq!(msg, decrypted);
    }
}

#[test]
fn main_points_add_itself() {
    let a = p(232, 3537);
    assert_eq!(Point::try_op(a, a, &cfg()).unwrap(), p(74095187791, 9434911276));
}

// http://christelbach.com/ECCalculator.aspx
#[test]
fn main_points_add_two() {
    let a = p(82226830584, 16727101863);
    let b = p(17120951320, 15809323217);
    assert_eq!(Point::try_op(a, b, &cfg()).unwrap(), p(3851261364, 66206903692));
}

#[test]
fn keys_and_ciphertexts_are_those_of_the_scalars_drawn() {
    let c = cfg();
    let mut gen = Seeded(rand_chacha::ChaCha8Rng::from_seed([4u8; 32]));
    let mut same = Seeded(rand_chacha::ChaCha8Rng::from_seed([4u8; 32]));
    let (pr, pb) = gen_keys::<P, u128, _>(&mut gen, &c).unwrap();
    let pri = <u128 as ec_elgamal::base_traits::FromRandom<()>>::random(&mut same, &());
    let (pr2, pb2) = keys_from_scalar::<P, u128>(pri, &c).unwrap();
    assert_eq!((pr.0, pb.0), (pr2.0, pb2.0));
    let msg = p(232, 3537);
    let encrypted = pb.encrypt::<u128, _>(msg, &mut gen, &c);
    let t = <u128 as ec_elgamal::base_traits::FromRandom<()>>::random(&mut same, &());
    assert_eq!(encrypted, pb.encrypt_with::<u128>(msg, t, &c));
}
