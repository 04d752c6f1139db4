use ec_elgamal::algebra::ops;
use ec_elgamal::algebra::{exp, try_exp, CommutativeOp, Configurable, Field, InitialPoint, Inverse};
use ec_elgamal::base_traits::RW;
use ec_elgamal::mod_field::{ModField, ModFieldCfg};
use ec_elgamal::points_group::{eval_curve, satisfies_curve, Point, PointCfg};
use rand::SeedableRng;
use ec_elgamal::base_traits::RandomSource;

/// The seeded generator of the tests, as a source of words.
struct Seeded(rand_chacha::ChaCha8Rng);

impl RandomSource for Seeded {
    fn next_word(&mut self) -> u64 {
        rand::RngCore::next_u64(&mut self.0)
    }
}

fn cfg() -> PointCfg<ModField<u64>> {
    let cfg_field = ModFieldCfg { rem: 0x0014_4C3B_27FFu64 };
    let cfg_group = PointCfg {
        g: Point::new_unsafe(ModField::new(2500, &cfg_field), ModField::new(125001, &cfg_field)),
        a: ModField::new(100, &cfg_field),
        b: ModField::new(1, &cfg_field),
        cf: cfg_field,
    };
    cfg_group
}

#[test]
fn g_exists() {
    let cfg = cfg();
    Point::try_new(cfg.g.x(), cfg.g.y(), &cfg).unwrap();
}

fn p(x: u64, y: u64) -> Point<ModField<u64>> {
    Point::try_new(ModField::new(x, &cfg().cf), ModField::new(y, &cfg().cf), &cfg()).unwrap()
}

#[test]
fn points_group_points_add_itself() {
    let a = p(232, 3537);
    assert_eq!(CommutativeOp::<ops::Add>::op(a, a, &cfg()), p(74095187791, 9434911276));
}

// http://christelbach.com/ECCalculator.aspx
#[test]
fn points_group_points_add_two() {
    let a = p(82226830584, 16727101863);
    let b = p(17120951320, 15809323217);
    assert_eq!(CommutativeOp::<ops::Add>::op(a, b, &cfg()), p(3851261364, 66206903692));
}

#[test]
fn try_op_agrees_with_op() {
    let a = p(82226830584, 16727101863);
    let b = p(17120951320, 15809323217);
    assert_eq!(Point::try_op(a, b, &cfg()), Some(p(3851261364, 66206903692)));
    assert_eq!(Point::try_op(b, a, &cfg()), Some(p(3851261364, 66206903692)));
    let d = p(232, 3537);
    assert_eq!(Point::try_op(d, d, &cfg()), Some(p(74095187791, 9434911276)));
}

#[test]
fn a_vertical_pair_has_no_sum() {
    let c = cfg();
    let a = p(232, 3537);
    let mirrored = a.inv(&c);
    assert_eq!(mirrored.x(), a.x());
    assert_eq!(mirrored.y(), a.y().neg(&c.cf));
    assert!(mirrored.is_valid(&c));
    assert_eq!(Point::try_op(a, mirrored, &c), None);
}

#[test]
fn points_off_the_curve_are_refused() {
    let c = cfg();
    let x = ModField::new(232, &c.cf);
    let y = ModField::new(3538, &c.cf);
    assert_eq!(Point::try_new(x, y, &c), None);
    assert!(!Point::new_unsafe(x, y).validate(&c));
    assert!(!Point::new_unsafe(x, y).is_valid(&c));
    assert!(!satisfies_curve(x, y, &c));
    assert!(satisfies_curve(x, ModField::new(3537, &c.cf), &c));
    // coordinates that are not reduced are no field elements
    let wide = ModField { val: 232 + 0x0014_4C3B_27FFu64 };
    assert!(!Point::new_unsafe(wide, ModField::new(3537, &c.cf)).validate(&c));
}

#[test]
fn the_curve_is_cubic_plus_hundred_x_plus_one() {
    let c = cfg();
    // 232^3 + 100 * 232 + 1 = 12510369 = 3537^2
    assert_eq!(eval_curve(ModField::new(232, &c.cf), &c).natural(), 12510369);
    assert_eq!(eval_curve(ModField::new(0, &c.cf), &c).natural(), 1);
    assert_eq!(eval_curve(ModField::new(2, &c.cf), &c).natural(), 209);
}

#[test]
fn from_x_lifts_to_the_curve() {
    let c = cfg();
    let mut found = 0;
    for x in 0..60u64 {
        match Point::from_x(ModField::new(x, &c.cf), &c) {
            Some(point) => {
                assert_eq!(point.x().natural(), x);
                assert!(point.validate(&c));
                found += 1;
            }
            None => {}
        }
    }
    assert!(found > 10 && found < 50);
    assert_eq!(Point::from_x(ModField::new(0, &c.cf), &c).map(|q| q.y().natural() == 1
        || q.y().natural() == 0x0014_4C3B_27FF - 1), Some(true));
}

#[test]
fn scalar_multiples_add_up() {
    let c = cfg();
    let g = c.g();
    let g2 = Point::op(g, g, &c);
    let g3 = Point::op(g2, g, &c);
    let g5 = Point::op(g3, g2, &c);
    assert_eq!(exp::<ops::Add, _, u64>(g, 1, &c), g);
    assert_eq!(exp::<ops::Add, _, u64>(g, 2, &c), g2);
    assert_eq!(exp::<ops::Add, _, u64>(g, 3, &c), g3);
    assert_eq!(exp::<ops::Add, _, u64>(g, 5, &c), g5);
    assert_eq!(try_exp::<ops::Add, _, u64>(g, 5, &c), Some(g5));
    assert_eq!(try_exp::<ops::Add, _, u64>(g, 0, &c), None);
    let g10 = exp::<ops::Add, _, u64>(g, 10, &c);
    assert_eq!(Point::op(g5, g5, &c), g10);
    assert_eq!(exp::<ops::Add, _, u64>(g5, 2, &c), g10);
}

#[test]
fn point_bytes_are_x_then_y() {
    let a = p(232, 3537);
    let mut buf = vec![];
    assert_eq!(a.to_bytes(&mut buf), 16);
    assert_eq!(buf, vec![232, 0, 0, 0, 0, 0, 0, 0, 0xd1, 0x0d, 0, 0, 0, 0, 0, 0]);
    assert_eq!(a.bytes(), buf);
    assert_eq!(Point::<ModField<u64>>::from_bytes(&buf), a);
    assert_eq!(<Point<ModField<u64>> as RW>::LEN, 16);
    assert_eq!(Point::<ModField<u64>>::from_base64(&a.to_base64()), Ok(a));
}

#[test]
fn random_points_lie_on_the_curve() {
    let c = cfg();
    let mut gen = Seeded(rand_chacha::ChaCha8Rng::from_seed([3u8; 32]));
    for _ in 0..20 {
        let point = Point::random(&mut gen, &c).unwrap();
        assert!(point.validate(&c));
        assert!(point.same(point));
    }
}

#[test]
fn try_from_x_refuses_what_is_no_field_element() {
    let c = cfg();
    let x = ModField::new(232, &c.cf);
    assert_eq!(Point::try_from_x(x, &c), Point::from_x(x, &c));
    assert!(Point::try_from_x(x, &c).is_some());
    assert_eq!(Point::try_from_x(ModField { val: 232 + 0x0014_4C3B_27FFu64 }, &c), None);
}

#[test]
fn sums_of_points_of_the_curve_lie_on_the_curve() {
    let c = cfg();
    let mut gen = Seeded(rand_chacha::ChaCha8Rng::from_seed([9u8; 32]));
    for _ in 0..20 {
        let a = Point::random(&mut gen, &c).unwrap();
        let b = Point::random(&mut gen, &c).unwrap();
        let sum = Point::try_op(a, b, &c).unwrap();
        assert!(sum.validate(&c));
        assert_eq!(Point::try_op(b, a, &c), Some(sum));
        let twice = Point::try_op(a, a, &c).unwrap();
        assert!(twice.validate(&c));
    }
}

#[test]
fn a_random_point_is_over_the_first_x_drawn_that_lifts() {
    let c = cfg();
    let mut gen = Seeded(rand_chacha::ChaCha8Rng::from_seed([8u8; 32]));
    let mut same = Seeded(rand_chacha::ChaCha8Rng::from_seed([8u8; 32]));
    for _ in 0..10 {
        let found = Point::random(&mut gen, &c);
        let mut expected = None;
        for _ in 0..128 {
            let x = <ModField<u64> as ec_elgamal::base_traits::FromRandom<_>>::random(
                &mut same,
                &c.cf,
            );
            expected = Point::try_from_x(x, &c);
            if expected.is_some() {
                break;
            }
        }
        assert_eq!(found, expected);
    }
    assert_eq!(gen.next_word(), same.next_word());
}
