use ec_elgamal::base_traits::{Capacitor, TransportError};
use ec_elgamal::ecc::{gen_keys, keys_from_scalar};
use ec_elgamal::encoding_utils::{
    base64_to_points, bytes_to_point, chunk_len, decode_message_and_decrypt, decrypt_bytes,
    decrypt_points, encrypt_and_encode_points, encrypt_message_and_encode, encrypt_points,
    fits_base64, points_from_bytes, points_to_base64, points_to_bytes, points_to_text,
    text_to_points,
};
use ec_elgamal::mod_field::{ModField, ModFieldCfg};
use ec_elgamal::points_group::{Point, PointCfg};
use rand::SeedableRng;
use ec_elgamal::base_traits::RandomSource;

/// The seeded generator of the tests, as a source of words.
struct Seeded(rand_chacha::ChaCha8Rng);

impl RandomSource for Seeded {
    fn next_word(&mut self) -> u64 {
        rand::RngCore::next_u64(&mut self.0)
    }
}

type F = ModField<u64>;
type P = Point<F>;

fn config() -> PointCfg<ModField<u64>> {
    let cfg_field = ModFieldCfg { rem: 0x0014_4C3B_27FFu64 };
    let cfg_group = PointCfg {
        g: Point::new_unsafe(ModField::new(2500, &cfg_field), ModField::new(125001, &cfg_field)),
        a: ModField::new(100, &cfg_field),
        b: ModField::new(1, &cfg_field),
        cf: cfg_field,
    };
    cfg_group
}

const TEXTS: [&str; 4] =
    ["Hello, world", "Aaa", "A very long sentence actually, yeah", "Hello, world!! :)"];

#[test]
fn encoding_utils_text2points2text() {
    let cfg_group = config();
    for text in TEXTS {
        let points = text_to_points::<_, u64>(text, &cfg_group).unwrap();
        let text2 =
            points_to_text(&points, ModField::<u64>::capacity(&cfg_group.cf) - 1).unwrap();
        assert_eq!(text, text2);
    }
}

#[test]
fn main_text2points2text() {
    let cfg_group = config();
    let text = "Hello, world";
    let points = text_to_points::<_, u64>(text, &cfg_group).unwrap();
    let text2 = points_to_text(&points, 4).unwrap();
    assert_eq!(text, text2);
}

#[test]
fn encrypt_encode_decode_decrypt() {
    let cfg_group = config();
    let mut gen = Seeded(rand_chacha::ChaCha8Rng::from_seed([1u8; 32]));
    let (pr, pb) = gen_keys::<_, u128, _>(&mut gen, &cfg_group).unwrap();
    for text in TEXTS {
        for _ in 0..10 {
            let secret =
                encrypt_message_and_encode::<_, u64, _>(pb, text, &mut gen, &cfg_group).unwrap();
            let decoded = decode_message_and_decrypt(pr, &secret, &cfg_group).unwrap();
            assert_eq!(text, decoded);
        }
    }
}

#[test]
fn chunks_are_four_bytes_for_a_five_byte_modulus() {
    let c = config();
    assert_eq!(chunk_len::<F>(&c.cf), 4);
    assert_eq!(text_to_points::<F, u64>("", &c).unwrap().len(), 0);
    assert_eq!(text_to_points::<F, u64>("abcd", &c).unwrap().len(), 1);
    assert_eq!(text_to_points::<F, u64>("abcde", &c).unwrap().len(), 2);
    assert_eq!(text_to_points::<F, u64>("abcdefgh", &c).unwrap().len(), 2);
}

#[test]
fn a_chunk_sits_in_the_low_bytes_of_x() {
    let c = config();
    let point = bytes_to_point::<F>(b"Aaa", &c, 4).unwrap();
    assert!(point.validate(&c));
    let x = point.x().natural();
    assert_eq!(x & 0xffff_ffff, 0x0061_6141);
    // the counter byte holds the least count whose x lifts to the curve
    let count = x >> 32;
    for k in 0..count {
        let x = ModField::new(0x0061_6141 + (k << 32), &c.cf);
        assert_eq!(Point::from_x(x, &c), None);
    }
    assert_eq!(Point::from_x(point.x(), &c), Some(point));
    assert_eq!(text_to_points::<F, u64>("Aaa", &c).unwrap(), vec![point]);
}

#[test]
fn text_stops_at_a_zero_byte() {
    let c = config();
    let points = text_to_points::<F, u64>("ab\0dwxyz", &c).unwrap();
    assert_eq!(points_to_text(&points, 4).unwrap(), "abwxyz");
    assert_eq!(points_to_bytes(&points, 4), b"abwxyz".to_vec());
    assert_eq!(points_to_bytes(&points, 1), b"aw".to_vec());
    assert_eq!(points_to_bytes(&points, 0), Vec::<u8>::new());
}

#[test]
fn bytes_that_are_no_text_are_refused() {
    let c = config();
    let point = bytes_to_point::<F>(&[0xff, 0xfe], &c, 4).unwrap();
    assert_eq!(points_to_bytes(&[point], 4), vec![0xff, 0xfe]);
    assert_eq!(points_to_text(&[point], 4), None);
}

#[test]
fn points_travel_as_base64() {
    let c = config();
    let points = text_to_points::<F, u64>("Hello, world", &c).unwrap();
    let text = points_to_base64(&points);
    assert_eq!(base64_to_points::<F>(&text), Ok(points.clone()));
    assert_eq!(text.len(), 64);
    assert_eq!(base64_to_points::<F>("!"), Err(TransportError::Encoding));
    assert_eq!(base64_to_points::<F>("AAAA"), Err(TransportError::Length));
    assert_eq!(base64_to_points::<F>(""), Ok(vec![]));
    assert_eq!(points_from_bytes::<F>(&[0u8; 17]), Err(TransportError::Length));
    let zero = Point::new_unsafe(ModField { val: 0u64 }, ModField { val: 0u64 });
    assert_eq!(points_from_bytes::<F>(&[0u8; 32]), Ok(vec![zero, zero]));
    assert_eq!(points_to_base64::<F>(&[]), "");
    assert_eq!(points_to_base64(&[zero]), "AAAAAAAAAAAAAAAAAAAAAA==");
}

#[test]
fn base64_length_limit() {
    assert!(fits_base64(3, 16));
    assert!(fits_base64(0, 16));
    assert!(!fits_base64(usize::MAX, 2));
    assert!(!fits_base64(usize::MAX, 1));
    assert!(fits_base64(usize::MAX / 2, 1));
}

#[test]
fn ciphertext_is_pairs_in_order() {
    let c = config();
    let (pr, pb) = keys_from_scalar::<P, u64>(77, &c).unwrap();
    let points = text_to_points::<F, u64>("Hello, world", &c).unwrap();
    let ciphertext = encrypt_points::<F, u64>(pb, &points, &[3, 5, 9], &c).unwrap();
    assert_eq!(ciphertext.len(), 6);
    for i in 0..3 {
        let pair = pb.encrypt_with::<u64>(points[i], [3u64, 5, 9][i], &c).unwrap();
        assert_eq!((ciphertext[2 * i], ciphertext[2 * i + 1]), pair);
    }
    assert_eq!(decrypt_points(pr, &ciphertext, &c), Ok(points.clone()));
    assert_eq!(encrypt_points::<F, u64>(pb, &points, &[3, 0, 9], &c), None);
    let text = encrypt_and_encode_points::<F, u64>(pb, &points, &[3, 5, 9], &c).unwrap();
    assert_eq!(text, points_to_base64(&ciphertext));
    assert_eq!(decode_message_and_decrypt(pr, &text, &c).unwrap(), "Hello, world");
}

#[test]
fn decryption_reports_what_went_wrong() {
    let c = config();
    let (pr, pb) = keys_from_scalar::<P, u64>(77, &c).unwrap();
    let points = text_to_points::<F, u64>("Hello, world", &c).unwrap();
    let ciphertext = encrypt_points::<F, u64>(pb, &points, &[3, 5, 9], &c).unwrap();
    assert_eq!(decode_message_and_decrypt(pr, "*", &c), Err(TransportError::Encoding));
    assert_eq!(decode_message_and_decrypt(pr, "AAAA", &c), Err(TransportError::Length));
    assert_eq!(decrypt_points(pr, &ciphertext[..5], &c), Err(TransportError::Pairing));
    let mut odd = vec![];
    for point in &ciphertext[..5] {
        ec_elgamal::base_traits::RW::to_bytes(*point, &mut odd);
    }
    assert_eq!(decrypt_bytes(pr, &odd, &c), Err(TransportError::Pairing));
    let off = Point::new_unsafe(ModField::new(1, &c.cf), ModField::new(1, &c.cf));
    assert_eq!(decrypt_points(pr, &[ciphertext[0], off], &c), Err(TransportError::Point));
    assert_eq!(decrypt_points(pr, &[off, ciphertext[1]], &c), Err(TransportError::Point));
    // c2 = pri * c1 makes the difference the point at infinity
    let shared = ec_elgamal::algebra::exp::<ec_elgamal::algebra::ops::Add, _, u64>(
        ciphertext[0],
        77,
        &c,
    );
    assert_eq!(decrypt_points(pr, &[ciphertext[0], shared], &c), Err(TransportError::Undefined));
    let no_text = bytes_to_point::<F>(&[0xff, 0xfe], &c, 4).unwrap();
    let bad = encrypt_and_encode_points::<F, u64>(pb, &[no_text], &[3], &c).unwrap();
    assert_eq!(decode_message_and_decrypt(pr, &bad, &c), Err(TransportError::Text));
    assert_eq!(decode_message_and_decrypt(pr, "", &c).unwrap(), "");
}

#[test]
fn the_empty_message_needs_no_scalar() {
    let c = config();
    let (pr, pb) = keys_from_scalar::<P, u64>(77, &c).unwrap();
    let mut gen = Seeded(rand_chacha::ChaCha8Rng::from_seed([1u8; 32]));
    let mut untouched = Seeded(rand_chacha::ChaCha8Rng::from_seed([1u8; 32]));
    let secret = encrypt_message_and_encode::<_, u64, _>(pb, "", &mut gen, &c).unwrap();
    assert_eq!(secret, "");
    assert_eq!(gen.next_word(), untouched.next_word());
    assert_eq!(decode_message_and_decrypt(pr, &secret, &c).unwrap(), "");
}

#[test]
fn a_message_draws_one_scalar_for_each_chunk() {
    let c = config();
    let (pr, pb) = keys_from_scalar::<P, u64>(77, &c).unwrap();
    let mut gen = Seeded(rand_chacha::ChaCha8Rng::from_seed([2u8; 32]));
    let mut same = Seeded(rand_chacha::ChaCha8Rng::from_seed([2u8; 32]));
    let secret = encrypt_message_and_encode::<_, u64, _>(pb, "Hello, world", &mut gen, &c).unwrap();
    let scalars = [
        <u64 as ec_elgamal::base_traits::FromRandom<()>>::random(&mut same, &()),
        <u64 as ec_elgamal::base_traits::FromRandom<()>>::random(&mut same, &()),
        <u64 as ec_elgamal::base_traits::FromRandom<()>>::random(&mut same, &()),
    ];
    let points = text_to_points::<F, u64>("Hello, world", &c).unwrap();
    assert_eq!(encrypt_and_encode_points::<F, u64>(pb, &points, &scalars, &c).unwrap(), secret);
    assert_eq!(gen.next_word(), same.next_word());
    assert_eq!(decode_message_and_decrypt(pr, &secret, &c).unwrap(), "Hello, world");
}
