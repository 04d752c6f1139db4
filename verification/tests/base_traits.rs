use ec_elgamal::base_traits::{
    u128_from_words, u64_from_word, FromRandom, Natural, TransportError, RW,
};
use rand::SeedableRng;
use ec_elgamal::base_traits::RandomSource;

/// The seeded generator of the tests, as a source of words.
struct Seeded(rand_chacha::ChaCha8Rng);

impl RandomSource for Seeded {
    fn next_word(&mut self) -> u64 {
        rand::RngCore::next_u64(&mut self.0)
    }
}

#[test]
fn data_persistance() {
    let n: u128 = 101793696879097904749597416266766297740;
    let mut buf = vec![];
    n.to_bytes(&mut buf);
    let c = u128::from_bytes(&buf);
    assert_eq!(n, c);
}

#[test]
fn bytes_are_little_endian() {
    let mut buf = vec![];
    assert_eq!(0x0102030405060708u64.to_bytes(&mut buf), 8);
    assert_eq!(buf, vec![8, 7, 6, 5, 4, 3, 2, 1]);
    assert_eq!(0xabu8.to_bytes(&mut buf), 1);
    assert_eq!(buf, vec![8, 7, 6, 5, 4, 3, 2, 1, 0xab]);
    let mut wide = vec![];
    assert_eq!(1u128.to_bytes(&mut wide), 16);
    assert_eq!(wide, vec![1, 0, 0, 0, 0, 0, 0, 0, 0, 0, 0, 0, 0, 0, 0, 0]);
}

#[test]
fn from_bytes_reads_a_prefix() {
    assert_eq!(u64::from_bytes(&[1, 2, 0, 0, 0, 0, 0, 0, 9, 9]), 0x0201);
    assert_eq!(u8::from_bytes(&[7, 8]), 7);
    assert_eq!(<u64 as RW>::LEN, 8);
    assert_eq!(<u128 as RW>::LEN, 16);
    assert_eq!(<u8 as RW>::LEN, 1);
}

#[test]
fn base64_of_a_scalar() {
    assert_eq!(1u64.to_base64(), "AQAAAAAAAAA=");
    assert_eq!(u64::from_base64("AQAAAAAAAAA="), Ok(1));
    assert_eq!(u64::from_base64("not base64!"), Err(TransportError::Encoding));
    assert_eq!(u64::from_base64("AQAA"), Err(TransportError::Length));
    for n in [0u64, 1, 255, 256, u64::MAX, 0x0014_4C3B_27FF] {
        assert_eq!(u64::from_base64(&n.to_base64()), Ok(n));
    }
}

#[test]
fn natural_arithmetic() {
    assert_eq!(<u8 as Natural>::max(), 255);
    assert_eq!(<u64 as Natural>::two(), 2);
    assert_eq!(<u128 as Natural>::zero(), 0);
    assert_eq!(200u8.plus(55), 255);
    assert_eq!(200u8.minus(55), 145);
    assert_eq!(15u8.times(17), 255);
    assert_eq!(200u8.quotient(7), 28);
    assert_eq!(200u8.remainder(7), 4);
    assert!(3u64.equals(3));
    assert!(!3u64.equals(4));
    assert!(3u64.less_than(4));
    assert!(!4u64.less_than(4));
}

#[test]
fn random_naturals_follow_the_source() {
    let mut a = Seeded(rand_chacha::ChaCha8Rng::from_seed([1u8; 32]));
    let mut b = Seeded(rand_chacha::ChaCha8Rng::from_seed([1u8; 32]));
    let mut c = Seeded(rand_chacha::ChaCha8Rng::from_seed([1u8; 32]));
    let w1 = c.next_word();
    let w2 = c.next_word();
    assert_eq!(<u64 as FromRandom<()>>::random(&mut a, &()), w1.wrapping_mul(0x1983018027498101));
    assert_eq!(<u128 as FromRandom<()>>::random(&mut b, &()), ((w1 as u128) << 64) + w2 as u128);
}

#[test]
fn the_standard_generator_is_a_source() {
    let mut a = rand::rngs::StdRng::from_seed([5u8; 32]);
    let mut b = rand::rngs::StdRng::from_seed([5u8; 32]);
    let w1 = rand::RngCore::next_u64(&mut b);
    let w2 = rand::RngCore::next_u64(&mut b);
    let w3 = rand::RngCore::next_u64(&mut b);
    assert_eq!(a.next_word(), w1);
    assert_eq!(<u128 as FromRandom<()>>::random(&mut a, &()), ((w2 as u128) << 64) + w3 as u128);
    assert!(w1 != w2 || w2 != w3);
}

#[test]
fn numbers_made_of_words_drawn() {
    assert_eq!(u64_from_word(0), 0);
    assert_eq!(u64_from_word(1), 0x1983018027498101);
    assert_eq!(u64_from_word(2), 0x330603004e930202);
    assert_eq!(u64_from_word(0x10), 0x9830180274981010);
    assert_eq!(u128_from_words(0, 7), 7);
    assert_eq!(u128_from_words(1, 0), 1u128 << 64);
    assert_eq!(u128_from_words(u64::MAX, u64::MAX), u128::MAX);
    assert_eq!(u128_from_words(0x0102, 0x0304), 0x0102_0000_0000_0000_0304);
}
