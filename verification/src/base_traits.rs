//! What the engine asks of its building blocks: fixed-width naturals, a
//! source of randomness, an exact byte encoding and its base64 text.

use crate::algebra::Configurable;
use crate::le_bytes::{
    get_le, le_bytes, le_value, lemma_le_bytes_len, lemma_le_bytes_of_value, lemma_le_value_bound,
    lemma_le_value_of_bytes, lemma_pow256_16, put_le,
};
use base64::prelude::{Engine, BASE64_STANDARD};
use rand::RngCore;
use vstd::prelude::*;
use vstd::slice::slice_subrange;

verus! {

/// A fixed-width unsigned integer, seen through the natural number it holds.
///
/// `value` is a bijection between the type and the range `0 ..= max_value()`,
/// with `from_value` as its inverse.
pub trait Natural: Sized + Copy {
    /// The number that `self` holds.
    spec fn value(self) -> nat;

    /// The largest number the type can hold.
    spec fn max_value() -> nat;

    /// The element that holds `n`, for `n <= max_value()`.
    spec fn from_value(n: nat) -> Self;

    proof fn lemma_value(self)
        ensures
            self.value() <= Self::max_value(),
            Self::from_value(self.value()) == self,
    ;

    proof fn lemma_from_value(n: nat)
        requires
            n <= Self::max_value(),
        ensures
            Self::from_value(n).value() == n,
    ;

    /// Every natural type is at least one byte wide.
    proof fn lemma_max_value()
        ensures
            Self::max_value() >= 255,
    ;

    fn zero() -> (r: Self)
        ensures
            r.value() == 0,
    ;

    fn one() -> (r: Self)
        ensures
            r.value() == 1,
    ;

    fn two() -> (r: Self)
        ensures
            r.value() == 2,
    {
        let o = Self::one();
        proof {
            Self::lemma_max_value();
        }
        o.plus(o)
    }

    fn max() -> (r: Self)
        ensures
            r.value() == Self::max_value(),
    ;

    fn plus(self, rhs: Self) -> (r: Self)
        requires
            self.value() + rhs.value() <= Self::max_value(),
        ensures
            r.value() == self.value() + rhs.value(),
    ;

    fn minus(self, rhs: Self) -> (r: Self)
        requires
            rhs.value() <= self.value(),
        ensures
            r.value() == self.value() - rhs.value(),
    ;

    fn times(self, rhs: Self) -> (r: Self)
        requires
            self.value() * rhs.value() <= Self::max_value(),
        ensures
            r.value() == self.value() * rhs.value(),
    ;

    fn quotient(self, rhs: Self) -> (r: Self)
        requires
            rhs.value() != 0,
        ensures
            r.value() == self.value() / rhs.value(),
    ;

    fn remainder(self, rhs: Self) -> (r: Self)
        requires
            rhs.value() != 0,
        ensures
            r.value() == self.value() % rhs.value(),
    ;

    fn equals(self, rhs: Self) -> (r: bool)
        ensures
            r == (self.value() == rhs.value()),
            r == (self == rhs),
    ;

    fn less_than(self, rhs: Self) -> (r: bool)
        ensures
            r == (self.value() < rhs.value()),
    ;
}

impl Natural for u8 {
    open spec fn value(self) -> nat {
        self as nat
    }

    open spec fn max_value() -> nat {
        0xff
    }

    open spec fn from_value(n: nat) -> Self {
        n as u8
    }

    proof fn lemma_value(self) {
        assert(<u8 as Natural>::max_value() == 0xff);
        assert(<u8 as Natural>::from_value(self.value()) == self);
    }

    proof fn lemma_from_value(n: nat) {
        assert(<u8 as Natural>::max_value() == 0xff);
        assert(<u8 as Natural>::from_value(n).value() == n);
    }

    proof fn lemma_max_value() {
        assert(<u8 as Natural>::max_value() == 0xff);
    }

    fn zero() -> (r: Self) {
        0
    }

    fn one() -> (r: Self) {
        1
    }

    fn max() -> (r: Self) {
        proof {
            Self::lemma_max_value();
        }
        u8::MAX
    }

    fn plus(self, rhs: Self) -> (r: Self) {
        proof {
            Self::lemma_max_value();
        }
        self + rhs
    }

    fn minus(self, rhs: Self) -> (r: Self) {
        self - rhs
    }

    fn times(self, rhs: Self) -> (r: Self) {
        proof {
            Self::lemma_max_value();
        }
        self * rhs
    }

    fn quotient(self, rhs: Self) -> (r: Self) {
        self / rhs
    }

    fn remainder(self, rhs: Self) -> (r: Self) {
        self % rhs
    }

    fn equals(self, rhs: Self) -> (r: bool) {
        self == rhs
    }

    fn less_than(self, rhs: Self) -> (r: bool) {
        self < rhs
    }
}

impl Natural for u64 {
    open spec fn value(self) -> nat {
        self as nat
    }

    open spec fn max_value() -> nat {
        0xffff_ffff_ffff_ffff
    }

    open spec fn from_value(n: nat) -> Self {
        n as u64
    }

    proof fn lemma_value(self) {
        assert(<u64 as Natural>::max_value() == 0xffff_ffff_ffff_ffff);
        assert(<u64 as Natural>::from_value(self.value()) == self);
    }

    proof fn lemma_from_value(n: nat) {
        assert(<u64 as Natural>::max_value() == 0xffff_ffff_ffff_ffff);
        assert(<u64 as Natural>::from_value(n).value() == n);
    }

    proof fn lemma_max_value() {
        assert(<u64 as Natural>::max_value() == 0xffff_ffff_ffff_ffff);
    }

    fn zero() -> (r: Self) {
        0
    }

    fn one() -> (r: Self) {
        1
    }

    fn max() -> (r: Self) {
        proof {
            Self::lemma_max_value();
        }
        u64::MAX
    }

    fn plus(self, rhs: Self) -> (r: Self) {
        proof {
            Self::lemma_max_value();
        }
        self + rhs
    }

    fn minus(self, rhs: Self) -> (r: Self) {
        self - rhs
    }

    fn times(self, rhs: Self) -> (r: Self) {
        proof {
            Self::lemma_max_value();
        }
        self * rhs
    }

    fn quotient(self, rhs: Self) -> (r: Self) {
        self / rhs
    }

    fn remainder(self, rhs: Self) -> (r: Self) {
        self % rhs
    }

    fn equals(self, rhs: Self) -> (r: bool) {
        self == rhs
    }

    fn less_than(self, rhs: Self) -> (r: bool) {
        self < rhs
    }
}

impl Natural for u128 {
    open spec fn value(self) -> nat {
        self as nat
    }

    open spec fn max_value() -> nat {
        0xffff_ffff_ffff_ffff_ffff_ffff_ffff_ffff
    }

    open spec fn from_value(n: nat) -> Self {
        n as u128
    }

    proof fn lemma_value(self) {
        assert(<u128 as Natural>::max_value() == 0xffff_ffff_ffff_ffff_ffff_ffff_ffff_ffff);
        assert(<u128 as Natural>::from_value(self.value()) == self);
    }

    proof fn lemma_from_value(n: nat) {
        assert(<u128 as Natural>::max_value() == 0xffff_ffff_ffff_ffff_ffff_ffff_ffff_ffff);
        assert(<u128 as Natural>::from_value(n).value() == n);
    }

    proof fn lemma_max_value() {
        assert(<u128 as Natural>::max_value() == 0xffff_ffff_ffff_ffff_ffff_ffff_ffff_ffff);
    }

    fn zero() -> (r: Self) {
        0
    }

    fn one() -> (r: Self) {
        1
    }

    fn max() -> (r: Self) {
        proof {
            Self::lemma_max_value();
        }
        u128::MAX
    }

    fn plus(self, rhs: Self) -> (r: Self) {
        proof {
            Self::lemma_max_value();
        }
        self + rhs
    }

    fn minus(self, rhs: Self) -> (r: Self) {
        self - rhs
    }

    fn times(self, rhs: Self) -> (r: Self) {
        proof {
            Self::lemma_max_value();
        }
        self * rhs
    }

    fn quotient(self, rhs: Self) -> (r: Self) {
        self / rhs
    }

    fn remainder(self, rhs: Self) -> (r: Self) {
        self % rhs
    }

    fn equals(self, rhs: Self) -> (r: bool) {
        self == rhs
    }

    fn less_than(self, rhs: Self) -> (r: bool) {
        self < rhs
    }
}

/// A type that can be drawn from a source of randomness, given a
/// configuration of type `C`.
pub trait FromRandom<C>: Sized {
    /// The configurations with which a value can be drawn.
    spec fn random_cfg_ok(cfg: &C) -> bool;

    /// What holds of every value drawn with `cfg`.
    spec fn random_ok(self, cfg: &C) -> bool;

    fn random<R: RandomSource>(rng: &mut R, cfg: &C) -> (r: Self)
        requires
            Self::random_cfg_ok(cfg),
        ensures
            r.random_ok(cfg),
    ;
}

/// A source of random 64-bit words. Nothing is claimed of the words.
pub trait RandomSource {
    fn next_word(&mut self) -> u64;
}

/// `rand`'s standard generator.
#[verifier::external_type_specification]
#[verifier::external_body]
pub struct ExStdRng(rand::rngs::StdRng);

/// `rand::RngCore::next_u64` on `rand::rngs::StdRng`: the next 64 bits of
/// the generator. Nothing is claimed of them.
#[verifier::external_body]
fn next_u64(rng: &mut rand::rngs::StdRng) -> u64 {
    rng.next_u64()
}

impl RandomSource for rand::rngs::StdRng {
    fn next_word(&mut self) -> u64 {
        next_u64(self)
    }
}

impl<T> FromRandom<T> for u64 {
    open spec fn random_cfg_ok(cfg: &T) -> bool {
        true
    }

    open spec fn random_ok(self, cfg: &T) -> bool {
        true
    }

    fn random<R: RandomSource>(rng: &mut R, cfg: &T) -> (r: Self) {
        u64_from_word(rng.next_word())
    }
}

/// The 64-bit number made of a word drawn: the word times a fixed odd
/// number, modulo `2^64`.
pub fn u64_from_word(word: u64) -> (r: u64)
    ensures
        r == (word * 0x1983018027498101) % 0x1_0000_0000_0000_0000,
{
    word.wrapping_mul(0x1983018027498101)
}

/// Two 64-bit words as one 128-bit number, `hi` in the upper half.
pub open spec fn join_words(hi: u64, lo: u64) -> nat {
    (hi as nat) * 0x1_0000_0000_0000_0000 + lo as nat
}

/// The 128-bit number made of two words drawn, the first in the upper half.
pub fn u128_from_words(hi: u64, lo: u64) -> (r: u128)
    ensures
        r == join_words(hi, lo),
{
    let h: u128 = hi as u128;
    let l: u128 = lo as u128;
    assert((h << 64) == h * 0x1_0000_0000_0000_0000 && (h << 64)
        <= 0xffff_ffff_ffff_ffff_0000_0000_0000_0000) by (bit_vector)
        requires
            h <= 0xffff_ffff_ffff_ffff,
    ;
    (h << 64) + l
}

impl<T> FromRandom<T> for u128 {
    open spec fn random_cfg_ok(cfg: &T) -> bool {
        true
    }

    open spec fn random_ok(self, cfg: &T) -> bool {
        true
    }

    fn random<R: RandomSource>(rng: &mut R, cfg: &T) -> (r: Self) {
        let hi = rng.next_word();
        let lo = rng.next_word();
        u128_from_words(hi, lo)
    }
}

/// Why a text that was received could not be turned back into values.
#[derive(Clone, Copy, Debug, PartialEq, Eq, Structural)]
pub enum TransportError {
    /// The text is not base64.
    Encoding,
    /// The bytes are too few, or not a whole number of items.
    Length,
    /// The ciphertext does not consist of pairs of points.
    Pairing,
    /// A point does not lie on the curve.
    Point,
    /// A sum of points that decryption needs has no result.
    Undefined,
    /// The recovered bytes are not UTF-8.
    Text,
}

/// What `base64`'s standard engine, with padding, encodes bytes as.
pub uninterp spec fn base64_text(bytes: Seq<u8>) -> Seq<char>;

/// What `base64`'s standard engine, with padding, decodes a text to, and
/// `None` where it rejects the text.
pub uninterp spec fn base64_bytes(text: Seq<char>) -> Option<Seq<u8>>;

/// The length of the base64 text for `len` bytes fits in `usize`.
pub open spec fn base64_fits(len: nat) -> bool {
    (len / 3 + 1) * 4 <= usize::MAX
}

/// The error with which `base64` rejects a text.
#[verifier::external_type_specification]
#[verifier::external_body]
pub struct ExDecodeError(base64::DecodeError);

/// `base64::Engine::encode` on `base64::prelude::BASE64_STANDARD`. It
/// fails where the length of the text overflows, which `requires` excludes;
/// the text depends on the bytes alone.
#[verifier::external_body]
pub(crate) fn base64_encode(bytes: &[u8]) -> (s: String)
    requires
        base64_fits(bytes@.len()),
    ensures
        s@ == base64_text(bytes@),
{
    BASE64_STANDARD.encode(bytes)
}

/// `base64::Engine::decode` on `base64::prelude::BASE64_STANDARD`: the
/// bytes, or the error with which the engine rejects the text. Which of the
/// two depends on the text alone.
#[verifier::external_body]
pub(crate) fn base64_decode(text: &str) -> (r: Result<Vec<u8>, base64::DecodeError>)
    ensures
        match r {
            Ok(v) => base64_bytes(text@) == Some(v@),
            Err(_) => base64_bytes(text@).is_none(),
        },
{
    BASE64_STANDARD.decode(text)
}

/// A value with a fixed-length byte encoding that can be read back exactly.
pub trait RW: Sized {
    /// The length of the encoding, where it fits in `usize`.
    const LEN: usize;

    /// The length of the encoding.
    spec fn len_spec() -> nat;

    spec fn bytes_spec(self) -> Seq<u8>;

    spec fn from_bytes_spec(b: Seq<u8>) -> Self;

    proof fn lemma_len()
        ensures
            Self::len_spec() > 0,
            Self::len_spec() <= usize::MAX ==> Self::LEN == Self::len_spec(),
    ;

    proof fn lemma_bytes(self)
        ensures
            self.bytes_spec().len() == Self::len_spec(),
            Self::from_bytes_spec(self.bytes_spec()) == self,
    ;

    proof fn lemma_from_bytes(b: Seq<u8>)
        requires
            b.len() == Self::len_spec(),
        ensures
            Self::from_bytes_spec(b).bytes_spec() == b,
    ;

    /// Appends the encoding of `self` to `w` and returns its length.
    fn to_bytes(self, w: &mut Vec<u8>) -> (n: usize)
        ensures
            final(w)@ == old(w)@ + self.bytes_spec(),
            n == Self::len_spec(),
    ;

    /// Reads a value from the first `LEN` bytes of `r`.
    fn from_bytes(r: &[u8]) -> (v: Self)
        requires
            r@.len() >= Self::len_spec(),
        ensures
            v == Self::from_bytes_spec(r@.subrange(0, Self::len_spec() as int)),
    ;

    fn to_base64(self) -> (s: String)
        requires
            base64_fits(Self::len_spec()),
        ensures
            s@ == base64_text(self.bytes_spec()),
    {
        let mut buf: Vec<u8> = Vec::new();
        let len = self.to_bytes(&mut buf);
        proof {
            self.lemma_bytes();
            assert(buf@ =~= self.bytes_spec());
            assert(buf@.subrange(0, len as int) =~= buf@);
        }
        base64_encode(slice_subrange(buf.as_slice(), 0, len))
    }

    fn from_base64(base64: &str) -> (r: Result<Self, TransportError>)
        requires
            Self::len_spec() <= usize::MAX,
        ensures
            r == match base64_bytes(base64@) {
                None => Err(TransportError::Encoding),
                Some(b) => if b.len() < Self::len_spec() {
                    Err(TransportError::Length)
                } else {
                    Ok(Self::from_bytes_spec(b.subrange(0, Self::len_spec() as int)))
                },
            },
    {
        match base64_decode(base64) {
            Err(_) => Err(TransportError::Encoding),
            Ok(decoded) => {
                proof {
                    Self::lemma_len();
                }
                if decoded.len() < Self::LEN {
                    Err(TransportError::Length)
                } else {
                    Ok(Self::from_bytes(decoded.as_slice()))
                }
            },
        }
    }
}

/// A type that can carry bytes of a message.
pub trait Capacitor: Configurable {
    spec fn capacity_spec(cfg: &Self::Cfg) -> nat;

    /// How many bytes a value can efficiently store.
    fn capacity(cfg: &Self::Cfg) -> (r: usize)
        requires
            Self::cfg_ok(cfg),
        ensures
            r == Self::capacity_spec(cfg),
    ;
}

impl RW for u64 {
    const LEN: usize = 8;

    open spec fn len_spec() -> nat {
        8
    }

    open spec fn bytes_spec(self) -> Seq<u8> {
        le_bytes(self as nat, 8)
    }

    open spec fn from_bytes_spec(b: Seq<u8>) -> Self {
        le_value(b) as u64
    }

    proof fn lemma_len() {
        assert(<u64 as RW>::len_spec() == 8);
        assert(<u64 as RW>::LEN == 8);
    }

    proof fn lemma_bytes(self) {
        assert(<u64 as RW>::len_spec() == 8);
        lemma_pow256_16();
        lemma_le_bytes_len(self as nat, 8);
        lemma_le_value_of_bytes(self as nat, 8);
        assert(<u64 as RW>::from_bytes_spec(self.bytes_spec()) == le_value(
            le_bytes(self as nat, 8),
        ) as u64);
    }

    proof fn lemma_from_bytes(b: Seq<u8>) {
        assert(<u64 as RW>::len_spec() == 8);
        lemma_pow256_16();
        lemma_le_value_bound(b);
        lemma_le_bytes_of_value(b);
    }

    fn to_bytes(self, w: &mut Vec<u8>) -> (n: usize) {
        put_le(self as u128, 8, w);
        8
    }

    fn from_bytes(r: &[u8]) -> (v: Self) {
        let wide: u128 = get_le(r, 8);
        proof {
            lemma_pow256_16();
            lemma_le_value_bound(r@.subrange(0, 8));
        }
        wide as u64
    }
}

impl RW for u128 {
    const LEN: usize = 16;

    open spec fn len_spec() -> nat {
        16
    }

    open spec fn bytes_spec(self) -> Seq<u8> {
        le_bytes(self as nat, 16)
    }

    open spec fn from_bytes_spec(b: Seq<u8>) -> Self {
        le_value(b) as u128
    }

    proof fn lemma_len() {
        assert(<u128 as RW>::len_spec() == 16);
        assert(<u128 as RW>::LEN == 16);
    }

    proof fn lemma_bytes(self) {
        assert(<u128 as RW>::len_spec() == 16);
        lemma_pow256_16();
        lemma_le_bytes_len(self as nat, 16);
        lemma_le_value_of_bytes(self as nat, 16);
        assert(<u128 as RW>::from_bytes_spec(self.bytes_spec()) == le_value(
            le_bytes(self as nat, 16),
        ) as u128);
    }

    proof fn lemma_from_bytes(b: Seq<u8>) {
        assert(<u128 as RW>::len_spec() == 16);
        lemma_pow256_16();
        lemma_le_value_bound(b);
        lemma_le_bytes_of_value(b);
    }

    fn to_bytes(self, w: &mut Vec<u8>) -> (n: usize) {
        put_le(self as u128, 16, w);
        16
    }

    fn from_bytes(r: &[u8]) -> (v: Self) {
        let wide: u128 = get_le(r, 16);
        proof {
            lemma_pow256_16();
            lemma_le_value_bound(r@.subrange(0, 16));
        }
        wide as u128
    }
}

impl RW for u8 {
    const LEN: usize = 1;

    open spec fn len_spec() -> nat {
        1
    }

    open spec fn bytes_spec(self) -> Seq<u8> {
        le_bytes(self as nat, 1)
    }

    open spec fn from_bytes_spec(b: Seq<u8>) -> Self {
        le_value(b) as u8
    }

    proof fn lemma_len() {
        assert(<u8 as RW>::len_spec() == 1);
        assert(<u8 as RW>::LEN == 1);
    }

    proof fn lemma_bytes(self) {
        assert(<u8 as RW>::len_spec() == 1);
        lemma_pow256_16();
        lemma_le_bytes_len(self as nat, 1);
        lemma_le_value_of_bytes(self as nat, 1);
        assert(<u8 as RW>::from_bytes_spec(self.bytes_spec()) == le_value(
            le_bytes(self as nat, 1),
        ) as u8);
    }

    proof fn lemma_from_bytes(b: Seq<u8>) {
        assert(<u8 as RW>::len_spec() == 1);
        lemma_pow256_16();
        lemma_le_value_bound(b);
        lemma_le_bytes_of_value(b);
    }

    fn to_bytes(self, w: &mut Vec<u8>) -> (n: usize) {
        put_le(self as u128, 1, w);
        1
    }

    fn from_bytes(r: &[u8]) -> (v: Self) {
        let wide: u128 = get_le(r, 1);
        proof {
            lemma_pow256_16();
            lemma_le_value_bound(r@.subrange(0, 1));
        }
        wide as u8
    }
}

} // verus!
