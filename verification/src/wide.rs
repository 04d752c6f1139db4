//! A 256-bit natural whose arithmetic is done by `primitive_types::U256`.

use crate::base_traits::{FromRandom, Natural, RandomSource, RW};
use crate::le_bytes::{
    le_bytes, le_value, lemma_le_bytes_len, lemma_le_bytes_of_value, lemma_le_value_bound,
    lemma_le_value_of_bytes, lemma_pow256_16,
};
use primitive_types::U256;
use vstd::arithmetic::power::*;
use vstd::prelude::*;
use vstd::slice::slice_subrange;

verus! {

/// A 256-bit natural number in four 64-bit words, the least significant
/// first. Its arithmetic is that of `primitive_types::U256`.
#[derive(Clone, Copy, Debug, PartialEq, Eq)]
pub struct Nat256 {
    pub w0: u64,
    pub w1: u64,
    pub w2: u64,
    pub w3: u64,
}

/// `2^64`.
pub open spec fn word() -> nat {
    0x1_0000_0000_0000_0000
}

/// `2^256`.
pub open spec fn wide_limit() -> nat {
    0x1_0000_0000_0000_0000_0000_0000_0000_0000_0000_0000_0000_0000_0000_0000_0000_0000nat
}

/// The number that four words hold.
pub open spec fn words_value(w0: u64, w1: u64, w2: u64, w3: u64) -> nat {
    w0 as nat + word() * (w1 as nat + word() * (w2 as nat + word() * w3 as nat))
}

/// `primitive_types::U256`'s `+`, which fails on overflow: the sum, where
/// it fits in 256 bits.
#[verifier::external_body]
fn wide_add(a: Nat256, b: Nat256) -> (r: Nat256)
    requires
        a.value() + b.value() < wide_limit(),
    ensures
        r.value() == a.value() + b.value(),
{
    let U256(w) = U256([a.w0, a.w1, a.w2, a.w3]) + U256([b.w0, b.w1, b.w2, b.w3]);
    Nat256 { w0: w[0], w1: w[1], w2: w[2], w3: w[3] }
}

/// `primitive_types::U256`'s `-`, which fails on underflow: the
/// difference, where it is not negative.
#[verifier::external_body]
fn wide_sub(a: Nat256, b: Nat256) -> (r: Nat256)
    requires
        b.value() <= a.value(),
    ensures
        r.value() == a.value() - b.value(),
{
    let U256(w) = U256([a.w0, a.w1, a.w2, a.w3]) - U256([b.w0, b.w1, b.w2, b.w3]);
    Nat256 { w0: w[0], w1: w[1], w2: w[2], w3: w[3] }
}

/// `primitive_types::U256`'s `*`, which fails on overflow: the product,
/// where it fits in 256 bits.
#[verifier::external_body]
fn wide_mul(a: Nat256, b: Nat256) -> (r: Nat256)
    requires
        a.value() * b.value() < wide_limit(),
    ensures
        r.value() == a.value() * b.value(),
{
    let U256(w) = U256([a.w0, a.w1, a.w2, a.w3]) * U256([b.w0, b.w1, b.w2, b.w3]);
    Nat256 { w0: w[0], w1: w[1], w2: w[2], w3: w[3] }
}

/// `primitive_types::U256`'s `/`, which fails on a zero divisor: the
/// quotient, rounded down.
#[verifier::external_body]
fn wide_div(a: Nat256, b: Nat256) -> (r: Nat256)
    requires
        b.value() != 0,
    ensures
        r.value() == a.value() / b.value(),
{
    let U256(w) = U256([a.w0, a.w1, a.w2, a.w3]) / U256([b.w0, b.w1, b.w2, b.w3]);
    Nat256 { w0: w[0], w1: w[1], w2: w[2], w3: w[3] }
}

/// `primitive_types::U256`'s `%`, which fails on a zero divisor: the
/// remainder.
#[verifier::external_body]
fn wide_rem(a: Nat256, b: Nat256) -> (r: Nat256)
    requires
        b.value() != 0,
    ensures
        r.value() == a.value() % b.value(),
{
    let U256(w) = U256([a.w0, a.w1, a.w2, a.w3]) % U256([b.w0, b.w1, b.w2, b.w3]);
    Nat256 { w0: w[0], w1: w[1], w2: w[2], w3: w[3] }
}

/// `primitive_types::U256::to_little_endian`: the 32 bytes of the number,
/// least significant first.
#[verifier::external_body]
fn wide_to_le(a: Nat256) -> (r: [u8; 32])
    ensures
        r@ == le_bytes(a.value(), 32),
{
    U256([a.w0, a.w1, a.w2, a.w3]).to_little_endian()
}

/// `primitive_types::U256::from_little_endian`, which fails on more than
/// 32 bytes: the number whose bytes, least significant first, are given.
#[verifier::external_body]
fn wide_from_le(bytes: &[u8]) -> (r: Nat256)
    requires
        bytes@.len() <= 32,
    ensures
        r.value() == le_value(bytes@),
{
    let U256(w) = U256::from_little_endian(bytes);
    Nat256 { w0: w[0], w1: w[1], w2: w[2], w3: w[3] }
}

impl Natural for Nat256 {
    open spec fn value(self) -> nat {
        words_value(self.w0, self.w1, self.w2, self.w3)
    }

    open spec fn max_value() -> nat {
        (wide_limit() - 1) as nat
    }

    open spec fn from_value(n: nat) -> Self {
        Nat256 {
            w0: (n % word()) as u64,
            w1: ((n / word()) % word()) as u64,
            w2: ((n / word() / word()) % word()) as u64,
            w3: ((n / word() / word() / word()) % word()) as u64,
        }
    }

    proof fn lemma_value(self) {
        lemma_words(self.w0, self.w1, self.w2, self.w3);
        assert(<Nat256 as Natural>::max_value() == wide_limit() - 1);
        assert(<Nat256 as Natural>::from_value(self.value()) == self);
    }

    proof fn lemma_from_value(n: nat) {
        let w = word();
        let x = <Nat256 as Natural>::from_value(n);
        assert(<Nat256 as Natural>::max_value() == wide_limit() - 1);
        assert(w * w * w * w == wide_limit()) by (nonlinear_arith)
            requires
                w == 0x1_0000_0000_0000_0000,
        ;
        let (q1, q2, q3) = (n / w, n / w / w, n / w / w / w);
        assert(n == n % w + w * q1);
        assert(q1 == q1 % w + w * q2);
        assert(q2 == q2 % w + w * q3);
        assert(q3 < w) by (nonlinear_arith)
            requires
                n < w * w * w * w,
                n >= w * q1,
                q1 >= w * q2,
                q2 >= w * q3,
                w > 0,
        ;
        assert(x.value() == n % w + w * (q1 % w + w * (q2 % w + w * q3)));
    }

    proof fn lemma_max_value() {
        assert(<Nat256 as Natural>::max_value() == wide_limit() - 1);
    }

    fn zero() -> (r: Self) {
        Nat256 { w0: 0, w1: 0, w2: 0, w3: 0 }
    }

    fn one() -> (r: Self) {
        Nat256 { w0: 1, w1: 0, w2: 0, w3: 0 }
    }

    fn max() -> (r: Self) {
        let r = Nat256 { w0: u64::MAX, w1: u64::MAX, w2: u64::MAX, w3: u64::MAX };
        proof {
            lemma_words(r.w0, r.w1, r.w2, r.w3);
            assert(<Nat256 as Natural>::max_value() == wide_limit() - 1);
            let w = word();
            assert(w * w * w * w == wide_limit()) by (nonlinear_arith)
                requires
                    w == 0x1_0000_0000_0000_0000,
            ;
            assert((w - 1) + w * ((w - 1) + w * ((w - 1) + w * (w - 1))) == w * w * w * w - 1)
                by (nonlinear_arith);
        }
        r
    }

    fn plus(self, rhs: Self) -> (r: Self) {
        proof {
            assert(<Nat256 as Natural>::max_value() == wide_limit() - 1);
        }
        wide_add(self, rhs)
    }

    fn minus(self, rhs: Self) -> (r: Self) {
        wide_sub(self, rhs)
    }

    fn times(self, rhs: Self) -> (r: Self) {
        proof {
            assert(<Nat256 as Natural>::max_value() == wide_limit() - 1);
        }
        wide_mul(self, rhs)
    }

    fn quotient(self, rhs: Self) -> (r: Self) {
        wide_div(self, rhs)
    }

    fn remainder(self, rhs: Self) -> (r: Self) {
        wide_rem(self, rhs)
    }

    fn equals(self, rhs: Self) -> (r: bool) {
        proof {
            self.lemma_value();
            rhs.lemma_value();
        }
        self.w0 == rhs.w0 && self.w1 == rhs.w1 && self.w2 == rhs.w2 && self.w3 == rhs.w3
    }

    fn less_than(self, rhs: Self) -> (r: bool) {
        proof {
            lemma_words_order(self, rhs);
        }
        if self.w3 != rhs.w3 {
            self.w3 < rhs.w3
        } else if self.w2 != rhs.w2 {
            self.w2 < rhs.w2
        } else if self.w1 != rhs.w1 {
            self.w1 < rhs.w1
        } else {
            self.w0 < rhs.w0
        }
    }
}

/// Four words hold a number below `2^256`, from which they can be read
/// back.
pub proof fn lemma_words(w0: u64, w1: u64, w2: u64, w3: u64)
    ensures
        words_value(w0, w1, w2, w3) < wide_limit(),
        words_value(w0, w1, w2, w3) % word() == w0,
        (words_value(w0, w1, w2, w3) / word()) % word() == w1,
        (words_value(w0, w1, w2, w3) / word() / word()) % word() == w2,
        (words_value(w0, w1, w2, w3) / word() / word() / word()) % word() == w3,
{
    let w = word();
    let v = words_value(w0, w1, w2, w3);
    let t1 = w1 as nat + w * (w2 as nat + w * w3 as nat);
    let t2 = w2 as nat + w * w3 as nat;
    assert(v == w0 + w * t1);
    assert(t1 == w1 + w * t2);
    assert(v / w == t1 && v % w == w0) by {
        vstd::arithmetic::div_mod::lemma_fundamental_div_mod_converse(
            v as int,
            w as int,
            t1 as int,
            w0 as int,
        );
    }
    assert(t1 / w == t2 && t1 % w == w1) by {
        vstd::arithmetic::div_mod::lemma_fundamental_div_mod_converse(
            t1 as int,
            w as int,
            t2 as int,
            w1 as int,
        );
    }
    assert(t2 / w == w3 && t2 % w == w2) by {
        vstd::arithmetic::div_mod::lemma_fundamental_div_mod_converse(
            t2 as int,
            w as int,
            w3 as int,
            w2 as int,
        );
    }
    assert(w3 as nat % w == w3);
    assert(w * w * w * w == wide_limit()) by (nonlinear_arith)
        requires
            w == 0x1_0000_0000_0000_0000,
    ;
    assert(v < w * w * w * w) by (nonlinear_arith)
        requires
            v == w0 + w * (w1 + w * (w2 + w * w3)),
            w0 < w,
            w1 < w,
            w2 < w,
            w3 < w,
    ;
}

/// Numbers compare as their words do, the most significant first.
pub proof fn lemma_words_order(a: Nat256, b: Nat256)
    ensures
        a.value() < b.value() <==> (a.w3 < b.w3 || (a.w3 == b.w3 && (a.w2 < b.w2 || (a.w2 == b.w2
            && (a.w1 < b.w1 || (a.w1 == b.w1 && a.w0 < b.w0)))))),
{
    let w = word();
    let ta = a.w2 as nat + w * a.w3 as nat;
    let tb = b.w2 as nat + w * b.w3 as nat;
    let ua = a.w1 as nat + w * ta;
    let ub = b.w1 as nat + w * tb;
    assert(a.value() == a.w0 + w * ua);
    assert(b.value() == b.w0 + w * ub);
    assert(ta < tb <==> (a.w3 < b.w3 || (a.w3 == b.w3 && a.w2 < b.w2)));
    assert(ua < ub <==> (ta < tb || (ta == tb && a.w1 < b.w1)));
    assert(a.value() < b.value() <==> (ua < ub || (ua == ub && a.w0 < b.w0)));
}

/// `256^32` is `2^256`.
pub proof fn lemma_pow256_32()
    ensures
        pow(256, 32) == wide_limit(),
{
    lemma_pow256_16();
    lemma_pow_adds(256, 16, 16);
    assert(pow(256, 32) == wide_limit()) by (nonlinear_arith)
        requires
            pow(256, 32) == pow(256, 16) * pow(256, 16),
            pow(256, 16) == 0x1_0000_0000_0000_0000_0000_0000_0000_0000int,
    ;
}

impl RW for Nat256 {
    const LEN: usize = 32;

    open spec fn len_spec() -> nat {
        32
    }

    open spec fn bytes_spec(self) -> Seq<u8> {
        le_bytes(self.value(), 32)
    }

    open spec fn from_bytes_spec(b: Seq<u8>) -> Self {
        <Nat256 as Natural>::from_value(le_value(b))
    }

    proof fn lemma_len() {
        assert(<Nat256 as RW>::len_spec() == 32);
        assert(<Nat256 as RW>::LEN == 32);
    }

    proof fn lemma_bytes(self) {
        assert(<Nat256 as RW>::len_spec() == 32);
        lemma_pow256_32();
        self.lemma_value();
        lemma_le_bytes_len(self.value(), 32);
        lemma_le_value_of_bytes(self.value(), 32);
        assert(<Nat256 as RW>::from_bytes_spec(self.bytes_spec()) == <Nat256 as
            Natural>::from_value(le_value(le_bytes(self.value(), 32))));
    }

    proof fn lemma_from_bytes(b: Seq<u8>) {
        assert(<Nat256 as RW>::len_spec() == 32);
        lemma_pow256_32();
        lemma_le_value_bound(b);
        lemma_le_bytes_of_value(b);
        assert(<Nat256 as Natural>::max_value() == wide_limit() - 1);
        <Nat256 as Natural>::lemma_from_value(le_value(b));
    }

    fn to_bytes(self, w: &mut Vec<u8>) -> (n: usize) {
        let bytes = wide_to_le(self);
        let mut i: usize = 0;
        while i < 32
            invariant
                i <= 32,
                bytes@ == le_bytes(self.value(), 32),
                bytes@.len() == 32,
                w@ == old(w)@ + bytes@.subrange(0, i as int),
            decreases 32 - i,
        {
            w.push(bytes[i]);
            proof {
                assert(bytes@.subrange(0, i + 1) =~= bytes@.subrange(0, i as int).push(
                    bytes@[i as int],
                ));
            }
            i = i + 1;
        }
        proof {
            assert(bytes@.subrange(0, 32) =~= bytes@);
        }
        32
    }

    fn from_bytes(r: &[u8]) -> (v: Self) {
        let v = wide_from_le(slice_subrange(r, 0, 32));
        proof {
            v.lemma_value();
        }
        v
    }
}

/// The number whose upper half is `hi` and whose lower half is `lo`.
pub fn wide_from_halves(hi: u128, lo: u128) -> (r: Nat256)
    ensures
        r.value() == hi as nat * 0x1_0000_0000_0000_0000_0000_0000_0000_0000 + lo as nat,
{
    let w0: u64 = (lo & 0xffff_ffff_ffff_ffff) as u64;
    let w1: u64 = (lo >> 64) as u64;
    let w2: u64 = (hi & 0xffff_ffff_ffff_ffff) as u64;
    let w3: u64 = (hi >> 64) as u64;
    proof {
        assert(lo == (lo & 0xffff_ffff_ffff_ffff) + 0x1_0000_0000_0000_0000 * (lo >> 64) && (lo
            & 0xffff_ffff_ffff_ffff) < 0x1_0000_0000_0000_0000 && (lo >> 64)
            < 0x1_0000_0000_0000_0000) by (bit_vector);
        assert(hi == (hi & 0xffff_ffff_ffff_ffff) + 0x1_0000_0000_0000_0000 * (hi >> 64) && (hi
            & 0xffff_ffff_ffff_ffff) < 0x1_0000_0000_0000_0000 && (hi >> 64)
            < 0x1_0000_0000_0000_0000) by (bit_vector);
        let w = word();
        assert(w0 + w * (w1 + w * (w2 + w * w3)) == (w2 + w * w3) * (w * w) + (w0 + w * w1))
            by (nonlinear_arith);
        assert(w * w == 0x1_0000_0000_0000_0000_0000_0000_0000_0000) by (nonlinear_arith)
            requires
                w == 0x1_0000_0000_0000_0000,
        ;
    }
    Nat256 { w0, w1, w2, w3 }
}

impl FromRandom<()> for Nat256 {
    open spec fn random_cfg_ok(cfg: &()) -> bool {
        true
    }

    open spec fn random_ok(self, cfg: &()) -> bool {
        true
    }

    fn random<R: RandomSource>(rng: &mut R, cfg: &()) -> (r: Self) {
        let l1 = <u128 as FromRandom<()>>::random(rng, cfg);
        let l2 = <u128 as FromRandom<()>>::random(rng, cfg);
        wide_from_halves(l1, l2)
    }
}

} // verus!
