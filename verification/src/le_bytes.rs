//! Numbers as bytes, least significant first.

use vstd::arithmetic::div_mod::*;
use vstd::arithmetic::mul::*;
use vstd::arithmetic::power::*;
use vstd::prelude::*;

verus! {

/// The `len` low-order base-256 digits of `v`, least significant first.
pub open spec fn le_bytes(v: nat, len: nat) -> Seq<u8>
    decreases len,
{
    if len == 0 {
        Seq::empty()
    } else {
        seq![(v % 256) as u8] + le_bytes(v / 256, (len - 1) as nat)
    }
}

/// The number whose base-256 digits, least significant first, are `b`.
pub open spec fn le_value(b: Seq<u8>) -> nat
    decreases b.len(),
{
    if b.len() == 0 {
        0
    } else {
        b[0] as nat + 256 * le_value(b.subrange(1, b.len() as int))
    }
}

/// `le_bytes` gives as many bytes as asked for.
pub proof fn lemma_le_bytes_len(v: nat, len: nat)
    ensures
        le_bytes(v, len).len() == len,
    decreases len,
{
    if len > 0 {
        lemma_le_bytes_len(v / 256, (len - 1) as nat);
    }
}

/// `n` bytes hold a number below `256^n`.
pub proof fn lemma_le_value_bound(b: Seq<u8>)
    ensures
        le_value(b) < pow(256, b.len()),
    decreases b.len(),
{
    reveal(pow);
    if b.len() > 0 {
        let rest = b.subrange(1, b.len() as int);
        lemma_le_value_bound(rest);
        assert(pow(256, b.len()) == 256 * pow(256, rest.len()));
    }
}

/// Decoding what `le_bytes` gives yields `v` again, where `v` has no more
/// than `len` digits.
pub proof fn lemma_le_value_of_bytes(v: nat, len: nat)
    requires
        v < pow(256, len),
    ensures
        le_value(le_bytes(v, len)) == v,
    decreases len,
{
    reveal(pow);
    if len > 0 {
        let b = le_bytes(v, len);
        let rest = le_bytes(v / 256, (len - 1) as nat);
        lemma_le_bytes_len(v, len);
        assert(b.subrange(1, b.len() as int) =~= rest);
        assert(pow(256, len) == 256 * pow(256, (len - 1) as nat));
        lemma_le_value_of_bytes(v / 256, (len - 1) as nat);
    }
}

/// Encoding what `le_value` gives yields `b` again.
pub proof fn lemma_le_bytes_of_value(b: Seq<u8>)
    ensures
        le_bytes(le_value(b), b.len()) == b,
    decreases b.len(),
{
    if b.len() > 0 {
        let rest = b.subrange(1, b.len() as int);
        let v = le_value(b);
        lemma_le_bytes_of_value(rest);
        assert(v % 256 == b[0] as nat && v / 256 == le_value(rest)) by {
            lemma_fundamental_div_mod_converse(
                v as int,
                256,
                le_value(rest) as int,
                b[0] as int,
            );
        }
        assert(le_bytes(v, b.len()) =~= b);
    } else {
        assert(le_bytes(le_value(b), 0) =~= b);
    }
}

/// Appends the `len` low-order bytes of `v` to `w`, least significant first.
pub fn put_le(v: u128, len: usize, w: &mut Vec<u8>)
    ensures
        final(w)@ == old(w)@ + le_bytes(v as nat, len as nat),
{
    let mut rest: u128 = v;
    let mut i: usize = 0;
    proof {
        assert(le_bytes(rest as nat, 0) =~= Seq::<u8>::empty());
        assert(w@ =~= old(w)@ + Seq::<u8>::empty());
    }
    while i < len
        invariant
            i <= len,
            old(w)@ + le_bytes(v as nat, len as nat) == w@ + le_bytes(
                rest as nat,
                (len - i) as nat,
            ),
        decreases len - i,
    {
        let d: u8 = (rest % 256) as u8;
        proof {
            let tail = le_bytes((rest / 256) as nat, (len - i - 1) as nat);
            assert(le_bytes(rest as nat, (len - i) as nat) == seq![d] + tail);
            assert(w@.push(d) + tail =~= w@ + (seq![d] + tail));
        }
        w.push(d);
        rest = rest / 256;
        i = i + 1;
    }
    proof {
        assert(w@ + le_bytes(rest as nat, 0) =~= w@);
    }
}

/// The number that the first `len` bytes of `b` hold, least significant
/// byte first.
pub fn get_le(b: &[u8], len: usize) -> (v: u128)
    requires
        len <= 16,
        len <= b@.len(),
    ensures
        v == le_value(b@.subrange(0, len as int)),
{
    let mut acc: u128 = 0;
    let mut i: usize = len;
    proof {
        assert(b@.subrange(len as int, len as int) =~= Seq::<u8>::empty());
    }
    while i > 0
        invariant
            i <= len <= 16,
            len <= b@.len(),
            acc == le_value(b@.subrange(i as int, len as int)),
        decreases i,
    {
        i = i - 1;
        let d: u8 = b[i];
        proof {
            let hi = b@.subrange(i + 1, len as int);
            let all = b@.subrange(i as int, len as int);
            assert(all.subrange(1, all.len() as int) =~= hi);
            assert(le_value(all) == d as nat + 256 * le_value(hi));
            lemma_le_value_bound(all);
            lemma_pow_increases(256, all.len(), 16);
            assert(pow(256, 16) == 0x1_0000_0000_0000_0000_0000_0000_0000_0000int) by {
                lemma_pow256_16();
            }
        }
        acc = acc * 256 + d as u128;
    }
    acc
}

/// The powers of 256 that bound one, eight and sixteen bytes.
pub proof fn lemma_pow256_16()
    ensures
        pow(256, 1) == 0x100,
        pow(256, 8) == 0x1_0000_0000_0000_0000int,
        pow(256, 16) == 0x1_0000_0000_0000_0000_0000_0000_0000_0000int,
{
    reveal(pow);
    assert(pow(256, 0) == 1);
    assert(pow(256, 1) == 256);
    lemma_pow_adds(256, 1, 1);
    assert(pow(256, 2) == 0x1_0000);
    lemma_pow_adds(256, 2, 2);
    assert(pow(256, 4) == 0x1_0000_0000) by (nonlinear_arith)
        requires
            pow(256, 4) == pow(256, 2) * pow(256, 2),
            pow(256, 2) == 0x1_0000,
    ;
    lemma_pow_adds(256, 4, 4);
    assert(pow(256, 8) == 0x1_0000_0000_0000_0000int) by (nonlinear_arith)
        requires
            pow(256, 8) == pow(256, 4) * pow(256, 4),
            pow(256, 4) == 0x1_0000_0000,
    ;
    lemma_pow_adds(256, 8, 8);
    assert(pow(256, 16) == 0x1_0000_0000_0000_0000_0000_0000_0000_0000int) by (nonlinear_arith)
        requires
            pow(256, 16) == pow(256, 8) * pow(256, 8),
            pow(256, 8) == 0x1_0000_0000_0000_0000int,
    ;
}

} // verus!
