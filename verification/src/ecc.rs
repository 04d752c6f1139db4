//! ElGamal over any group written additively: key pairs, encryption with
//! an ephemeral scalar, decryption, and why decryption undoes encryption.

use crate::algebra::ops;
use crate::algebra::{
    exp_defined, exp_spec, lemma_exp_defined_in_monoid, lemma_exp_exchanges, lemma_group_cancel,
    try_exp, AbelianGroup, CommutativeMonoid, CommutativeOp, InitialPoint, Inverse,
};
use crate::base_traits::{
    base64_bytes, base64_fits, base64_text, FromRandom, Natural, RandomSource, TransportError, RW,
};
use vstd::prelude::*;

verus! {

/// The secret scalar.
#[derive(Debug)]
pub struct PrivateKey<I>(pub I);

/// The generator multiplied by the secret scalar.
#[derive(Debug)]
pub struct PublicKey<P>(pub P);

impl<I: Copy> Clone for PrivateKey<I> {
    fn clone(&self) -> (r: Self)
        ensures
            r == *self,
    {
        *self
    }
}

impl<I: Copy> Copy for PrivateKey<I> {

}

impl<P: Copy> Clone for PublicKey<P> {
    fn clone(&self) -> (r: Self)
        ensures
            r == *self,
    {
        *self
    }
}

impl<P: Copy> Copy for PublicKey<P> {

}

/// `n` times `x`, where square-and-multiply can form it.
pub open spec fn scalar_mul<P: CommutativeOp<ops::Add>>(x: P, n: nat, cfg: &P::Cfg) -> Option<P> {
    if exp_defined::<ops::Add, P>(x, n, cfg) {
        Some(exp_spec::<ops::Add, P>(x, n, cfg))
    } else {
        None
    }
}

/// The public key that belongs to the scalar `pri`: `pri` times the
/// generator.
pub open spec fn public_of<P: CommutativeOp<ops::Add>>(pri: nat, cfg: &P::Cfg) -> Option<
    P,
> where P::Cfg: InitialPoint<P> {
    scalar_mul(cfg.g_spec(), pri, cfg)
}

/// The ciphertext of `msg` under the key `key` with the ephemeral scalar
/// `t`: `(t g, t key + msg)`.
pub open spec fn encrypt_spec<P: CommutativeOp<ops::Add>>(
    key: P,
    msg: P,
    t: nat,
    cfg: &P::Cfg,
) -> Option<(P, P)> where P::Cfg: InitialPoint<P> {
    match (scalar_mul(cfg.g_spec(), t, cfg), scalar_mul(key, t, cfg)) {
        (Some(c1), Some(shared)) => if P::op_defined(shared, msg, cfg) {
            Some((c1, P::op_spec(shared, msg, cfg)))
        } else {
            None
        },
        _ => None,
    }
}

/// What the scalar `pri` recovers from `(c1, c2)`: `c2 - pri c1`.
pub open spec fn decrypt_spec<P: CommutativeOp<ops::Add> + Inverse<ops::Add>>(
    pri: nat,
    c1: P,
    c2: P,
    cfg: &P::Cfg,
) -> Option<P> {
    match scalar_mul(c1, pri, cfg) {
        Some(shared) => if P::op_defined(c2, shared.inv_spec(cfg), cfg) {
            Some(P::op_spec(c2, shared.inv_spec(cfg), cfg))
        } else {
            None
        },
        None => None,
    }
}

/// The key pair of the scalar `pri`: the scalar itself and `pri` times the
/// generator, where that can be formed.
pub open spec fn keys_of<P: CommutativeOp<ops::Add>, I: Natural>(pri: I, cfg: &P::Cfg) -> Option<
    (PrivateKey<I>, PublicKey<P>),
> where P::Cfg: InitialPoint<P> {
    match public_of::<P>(pri.value(), cfg) {
        Some(public) => Some((PrivateKey(pri), PublicKey(public))),
        None => None,
    }
}

/// The key pair of the scalar `pri`; `None` where `pri` times the generator
/// cannot be formed.
pub fn keys_from_scalar<P: CommutativeOp<ops::Add>, I: Natural>(pri: I, cfg: &P::Cfg) -> (r: Option<
    (PrivateKey<I>, PublicKey<P>),
>) where P::Cfg: InitialPoint<P>
    requires
        P::cfg_ok(cfg),
        cfg.g_spec().valid(cfg),
    ensures
        r == keys_of::<P, I>(pri, cfg),
        match public_of::<P>(pri.value(), cfg) {
            Some(public) => r matches Some(pair) && pair.0.0 == pri && pair.1.0 == public
                && public.valid(cfg),
            None => r is None,
        },
{
    match try_exp::<ops::Add, P, I>(cfg.g(), pri, cfg) {
        Some(public) => Some((PrivateKey(pri), PublicKey(public))),
        None => None,
    }
}

/// Draws a scalar and returns its key pair; `None` where the scalar drawn
/// has no public key. Whatever is drawn, the result is the key pair of a
/// scalar that `I::random` can give.
pub fn gen_keys<P: CommutativeOp<ops::Add>, I: Natural + FromRandom<()>, R: RandomSource>(
    rng: &mut R,
    cfg: &P::Cfg,
) -> (r: Option<(PrivateKey<I>, PublicKey<P>)>) where P::Cfg: InitialPoint<P>
    requires
        P::cfg_ok(cfg),
        cfg.g_spec().valid(cfg),
        <I as FromRandom<()>>::random_cfg_ok(&()),
    ensures
        exists|pri: I| pri.random_ok(&()) && r == #[trigger] keys_of::<P, I>(pri, cfg),
        r matches Some(pair) ==> public_of::<P>(pair.0.0.value(), cfg) == Some(pair.1.0)
            && pair.1.0.valid(cfg),
{
    let pri = I::random(rng, &());
    let r = keys_from_scalar::<P, I>(pri, cfg);
    assert(pri.random_ok(&()) && r == keys_of::<P, I>(pri, cfg));
    r
}

impl<P: CommutativeOp<ops::Add>> PublicKey<P> {
    /// Encrypts `msg` with the ephemeral scalar `t`.
    pub fn encrypt_with<I: Natural>(self, msg: P, t: I, cfg: &P::Cfg) -> (r: Option<
        (P, P),
    >) where P::Cfg: InitialPoint<P>
        requires
            P::cfg_ok(cfg),
            cfg.g_spec().valid(cfg),
            self.0.valid(cfg),
            msg.valid(cfg),
        ensures
            r == encrypt_spec(self.0, msg, t.value(), cfg),
            r matches Some(c) ==> c.0.valid(cfg) && c.1.valid(cfg),
    {
        let c1 = match try_exp::<ops::Add, P, I>(cfg.g(), t, cfg) {
            Some(c1) => c1,
            None => {
                return None;
            },
        };
        let shared = match try_exp::<ops::Add, P, I>(self.0, t, cfg) {
            Some(shared) => shared,
            None => {
                return None;
            },
        };
        match P::try_op(shared, msg, cfg) {
            Some(c2) => Some((c1, c2)),
            None => None,
        }
    }

    /// Encrypts `msg` with an ephemeral scalar that it draws. Whatever is
    /// drawn, the result is what `encrypt_with` gives for a scalar that
    /// `I::random` can give.
    pub fn encrypt<I: Natural + FromRandom<()>, R: RandomSource>(
        self,
        msg: P,
        rng: &mut R,
        cfg: &P::Cfg,
    ) -> (r: Option<(P, P)>) where P::Cfg: InitialPoint<P>
        requires
            P::cfg_ok(cfg),
            cfg.g_spec().valid(cfg),
            self.0.valid(cfg),
            msg.valid(cfg),
            <I as FromRandom<()>>::random_cfg_ok(&()),
        ensures
            exists|t: I|
                t.random_ok(&()) && r == #[trigger] encrypt_spec(self.0, msg, t.value(), cfg),
            r matches Some(c) ==> c.0.valid(cfg) && c.1.valid(cfg),
    {
        let t = I::random(rng, &());
        let r = self.encrypt_with::<I>(msg, t, cfg);
        assert(t.random_ok(&()) && r == encrypt_spec(self.0, msg, t.value(), cfg));
        r
    }
}

impl<P: RW> PublicKey<P> {
    /// The bytes of the point, as base64.
    pub fn base64(self) -> (s: String)
        requires
            base64_fits(P::len_spec()),
        ensures
            s@ == base64_text(self.0.bytes_spec()),
    {
        self.0.to_base64()
    }

    /// The key whose point the base64 text holds. The point is not checked
    /// against any curve.
    pub fn from_base64(base64: &str) -> (r: Result<Self, TransportError>)
        requires
            P::len_spec() <= usize::MAX,
        ensures
            match base64_bytes(base64@) {
                None => r == Err::<Self, TransportError>(TransportError::Encoding),
                Some(b) => if b.len() < P::len_spec() {
                    r == Err::<Self, TransportError>(TransportError::Length)
                } else {
                    r matches Ok(key) && key.0 == P::from_bytes_spec(
                        b.subrange(0, P::len_spec() as int),
                    )
                },
            },
    {
        match P::from_base64(base64) {
            Ok(point) => Ok(PublicKey(point)),
            Err(e) => Err(e),
        }
    }
}

impl<I: Natural> PrivateKey<I> {
    /// Decrypts `(c1, c2)`; `None` where `c2 - pri c1` cannot be formed.
    pub fn decrypt<P: CommutativeOp<ops::Add> + Inverse<ops::Add>>(
        self,
        c: (P, P),
        cfg: &P::Cfg,
    ) -> (r: Option<P>)
        requires
            P::cfg_ok(cfg),
            c.0.valid(cfg),
            c.1.valid(cfg),
        ensures
            r == decrypt_spec(self.0.value(), c.0, c.1, cfg),
            r matches Some(m) ==> m.valid(cfg),
    {
        let (c1, c2) = c;
        match try_exp::<ops::Add, P, I>(c1, self.0, cfg) {
            Some(shared) => P::try_op(c2, shared.inv(cfg), cfg),
            None => None,
        }
    }
}

impl<I: RW> PrivateKey<I> {
    /// The bytes of the scalar, as base64.
    pub fn base64(self) -> (s: String)
        requires
            base64_fits(I::len_spec()),
        ensures
            s@ == base64_text(self.0.bytes_spec()),
    {
        self.0.to_base64()
    }

    /// The key whose scalar the base64 text holds.
    pub fn from_base64(base64: &str) -> (r: Result<Self, TransportError>)
        requires
            I::len_spec() <= usize::MAX,
        ensures
            match base64_bytes(base64@) {
                None => r == Err::<Self, TransportError>(TransportError::Encoding),
                Some(b) => if b.len() < I::len_spec() {
                    r == Err::<Self, TransportError>(TransportError::Length)
                } else {
                    r matches Ok(key) && key.0 == I::from_bytes_spec(
                        b.subrange(0, I::len_spec() as int),
                    )
                },
            },
    {
        match I::from_base64(base64) {
            Ok(scalar) => Ok(PrivateKey(scalar)),
            Err(e) => Err(e),
        }
    }
}

/// In an abelian group decryption undoes encryption: with the key pair of
/// any scalar `pri >= 1` and any ephemeral scalar `t >= 1`, what is
/// decrypted from the ciphertext of `msg` is `msg`.
pub proof fn lemma_decrypt_encrypt<P: AbelianGroup<ops::Add>>(
    pri: nat,
    t: nat,
    msg: P,
    cfg: &P::Cfg,
) where P::Cfg: InitialPoint<P>
    requires
        P::cfg_ok(cfg),
        cfg.g_spec().valid(cfg),
        msg.valid(cfg),
        pri >= 1,
        t >= 1,
    ensures
        public_of::<P>(pri, cfg) is Some,
        encrypt_spec(public_of::<P>(pri, cfg).unwrap(), msg, t, cfg) is Some,
        ({
            let c = encrypt_spec(public_of::<P>(pri, cfg).unwrap(), msg, t, cfg).unwrap();
            decrypt_spec(pri, c.0, c.1, cfg) == Some(msg)
        }),
{
    let g = cfg.g_spec();
    lemma_exp_defined_in_monoid::<ops::Add, P>(g, pri, cfg);
    lemma_exp_defined_in_monoid::<ops::Add, P>(g, t, cfg);
    let key = exp_spec::<ops::Add, P>(g, pri, cfg);
    let c1 = exp_spec::<ops::Add, P>(g, t, cfg);
    lemma_exp_defined_in_monoid::<ops::Add, P>(key, t, cfg);
    lemma_exp_defined_in_monoid::<ops::Add, P>(c1, pri, cfg);
    let shared = exp_spec::<ops::Add, P>(key, t, cfg);
    lemma_exp_exchanges::<ops::Add, P>(g, pri, t, cfg);
    assert(exp_spec::<ops::Add, P>(c1, pri, cfg) == shared);
    P::lemma_total(shared, msg, cfg);
    P::lemma_op_valid(shared, msg, cfg);
    let c2 = P::op_spec(shared, msg, cfg);
    shared.lemma_inv_valid(cfg);
    P::lemma_total(c2, shared.inv_spec(cfg), cfg);
    lemma_group_cancel::<ops::Add, P>(shared, msg, cfg);
}

} // verus!
