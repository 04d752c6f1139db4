//! Text as curve points: chunks of bytes embedded in `x` coordinates,
//! read back up to the first zero byte, and the ciphertext as base64.

use crate::algebra::ops;
use crate::algebra::{Configurable, DiscreteRoot, Field};
use crate::base_traits::{
    base64_bytes, base64_decode, base64_encode, base64_fits, base64_text, Capacitor, FromRandom,
    Natural, RandomSource, TransportError, RW,
};
use crate::ecc::{decrypt_spec, encrypt_spec, PrivateKey, PublicKey};
use crate::points_group::{curve_ok, lift_x, Point, PointCfg};
use vstd::arithmetic::div_mod::*;
use vstd::arithmetic::mul::*;
use vstd::prelude::*;
use vstd::slice::slice_subrange;
use vstd::string::StringSliceAdditionalSpecFns;
use vstd::utf8::{encode_utf8, encode_utf8_decode_utf8, encode_utf8_valid_utf8, valid_utf8};

verus! {

/// How many bytes of text one point carries: the lesser of the field's
/// capacity and one less than its encoded length, less one byte that is
/// kept for the search.
pub open spec fn chunk_len_spec<F: RW + Capacitor>(cf: &F::Cfg) -> int {
    if F::capacity_spec(cf) <= F::len_spec() - 1 {
        F::capacity_spec(cf) - 1
    } else {
        F::len_spec() - 2
    }
}

/// Computes `chunk_len_spec`, as far as it is not negative.
pub fn chunk_len<F: RW + Capacitor>(cf: &F::Cfg) -> (r: usize)
    requires
        F::cfg_ok(cf),
        F::len_spec() <= usize::MAX,
    ensures
        r == (if chunk_len_spec::<F>(cf) >= 0 {
            chunk_len_spec::<F>(cf)
        } else {
            0
        }),
{
    proof {
        F::lemma_len();
    }
    let capacity = F::capacity(cf);
    let room = F::LEN - 1;
    let least = if capacity <= room {
        capacity
    } else {
        room
    };
    if least == 0 {
        0
    } else {
        least - 1
    }
}

/// What is handed to the field for a chunk: the chunk in the low-order
/// bytes, the counter `k` in the byte at `cap`, zero elsewhere.
pub open spec fn candidate(chunk: Seq<u8>, cap: nat, len: nat, k: u8) -> Seq<u8> {
    Seq::new(
        len,
        |i: int|
            if i < chunk.len() {
                chunk[i]
            } else if i == cap {
                k
            } else {
                0u8
            },
    )
}

/// The point over the field element read from the candidate with counter
/// `k`, where that element is valid and lifts to the curve.
pub open spec fn lift_candidate<F: Field + RW + DiscreteRoot<ops::Mul>>(
    chunk: Seq<u8>,
    cap: nat,
    k: u8,
    cfg: &PointCfg<F>,
) -> Option<Point<F>> {
    let x = F::from_bytes_spec(candidate(chunk, cap, F::len_spec(), k));
    if x.valid(&cfg.cf) {
        lift_x(x, cfg)
    } else {
        None
    }
}

/// The first liftable candidate with a counter from `k` up to 255.
pub open spec fn embed_from<F: Field + RW + DiscreteRoot<ops::Mul>>(
    chunk: Seq<u8>,
    cap: nat,
    k: nat,
    cfg: &PointCfg<F>,
) -> Option<Point<F>>
    decreases 256 - k,
{
    if k >= 256 {
        None
    } else {
        match lift_candidate(chunk, cap, k as u8, cfg) {
            Some(p) => Some(p),
            None => embed_from(chunk, cap, k + 1, cfg),
        }
    }
}

/// The point that stands for a chunk: that of the least counter whose
/// candidate lifts to the curve. `None` where none of the 256 does.
pub open spec fn embed<F: Field + RW + DiscreteRoot<ops::Mul>>(
    chunk: Seq<u8>,
    cap: nat,
    cfg: &PointCfg<F>,
) -> Option<Point<F>> {
    embed_from(chunk, cap, 0, cfg)
}

/// Searches the point of a chunk, counting the byte at `cap` upward from
/// zero until the field element lifts to the curve.
pub fn bytes_to_point<F: Field + RW + DiscreteRoot<ops::Mul>>(
    bytes: &[u8],
    cfg: &PointCfg<F>,
    cap: usize,
) -> (r: Option<Point<F>>)
    requires
        curve_ok(cfg),
        F::root_cfg_ok(&cfg.cf),
        F::len_spec() <= usize::MAX,
        bytes@.len() <= cap < F::len_spec(),
    ensures
        r == embed::<F>(bytes@, cap as nat, cfg),
        r matches Some(p) ==> p.valid(cfg),
{
    proof {
        F::lemma_len();
    }
    let len = F::LEN;
    let mut quintuple: Vec<u8> = Vec::new();
    let mut i: usize = 0;
    while i < len
        invariant
            i <= len,
            bytes@.len() <= cap < len,
            quintuple@.len() == i,
            forall|j: int|
                0 <= j < i ==> quintuple@[j] == candidate(bytes@, cap as nat, len as nat, 0)[j],
        decreases len - i,
    {
        if i < bytes.len() {
            quintuple.push(bytes[i]);
        } else {
            quintuple.push(0);
        }
        i = i + 1;
    }
    let mut k: u8 = 0;
    assert(quintuple@ =~= candidate(bytes@, cap as nat, len as nat, 0));
    loop
        invariant
            curve_ok(cfg),
            F::root_cfg_ok(&cfg.cf),
            len == F::len_spec(),
            bytes@.len() <= cap < len,
            quintuple@ == candidate(bytes@, cap as nat, len as nat, k),
            embed::<F>(bytes@, cap as nat, cfg) == embed_from::<F>(
                bytes@,
                cap as nat,
                k as nat,
                cfg,
            ),
        decreases 255 - k,
    {
        let x = F::from_bytes(quintuple.as_slice());
        proof {
            assert(quintuple@.subrange(0, len as int) =~= quintuple@);
        }
        match Point::try_from_x(x, cfg) {
            Some(point) => {
                return Some(point);
            },
            None => {},
        }
        if k == 255 {
            proof {
                assert(embed_from::<F>(bytes@, cap as nat, 256, cfg) is None);
            }
            return None;
        }
        k = k + 1;
        quintuple.set(cap, k);
        proof {
            assert(quintuple@ =~= candidate(bytes@, cap as nat, len as nat, k));
        }
    }
}

/// The number of chunks of `eff` bytes that `len` bytes fall into, the
/// last of which may be shorter.
pub open spec fn chunk_count(len: nat, eff: nat) -> nat {
    if len % eff == 0 {
        len / eff
    } else {
        len / eff + 1
    }
}

/// The `i`-th chunk of `eff` bytes.
pub open spec fn chunk(bytes: Seq<u8>, eff: nat, i: int) -> Seq<u8> {
    bytes.subrange(
        i * eff,
        if (i + 1) * eff <= bytes.len() {
            (i + 1) * eff
        } else {
            bytes.len() as int
        },
    )
}

/// The points of the chunks of `bytes`, in order, where every chunk has
/// one.
pub open spec fn points_of_bytes<F: Field + RW + DiscreteRoot<ops::Mul> + Capacitor>(
    bytes: Seq<u8>,
    cfg: &PointCfg<F>,
) -> Option<Seq<Point<F>>> {
    let eff = chunk_len_spec::<F>(&cfg.cf) as nat;
    let n = chunk_count(bytes.len(), eff);
    if forall|i: int|
        0 <= i < n ==> (#[trigger] embed::<F>(chunk(bytes, eff, i), eff, cfg)) is Some {
        Some(Seq::new(n, |i: int| embed::<F>(chunk(bytes, eff, i), eff, cfg).unwrap()))
    } else {
        None
    }
}

/// Splits the text into chunks and gives the point of each; `None` where
/// some chunk has no point.
pub fn text_to_points<F: Field + RW + DiscreteRoot<ops::Mul> + Capacitor, I: Natural>(
    text: &str,
    cfg: &PointCfg<F>,
) -> (r: Option<Vec<Point<F>>>)
    requires
        curve_ok(cfg),
        F::root_cfg_ok(&cfg.cf),
        F::len_spec() <= usize::MAX,
        chunk_len_spec::<F>(&cfg.cf) > 1,
    ensures
        match points_of_bytes::<F>(text.spec_bytes(), cfg) {
            Some(points) => r matches Some(v) && v@ == points,
            None => r is None,
        },
        r matches Some(v) ==> forall|i: int| 0 <= i < v@.len() ==> (#[trigger] v@[i]).valid(cfg),
{
    let bytes = text.as_bytes();
    let eff = chunk_len::<F>(&cfg.cf);
    let len = bytes.len();
    let ghost n = chunk_count(len as nat, eff as nat);
    let mut res: Vec<Point<F>> = Vec::new();
    let mut start: usize = 0;
    proof {
        lemma_fundamental_div_mod(len as int, eff as int);
        assert(0 * eff == 0);
    }
    while len - start >= eff
        invariant
            curve_ok(cfg),
            F::root_cfg_ok(&cfg.cf),
            F::len_spec() <= usize::MAX,
            eff == chunk_len_spec::<F>(&cfg.cf),
            eff > 1,
            len == bytes@.len(),
            bytes@ == text.spec_bytes(),
            start <= len,
            start == res@.len() * eff,
            forall|i: int|
                0 <= i < res@.len() ==> embed::<F>(chunk(bytes@, eff as nat, i), eff as nat, cfg)
                    == Some(#[trigger] res@[i]),
            forall|i: int| 0 <= i < res@.len() ==> (#[trigger] res@[i]).valid(cfg),
        decreases len - start,
    {
        let ghost i = res@.len() as int;
        proof {
            assert((i + 1) * eff == i * eff + eff) by (nonlinear_arith);
            lemma_chunk_index(len as nat, eff as nat, i);
        }
        let piece = slice_subrange(bytes, start, start + eff);
        assert(piece@ == chunk(bytes@, eff as nat, i));
        match bytes_to_point::<F>(piece, cfg, eff) {
            Some(point) => {
                res.push(point);
            },
            None => {
                proof {
                    assert(embed::<F>(chunk(bytes@, eff as nat, i), eff as nat, cfg) is None);
                    assert(points_of_bytes::<F>(bytes@, cfg) is None);
                }
                return None;
            },
        }
        start = start + eff;
    }
    if start < len {
        let ghost i = res@.len() as int;
        proof {
            assert((i + 1) * eff == i * eff + eff) by (nonlinear_arith);
            lemma_fundamental_div_mod_converse(len as int, eff as int, i, len - start);
            lemma_chunk_index(len as nat, eff as nat, i);
        }
        let piece = slice_subrange(bytes, start, len);
        assert(piece@ == chunk(bytes@, eff as nat, i));
        match bytes_to_point::<F>(piece, cfg, eff) {
            Some(point) => {
                res.push(point);
            },
            None => {
                proof {
                    assert(embed::<F>(chunk(bytes@, eff as nat, i), eff as nat, cfg) is None);
                    assert(points_of_bytes::<F>(bytes@, cfg) is None);
                }
                return None;
            },
        }
    } else {
        proof {
            let i = res@.len() as int;
            lemma_fundamental_div_mod_converse(len as int, eff as int, i, 0);
        }
    }
    proof {
        assert(res@.len() == n);
        assert forall|i: int| 0 <= i < n implies (#[trigger] embed::<F>(
            chunk(bytes@, eff as nat, i),
            eff as nat,
            cfg,
        )) is Some by {
            assert(embed::<F>(chunk(bytes@, eff as nat, i), eff as nat, cfg) == Some(res@[i]));
        }
        assert(res@ =~= Seq::new(
            n,
            |i: int| embed::<F>(chunk(bytes@, eff as nat, i), eff as nat, cfg).unwrap(),
        ));
        assert(points_of_bytes::<F>(bytes@, cfg) == Some(res@));
    }
    Some(res)
}

/// The chunk with index `i` exists where `i * eff` lies before the end.
pub proof fn lemma_chunk_index(len: nat, eff: nat, i: int)
    requires
        eff > 0,
        0 <= i,
        i * eff < len,
    ensures
        i < chunk_count(len, eff),
{
    lemma_fundamental_div_mod(len as int, eff as int);
    let q = (len / eff) as int;
    if i > q {
        lemma_mul_inequality(q + 1, i, eff as int);
        assert((q + 1) * eff == q * eff + eff) by (nonlinear_arith);
        lemma_mul_is_commutative(q, eff as int);
    } else if i == q {
        lemma_mul_is_commutative(q, eff as int);
        assert(len % eff != 0);
    }
}

/// The bytes of `s` before its first zero byte.
pub open spec fn until_zero(s: Seq<u8>) -> Seq<u8>
    decreases s.len(),
{
    if s.len() == 0 || s[0] == 0 {
        Seq::empty()
    } else {
        seq![s[0]] + until_zero(s.subrange(1, s.len() as int))
    }
}

/// A prefix without a zero byte that ends at a zero byte, or at the end, is
/// what `until_zero` gives.
pub proof fn lemma_until_zero(s: Seq<u8>, v: int)
    requires
        0 <= v <= s.len(),
        forall|j: int| 0 <= j < v ==> s[j] != 0,
        v == s.len() || s[v] == 0,
    ensures
        until_zero(s) == s.subrange(0, v),
    decreases v,
{
    if v == 0 {
        assert(s.subrange(0, 0) =~= Seq::<u8>::empty());
    } else {
        let rest = s.subrange(1, s.len() as int);
        lemma_until_zero(rest, v - 1);
        assert(seq![s[0]] + rest.subrange(0, v - 1) =~= s.subrange(0, v));
    }
}

/// The text that one point carries: the first `cap` bytes of its `x`, up
/// to the first zero byte.
pub open spec fn point_text<F: RW>(p: Point<F>, cap: nat) -> Seq<u8> {
    let b = p.x.bytes_spec();
    until_zero(
        b.subrange(
            0,
            if b.len() <= cap {
                b.len() as int
            } else {
                cap as int
            },
        ),
    )
}

/// The text that the points carry, one after the other.
pub open spec fn text_of_points<F: RW>(points: Seq<Point<F>>, cap: nat) -> Seq<u8>
    decreases points.len(),
{
    if points.len() == 0 {
        Seq::empty()
    } else {
        text_of_points(points.drop_last(), cap) + point_text(points.last(), cap)
    }
}

/// The error with which `String::from_utf8` rejects bytes.
#[verifier::external_type_specification]
#[verifier::external_body]
pub struct ExFromUtf8Error(std::string::FromUtf8Error);

/// `String::from_utf8`: the string whose UTF-8 encoding the bytes are, and
/// an error where they are not valid UTF-8.
#[verifier::external_body]
pub(crate) fn string_from_utf8(bytes: Vec<u8>) -> (r: Result<String, std::string::FromUtf8Error>)
    ensures
        r is Ok <==> valid_utf8(bytes@),
        r matches Ok(s) ==> encode_utf8(s@) == bytes@,
{
    String::from_utf8(bytes)
}

/// Collects the text bytes that the points carry.
pub fn points_to_bytes<F: RW + Field>(points: &[Point<F>], cap: usize) -> (bytes: Vec<u8>)
    ensures
        bytes@ == text_of_points(points@, cap as nat),
{
    let mut bytes: Vec<u8> = Vec::new();
    let mut buf: Vec<u8> = Vec::new();
    let mut idx: usize = 0;
    assert(points@.subrange(0, 0) =~= Seq::<Point<F>>::empty());
    while idx < points.len()
        invariant
            idx <= points@.len(),
            bytes@ == text_of_points(points@.subrange(0, idx as int), cap as nat),
        decreases points@.len() - idx,
    {
        let point = points[idx];
        buf.clear();
        let b = point.x().to_bytes(&mut buf);
        let limit = if b <= cap {
            b
        } else {
            cap
        };
        let ghost before = bytes@;
        let ghost window = buf@.subrange(0, limit as int);
        proof {
            point.x.lemma_bytes();
            assert(buf@ =~= point.x.bytes_spec());
            assert(bytes@ =~= before + window.subrange(0, 0));
        }
        let mut v: usize = 0;
        while v < limit && buf[v] != 0
            invariant
                v <= limit <= buf@.len(),
                window == buf@.subrange(0, limit as int),
                bytes@ == before + window.subrange(0, v as int),
                forall|j: int| 0 <= j < v ==> window[j] != 0,
            decreases limit - v,
        {
            bytes.push(buf[v]);
            proof {
                assert(window.subrange(0, v + 1) =~= window.subrange(0, v as int).push(
                    buf@[v as int],
                ));
                assert(bytes@ =~= before + window.subrange(0, v + 1));
            }
            v = v + 1;
        }
        proof {
            lemma_until_zero(window, v as int);
            let done = points@.subrange(0, idx + 1);
            assert(done.drop_last() =~= points@.subrange(0, idx as int));
            assert(done.last() == point);
        }
        idx = idx + 1;
    }
    assert(points@.subrange(0, points@.len() as int) =~= points@);
    bytes
}

/// The text that the points carry; `None` where their bytes are not UTF-8.
/// A zero byte ends the text of a point, so text with a zero byte in it
/// does not come back whole.
pub fn points_to_text<F: RW + Field>(points: &[Point<F>], cap: usize) -> (r: Option<String>)
    ensures
        r is Some <==> valid_utf8(text_of_points(points@, cap as nat)),
        r matches Some(s) ==> encode_utf8(s@) == text_of_points(points@, cap as nat),
{
    match string_from_utf8(points_to_bytes(points, cap)) {
        Ok(text) => Some(text),
        Err(_) => None,
    }
}

/// The encodings of the points, one after the other.
pub open spec fn flatten_points<F: RW + Field>(points: Seq<Point<F>>) -> Seq<u8>
    decreases points.len(),
{
    if points.len() == 0 {
        Seq::empty()
    } else {
        flatten_points(points.drop_last()) + points.last().bytes_spec()
    }
}

/// The encodings of `n` points take `n` times the length of one.
pub proof fn lemma_flatten_len<F: RW + Field>(points: Seq<Point<F>>)
    ensures
        flatten_points(points).len() == points.len() * Point::<F>::len_spec(),
    decreases points.len(),
{
    if points.len() > 0 {
        lemma_flatten_len(points.drop_last());
        points.last().lemma_bytes();
        assert((points.len() - 1) * Point::<F>::len_spec() + Point::<F>::len_spec() == points.len()
            * Point::<F>::len_spec()) by (nonlinear_arith);
    } else {
        assert(0 * Point::<F>::len_spec() == 0);
    }
}

/// The encodings of the points, one after the other, as base64.
pub fn points_to_base64<F: RW + Field>(points: &[Point<F>]) -> (s: String)
    requires
        base64_fits(points@.len() * Point::<F>::len_spec()),
    ensures
        s@ == base64_text(flatten_points(points@)),
{
    let mut v: Vec<u8> = Vec::new();
    let mut idx: usize = 0;
    assert(points@.subrange(0, 0) =~= Seq::<Point<F>>::empty());
    while idx < points.len()
        invariant
            idx <= points@.len(),
            v@ == flatten_points(points@.subrange(0, idx as int)),
        decreases points@.len() - idx,
    {
        let ghost before = v@;
        points[idx].to_bytes(&mut v);
        proof {
            let done = points@.subrange(0, idx + 1);
            assert(done.drop_last() =~= points@.subrange(0, idx as int));
            assert(done.last() == points@[idx as int]);
        }
        idx = idx + 1;
    }
    proof {
        assert(points@.subrange(0, points@.len() as int) =~= points@);
        lemma_flatten_len(points@);
    }
    base64_encode(v.as_slice())
}

/// The points that the bytes hold, where the bytes are a whole number of
/// point encodings.
pub open spec fn points_in_bytes<F: RW + Field>(bytes: Seq<u8>) -> Option<Seq<Point<F>>> {
    let width = Point::<F>::len_spec();
    if bytes.len() % width != 0 {
        None
    } else {
        Some(
            Seq::new(
                bytes.len() / width,
                |i: int| Point::<F>::from_bytes_spec(bytes.subrange(i * width, (i + 1) * width)),
            ),
        )
    }
}

/// Reads the points that the bytes hold. The points are not checked
/// against any curve.
pub fn points_from_bytes<F: RW + Field>(bytes: &[u8]) -> (r: Result<Vec<Point<F>>, TransportError>)
    requires
        Point::<F>::len_spec() <= usize::MAX,
    ensures
        match points_in_bytes::<F>(bytes@) {
            Some(points) => r matches Ok(v) && v@ == points,
            None => r == Err::<Vec<Point<F>>, TransportError>(TransportError::Length),
        },
{
    proof {
        Point::<F>::lemma_len();
    }
    let width = Point::<F>::LEN;
    let len = bytes.len();
    if len % width != 0 {
        return Err(TransportError::Length);
    }
    let mut res: Vec<Point<F>> = Vec::new();
    let mut at: usize = 0;
    proof {
        lemma_fundamental_div_mod(len as int, width as int);
        assert(0 * width == 0);
    }
    while at < len
        invariant
            width == Point::<F>::len_spec(),
            width > 0,
            len == bytes@.len(),
            len % width == 0,
            at <= len,
            at == res@.len() * width,
            at % width == 0,
            forall|i: int|
                0 <= i < res@.len() ==> #[trigger] res@[i] == Point::<F>::from_bytes_spec(
                    bytes@.subrange(i * width, (i + 1) * width),
                ),
        decreases len - at,
    {
        let ghost i = res@.len() as int;
        proof {
            assert((i + 1) * width == i * width + width) by (nonlinear_arith);
            lemma_fundamental_div_mod(len as int, width as int);
            lemma_fundamental_div_mod(at as int, width as int);
            let q = (len / width) as int;
            let qa = (at / width) as int;
            assert(width * qa < width * q);
            if qa >= q {
                lemma_mul_inequality(q, qa, width as int);
                lemma_mul_is_commutative(q, width as int);
                lemma_mul_is_commutative(qa, width as int);
            }
            assert(width * (qa + 1) == width * qa + width) by (nonlinear_arith);
            lemma_mul_inequality(qa + 1, q, width as int);
            lemma_mul_is_commutative(q, width as int);
            lemma_mul_is_commutative(qa + 1, width as int);
            assert(at + width <= len);
            lemma_mod_adds(at as int, width as int, width as int);
            lemma_mod_self_0(width as int);
        }
        let rest = slice_subrange(bytes, at, len);
        let point = Point::<F>::from_bytes(rest);
        proof {
            assert(rest@.subrange(0, width as int) =~= bytes@.subrange(i * width, (i + 1) * width));
        }
        res.push(point);
        at = at + width;
    }
    proof {
        let n = res@.len() as int;
        lemma_fundamental_div_mod_converse(len as int, width as int, n, 0);
        assert(res@ =~= points_in_bytes::<F>(bytes@).unwrap());
    }
    Ok(res)
}

/// Decodes base64 and reads the points that the bytes hold.
pub fn base64_to_points<F: RW + Field>(base64: &str) -> (r: Result<Vec<Point<F>>, TransportError>)
    requires
        Point::<F>::len_spec() <= usize::MAX,
    ensures
        match base64_bytes(base64@) {
            None => r == Err::<Vec<Point<F>>, TransportError>(TransportError::Encoding),
            Some(bytes) => match points_in_bytes::<F>(bytes) {
                Some(points) => r matches Ok(v) && v@ == points,
                None => r == Err::<Vec<Point<F>>, TransportError>(TransportError::Length),
            },
        },
{
    match base64_decode(base64) {
        Err(_) => Err(TransportError::Encoding),
        Ok(bytes) => points_from_bytes::<F>(bytes.as_slice()),
    }
}

/// The ciphertext of the first `n` points under the key, each with its own
/// scalar: the two points of each pair, pair after pair. `None` where the
/// encryption of one of them is not defined.
pub open spec fn ciphertext_of<F: Field>(
    key: Point<F>,
    points: Seq<Point<F>>,
    scalars: Seq<nat>,
    n: nat,
    cfg: &PointCfg<F>,
) -> Option<Seq<Point<F>>>
    decreases n,
{
    if n == 0 {
        Some(Seq::empty())
    } else {
        match (
            ciphertext_of(key, points, scalars, (n - 1) as nat, cfg),
            encrypt_spec(key, points[n - 1], scalars[n - 1], cfg),
        ) {
            (Some(before), Some(pair)) => Some(before.push(pair.0).push(pair.1)),
            _ => None,
        }
    }
}

/// Encrypts each point with the scalar of the same index.
pub fn encrypt_points<F: Field, I: Natural>(
    key: PublicKey<Point<F>>,
    points: &[Point<F>],
    scalars: &[I],
    cfg: &PointCfg<F>,
) -> (r: Option<Vec<Point<F>>>)
    requires
        Point::<F>::cfg_ok(cfg),
        key.0.valid(cfg),
        points@.len() == scalars@.len(),
        forall|i: int| 0 <= i < points@.len() ==> (#[trigger] points@[i]).valid(cfg),
    ensures
        match ciphertext_of(
            key.0,
            points@,
            Seq::new(scalars@.len(), |i: int| scalars@[i].value()),
            points@.len(),
            cfg,
        ) {
            Some(ciphertext) => r matches Some(v) && v@ == ciphertext,
            None => r is None,
        },
        r matches Some(v) ==> v@.len() == 2 * points@.len(),
{
    let ghost values = Seq::new(scalars@.len(), |i: int| scalars@[i].value());
    let mut res: Vec<Point<F>> = Vec::new();
    let mut idx: usize = 0;
    while idx < points.len()
        invariant
            Point::<F>::cfg_ok(cfg),
            key.0.valid(cfg),
            points@.len() == scalars@.len(),
            forall|i: int| 0 <= i < points@.len() ==> (#[trigger] points@[i]).valid(cfg),
            values == Seq::new(scalars@.len(), |i: int| scalars@[i].value()),
            idx <= points@.len(),
            res@.len() == 2 * idx,
            ciphertext_of(key.0, points@, values, idx as nat, cfg) == Some(res@),
        decreases points@.len() - idx,
    {
        proof {
            assert(points@[idx as int].valid(cfg));
        }
        match key.encrypt_with::<I>(points[idx], scalars[idx], cfg) {
            Some(pair) => {
                res.push(pair.0);
                res.push(pair.1);
            },
            None => {
                proof {
                    lemma_ciphertext_fails(
                        key.0,
                        points@,
                        values,
                        idx as nat,
                        points@.len(),
                        cfg,
                    );
                }
                return None;
            },
        }
        idx = idx + 1;
    }
    Some(res)
}

/// Once the encryption of one point is undefined, no longer ciphertext is
/// defined.
pub proof fn lemma_ciphertext_fails<F: Field>(
    key: Point<F>,
    points: Seq<Point<F>>,
    scalars: Seq<nat>,
    i: nat,
    n: nat,
    cfg: &PointCfg<F>,
)
    requires
        i < n,
        encrypt_spec(key, points[i as int], scalars[i as int], cfg) is None,
    ensures
        ciphertext_of(key, points, scalars, n, cfg) is None,
    decreases n,
{
    if n > i + 1 {
        lemma_ciphertext_fails(key, points, scalars, i, (n - 1) as nat, cfg);
    }
}

/// The transport text of `bytes` encrypted with the given scalars, one for
/// each chunk.
pub open spec fn message_ciphertext<F: Field + RW + DiscreteRoot<ops::Mul> + Capacitor>(
    key: Point<F>,
    bytes: Seq<u8>,
    scalars: Seq<nat>,
    cfg: &PointCfg<F>,
) -> Option<Seq<char>> {
    match points_of_bytes::<F>(bytes, cfg) {
        None => None,
        Some(points) => match ciphertext_of(key, points, scalars, points.len(), cfg) {
            None => None,
            Some(ciphertext) => if base64_fits(ciphertext.len() * Point::<F>::len_spec()) {
                Some(base64_text(flatten_points(ciphertext)))
            } else {
                None
            },
        },
    }
}

/// Whether the base64 text of `count` items of `width` bytes each has a
/// length that fits in `usize`.
pub fn fits_base64(count: usize, width: usize) -> (r: bool)
    ensures
        r == base64_fits((count * width) as nat),
{
    match count.checked_mul(width) {
        None => {
            proof {
                assert(count * width > usize::MAX);
                assert(((count * width) / 3 + 1) * 4 > usize::MAX);
            }
            false
        },
        Some(total) => {
            let groups = total / 3 + 1;
            groups <= usize::MAX / 4
        },
    }
}

/// Encrypts the points with the scalars and encodes the ciphertext.
pub fn encrypt_and_encode_points<F: Field + RW, I: Natural>(
    key: PublicKey<Point<F>>,
    points: &[Point<F>],
    scalars: &[I],
    cfg: &PointCfg<F>,
) -> (r: Option<String>)
    requires
        Point::<F>::cfg_ok(cfg),
        Point::<F>::len_spec() <= usize::MAX,
        key.0.valid(cfg),
        points@.len() == scalars@.len(),
        forall|i: int| 0 <= i < points@.len() ==> (#[trigger] points@[i]).valid(cfg),
    ensures
        match ciphertext_of(
            key.0,
            points@,
            Seq::new(scalars@.len(), |i: int| scalars@[i].value()),
            points@.len(),
            cfg,
        ) {
            Some(ciphertext) => if base64_fits(ciphertext.len() * Point::<F>::len_spec()) {
                r matches Some(s) && s@ == base64_text(flatten_points(ciphertext))
            } else {
                r is None
            },
            None => r is None,
        },
{
    match encrypt_points::<F, I>(key, points, scalars, cfg) {
        None => None,
        Some(ciphertext) => {
            proof {
                Point::<F>::lemma_len();
            }
            if fits_base64(ciphertext.len(), Point::<F>::LEN) {
                Some(points_to_base64::<F>(ciphertext.as_slice()))
            } else {
                None
            }
        },
    }
}

/// The numbers that the scalars hold.
pub open spec fn values_of<I: Natural>(drawn: Seq<I>) -> Seq<nat> {
    Seq::new(drawn.len(), |i: int| drawn[i].value())
}

/// `r` is what encrypting `bytes` ends with when it draws the scalars
/// `drawn`, in this order: no scalar where the bytes have no points, else
/// one for each point, each a scalar that `I::random` can give, and `r` is
/// the text of the ciphertext under these scalars, absent where that is.
pub open spec fn message_drawn<
    F: Field + RW + DiscreteRoot<ops::Mul> + Capacitor,
    I: FromRandom<()> + Natural,
>(key: Point<F>, bytes: Seq<u8>, drawn: Seq<I>, cfg: &PointCfg<F>, r: Option<String>) -> bool {
    match points_of_bytes::<F>(bytes, cfg) {
        None => drawn.len() == 0 && r is None,
        Some(points) => {
            &&& drawn.len() == points.len()
            &&& forall|i: int| 0 <= i < drawn.len() ==> (#[trigger] drawn[i]).random_ok(&())
            &&& match message_ciphertext::<F>(key, bytes, values_of(drawn), cfg) {
                Some(text) => r matches Some(s) && s@ == text,
                None => r is None,
            }
        },
    }
}

/// Turns the text into points, encrypts each with a scalar that it draws,
/// and encodes the ciphertext. `None` where the text has a chunk without a
/// point, an encryption is not defined, or the result would be too long.
/// Whatever is drawn, the result is the text of the ciphertext under the
/// scalars drawn, one for each point.
pub fn encrypt_message_and_encode<
    F: Field + RW + DiscreteRoot<ops::Mul> + Capacitor,
    I: FromRandom<()> + Natural,
    R: RandomSource,
>(key: PublicKey<Point<F>>, msg: &str, rng: &mut R, cfg: &PointCfg<F>) -> (r: Option<String>)
    requires
        Point::<F>::cfg_ok(cfg),
        F::root_cfg_ok(&cfg.cf),
        Point::<F>::len_spec() <= usize::MAX,
        chunk_len_spec::<F>(&cfg.cf) > 1,
        key.0.valid(cfg),
        <I as FromRandom<()>>::random_cfg_ok(&()),
    ensures
        exists|drawn: Seq<I>| #[trigger]
            message_drawn::<F, I>(key.0, msg.spec_bytes(), drawn, cfg, r),
        points_of_bytes::<F>(msg.spec_bytes(), cfg) is None ==> r is None,
        r matches Some(s) ==> exists|scalars: Seq<nat>| #[trigger]
            message_ciphertext::<F>(key.0, msg.spec_bytes(), scalars, cfg) == Some(s@),
{
    let points = match text_to_points::<F, I>(msg, cfg) {
        Some(points) => points,
        None => {
            proof {
                assert(message_drawn::<F, I>(
                    key.0,
                    msg.spec_bytes(),
                    Seq::<I>::empty(),
                    cfg,
                    None,
                ));
            }
            return None;
        },
    };
    let mut scalars: Vec<I> = Vec::new();
    while scalars.len() < points.len()
        invariant
            <I as FromRandom<()>>::random_cfg_ok(&()),
            scalars@.len() <= points@.len(),
            forall|i: int| 0 <= i < scalars@.len() ==> (#[trigger] scalars@[i]).random_ok(&()),
        decreases points@.len() - scalars@.len(),
    {
        scalars.push(I::random(rng, &()));
    }
    let r = encrypt_and_encode_points::<F, I>(key, points.as_slice(), scalars.as_slice(), cfg);
    proof {
        let values = Seq::new(scalars@.len(), |i: int| scalars@[i].value());
        assert(values_of(scalars@) =~= values);
        assert(message_drawn::<F, I>(key.0, msg.spec_bytes(), scalars@, cfg, r));
        if r is Some {
            assert(message_ciphertext::<F>(key.0, msg.spec_bytes(), values, cfg) == Some(
                r.unwrap()@,
            ));
        }
    }
    r
}

/// What the scalar recovers from the first `n` pairs of the ciphertext:
/// the plaintext points, or the first failure. A point off the curve fails
/// as `Point`, a decryption that is not defined as `Undefined`.
pub open spec fn plain_points<F: Field>(
    pri: nat,
    ciphertext: Seq<Point<F>>,
    n: nat,
    cfg: &PointCfg<F>,
) -> Result<Seq<Point<F>>, TransportError>
    decreases n,
{
    if n == 0 {
        Ok(Seq::empty())
    } else {
        match plain_points(pri, ciphertext, (n - 1) as nat, cfg) {
            Err(e) => Err(e),
            Ok(before) => {
                let c1 = ciphertext[2 * (n - 1)];
                let c2 = ciphertext[2 * (n - 1) + 1];
                if !c1.valid(cfg) || !c2.valid(cfg) {
                    Err(TransportError::Point)
                } else {
                    match decrypt_spec(pri, c1, c2, cfg) {
                        None => Err(TransportError::Undefined),
                        Some(m) => Ok(before.push(m)),
                    }
                }
            },
        }
    }
}

/// What the scalar recovers from the whole ciphertext, which must consist
/// of pairs.
pub open spec fn plain_of<F: Field>(
    pri: nat,
    ciphertext: Seq<Point<F>>,
    cfg: &PointCfg<F>,
) -> Result<Seq<Point<F>>, TransportError> {
    if ciphertext.len() % 2 != 0 {
        Err(TransportError::Pairing)
    } else {
        plain_points(pri, ciphertext, ciphertext.len() / 2, cfg)
    }
}

/// Once a pair has failed, the failure stays whatever follows.
pub proof fn lemma_plain_points_fails<F: Field>(
    pri: nat,
    ciphertext: Seq<Point<F>>,
    i: nat,
    n: nat,
    cfg: &PointCfg<F>,
)
    requires
        i <= n,
        plain_points(pri, ciphertext, i, cfg) is Err,
    ensures
        plain_points(pri, ciphertext, n, cfg) == plain_points(pri, ciphertext, i, cfg),
    decreases n,
{
    if n > i {
        lemma_plain_points_fails(pri, ciphertext, i, (n - 1) as nat, cfg);
    }
}

/// Checks each point of the ciphertext against the curve and decrypts pair
/// after pair.
pub fn decrypt_points<IP: Natural, F: Field>(
    key: PrivateKey<IP>,
    ciphertext: &[Point<F>],
    cfg: &PointCfg<F>,
) -> (r: Result<Vec<Point<F>>, TransportError>)
    requires
        Point::<F>::cfg_ok(cfg),
    ensures
        match plain_of(key.0.value(), ciphertext@, cfg) {
            Ok(points) => r matches Ok(v) && v@ == points,
            Err(e) => r == Err::<Vec<Point<F>>, TransportError>(e),
        },
{
    let len = ciphertext.len();
    if len % 2 != 0 {
        return Err(TransportError::Pairing);
    }
    let mut res: Vec<Point<F>> = Vec::new();
    let mut at: usize = 0;
    while at < len
        invariant
            Point::<F>::cfg_ok(cfg),
            len == ciphertext@.len(),
            len % 2 == 0,
            at % 2 == 0,
            at <= len,
            plain_points(key.0.value(), ciphertext@, (at / 2) as nat, cfg) == Ok::<
                Seq<Point<F>>,
                TransportError,
            >(res@),
        decreases len - at,
    {
        let c1 = ciphertext[at];
        let c2 = ciphertext[at + 1];
        let ghost done = (at / 2) as nat;
        proof {
            assert((at + 2) / 2 == done + 1);
            assert(2 * ((done + 1) - 1) == at);
        }
        if !c1.validate(cfg) || !c2.validate(cfg) {
            proof {
                assert(plain_points(key.0.value(), ciphertext@, done + 1, cfg) == Err::<
                    Seq<Point<F>>,
                    TransportError,
                >(TransportError::Point));
                lemma_plain_points_fails(
                    key.0.value(),
                    ciphertext@,
                    done + 1,
                    (len / 2) as nat,
                    cfg,
                );
            }
            return Err(TransportError::Point);
        }
        match key.decrypt::<Point<F>>((c1, c2), cfg) {
            Some(m) => {
                res.push(m);
            },
            None => {
                proof {
                    assert(plain_points(key.0.value(), ciphertext@, done + 1, cfg) == Err::<
                        Seq<Point<F>>,
                        TransportError,
                    >(TransportError::Undefined));
                    lemma_plain_points_fails(
                        key.0.value(),
                        ciphertext@,
                        done + 1,
                        (len / 2) as nat,
                        cfg,
                    );
                }
                return Err(TransportError::Undefined);
            },
        }
        at = at + 2;
    }
    Ok(res)
}

/// The text bytes that the scalar recovers from the bytes received, or the
/// first failure on the way.
pub open spec fn plain_bytes<F: Field + RW + Capacitor>(
    pri: nat,
    bytes: Seq<u8>,
    cfg: &PointCfg<F>,
) -> Result<Seq<u8>, TransportError> {
    match points_in_bytes::<F>(bytes) {
        None => Err(TransportError::Length),
        Some(ciphertext) => match plain_of(pri, ciphertext, cfg) {
            Err(e) => Err(e),
            Ok(points) => {
                let text = text_of_points(points, (F::capacity_spec(&cfg.cf) - 1) as nat);
                if valid_utf8(text) {
                    Ok(text)
                } else {
                    Err(TransportError::Text)
                }
            },
        },
    }
}

/// Reads the ciphertext from the bytes, decrypts it and collects the text.
pub fn decrypt_bytes<IP: Natural, F: RW + Field + Capacitor>(
    key: PrivateKey<IP>,
    bytes: &[u8],
    cfg: &PointCfg<F>,
) -> (r: Result<String, TransportError>)
    requires
        Point::<F>::cfg_ok(cfg),
        Point::<F>::len_spec() <= usize::MAX,
        F::capacity_spec(&cfg.cf) >= 1,
    ensures
        match plain_bytes::<F>(key.0.value(), bytes@, cfg) {
            Ok(text) => r matches Ok(s) && encode_utf8(s@) == text,
            Err(e) => r == Err::<String, TransportError>(e),
        },
{
    let ciphertext = match points_from_bytes::<F>(bytes) {
        Ok(ciphertext) => ciphertext,
        Err(e) => {
            return Err(e);
        },
    };
    let points = match decrypt_points::<IP, F>(key, ciphertext.as_slice(), cfg) {
        Ok(points) => points,
        Err(e) => {
            return Err(e);
        },
    };
    match points_to_text::<F>(points.as_slice(), F::capacity(&cfg.cf) - 1) {
        Some(text) => Ok(text),
        None => Err(TransportError::Text),
    }
}

/// Decodes the transport text, decrypts the ciphertext in it and returns
/// the text that it carries.
pub fn decode_message_and_decrypt<IP: Natural, F: RW + Field + Capacitor>(
    key: PrivateKey<IP>,
    msg_base64: &str,
    cfg: &PointCfg<F>,
) -> (r: Result<String, TransportError>)
    requires
        Point::<F>::cfg_ok(cfg),
        Point::<F>::len_spec() <= usize::MAX,
        F::capacity_spec(&cfg.cf) >= 1,
    ensures
        match base64_bytes(msg_base64@) {
            None => r == Err::<String, TransportError>(TransportError::Encoding),
            Some(bytes) => match plain_bytes::<F>(key.0.value(), bytes, cfg) {
                Ok(text) => r matches Ok(s) && encode_utf8(s@) == text,
                Err(e) => r == Err::<String, TransportError>(e),
            },
        },
{
    match base64_decode(msg_base64) {
        Err(_) => Err(TransportError::Encoding),
        Ok(bytes) => decrypt_bytes::<IP, F>(key, bytes.as_slice(), cfg),
    }
}

/// The point that `embed_from` finds has an `x` read from a candidate of
/// the chunk.
pub proof fn lemma_embed_from_candidate<F: Field + RW + DiscreteRoot<ops::Mul>>(
    chunk: Seq<u8>,
    cap: nat,
    k: nat,
    cfg: &PointCfg<F>,
)
    requires
        embed_from::<F>(chunk, cap, k, cfg) is Some,
    ensures
        exists|j: u8|
            embed_from::<F>(chunk, cap, k, cfg).unwrap().x == F::from_bytes_spec(
                #[trigger] candidate(chunk, cap, F::len_spec(), j),
            ),
    decreases 256 - k,
{
    if k < 256 {
        match lift_candidate::<F>(chunk, cap, k as u8, cfg) {
            Some(p) => {
                assert(p.x == F::from_bytes_spec(candidate(chunk, cap, F::len_spec(), k as u8)));
            },
            None => {
                lemma_embed_from_candidate::<F>(chunk, cap, k + 1, cfg);
            },
        }
    }
}

/// The point of a chunk without a zero byte carries that chunk.
pub proof fn lemma_point_carries_chunk<F: Field + RW + DiscreteRoot<ops::Mul>>(
    chunk: Seq<u8>,
    cap: nat,
    cfg: &PointCfg<F>,
)
    requires
        chunk.len() <= cap < F::len_spec(),
        forall|i: int| 0 <= i < chunk.len() ==> chunk[i] != 0,
        embed::<F>(chunk, cap, cfg) is Some,
    ensures
        point_text(embed::<F>(chunk, cap, cfg).unwrap(), cap) == chunk,
{
    let p = embed::<F>(chunk, cap, cfg).unwrap();
    lemma_embed_from_candidate::<F>(chunk, cap, 0, cfg);
    let j = choose|j: u8|
        p.x == F::from_bytes_spec(#[trigger] candidate(chunk, cap, F::len_spec(), j));
    let whole = candidate(chunk, cap, F::len_spec(), j);
    F::lemma_from_bytes(whole);
    assert(p.x.bytes_spec() == whole);
    let window = whole.subrange(0, cap as int);
    lemma_until_zero(window, chunk.len() as int);
    assert(window.subrange(0, chunk.len() as int) =~= chunk);
}

/// Chunk `j` starts before the end, and the chunks together reach it.
pub proof fn lemma_chunk_bounds(len: nat, eff: nat, j: int)
    requires
        eff > 0,
    ensures
        0 <= j < chunk_count(len, eff) ==> j * eff < len,
        chunk_count(len, eff) * eff >= len,
{
    lemma_fundamental_div_mod(len as int, eff as int);
    let q = (len / eff) as int;
    lemma_mul_is_commutative(q, eff as int);
    assert((q + 1) * eff == q * eff + eff) by (nonlinear_arith);
    lemma_mod_bound(len as int, eff as int);
    if 0 <= j < chunk_count(len, eff) {
        if j < q {
            lemma_mul_inequality(j + 1, q, eff as int);
            assert((j + 1) * eff == j * eff + eff) by (nonlinear_arith);
        } else {
            assert(j == q);
        }
    }
}

/// The points of the first `j` chunks carry the text up to the end of
/// chunk `j - 1`.
pub proof fn lemma_text_prefix<F: Field + RW + DiscreteRoot<ops::Mul> + Capacitor>(
    bytes: Seq<u8>,
    cfg: &PointCfg<F>,
    j: nat,
)
    requires
        1 <= chunk_len_spec::<F>(&cfg.cf) < F::len_spec(),
        forall|i: int| 0 <= i < bytes.len() ==> bytes[i] != 0,
        points_of_bytes::<F>(bytes, cfg) is Some,
        j <= chunk_count(bytes.len(), chunk_len_spec::<F>(&cfg.cf) as nat),
    ensures
        text_of_points(
            points_of_bytes::<F>(bytes, cfg).unwrap().subrange(0, j as int),
            chunk_len_spec::<F>(&cfg.cf) as nat,
        ) == bytes.subrange(
            0,
            if j * chunk_len_spec::<F>(&cfg.cf) <= bytes.len() {
                j * chunk_len_spec::<F>(&cfg.cf)
            } else {
                bytes.len() as int
            },
        ),
    decreases j,
{
    let eff = chunk_len_spec::<F>(&cfg.cf) as nat;
    let points = points_of_bytes::<F>(bytes, cfg).unwrap();
    let n = chunk_count(bytes.len(), eff);
    if j == 0 {
        assert(0 * eff == 0);
        assert(points.subrange(0, 0) =~= Seq::<Point<F>>::empty());
        assert(bytes.subrange(0, 0) =~= Seq::<u8>::empty());
    } else {
        let i = (j - 1) as int;
        lemma_text_prefix::<F>(bytes, cfg, (j - 1) as nat);
        lemma_chunk_bounds(bytes.len(), eff, i);
        assert((i + 1) * eff == i * eff + eff) by (nonlinear_arith);
        let piece = chunk(bytes, eff, i);
        let done = points.subrange(0, j as int);
        assert(done.drop_last() =~= points.subrange(0, i));
        assert(done.last() == embed::<F>(piece, eff, cfg).unwrap());
        assert(embed::<F>(piece, eff, cfg) is Some);
        lemma_point_carries_chunk::<F>(piece, eff, cfg);
        let end = if (i + 1) * eff <= bytes.len() {
            (i + 1) * eff
        } else {
            bytes.len() as int
        };
        assert(bytes.subrange(0, i * eff) + piece =~= bytes.subrange(0, end));
    }
}

/// Text without a zero byte comes back from its points: where the bytes
/// of a text have points, and the field's capacity is below its encoded
/// length, the points carry exactly those bytes when read with the
/// capacity less one.
pub proof fn lemma_text_round_trip<F: Field + RW + DiscreteRoot<ops::Mul> + Capacitor>(
    bytes: Seq<u8>,
    cfg: &PointCfg<F>,
)
    requires
        chunk_len_spec::<F>(&cfg.cf) >= 1,
        F::capacity_spec(&cfg.cf) <= F::len_spec() - 1,
        forall|i: int| 0 <= i < bytes.len() ==> bytes[i] != 0,
        points_of_bytes::<F>(bytes, cfg) is Some,
    ensures
        text_of_points(
            points_of_bytes::<F>(bytes, cfg).unwrap(),
            (F::capacity_spec(&cfg.cf) - 1) as nat,
        ) == bytes,
{
    let eff = chunk_len_spec::<F>(&cfg.cf) as nat;
    let points = points_of_bytes::<F>(bytes, cfg).unwrap();
    let n = chunk_count(bytes.len(), eff);
    lemma_text_prefix::<F>(bytes, cfg, n);
    lemma_chunk_bounds(bytes.len(), eff, 0);
    assert(points.subrange(0, n as int) =~= points);
    assert(bytes.subrange(0, bytes.len() as int) =~= bytes);
}

/// A text whose UTF-8 bytes hold no zero comes back from its points as
/// the same text: the bytes that the points carry are valid UTF-8, and
/// any text with those bytes is the text that went in.
pub proof fn lemma_text_comes_back<F: Field + RW + DiscreteRoot<ops::Mul> + Capacitor>(
    text: Seq<char>,
    cfg: &PointCfg<F>,
)
    requires
        chunk_len_spec::<F>(&cfg.cf) >= 1,
        F::capacity_spec(&cfg.cf) <= F::len_spec() - 1,
        forall|i: int| 0 <= i < encode_utf8(text).len() ==> encode_utf8(text)[i] != 0,
        points_of_bytes::<F>(encode_utf8(text), cfg) is Some,
    ensures
        valid_utf8(
            text_of_points(
                points_of_bytes::<F>(encode_utf8(text), cfg).unwrap(),
                (F::capacity_spec(&cfg.cf) - 1) as nat,
            ),
        ),
        forall|back: Seq<char>|
            #[trigger] encode_utf8(back) == text_of_points(
                points_of_bytes::<F>(encode_utf8(text), cfg).unwrap(),
                (F::capacity_spec(&cfg.cf) - 1) as nat,
            ) ==> back == text,
{
    lemma_text_round_trip::<F>(encode_utf8(text), cfg);
    encode_utf8_valid_utf8(text);
    encode_utf8_decode_utf8(text);
    assert forall|back: Seq<char>| #[trigger] encode_utf8(back) == encode_utf8(text) implies back
        == text by {
        encode_utf8_decode_utf8(back);
    }
}

} // verus!
