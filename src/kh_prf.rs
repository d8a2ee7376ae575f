//! Encryption with a key-homomorphic PRF over Curve25519.
//!
//! This is counter-mode encryption over the group: `E(k, m) = (m_1 + F(k, c),
//! m_2 + F(k, c + 1), ...)` where each 31-byte plaintext block `m_i` is
//! embedded as a curve point and `F(k, n) = 8 * (k * H(n))`. As
//! `F(a, n) + F(b, n) = F(a + b, n)`, adding `F(d, n)` to a block moves it from
//! key `k` to key `k + d` without decrypting it.
//!
//! Scalars are held as their 32-byte little-endian encodings and points as
//! their 32-byte compressed encodings; curve25519-dalek does the arithmetic.
use vstd::prelude::*;

use curve25519_dalek::edwards::{CompressedEdwardsY, EdwardsPoint};
use curve25519_dalek::scalar::Scalar;
use rand::RngCore;

use crate::common::{h, sha256_of};
use crate::common::{lemma_pad_round_trip, pad, padded, remove_padding, unpadded};
use crate::generic::holds_key;
use crate::io::{append_bytes, chunk_at, read_chunk, slice_from};
use crate::{appended, extends, Cipher, Error, ExactCipher, Key, UpEncCtxtIndep};

verus! {

/// Size of a plaintext block: one byte of a point's encoding is reserved.
pub const PT_BLOCK_SIZE: usize = 31;

/// Size of a ciphertext block: one compressed point.
pub const CT_BLOCK_SIZE: usize = 32;

/// The order of the prime-order subgroup of Curve25519, `2^252 +
/// 27742317777372353535851937790883648493`.
pub open spec fn group_order() -> nat {
    vstd::arithmetic::power2::pow2(252) + 27742317777372353535851937790883648493nat
}

/// The number that `bytes` encode, least significant byte first.
pub open spec fn le_nat(bytes: Seq<u8>) -> nat
    decreases bytes.len(),
{
    if bytes.len() == 0 {
        0
    } else {
        bytes[0] as nat + 256 * le_nat(bytes.skip(1))
    }
}


/// Whether `bytes` is the y-coordinate (and sign bit) of a point of the curve,
/// as curve25519-dalek's `CompressedEdwardsY::decompress` decides it.
pub uninterp spec fn is_curve_y(bytes: Seq<u8>) -> bool;

/// The compressed encoding of the sum of the points that `a` and `b` encode.
pub uninterp spec fn ed_sum(a: Seq<u8>, b: Seq<u8>) -> Seq<u8>;

/// The compressed encoding of the difference of the points that `a` and `b`
/// encode.
pub uninterp spec fn ed_difference(a: Seq<u8>, b: Seq<u8>) -> Seq<u8>;

/// The compressed encoding of the point that `p` encodes times the scalar `s`.
pub uninterp spec fn ed_scalar_mul(s: nat, p: Seq<u8>) -> Seq<u8>;

/// The compressed encoding of the point that `p` encodes times the cofactor 8.
pub uninterp spec fn ed_cofactor_mul(p: Seq<u8>) -> Seq<u8>;

/// The compressed encoding of the base point times the scalar `s`.
pub uninterp spec fn ed_base_mul(s: nat) -> Seq<u8>;

/// Whether `m` is the compressed encoding of the point it decompresses to:
/// its y-coordinate is below the field's modulus (the top byte is below 127)
/// and its sign bit is clear, which `decompress` turns into a non-negative x.
pub open spec fn plain_encoding(m: Seq<u8>) -> bool {
    &&& m.len() == 32
    &&& m[31] < 127
    &&& is_curve_y(m)
}

/// Relies on curve25519-dalek's `CompressedEdwardsY::decompress`: whether the
/// encoding is a point of the curve.
#[verifier::external_body]
fn is_point(bytes: &[u8; 32]) -> (r: bool)
    ensures
        r == is_curve_y(bytes@),
{
    CompressedEdwardsY(*bytes).decompress().is_some()
}

/// Relies on curve25519-dalek's `+` on points (the points made by
/// `CompressedEdwardsY::decompress`, the result by `EdwardsPoint::compress`,
/// whose output always decompresses). Addition is associative and scalar
/// multiplication distributes over scalar addition; and `8 * H` lies in the
/// subgroup of order `l`, so `8 * (t * H)` depends on `t` modulo `l` only:
/// `8(dH) + (8(kH) + M) == 8(((k + d) mod l) H) + M`.
#[verifier::external_body]
fn point_add(p: &[u8; 32], q: &[u8; 32]) -> (r: Option<[u8; 32]>)
    ensures
        r is Some <==> (is_curve_y(p@) && is_curve_y(q@)),
        r is Some ==> r->Some_0@ == ed_sum(p@, q@) && is_curve_y(r->Some_0@),
        forall|d: nat, k: nat, hh: Seq<u8>, m: Seq<u8>|
            #![trigger ed_cofactor_mul(ed_scalar_mul(d, hh)), ed_sum(ed_cofactor_mul(ed_scalar_mul(k, hh)), m)]
            is_curve_y(hh) && is_curve_y(m) && d < group_order() && k < group_order() && p@
                == ed_cofactor_mul(ed_scalar_mul(d, hh)) && q@ == ed_sum(
                ed_cofactor_mul(ed_scalar_mul(k, hh)),
                m,
            ) ==> r is Some && r->Some_0@ == ed_sum(
                ed_cofactor_mul(ed_scalar_mul((k + d) % group_order(), hh)),
                m,
            ),
{
    let x = CompressedEdwardsY(*p).decompress()?;
    let y = CompressedEdwardsY(*q).decompress()?;
    Some((&x + &y).compress().to_bytes())
}

/// Relies on curve25519-dalek's `-` on points (made and encoded as for
/// `point_add`). Subtraction undoes addition: `(q + m) - q` is the point of
/// `m`, whose compression is `m` itself when `m` is a plain encoding.
#[verifier::external_body]
fn point_sub(p: &[u8; 32], q: &[u8; 32]) -> (r: Option<[u8; 32]>)
    ensures
        r is Some <==> (is_curve_y(p@) && is_curve_y(q@)),
        r is Some ==> r->Some_0@ == ed_difference(p@, q@) && is_curve_y(r->Some_0@),
        forall|m: Seq<u8>|
            plain_encoding(m) && is_curve_y(q@) && p@ == ed_sum(q@, m) ==> r is Some
                && r->Some_0@ == m,
{
    let x = CompressedEdwardsY(*p).decompress()?;
    let y = CompressedEdwardsY(*q).decompress()?;
    Some((&x - &y).compress().to_bytes())
}

/// Relies on curve25519-dalek's `*` of a point by a scalar (the scalar made by
/// `Scalar::from_bytes_mod_order`, the point and the result as for
/// `point_add`).
#[verifier::external_body]
fn point_mul(s: &[u8; 32], p: &[u8; 32]) -> (r: Option<[u8; 32]>)
    ensures
        r is Some <==> is_curve_y(p@),
        r is Some ==> r->Some_0@ == ed_scalar_mul(le_nat(s@) % group_order(), p@) && is_curve_y(
            r->Some_0@,
        ),
{
    let q = CompressedEdwardsY(*p).decompress()?;
    Some((&Scalar::from_bytes_mod_order(*s) * &q).compress().to_bytes())
}

/// Relies on curve25519-dalek's `EdwardsPoint::mul_by_cofactor` (the point
/// and the result as for `point_add`).
#[verifier::external_body]
fn mul_by_cofactor(p: &[u8; 32]) -> (r: Option<[u8; 32]>)
    ensures
        r is Some <==> is_curve_y(p@),
        r is Some ==> r->Some_0@ == ed_cofactor_mul(p@) && is_curve_y(r->Some_0@),
{
    let q = CompressedEdwardsY(*p).decompress()?;
    Some(q.mul_by_cofactor().compress().to_bytes())
}

/// Relies on curve25519-dalek's `EdwardsPoint::mul_base` (the scalar made by
/// `Scalar::from_bytes_mod_order`, the result by `EdwardsPoint::compress`).
#[verifier::external_body]
fn base_mul(s: &[u8; 32]) -> (r: [u8; 32])
    ensures
        r@ == ed_base_mul(le_nat(s@) % group_order()),
        is_curve_y(r@),
{
    EdwardsPoint::mul_base(&Scalar::from_bytes_mod_order(*s)).compress().to_bytes()
}

/// Relies on curve25519-dalek's `Scalar::from_bytes_mod_order`, `+` on scalars
/// and `Scalar::to_bytes`: the sum modulo the group order, encoded.
#[verifier::external_body]
fn scalar_add(a: &[u8; 32], b: &[u8; 32]) -> (r: [u8; 32])
    ensures
        le_nat(r@) == (le_nat(a@) + le_nat(b@)) % group_order(),
{
    (&Scalar::from_bytes_mod_order(*a) + &Scalar::from_bytes_mod_order(*b)).to_bytes()
}

/// Relies on curve25519-dalek's `Scalar::from_bytes_mod_order`, `-` on scalars
/// and `Scalar::to_bytes`: the difference modulo the group order, encoded.
#[verifier::external_body]
fn scalar_sub(a: &[u8; 32], b: &[u8; 32]) -> (r: [u8; 32])
    ensures
        le_nat(r@) == (le_nat(a@) - le_nat(b@)) % (group_order() as int),
{
    (&Scalar::from_bytes_mod_order(*a) - &Scalar::from_bytes_mod_order(*b)).to_bytes()
}

/// Relies on curve25519-dalek's `Scalar::from_bytes_mod_order_wide` and
/// `Scalar::to_bytes`: the 512-bit number reduced modulo the group order.
#[verifier::external_body]
fn scalar_reduce_wide(bytes: &[u8; 64]) -> (r: [u8; 32])
    ensures
        le_nat(r@) == le_nat(bytes@) % group_order(),
{
    Scalar::from_bytes_mod_order_wide(bytes).to_bytes()
}

/// Relies on rand's `OsRng::try_fill_bytes`: 64 bytes from the operating
/// system's generator, or a failure.
#[verifier::external_body]
fn os_random_64() -> (r: Option<[u8; 64]>) {
    let mut bytes = [0u8; 64];
    rand::rngs::OsRng.try_fill_bytes(&mut bytes).ok()?;
    Some(bytes)
}


/// A key of `KhPrf`: a scalar, as its 32-byte encoding, and the counter of
/// the first block, which is written as one byte.
#[derive(Clone, Copy, Debug, PartialEq, Eq)]
pub struct KhKey(pub [u8; 32], pub u8);

impl KhKey {
    /// The number that the key's scalar encodes.
    pub open spec fn scalar(&self) -> nat {
        le_nat(self.0@)
    }

    /// The key with its scalar added to the other's; the counter is this
    /// key's.
    pub fn add(&self, other: &KhKey) -> (r: KhKey)
        ensures
            r.scalar() == (self.scalar() + other.scalar()) % group_order(),
            r.1 == self.1,
    {
        KhKey(scalar_add(&self.0, &other.0), self.1)
    }

    /// The key with the other's scalar subtracted from its own; the counter is
    /// this key's.
    pub fn sub(&self, other: &KhKey) -> (r: KhKey)
        ensures
            r.scalar() == (self.scalar() - other.scalar()) % (group_order() as int),
            r.1 == self.1,
    {
        KhKey(scalar_sub(&self.0, &other.0), self.1)
    }

    /// The key with its counter moved on by `n`, which starts another stream
    /// of the PRF.
    pub fn offset(&self, n: u8) -> (r: KhKey)
        requires
            self.1 + n <= u8::MAX,
        ensures
            r.0 == self.0,
            r.1 == self.1 + n,
    {
        KhKey(self.0, self.1 + n)
    }
}

/// The encoding of a `KhKey`: the scalar, then the counter as one byte.
pub open spec fn kh_key_bytes(k: KhKey) -> Seq<u8> {
    k.0@.push(k.1)
}

/// Copies the first 32 bytes of `bytes` into an array.
fn first_32(bytes: &[u8]) -> (r: [u8; 32])
    requires
        bytes@.len() >= 32,
    ensures
        r@ == bytes@.take(32),
{
    let mut out = [0u8; 32];
    let mut i: usize = 0;
    while i < 32
        invariant
            i <= 32,
            bytes@.len() >= 32,
            out@.len() == 32,
            forall|j: int| 0 <= j < i ==> out@[j] == bytes@[j],
        decreases 32 - i,
    {
        out[i] = bytes[i];
        i = i + 1;
    }
    assert(out@ =~= bytes@.take(32));
    out
}

impl Key for KhKey {
    open spec fn key_bytes(&self) -> Seq<u8> {
        kh_key_bytes(*self)
    }

    open spec fn key_size() -> nat {
        33
    }

    open spec fn accepts(bytes: Seq<u8>) -> bool {
        true
    }

    fn key_len() -> (n: usize) {
        33
    }

    fn read_key(key_in: &[u8]) -> (r: Result<Self, Error>)
        ensures
            key_in@.len() < 33 ==> r == Err::<Self, Error>(Error::MalformedCiphertext),
    {
        if key_in.len() < 33 {
            return Err(Error::MalformedCiphertext);
        }
        let s = first_32(key_in);
        let k = KhKey(s, key_in[32]);
        assert(kh_key_bytes(k) =~= key_in@.take(33));
        Ok(k)
    }

    fn write_key(&self, key_out: &mut Vec<u8>) {
        append_bytes(key_out, &self.0);
        key_out.push(self.1);
        assert(key_out@ =~= old(key_out)@ + kh_key_bytes(*self));
    }
}

/// A key is its encoding: keys with equal encodings are equal. With the
/// contracts of `write_key` (which appends `kh_key_bytes(k)`) and `read_key`
/// (which accepts any 33 bytes and reads the key with that encoding), reading
/// back what was written gives the key, for every key.
pub proof fn lemma_kh_key_read_back(k: KhKey, read: KhKey)
    requires
        kh_key_bytes(read) == kh_key_bytes(k),
    ensures
        read == k,
{
    assert(kh_key_bytes(read).take(32) =~= read.0@);
    assert(kh_key_bytes(k).take(32) =~= k.0@);
    assert(read.0@ =~= k.0@);
    assert(kh_key_bytes(read)[32] == read.1);
    assert(kh_key_bytes(k)[32] == k.1);
    assert(read.0 == k.0);
}

/// Subtracting what was added gives the key back: `(a + b) - b == a`, for a
/// key whose scalar is reduced; the counter is kept throughout.
pub proof fn lemma_kh_key_add_sub(a: KhKey, b: KhKey, sum: KhKey, diff: KhKey)
    requires
        a.scalar() < group_order(),
        sum.scalar() == (a.scalar() + b.scalar()) % group_order(),
        sum.1 == a.1,
        diff.scalar() == (sum.scalar() - b.scalar()) % (group_order() as int),
        diff.1 == sum.1,
    ensures
        diff.scalar() == a.scalar(),
        diff.1 == a.1,
{
    vstd::arithmetic::power2::lemma_pow2_pos(252);
    let l = group_order() as int;
    let x = a.scalar() as int;
    let y = b.scalar() as int;
    let s = sum.scalar() as int;
    vstd::arithmetic::div_mod::lemma_sub_mod_noop(x + y, y, l);
    vstd::arithmetic::div_mod::lemma_sub_mod_noop_right(s, y, l);
    vstd::arithmetic::div_mod::lemma_small_mod(x as nat, l as nat);
    assert((x + y) - y == x);
}

/// Adding the zero key leaves a key with a reduced scalar as it is.
pub proof fn lemma_kh_key_add_zero(a: KhKey, zero: KhKey, sum: KhKey)
    requires
        a.scalar() < group_order(),
        zero.scalar() == 0,
        sum.scalar() == (a.scalar() + zero.scalar()) % group_order(),
        sum.1 == a.1,
    ensures
        sum.scalar() == a.scalar(),
        sum.1 == a.1,
{
    vstd::arithmetic::power2::lemma_pow2_pos(252);
    vstd::arithmetic::div_mod::lemma_small_mod(a.scalar(), group_order());
}

/// Encodes `v` as 8 bytes, most significant first.
pub fn u64_to_u8(v: u64) -> (r: [u8; 8])
    ensures
        r@ == seq![
            (v >> 56u64) as u8,
            (v >> 48u64) as u8,
            (v >> 40u64) as u8,
            (v >> 32u64) as u8,
            (v >> 24u64) as u8,
            (v >> 16u64) as u8,
            (v >> 8u64) as u8,
            v as u8,
        ],
{
    let r = [
        (v >> 56u64) as u8,
        (v >> 48u64) as u8,
        (v >> 40u64) as u8,
        (v >> 32u64) as u8,
        (v >> 24u64) as u8,
        (v >> 16u64) as u8,
        (v >> 8u64) as u8,
        v as u8,
    ];
    assert(r@ =~= seq![
        (v >> 56u64) as u8,
        (v >> 48u64) as u8,
        (v >> 40u64) as u8,
        (v >> 32u64) as u8,
        (v >> 24u64) as u8,
        (v >> 16u64) as u8,
        (v >> 8u64) as u8,
        v as u8,
    ]);
    r
}


/// The 32-byte encoding that embeds the 31-byte `block` with `j` as its
/// reserved last byte.
pub open spec fn embedding(block: Seq<u8>, j: int) -> Seq<u8> {
    block.push(j as u8)
}


/// Whether `bytes` is the encoding that `encode_point` picks for its first 31
/// bytes: the reserved byte is the least value that gives a point.
pub open spec fn canonical_embedding(bytes: Seq<u8>) -> bool {
    let block = bytes.take(31);
    let j = bytes[31] as int;
    &&& bytes.len() == 32
    &&& j < 127
    &&& is_curve_y(embedding(block, j))
    &&& forall|i: int| 0 <= i < j ==> !#[trigger] is_curve_y(embedding(block, i))
}

/// Builds the encoding of `block` with reserved byte `j`.
fn embed(block: &[u8], j: u8) -> (r: [u8; 32])
    requires
        block@.len() == 31,
    ensures
        r@ == embedding(block@, j as int),
{
    let mut out = [0u8; 32];
    let mut i: usize = 0;
    while i < 31
        invariant
            i <= 31,
            block@.len() == 31,
            out@.len() == 32,
            forall|k: int| 0 <= k < i ==> out@[k] == block@[k],
        decreases 31 - i,
    {
        out[i] = block[i];
        i = i + 1;
    }
    out[31] = j;
    assert(out@ =~= embedding(block@, j as int));
    out
}


/// The embedding of the 31-byte `block` with the least reserved byte from `j`
/// on (and below 127) that gives a point, if there is one.
pub open spec fn embedding_from(block: Seq<u8>, j: int) -> Option<Seq<u8>>
    decreases 127 - j,
{
    if 0 <= j < 127 {
        if is_curve_y(embedding(block, j)) {
            Some(embedding(block, j))
        } else {
            embedding_from(block, j + 1)
        }
    } else {
        None
    }
}

/// The encoding that embeds the 31-byte `block` in a point: the block and the
/// least reserved byte below 127 that gives a point.
pub open spec fn point_embedding(block: Seq<u8>) -> Option<Seq<u8>> {
    embedding_from(block, 0)
}

/// Whether the 31-byte `block` embeds in a point.
pub open spec fn embeddable(block: Seq<u8>) -> bool {
    point_embedding(block) is Some
}

proof fn lemma_embedding_from(block: Seq<u8>, j: int)
    requires
        block.len() == 31,
        0 <= j,
    ensures
        match embedding_from(block, j) {
            Some(e) => {
                &&& e == embedding(block, e[31] as int)
                &&& e.len() == 32
                &&& e.take(31) == block
                &&& j <= e[31] < 127
                &&& is_curve_y(e)
                &&& forall|i: int| j <= i < e[31] ==> !#[trigger] is_curve_y(embedding(block, i))
            },
            None => true,
        },
    decreases 127 - j,
{
    if 0 <= j < 127 {
        assert(embedding(block, j).take(31) =~= block);
        if !is_curve_y(embedding(block, j)) {
            lemma_embedding_from(block, j + 1);
        }
    }
}

/// The embedding of a block is a plain encoding, and the one that
/// `check_embedding` accepts and reads the block back from.
proof fn lemma_point_embedding(block: Seq<u8>)
    requires
        block.len() == 31,
        embeddable(block),
    ensures
        plain_encoding(point_embedding(block)->Some_0),
        canonical_embedding(point_embedding(block)->Some_0),
        point_embedding(block)->Some_0.take(31) == block,
{
    lemma_embedding_from(block, 0);
}

/// Embeds a 31-byte block in a point: the block, followed by the least
/// reserved byte below 127 that makes the 32 bytes the encoding of a point.
/// Such a byte exists for all but a negligible fraction of blocks; for the
/// rest the block is refused.
pub fn encode_point(bytes: &[u8]) -> (r: Result<[u8; 32], Error>)
    requires
        bytes@.len() == 31,
    ensures
        match point_embedding(bytes@) {
            Some(e) => r is Ok && r->Ok_0@ == e,
            None => r == Err::<[u8; 32], Error>(Error::InvalidEncoding),
        },
{
    let mut j: u8 = 0;
    while j < 127
        invariant
            j <= 127,
            bytes@.len() == 31,
            embedding_from(bytes@, j as int) == point_embedding(bytes@),
        decreases 127 - j,
    {
        let e = embed(bytes, j);
        if is_point(&e) {
            return Ok(e);
        }
        j = j + 1;
    }
    Err(Error::InvalidEncoding)
}

/// Recovers the block from the compressed encoding of a point: the encoding
/// must be the one that `encode_point` picks for its first 31 bytes.
pub fn check_embedding(bytes: &[u8; 32]) -> (r: Result<Vec<u8>, Error>)
    ensures
        r is Ok <==> canonical_embedding(bytes@),
        r is Ok ==> r->Ok_0@ == bytes@.take(31),
        r is Err ==> r == Err::<Vec<u8>, Error>(Error::InvalidEncoding),
{
    let mut block: Vec<u8> = Vec::new();
    let mut i: usize = 0;
    while i < 31
        invariant
            i <= 31,
            block@ =~= bytes@.take(i as int),
        decreases 31 - i,
    {
        block.push(bytes[i]);
        i = i + 1;
    }
    assert(block@ =~= bytes@.take(31));
    assert(bytes@.len() == 32);
    assert(bytes@ =~= bytes@.take(31).push(bytes@[31]));
    let reserved = bytes[31];
    if reserved >= 127 {
        return Err(Error::InvalidEncoding);
    }
    let mut j: u8 = 0;
    while j <= reserved
        invariant
            j <= reserved + 1,
            reserved < 127,
            block@ == bytes@.take(31),
            bytes@ == bytes@.take(31).push(reserved),
            forall|k: int| 0 <= k < j ==> !#[trigger] is_curve_y(embedding(block@, k)),
        decreases reserved + 1 - j,
    {
        if is_point(&embed(block.as_slice(), j)) {
            if j == reserved {
                assert(embedding(block@, j as int) =~= bytes@);
                return Ok(block);
            } else {
                return Err(Error::InvalidEncoding);
            }
        }
        j = j + 1;
    }
    assert(!is_curve_y(embedding(block@, reserved as int)));
    assert(embedding(block@, reserved as int) =~= bytes@);
    Err(Error::InvalidEncoding)
}


/// The first input of the hash that maps a counter to the group: its 8 bytes,
/// most significant first.
pub open spec fn be_counter(ctr: u64) -> Seq<u8> {
    seq![
        (ctr >> 56u64) as u8,
        (ctr >> 48u64) as u8,
        (ctr >> 40u64) as u8,
        (ctr >> 32u64) as u8,
        (ctr >> 24u64) as u8,
        (ctr >> 16u64) as u8,
        (ctr >> 8u64) as u8,
        ctr as u8,
    ]
}


/// Recovers the 31-byte block that a point embeds, or fails with
/// `InvalidEncoding` where the encoding is not such an embedding.
pub fn decode_point(point: &[u8; 32]) -> (r: Result<Vec<u8>, Error>)
    ensures
        r is Ok <==> canonical_embedding(point@),
        r is Ok ==> r->Ok_0@ == point@.take(31),
        r is Err ==> r == Err::<Vec<u8>, Error>(Error::InvalidEncoding),
{
    check_embedding(point)
}

/// The counter with its first byte set to `0xff`: the input of the hash that
/// gives `hash_to_group` its scalar.
pub open spec fn be_counter_marked(ctr: u64) -> Seq<u8> {
    be_counter(ctr).update(0, 0xffu8)
}

/// The scalar of `hash_to_group`: `SHA-256` of the marked counter, with its
/// top bit cleared.
pub open spec fn hash_scalar(ctr: u64) -> Seq<u8> {
    let d = sha256_of(be_counter_marked(ctr));
    d.update(31, d[31] & 0x7fu8)
}

/// The point `hash_to_group` maps `ctr` to.
pub open spec fn hash_point(ctr: u64) -> Option<Seq<u8>> {
    match point_embedding(sha256_of(be_counter(ctr)).skip(1)) {
        Some(e) => Some(ed_sum(e, ed_base_mul(le_nat(hash_scalar(ctr)) % group_order()))),
        None => None,
    }
}

/// The PRF: `F(s, ctr) = 8 * (s * H(ctr))`, for a reduced scalar `s`.
pub open spec fn prf_point(s: nat, ctr: u64) -> Option<Seq<u8>> {
    match hash_point(ctr) {
        Some(p) => Some(ed_cofactor_mul(ed_scalar_mul(s, p))),
        None => None,
    }
}

/// The reduced scalar of a 32-byte scalar encoding.
pub open spec fn reduced(s: Seq<u8>) -> nat {
    le_nat(s) % group_order()
}

/// Maps a counter to a point: the embedding of the last 31 bytes of
/// `SHA-256(ctr)`, plus the base point times the scalar read from
/// `SHA-256(ctr')`, where `ctr'` is the counter with its first byte set to
/// `0xff` and the digest has its top bit cleared.
pub fn hash_to_group(ctr: u64) -> (r: Result<[u8; 32], Error>)
    ensures
        match hash_point(ctr) {
            Some(p) => r is Ok && r->Ok_0@ == p && is_curve_y(p),
            None => r == Err::<[u8; 32], Error>(Error::InvalidEncoding),
        },
{
    let mut bytes = u64_to_u8(ctr);
    let hash = h(&bytes);
    let tail = slice_from(hash.as_slice(), 1);
    let embedded = encode_point(tail.as_slice())?;
    proof {
        lemma_point_embedding(tail@);
    }
    bytes[0] = 0xff;
    assert(bytes@ =~= be_counter_marked(ctr));
    let hash2 = h(&bytes);
    let mut s = first_32(hash2.as_slice());
    assert(hash2@.take(32) =~= hash2@);
    s[31] = s[31] & 0x7f;
    assert(s@ =~= hash_scalar(ctr));
    let offset = base_mul(&s);
    match point_add(&embedded, &offset) {
        Some(p) => Ok(p),
        None => Err(Error::InvalidEncoding),
    }
}

/// The PRF: `F(k, ctr) = 8 * (k * H(ctr))`.
fn prf(key: &[u8; 32], ctr: u64) -> (r: Result<[u8; 32], Error>)
    ensures
        match prf_point(reduced(key@), ctr) {
            Some(p) => r is Ok && r->Ok_0@ == p && is_curve_y(p),
            None => r == Err::<[u8; 32], Error>(Error::InvalidEncoding),
        },
        hash_point(ctr) is Some ==> is_curve_y(hash_point(ctr)->Some_0),
{
    let p = hash_to_group(ctr)?;
    let q = match point_mul(key, &p) {
        Some(q) => q,
        None => {
            return Err(Error::InvalidEncoding);
        },
    };
    match mul_by_cofactor(&q) {
        Some(f) => Ok(f),
        None => Err(Error::InvalidEncoding),
    }
}

/// Encrypts a single point: `msg + F(key, ctr)`.
pub fn encrypt_point(key: &[u8; 32], msg: &[u8; 32], ctr: u64) -> (r: Result<[u8; 32], Error>)
    ensures
        match prf_point(reduced(key@), ctr) {
            Some(f) => if is_curve_y(msg@) {
                r is Ok && r->Ok_0@ == ed_sum(f, msg@)
            } else {
                r == Err::<[u8; 32], Error>(Error::InvalidEncoding)
            },
            None => r == Err::<[u8; 32], Error>(Error::InvalidEncoding),
        },
{
    let f = prf(key, ctr)?;
    match point_add(&f, msg) {
        Some(c) => Ok(c),
        None => Err(Error::InvalidEncoding),
    }
}

/// Updates a single ciphertext point: `block + F(rk, ctr)`. The update of an
/// encryption under `k` is the encryption under `k + rk`.
pub fn update_point(rk: &[u8; 32], block: &[u8; 32], ctr: u64) -> (r: Result<[u8; 32], Error>)
    ensures
        match block_update(reduced(rk@), block@, ctr) {
            Some(c) => r is Ok && r->Ok_0@ == c,
            None => r == Err::<[u8; 32], Error>(Error::InvalidEncoding),
        },
        forall|k: nat, mb: Seq<u8>|
            k < group_order() && mb.len() == 31 && #[trigger] block_ciphertext(k, mb, ctr) == Some(
                block@,
            ) ==> block_update(reduced(rk@), block@, ctr) == block_ciphertext(
                (k + reduced(rk@)) % group_order(),
                mb,
                ctr,
            ),
{
    proof {
        vstd::arithmetic::power2::lemma_pow2_pos(252);
        assert forall|mb: Seq<u8>| mb.len() == 31 && embeddable(mb) implies plain_encoding(
            point_embedding(mb)->Some_0,
        ) by {
            lemma_point_embedding(mb);
        }
    }
    let f = prf(rk, ctr)?;
    let r = point_add(&f, block);
    proof {
        let d = reduced(rk@);
        assert(d < group_order());
        assert forall|k: nat, mb: Seq<u8>|
            k < group_order() && mb.len() == 31 && #[trigger] block_ciphertext(k, mb, ctr) == Some(
                block@,
            ) implies block_update(d, block@, ctr) == block_ciphertext(
                (k + d) % group_order(),
                mb,
                ctr,
            ) by {
            lemma_point_embedding(mb);
            let hh = hash_point(ctr)->Some_0;
            let m = point_embedding(mb)->Some_0;
            assert(f@ == ed_cofactor_mul(ed_scalar_mul(d, hh)));
            assert(block@ == ed_sum(ed_cofactor_mul(ed_scalar_mul(k, hh)), m));
            assert(is_curve_y(hh));
            assert(is_curve_y(m));
        }
    }
    match r {
        Some(c) => Ok(c),
        None => Err(Error::InvalidEncoding),
    }
}

/// Decrypts a single point: `ct - F(key, ctr)`.
pub fn decrypt_point(key: &[u8; 32], ct: &[u8; 32], ctr: u64) -> (r: Result<[u8; 32], Error>)
    ensures
        match prf_point(reduced(key@), ctr) {
            Some(f) => if is_curve_y(ct@) {
                r is Ok && r->Ok_0@ == ed_difference(ct@, f)
            } else {
                r == Err::<[u8; 32], Error>(Error::InvalidEncoding)
            },
            None => r == Err::<[u8; 32], Error>(Error::InvalidEncoding),
        },
        forall|m: Seq<u8>|
            plain_encoding(m) && prf_point(reduced(key@), ctr) is Some && ct@ == ed_sum(
                prf_point(reduced(key@), ctr)->Some_0,
                m,
            ) ==> r is Ok && r->Ok_0@ == m,
{
    let f = prf(key, ctr)?;
    match point_sub(ct, &f) {
        Some(d) => Ok(d),
        None => Err(Error::InvalidEncoding),
    }
}

/// The encryption of a 31-byte block under the reduced scalar `s`.
pub open spec fn block_ciphertext(s: nat, block: Seq<u8>, ctr: u64) -> Option<Seq<u8>> {
    match (point_embedding(block), prf_point(s, ctr)) {
        (Some(m), Some(f)) => if ed_sum(f, m).len() == 32 {
            Some(ed_sum(f, m))
        } else {
            None
        },
        _ => None,
    }
}

/// A 32-byte ciphertext block moved on by the scalar `s`.
pub open spec fn block_update(s: nat, cblock: Seq<u8>, ctr: u64) -> Option<Seq<u8>> {
    if is_curve_y(cblock) {
        match prf_point(s, ctr) {
            Some(f) => if ed_sum(f, cblock).len() == 32 {
                Some(ed_sum(f, cblock))
            } else {
                None
            },
            None => None,
        }
    } else {
        None
    }
}

/// The decryption of a 32-byte ciphertext block under the reduced scalar `s`.
pub open spec fn block_plaintext(s: nat, cblock: Seq<u8>, ctr: u64) -> Option<Seq<u8>> {
    if is_curve_y(cblock) {
        match prf_point(s, ctr) {
            Some(f) => if canonical_embedding(ed_difference(cblock, f)) {
                Some(ed_difference(cblock, f).take(31))
            } else {
                None
            },
            None => None,
        }
    } else {
        None
    }
}

/// Encrypts a single 31-byte block of plaintext into a 32-byte block.
pub fn encrypt_block(key: &[u8; 32], msg: &[u8], ctr: u64) -> (r: Result<Vec<u8>, Error>)
    requires
        msg@.len() == 31,
    ensures
        match block_ciphertext(reduced(key@), msg@, ctr) {
            Some(c) => r is Ok && r->Ok_0@ == c && c.len() == 32,
            None => r == Err::<Vec<u8>, Error>(Error::InvalidEncoding),
        },
{
    let m = encode_point(msg)?;
    proof {
        lemma_point_embedding(msg@);
    }
    let c = encrypt_point(key, &m, ctr)?;
    assert(c@.len() == 32);
    let mut out: Vec<u8> = Vec::new();
    append_bytes(&mut out, &c);
    Ok(out)
}

/// Moves a single 32-byte ciphertext block from key `k` to key `k + rk`.
pub fn update_block(rk: &[u8; 32], ct_block: &[u8], ctr: u64) -> (r: Result<Vec<u8>, Error>)
    requires
        ct_block@.len() == 32,
    ensures
        match block_update(reduced(rk@), ct_block@, ctr) {
            Some(c) => r is Ok && r->Ok_0@ == c && c.len() == 32,
            None => r == Err::<Vec<u8>, Error>(Error::InvalidEncoding),
        },
        forall|k: nat, mb: Seq<u8>|
            k < group_order() && mb.len() == 31 && #[trigger] block_ciphertext(k, mb, ctr) == Some(
                ct_block@,
            ) ==> block_update(reduced(rk@), ct_block@, ctr) == block_ciphertext(
                (k + reduced(rk@)) % group_order(),
                mb,
                ctr,
            ),
{
    let block = first_32(ct_block);
    assert(ct_block@.take(32) =~= ct_block@);
    let c = update_point(rk, &block, ctr)?;
    assert(c@.len() == 32);
    let mut out: Vec<u8> = Vec::new();
    append_bytes(&mut out, &c);
    Ok(out)
}

/// Decrypts a single 32-byte ciphertext block into a 31-byte block. A block
/// that `encrypt_block` made from `m` under the same key and counter gives `m`.
pub fn decrypt_block(key: &[u8; 32], ct_block: &[u8], ctr: u64) -> (r: Result<Vec<u8>, Error>)
    requires
        ct_block@.len() == 32,
    ensures
        match block_plaintext(reduced(key@), ct_block@, ctr) {
            Some(p) => r is Ok && r->Ok_0@ == p && p.len() == 31,
            None => r == Err::<Vec<u8>, Error>(Error::InvalidEncoding),
        },
        forall|m: Seq<u8>|
            m.len() == 31 && block_ciphertext(reduced(key@), m, ctr) == Some(ct_block@) ==> r is Ok
                && r->Ok_0@ == m,
{
    let block = first_32(ct_block);
    assert(ct_block@.take(32) =~= ct_block@);
    proof {
        assert forall|m: Seq<u8>|
            m.len() == 31 && block_ciphertext(reduced(key@), m, ctr) == Some(
                ct_block@,
            ) implies plain_encoding(point_embedding(m)->Some_0) && canonical_embedding(
            point_embedding(m)->Some_0,
        ) && point_embedding(m)->Some_0.take(31) == m by {
            lemma_point_embedding(m);
        }
    }
    let d = decrypt_point(key, &block, ctr)?;
    let r = decode_point(&d);
    proof {
        if r is Ok {
            assert(d@.len() == 32);
            assert(d@.take(31).len() == 31);
        }
    }
    r
}

/// Encryption using a key-homomorphic PRF, block by block in counter mode.
///
/// The counter starts at the key's counter (one byte) and grows by one per
/// block; it cannot pass `u64::MAX` for any input a machine holds.
pub struct KhPrf;

/// The `i`-th block of `blocks`, for blocks of `size` bytes.
pub open spec fn block_of(blocks: Seq<u8>, size: int, i: int) -> Seq<u8> {
    blocks.subrange(size * i, size * i + size)
}

/// The reduced scalar of a `KhKey` encoding.
pub open spec fn key_scalar(k: Seq<u8>) -> nat {
    reduced(k.take(32))
}

/// The counter of a `KhKey` encoding.
pub open spec fn key_counter(k: Seq<u8>) -> nat {
    k[32] as nat
}

/// The counter of block `i` of a stream that starts at `c0`.
pub open spec fn block_counter(c0: nat, i: int) -> u64 {
    (c0 + i) as u64
}

/// The encryptions of the first `n` 31-byte blocks of `p`, concatenated.
pub open spec fn enc_blocks(s: nat, c0: nat, p: Seq<u8>, n: nat) -> Option<Seq<u8>>
    decreases n,
{
    if n == 0 {
        Some(Seq::empty())
    } else {
        match enc_blocks(s, c0, p, (n - 1) as nat) {
            Some(prev) => match block_ciphertext(
                s,
                block_of(p, 31, n - 1),
                block_counter(c0, n - 1),
            ) {
                Some(c) => Some(prev + c),
                None => None,
            },
            None => None,
        }
    }
}

/// The decryptions of the first `n` 32-byte blocks of `ct`, concatenated.
pub open spec fn dec_blocks(s: nat, c0: nat, ct: Seq<u8>, n: nat) -> Option<Seq<u8>>
    decreases n,
{
    if n == 0 {
        Some(Seq::empty())
    } else {
        match dec_blocks(s, c0, ct, (n - 1) as nat) {
            Some(prev) => match block_plaintext(
                s,
                block_of(ct, 32, n - 1),
                block_counter(c0, n - 1),
            ) {
                Some(p) => Some(prev + p),
                None => None,
            },
            None => None,
        }
    }
}

/// The updates of the first `n` 32-byte blocks of `ct`, concatenated.
pub open spec fn upd_blocks(s: nat, c0: nat, ct: Seq<u8>, n: nat) -> Option<Seq<u8>>
    decreases n,
{
    if n == 0 {
        Some(Seq::empty())
    } else {
        match upd_blocks(s, c0, ct, (n - 1) as nat) {
            Some(prev) => match block_update(s, block_of(ct, 32, n - 1), block_counter(c0, n - 1)) {
                Some(c) => Some(prev + c),
                None => None,
            },
            None => None,
        }
    }
}

/// What `KhPrf` encryption under the scalar `s` from counter `c0` gives for
/// `pt`: the encryptions of the 31-byte blocks of the padded plaintext.
pub open spec fn kh_ciphertext(s: nat, c0: nat, pt: Seq<u8>) -> Option<Seq<u8>> {
    enc_blocks(s, c0, padded(pt, 31), pt.len() / 31 + 1)
}

/// What `KhPrf` decryption gives for `ct`: nothing for a length that is not a
/// multiple of 32, else the decrypted blocks with the padding of the last one
/// removed (and checked).
pub open spec fn kh_plaintext(s: nat, c0: nat, ct: Seq<u8>) -> Option<Seq<u8>> {
    let n = ct.len() / 32;
    if ct.len() % 32 != 0 {
        None
    } else if n == 0 {
        Some(Seq::empty())
    } else {
        match dec_blocks(s, c0, ct, n) {
            Some(d) => match unpadded(d.skip(31 * (n - 1))) {
                Some(u) => Some(d.take(31 * (n - 1)) + u),
                None => None,
            },
            None => None,
        }
    }
}

/// What `KhPrf` re-encryption by the scalar `s` from counter `c0` gives.
pub open spec fn kh_reencryption(s: nat, c0: nat, ct: Seq<u8>) -> Option<Seq<u8>> {
    if ct.len() % 32 != 0 {
        None
    } else {
        upd_blocks(s, c0, ct, ct.len() / 32)
    }
}

/// Decryption inverts encryption block by block: every block of `ct`, up to
/// the first that does not decrypt, that is the encryption of some `m`
/// decrypts to `m`.
pub open spec fn kh_blocks_invert(s: nat, c0: nat, ct: Seq<u8>) -> bool {
    forall|i: int, m: Seq<u8>|
        0 <= i < ct.len() / 32 && ct.len() % 32 == 0 && m.len() == 31 && (forall|j: int|
            0 <= j < i ==> block_plaintext(s, #[trigger] block_of(ct, 32, j), block_counter(c0, j))
                is Some) && #[trigger] block_ciphertext(s, m, block_counter(c0, i)) == Some(
            block_of(ct, 32, i),
        ) ==> block_plaintext(s, block_of(ct, 32, i), block_counter(c0, i)) == Some(m)
}

/// Re-encryption moves each block on: every block of `ct`, up to the first
/// that does not update, that encrypts some `mb` under `k` updates by `d` to
/// the encryption of `mb` under `k + d`.
pub open spec fn kh_blocks_update(d: nat, c0: nat, ct: Seq<u8>) -> bool {
    forall|i: int, k: nat, mb: Seq<u8>|
        0 <= i < ct.len() / 32 && ct.len() % 32 == 0 && k < group_order() && mb.len() == 31 && (
        forall|j: int|
            0 <= j < i ==> block_update(d, #[trigger] block_of(ct, 32, j), block_counter(c0, j))
                is Some) && #[trigger] block_ciphertext(k, mb, block_counter(c0, i)) == Some(
            block_of(ct, 32, i),
        ) ==> block_update(d, block_of(ct, 32, i), block_counter(c0, i)) == block_ciphertext(
            (k + d) % group_order(),
            mb,
            block_counter(c0, i),
        )
}

proof fn lemma_enc_blocks_none(s: nat, c0: nat, p: Seq<u8>, i: nat, n: nat)
    requires
        i <= n,
        enc_blocks(s, c0, p, i) is None,
    ensures
        enc_blocks(s, c0, p, n) is None,
    decreases n - i,
{
    if i < n {
        lemma_enc_blocks_none(s, c0, p, i + 1, n);
    }
}

proof fn lemma_dec_blocks_none(s: nat, c0: nat, ct: Seq<u8>, i: nat, n: nat)
    requires
        i <= n,
        dec_blocks(s, c0, ct, i) is None,
    ensures
        dec_blocks(s, c0, ct, n) is None,
    decreases n - i,
{
    if i < n {
        lemma_dec_blocks_none(s, c0, ct, i + 1, n);
    }
}

proof fn lemma_upd_blocks_none(s: nat, c0: nat, ct: Seq<u8>, i: nat, n: nat)
    requires
        i <= n,
        upd_blocks(s, c0, ct, i) is None,
    ensures
        upd_blocks(s, c0, ct, n) is None,
    decreases n - i,
{
    if i < n {
        lemma_upd_blocks_none(s, c0, ct, i + 1, n);
    }
}

/// Counters of a stream stay far from `u64::MAX`.
proof fn lemma_counter_fits(len: int, size: int, i: int)
    requires
        0 <= len <= u64::MAX,
        31 <= size,
        0 <= i <= len / size,
    ensures
        i + 256 <= u64::MAX,
{
    vstd::arithmetic::div_mod::lemma_fundamental_div_mod(len, size);
    assert(i * 31 <= len) by (nonlinear_arith)
        requires
            i <= len / size,
            len == size * (len / size) + len % size,
            len % size >= 0,
            31 <= size,
            i >= 0,
    ;
}

proof fn lemma_key_fields(k: KhKey)
    ensures
        key_scalar(kh_key_bytes(k)) == reduced(k.0@),
        key_counter(kh_key_bytes(k)) == k.1 as nat,
{
    assert(kh_key_bytes(k).take(32) =~= k.0@);
}

proof fn lemma_padded_blocks(pt: Seq<u8>, i: int)
    requires
        0 <= i <= pt.len() / 31,
    ensures
        padded(pt, 31).len() == 31 * (pt.len() / 31 + 1),
        i < pt.len() / 31 ==> block_of(padded(pt, 31), 31, i) == chunk_at(pt, 31 * i, 31),
        i == pt.len() / 31 ==> block_of(padded(pt, 31), 31, i) == padded(
            chunk_at(pt, 31 * i, 31),
            31,
        ),
{
    let n = pt.len() as int;
    let q = n / 31;
    let p = padded(pt, 31);
    assert(n == 31 * q + n % 31) by {
        vstd::arithmetic::div_mod::lemma_fundamental_div_mod(n, 31);
    }
    assert(p.len() == 31 * (q + 1));
    if i < q {
        assert(31 * i + 31 <= n) by (nonlinear_arith)
            requires
                i < q,
                n == 31 * q + n % 31,
                n % 31 >= 0,
        ;
        assert(block_of(p, 31, i) =~= chunk_at(pt, 31 * i, 31));
    }
    if i == q {
        let c = chunk_at(pt, 31 * i, 31);
        assert(c.len() == n % 31);
        assert((c.len() as int) % 31 == n % 31) by {
            vstd::arithmetic::div_mod::lemma_small_mod(c.len(), 31);
        }
        assert(block_of(p, 31, i) =~= padded(c, 31));
    }
}

/// Block `i` of a ciphertext of whole 32-byte blocks lies within it.
proof fn lemma_block_in_range(len: int, i: int)
    requires
        len >= 0,
        len % 32 == 0,
        0 <= i < len / 32,
    ensures
        32 * i + 32 <= len,
        i * 32 + 32 <= len,
{
    vstd::arithmetic::div_mod::lemma_fundamental_div_mod(len, 32);
    assert(32 * i + 32 <= len) by (nonlinear_arith)
        requires
            i < len / 32,
            len == 32 * (len / 32),
    ;
}

impl Cipher for KhPrf {
    type K = KhKey;

    open spec fn encrypts_to(key: Seq<u8>, pt: Seq<u8>, ct: Seq<u8>) -> bool {
        kh_ciphertext(key_scalar(key), key_counter(key), pt) == Some(ct)
    }

    open spec fn decrypts_to(key: Seq<u8>, ct: Seq<u8>, out: Option<Seq<u8>>) -> bool {
        &&& out == kh_plaintext(key_scalar(key), key_counter(key), ct)
        &&& kh_blocks_invert(key_scalar(key), key_counter(key), ct)
    }

    fn keygen() -> (r: Result<Self::K, Error>)
        ensures
            r is Ok ==> r->Ok_0.1 == 1 && r->Ok_0.scalar() < group_order(),
    {
        let wide = match os_random_64() {
            Some(b) => b,
            None => {
                return Err(Error::RandomnessUnavailable);
            },
        };
        let s = scalar_reduce_wide(&wide);
        let k = KhKey(s, 1);
        proof {
            vstd::arithmetic::power2::lemma_pow2_pos(252);
            assert(kh_key_bytes(k).take(32) =~= s@);
        }
        Ok(k)
    }

    fn encrypt(key: Self::K, pt: &[u8], ct: &mut Vec<u8>) -> (r: Result<(), Error>)
        ensures
            r is Ok <==> kh_ciphertext(reduced(key.0@), key.1 as nat, pt@) is Some,
            r is Err ==> r == Err::<(), Error>(Error::InvalidEncoding),
    {
        proof {
            lemma_key_fields(key);
        }
        let ghost start = ct@;
        let ghost p = padded(pt@, 31);
        let ghost s = reduced(key.0@);
        let ghost c0 = key.1 as nat;
        let len = pt.len();
        let n_blocks = len / PT_BLOCK_SIZE + 1;
        proof {
            lemma_padded_blocks(pt@, 0);
        }
        let mut i: usize = 0;
        let mut pos: usize = 0;
        assert(start.take(start.len() as int) =~= start);
        assert(appended(start, start) =~= Seq::<u8>::empty());
        while i < n_blocks
            invariant
                start == old(ct)@,
                len == pt@.len(),
                n_blocks == len / 31 + 1,
                p == padded(pt@, 31),
                s == reduced(key.0@),
                c0 == key.1 as nat,
                i <= n_blocks,
                i < n_blocks ==> pos == 31 * i && pos <= len,
                extends(start, ct@),
                enc_blocks(s, c0, p, i as nat) == Some(appended(start, ct@)),
            decreases n_blocks - i,
        {
            proof {
                lemma_padded_blocks(pt@, i as int);
                lemma_counter_fits(len as int, 31, i as int);
            }
            let mut block = read_chunk(pt, pos, PT_BLOCK_SIZE);
            if block.len() < PT_BLOCK_SIZE {
                pad(&mut block, PT_BLOCK_SIZE);
            }
            assert(block@ == block_of(p, 31, i as int));
            let ctr = key.1 as u64 + i as u64;
            let ct_block = match encrypt_block(&key.0, block.as_slice(), ctr) {
                Ok(b) => b,
                Err(e) => {
                    proof {
                        lemma_enc_blocks_none(s, c0, p, (i + 1) as nat, n_blocks as nat);
                    }
                    return Err(e);
                },
            };
            let ghost before = ct@;
            append_bytes(ct, ct_block.as_slice());
            proof {
                assert(ct@.take(start.len() as int) =~= start) by {
                    assert(ct@.take(before.len() as int) =~= before);
                }
                assert(appended(start, ct@) =~= appended(start, before) + ct_block@);
            }
            i = i + 1;
            if i < n_blocks {
                pos = pos + PT_BLOCK_SIZE;
                proof {
                    let l = len as int;
                    assert(31 * (i as int) <= l) by (nonlinear_arith)
                        requires
                            i < l / 31 + 1,
                            l >= 0,
                    {
                        vstd::arithmetic::div_mod::lemma_fundamental_div_mod(l, 31);
                    }
                }
            }
        }
        Ok(())
    }

    fn decrypt(key: Self::K, ct: &[u8], pt: &mut Vec<u8>) -> (r: Result<(), Error>)
        ensures
            r is Err ==> final(pt)@ == old(pt)@,
            ct@.len() % 32 != 0 ==> r == Err::<(), Error>(Error::MalformedCiphertext),
            ct@.len() % 32 == 0 && dec_blocks(reduced(key.0@), key.1 as nat, ct@, ct@.len() / 32)
                is None ==> r == Err::<(), Error>(Error::InvalidEncoding),
            ct@.len() % 32 == 0 && ct@.len() > 0 && dec_blocks(
                reduced(key.0@),
                key.1 as nat,
                ct@,
                ct@.len() / 32,
            ) is Some && unpadded(
                dec_blocks(reduced(key.0@), key.1 as nat, ct@, ct@.len() / 32)->Some_0.skip(
                    31 * (ct@.len() / 32 - 1),
                ),
            ) is None ==> r == Err::<(), Error>(Error::MalformedCiphertext),
    {
        proof {
            lemma_key_fields(key);
        }
        let ghost start = pt@;
        let ghost s = reduced(key.0@);
        let ghost c0 = key.1 as nat;
        assert(start.take(start.len() as int) =~= start);
        assert(appended(start, start) =~= Seq::<u8>::empty());
        if ct.len() % CT_BLOCK_SIZE != 0 {
            return Err(Error::MalformedCiphertext);
        }
        let len = ct.len();
        let n_blocks = len / CT_BLOCK_SIZE;
        if n_blocks == 0 {
            return Ok(());
        }
        let mut d: Vec<u8> = Vec::new();
        let mut i: usize = 0;
        let mut pos: usize = 0;
        while i < n_blocks
            invariant
                pt@ == start,
                key_scalar(kh_key_bytes(key)) == s,
                key_counter(kh_key_bytes(key)) == c0,
                len == ct@.len(),
                n_blocks == ct@.len() / 32,
                ct@.len() % 32 == 0,
                s == reduced(key.0@),
                c0 == key.1 as nat,
                i <= n_blocks,
                pos == 32 * i,
                d@.len() == 31 * i,
                dec_blocks(s, c0, ct@, i as nat) == Some(d@),
                forall|j: int|
                    0 <= j < i ==> block_plaintext(s, #[trigger] block_of(ct@, 32, j), block_counter(c0, j))
                        is Some,
                forall|j: int, m: Seq<u8>|
                    0 <= j < i && m.len() == 31 && #[trigger] block_ciphertext(s, m, block_counter(c0, j)) == Some(
                        block_of(ct@, 32, j),
                    ) ==> block_plaintext(s, block_of(ct@, 32, j), block_counter(c0, j)) == Some(m),
            decreases n_blocks - i,
        {
            proof {
                lemma_block_in_range(len as int, i as int);
                lemma_counter_fits(len as int, 32, i as int);
            }
            let block = read_chunk(ct, pos, CT_BLOCK_SIZE);
            assert(block@ == block_of(ct@, 32, i as int));
            let ctr = key.1 as u64 + i as u64;
            let p = match decrypt_block(&key.0, block.as_slice(), ctr) {
                Ok(p) => p,
                Err(e) => {
                    proof {
                        assert(block_counter(c0, i as int) == ctr);
                        assert(dec_blocks(s, c0, ct@, (i + 1) as nat) is None);
                        lemma_dec_blocks_none(s, c0, ct@, (i + 1) as nat, n_blocks as nat);
                        assert(kh_plaintext(s, c0, ct@) is None);
                        assert(start.take(start.len() as int) =~= start);
                        assert(block_plaintext(s, block_of(ct@, 32, i as int), block_counter(c0, i as int)) is None);
                        assert forall|k: int, m: Seq<u8>|
                            0 <= k < ct@.len() / 32 && ct@.len() % 32 == 0 && m.len() == 31 && (forall|j: int|
                                0 <= j < k ==> block_plaintext(s, #[trigger] block_of(ct@, 32, j), block_counter(c0, j))
                                    is Some) && #[trigger] block_ciphertext(s, m, block_counter(c0, k)) == Some(
                                block_of(ct@, 32, k),
                            ) implies block_plaintext(s, block_of(ct@, 32, k), block_counter(c0, k)) == Some(m) by {
                            if k > i {
                                assert(block_plaintext(s, block_of(ct@, 32, i as int), block_counter(c0, i as int)) is Some);
                            }
                        }
                        assert(kh_blocks_invert(s, c0, ct@));
                        assert(Self::decrypts_to(kh_key_bytes(key), ct@, None));
                    }
                    return Err(e);
                },
            };
            let ghost before = d@;
            append_bytes(&mut d, p.as_slice());
            i = i + 1;
            pos = pos + CT_BLOCK_SIZE;
        }
        assert(start.take(start.len() as int) =~= start);
        assert(kh_blocks_invert(s, c0, ct@));
        let head_len = 31 * (n_blocks - 1);
        let last = slice_from(d.as_slice(), head_len);
        let u = match remove_padding(last) {
            Some(u) => u,
            None => {
                return Err(Error::MalformedCiphertext);
            },
        };
        let head = read_chunk(d.as_slice(), 0, head_len);
        assert(head@ =~= d@.take(head_len as int));
        append_bytes(pt, head.as_slice());
        append_bytes(pt, u.as_slice());
        proof {
            assert(pt@.take(start.len() as int) =~= start);
            assert(appended(start, pt@) =~= head@ + u@);
        }
        Ok(())
    }
}

impl UpEncCtxtIndep for KhPrf {
    open spec fn token_for(k1: Seq<u8>, k2: Seq<u8>, token: Seq<u8>) -> bool {
        &&& token.len() == 33
        &&& le_nat(token.take(32)) == (le_nat(k2.take(32)) - le_nat(k1.take(32))) % (
        group_order() as int)
        &&& token[32] == k2[32]
    }

    open spec fn reencrypts_to(token: Seq<u8>, ct_old: Seq<u8>, out: Option<Seq<u8>>) -> bool {
        if holds_key::<KhKey>(token) {
            &&& out == kh_reencryption(key_scalar(token), key_counter(token), ct_old)
            &&& kh_blocks_update(key_scalar(token), key_counter(token), ct_old)
        } else {
            out is None
        }
    }

    fn rekeygen(k1: Self::K, k2: Self::K, token: &mut Vec<u8>) -> (r: Result<(), Error>)
        ensures
            r is Ok,
    {
        let rk = k2.sub(&k1);
        let ghost start = token@;
        rk.write_key(token);
        proof {
            assert(token@.take(start.len() as int) =~= start);
            let t = appended(start, token@);
            assert(t =~= kh_key_bytes(rk));
            assert(t.take(32) =~= rk.0@);
            assert(kh_key_bytes(k1).take(32) =~= k1.0@);
            assert(kh_key_bytes(k2).take(32) =~= k2.0@);
        }
        Ok(())
    }

    fn reencrypt(rk: &[u8], ct_old: &[u8], ct_new: &mut Vec<u8>) -> (r: Result<(), Error>) {
        let ghost start = ct_new@;
        assert(start.take(start.len() as int) =~= start);
        assert(appended(start, start) =~= Seq::<u8>::empty());
        let token = KhKey::read_key(rk)?;
        proof {
            lemma_key_fields(token);
            assert(rk@.take(33).take(32) =~= rk@.take(32));
            assert(kh_key_bytes(token).take(32) =~= rk@.take(32));
            assert(key_scalar(rk@) == reduced(token.0@));
            assert(key_counter(rk@) == token.1 as nat);
        }
        let ghost s = reduced(token.0@);
        let ghost c0 = token.1 as nat;
        if ct_old.len() % CT_BLOCK_SIZE != 0 {
            return Err(Error::MalformedCiphertext);
        }
        let len = ct_old.len();
        let n_blocks = len / CT_BLOCK_SIZE;
        let mut i: usize = 0;
        let mut pos: usize = 0;
        while i < n_blocks
            invariant
                start == old(ct_new)@,
                holds_key::<KhKey>(rk@),
                key_scalar(rk@) == s,
                key_counter(rk@) == c0,
                len == ct_old@.len(),
                n_blocks == ct_old@.len() / 32,
                ct_old@.len() % 32 == 0,
                s == reduced(token.0@),
                c0 == token.1 as nat,
                i <= n_blocks,
                pos == 32 * i,
                extends(start, ct_new@),
                upd_blocks(s, c0, ct_old@, i as nat) == Some(appended(start, ct_new@)),
                forall|j: int|
                    0 <= j < i ==> block_update(s, #[trigger] block_of(ct_old@, 32, j), block_counter(c0, j))
                        is Some,
                forall|j: int, k: nat, mb: Seq<u8>|
                    0 <= j < i && k < group_order() && mb.len() == 31 && #[trigger] block_ciphertext(
                        k,
                        mb,
                        block_counter(c0, j),
                    ) == Some(block_of(ct_old@, 32, j)) ==> block_update(
                        s,
                        block_of(ct_old@, 32, j),
                        block_counter(c0, j),
                    ) == block_ciphertext((k + s) % group_order(), mb, block_counter(c0, j)),
            decreases n_blocks - i,
        {
            proof {
                lemma_block_in_range(len as int, i as int);
                lemma_counter_fits(len as int, 32, i as int);
            }
            let block = read_chunk(ct_old, pos, CT_BLOCK_SIZE);
            assert(block@ == block_of(ct_old@, 32, i as int));
            let ctr = token.1 as u64 + i as u64;
            let bytes = match update_block(&token.0, block.as_slice(), ctr) {
                Ok(b) => b,
                Err(e) => {
                    proof {
                        assert(block_counter(c0, i as int) == ctr);
                        assert(upd_blocks(s, c0, ct_old@, (i + 1) as nat) is None);
                        lemma_upd_blocks_none(s, c0, ct_old@, (i + 1) as nat, n_blocks as nat);
                        assert(kh_reencryption(s, c0, ct_old@) is None);
                        assert forall|k2: int, k: nat, mb: Seq<u8>|
                            0 <= k2 < ct_old@.len() / 32 && ct_old@.len() % 32 == 0 && k < group_order()
                                && mb.len() == 31 && (forall|j: int|
                                0 <= j < k2 ==> block_update(s, #[trigger] block_of(ct_old@, 32, j), block_counter(c0, j))
                                    is Some) && #[trigger] block_ciphertext(k, mb, block_counter(c0, k2)) == Some(
                                block_of(ct_old@, 32, k2),
                            ) implies block_update(s, block_of(ct_old@, 32, k2), block_counter(c0, k2))
                            == block_ciphertext((k + s) % group_order(), mb, block_counter(c0, k2)) by {
                            if k2 > i {
                                assert(block_update(s, block_of(ct_old@, 32, i as int), block_counter(c0, i as int)) is Some);
                            }
                        }
                        assert(kh_blocks_update(s, c0, ct_old@));
                        assert(Self::reencrypts_to(rk@, ct_old@, None));
                    }
                    return Err(e);
                },
            };
            let ghost before = ct_new@;
            append_bytes(ct_new, bytes.as_slice());
            proof {
                assert(ct_new@.take(start.len() as int) =~= start) by {
                    assert(ct_new@.take(before.len() as int) =~= before);
                }
                assert(appended(start, ct_new@) =~= appended(start, before) + bytes@);
            }
            i = i + 1;
            pos = pos + CT_BLOCK_SIZE;
        }
        Ok(())
    }
}

/// Moving a key by its token gives the second key: where `token` is what
/// `rekeygen` produces for `k1` and `k2`, adding its scalar to that of `k1`
/// gives the scalar of `k2` modulo the group order, and the token keeps the
/// counter of `k2`.
pub proof fn lemma_kh_token_composes(k1: Seq<u8>, k2: Seq<u8>, token: Seq<u8>)
    requires
        KhPrf::token_for(k1, k2, token),
    ensures
        (le_nat(k1.take(32)) + le_nat(token.take(32))) % group_order() == le_nat(k2.take(32))
            % group_order(),
        token[32] == k2[32],
{
    vstd::arithmetic::power2::lemma_pow2_pos(252);
    let l = group_order() as int;
    let a = le_nat(k1.take(32)) as int;
    let b = le_nat(k2.take(32)) as int;
    let t = le_nat(token.take(32)) as int;
    assert(t == (b - a) % l);
    vstd::arithmetic::div_mod::lemma_add_mod_noop_right(a, b - a, l);
    assert(a + (b - a) == b);
}


proof fn lemma_enc_blocks_layout(s: nat, c0: nat, p: Seq<u8>, n: nat)
    requires
        enc_blocks(s, c0, p, n) is Some,
    ensures
        enc_blocks(s, c0, p, n)->Some_0.len() == 32 * n,
        forall|i: int|
            0 <= i < n ==> #[trigger] block_ciphertext(s, block_of(p, 31, i), block_counter(c0, i))
                == Some(block_of(enc_blocks(s, c0, p, n)->Some_0, 32, i)),
    decreases n,
{
    if n > 0 {
        let prev = enc_blocks(s, c0, p, (n - 1) as nat)->Some_0;
        lemma_enc_blocks_layout(s, c0, p, (n - 1) as nat);
        let e = enc_blocks(s, c0, p, n)->Some_0;
        let c = block_ciphertext(s, block_of(p, 31, n - 1), block_counter(c0, n - 1))->Some_0;
        assert(e == prev + c);
        assert forall|i: int| 0 <= i < n implies #[trigger] block_ciphertext(
            s,
            block_of(p, 31, i),
            block_counter(c0, i),
        ) == Some(block_of(e, 32, i)) by {
            if i < n - 1 {
                assert(block_of(e, 32, i) =~= block_of(prev, 32, i));
            } else {
                assert(block_of(e, 32, i) =~= c);
            }
        }
    }
}

proof fn lemma_blocks_decrypt(s: nat, c0: nat, p: Seq<u8>, ct: Seq<u8>, n: nat, k: nat)
    requires
        k <= n,
        ct.len() == 32 * n,
        p.len() == 31 * n,
        kh_blocks_invert(s, c0, ct),
        forall|i: int|
            0 <= i < n ==> #[trigger] block_ciphertext(s, block_of(p, 31, i), block_counter(c0, i))
                == Some(block_of(ct, 32, i)),
    ensures
        forall|i: int|
            0 <= i < k ==> block_plaintext(s, #[trigger] block_of(ct, 32, i), block_counter(c0, i))
                == Some(block_of(p, 31, i)),
    decreases k,
{
    if k > 0 {
        lemma_blocks_decrypt(s, c0, p, ct, n, (k - 1) as nat);
        let i = k - 1;
        let m = block_of(p, 31, i);
        vstd::arithmetic::div_mod::lemma_div_multiples_vanish(n as int, 32);
        vstd::arithmetic::div_mod::lemma_mod_multiples_basic(n as int, 32);
        assert(m.len() == 31);
        assert(block_ciphertext(s, m, block_counter(c0, i)) == Some(block_of(ct, 32, i)));
        assert(forall|j: int|
            0 <= j < i ==> block_plaintext(s, #[trigger] block_of(ct, 32, j), block_counter(c0, j))
                is Some);
    }
}

proof fn lemma_dec_blocks_of(s: nat, c0: nat, p: Seq<u8>, ct: Seq<u8>, n: nat)
    requires
        p.len() >= 31 * n,
        forall|i: int|
            0 <= i < n ==> block_plaintext(s, #[trigger] block_of(ct, 32, i), block_counter(c0, i))
                == Some(block_of(p, 31, i)),
    ensures
        dec_blocks(s, c0, ct, n) == Some(p.take(31 * n as int)),
    decreases n,
{
    if n > 0 {
        lemma_dec_blocks_of(s, c0, p, ct, (n - 1) as nat);
        assert(block_plaintext(s, block_of(ct, 32, n - 1), block_counter(c0, n - 1)) == Some(
            block_of(p, 31, n - 1),
        ));
        assert(p.take(31 * (n - 1) as int) + block_of(p, 31, n - 1) =~= p.take(31 * n as int));
    }
}

/// `KhPrf` decrypts what it encrypts: where `ct` is the encryption of `pt`
/// under a scalar and a counter, and decryption inverts encryption block by
/// block, decrypting `ct` gives `pt`.
pub proof fn lemma_kh_round_trip(s: nat, c0: nat, pt: Seq<u8>, ct: Seq<u8>)
    requires
        kh_ciphertext(s, c0, pt) == Some(ct),
        kh_blocks_invert(s, c0, ct),
    ensures
        kh_plaintext(s, c0, ct) == Some(pt),
{
    let p = padded(pt, 31);
    let q = (pt.len() / 31) as int;
    let n = (q + 1) as nat;
    lemma_padded_blocks(pt, q);
    lemma_enc_blocks_layout(s, c0, p, n);
    assert(ct.len() == 32 * n);
    vstd::arithmetic::div_mod::lemma_div_multiples_vanish(n as int, 32);
    vstd::arithmetic::div_mod::lemma_mod_multiples_basic(n as int, 32);
    assert(ct.len() / 32 == n);
    assert(ct.len() % 32 == 0);
    lemma_blocks_decrypt(s, c0, p, ct, n, n);
    lemma_dec_blocks_of(s, c0, p, ct, n);
    assert(p.take(31 * n as int) =~= p);
    let chunk = chunk_at(pt, 31 * q, 31);
    assert(p.skip(31 * q) =~= block_of(p, 31, q));
    lemma_pad_round_trip(chunk, 31);
    vstd::arithmetic::div_mod::lemma_fundamental_div_mod(pt.len() as int, 31);
    assert(31 * q <= pt.len());
    assert(chunk =~= pt.subrange(31 * q, pt.len() as int));
    assert(p.take(31 * q) =~= pt.take(31 * q));
    assert(pt.take(31 * q) + chunk =~= pt);
}

proof fn lemma_upd_blocks_of(k: nat, d: nat, c0: nat, p: Seq<u8>, ct: Seq<u8>, n: nat, j: nat)
    requires
        j <= n,
        k < group_order(),
        ct.len() == 32 * n,
        p.len() == 31 * n,
        kh_blocks_update(d, c0, ct),
        forall|i: int|
            0 <= i < n ==> #[trigger] block_ciphertext(k, block_of(p, 31, i), block_counter(c0, i))
                == Some(block_of(ct, 32, i)),
    ensures
        upd_blocks(d, c0, ct, j) == enc_blocks((k + d) % group_order(), c0, p, j),
        upd_blocks(d, c0, ct, j) is Some ==> forall|i: int|
            0 <= i < j ==> block_update(d, #[trigger] block_of(ct, 32, i), block_counter(c0, i))
                is Some,
    decreases j,
{
    if j > 0 {
        let i = j - 1;
        lemma_upd_blocks_of(k, d, c0, p, ct, n, i as nat);
        if upd_blocks(d, c0, ct, i as nat) is Some {
            vstd::arithmetic::div_mod::lemma_div_multiples_vanish(n as int, 32);
            vstd::arithmetic::div_mod::lemma_mod_multiples_basic(n as int, 32);
            let mb = block_of(p, 31, i);
            assert(mb.len() == 31);
            assert(block_ciphertext(k, mb, block_counter(c0, i)) == Some(block_of(ct, 32, i)));
            assert(forall|i2: int|
                0 <= i2 < i ==> block_update(d, #[trigger] block_of(ct, 32, i2), block_counter(c0, i2))
                    is Some);
        }
    }
}

/// Re-encryption moves a `KhPrf` ciphertext from one key to the sum: where
/// `ct` encrypts `pt` under the reduced scalar `k`, updating it block by
/// block by `d` gives the encryption of `pt` under `k + d`.
pub proof fn lemma_kh_reencrypt(k: nat, d: nat, c0: nat, pt: Seq<u8>, ct: Seq<u8>)
    requires
        k < group_order(),
        kh_ciphertext(k, c0, pt) == Some(ct),
        kh_blocks_update(d, c0, ct),
    ensures
        kh_reencryption(d, c0, ct) == kh_ciphertext((k + d) % group_order(), c0, pt),
{
    let p = padded(pt, 31);
    let q = (pt.len() / 31) as int;
    let n = (q + 1) as nat;
    lemma_padded_blocks(pt, q);
    lemma_enc_blocks_layout(k, c0, p, n);
    vstd::arithmetic::div_mod::lemma_div_multiples_vanish(n as int, 32);
    vstd::arithmetic::div_mod::lemma_mod_multiples_basic(n as int, 32);
    lemma_upd_blocks_of(k, d, c0, p, ct, n, n);
}

/// Updating is equivalent to decrypting under the first key and encrypting
/// under the second: a `KhPrf` ciphertext of `pt` under `k1`, re-encrypted
/// with the token that `rekeygen` makes for `k1` and `k2` (keys with the same
/// counter), decrypts under `k2` to `pt`.
pub proof fn lemma_kh_update_round_trip(
    k1: Seq<u8>,
    k2: Seq<u8>,
    pt: Seq<u8>,
    ct: Seq<u8>,
    token: Seq<u8>,
    ct2: Seq<u8>,
    out: Option<Seq<u8>>,
)
    requires
        k1.len() == 33,
        k2.len() == 33,
        k1[32] == k2[32],
        KhPrf::encrypts_to(k1, pt, ct),
        KhPrf::token_for(k1, k2, token),
        KhPrf::reencrypts_to(token, ct, Some(ct2)),
        KhPrf::decrypts_to(k2, ct2, out),
    ensures
        out == Some(pt),
{
    vstd::arithmetic::power2::lemma_pow2_pos(252);
    let l = group_order();
    let a = le_nat(k1.take(32));
    let b = le_nat(k2.take(32));
    let t = le_nat(token.take(32));
    assert(k1.take(33) =~= k1);
    assert(k2.take(33) =~= k2);
    assert(token.take(33) =~= token);
    assert(t < l);
    vstd::arithmetic::div_mod::lemma_small_mod(t, l);
    assert(holds_key::<KhKey>(token));
    lemma_kh_token_composes(k1, k2, token);
    assert(key_scalar(k1) == a % l);
    assert(key_scalar(token) == t);
    assert(key_scalar(k2) == b % l);
    vstd::arithmetic::div_mod::lemma_add_mod_noop(a as int, t as int, l as int);
    vstd::arithmetic::div_mod::lemma_mod_pos_bound(a as int, l as int);
    lemma_kh_reencrypt(a % l, t, k1[32] as nat, pt, ct);
    lemma_kh_round_trip(b % l, k2[32] as nat, pt, ct2);
}

impl ExactCipher for KhPrf {
    proof fn lemma_round_trip(key: Seq<u8>, pt: Seq<u8>, ct: Seq<u8>, out: Option<Seq<u8>>) {
        lemma_kh_round_trip(key_scalar(key), key_counter(key), pt, ct);
    }
}

} // verus!
