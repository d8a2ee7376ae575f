//! Updatable encryption: ciphertexts under one key are moved to another key
//! with a re-keying token, without the plaintext being exposed.
//!
//! The building blocks are authenticated encryption (AES-GCM and
//! ChaCha20-Poly1305 from *ring*) and a key-homomorphic PRF over
//! Curve25519. They compose into the schemes of [`generic`]: the baseline
//! `Naive` and `KemDem`, and the updatable `Kss` and `ReCrypt`.
//!
//! Streams are byte buffers: inputs are slices, outputs are vectors that the
//! operations append to. On an error, what an operation appended is to be
//! discarded. `Kss` and `ReCrypt` check integrity before they release any
//! plaintext: `ReCrypt` appends nothing on an error, and `Kss` checks its tag
//! (a digest of the ciphertext) before it decrypts.
use vstd::prelude::*;

pub mod common;
pub mod generic;
pub mod io;
pub mod kh_prf;
pub mod ring_ae;

pub use kh_prf::KhPrf;
pub use ring_ae::{RingAes, RingChaCha};

verus! {

/// What can go wrong in the library's operations.
#[derive(Clone, Copy, Debug, PartialEq, Eq, Structural)]
pub enum Error {
    /// A read from or a write to an underlying stream failed.
    IoFailure,
    /// A ciphertext has the wrong block size or is truncated.
    MalformedCiphertext,
    /// A group element does not decode to a block of plaintext.
    InvalidEncoding,
    /// An integrity tag does not match.
    IntegrityFailure,
    /// A parameter is outside its legal range.
    InvalidConfiguration,
    /// An outside cipher refused a key or an input.
    CipherFailure,
    /// The operating system's random number generator failed.
    RandomnessUnavailable,
}

/// `new` is `old` with bytes appended.
pub open spec fn extends(old: Seq<u8>, new: Seq<u8>) -> bool {
    old.len() <= new.len() && new.take(old.len() as int) == old
}

/// The bytes appended to `old` to give `new`.
pub open spec fn appended(old: Seq<u8>, new: Seq<u8>) -> Seq<u8> {
    new.skip(old.len() as int)
}

/// Whether `k` is a key of its type: an encoding of the right size that
/// `read_key` accepts.
pub open spec fn valid_key<K: Key>(k: K) -> bool {
    k.key_bytes().len() == K::key_size() && K::accepts(k.key_bytes())
}

/// Functionality that the keys of every scheme have: a fixed-size byte
/// encoding, read from and written to buffers.
pub trait Key: Sized {
    /// The encoding of the key, as `write_key` writes it.
    spec fn key_bytes(&self) -> Seq<u8>;

    /// The size of every encoding.
    spec fn key_size() -> nat;

    /// The encodings (of `key_size` bytes) that `read_key` accepts.
    spec fn accepts(bytes: Seq<u8>) -> bool;

    /// The size of every encoding.
    fn key_len() -> (n: usize)
        ensures
            n == Self::key_size(),
    ;

    /// Reads a key from the first `key_size` bytes of `key_in`.
    fn read_key(key_in: &[u8]) -> (r: Result<Self, Error>)
        ensures
            r is Ok <==> key_in@.len() >= Self::key_size() && Self::accepts(
                key_in@.take(Self::key_size() as int),
            ),
            r is Ok ==> r->Ok_0.key_bytes() == key_in@.take(Self::key_size() as int),
    ;

    /// Appends the encoding of the key to `key_out`.
    fn write_key(&self, key_out: &mut Vec<u8>)
        ensures
            final(key_out)@ == old(key_out)@ + self.key_bytes(),
    ;
}

/// Keys that form a group, so that a key can be split into additive shares.
/// The group operations are stated over the keys' encodings.
pub trait KeyAlgebra: Key {
    /// The encoding of the sum of two keys.
    spec fn sum_bytes(a: Seq<u8>, b: Seq<u8>) -> Seq<u8>;

    /// The encoding of the difference of two keys.
    spec fn difference_bytes(a: Seq<u8>, b: Seq<u8>) -> Seq<u8>;

    fn add(&self, other: &Self) -> (r: Self)
        ensures
            r.key_bytes() == Self::sum_bytes(self.key_bytes(), other.key_bytes()),
    ;

    fn sub(&self, other: &Self) -> (r: Self)
        ensures
            r.key_bytes() == Self::difference_bytes(self.key_bytes(), other.key_bytes()),
    ;

    /// Sums of keys are keys.
    proof fn lemma_sum_valid(a: Seq<u8>, b: Seq<u8>)
        requires
            a.len() == Self::key_size(),
            b.len() == Self::key_size(),
            Self::accepts(a),
            Self::accepts(b),
        ensures
            Self::sum_bytes(a, b).len() == Self::key_size(),
            Self::accepts(Self::sum_bytes(a, b)),
    ;

    /// Adding a share to both sides leaves a difference unchanged:
    /// `(a + c) - (b + c) == a - b`.
    proof fn lemma_difference_shift(a: Seq<u8>, b: Seq<u8>, c: Seq<u8>)
        requires
            a.len() == Self::key_size(),
            b.len() == Self::key_size(),
            c.len() == Self::key_size(),
            Self::accepts(a),
            Self::accepts(b),
            Self::accepts(c),
        ensures
            Self::difference_bytes(Self::sum_bytes(a, c), Self::sum_bytes(b, c))
                == Self::difference_bytes(a, b),
    ;

    /// Subtracting what was added gives the key back: `(a + b) - b == a`.
    proof fn lemma_add_sub(a: Seq<u8>, b: Seq<u8>)
        requires
            a.len() == Self::key_size(),
            b.len() == Self::key_size(),
            Self::accepts(a),
            Self::accepts(b),
        ensures
            Self::difference_bytes(Self::sum_bytes(a, b), b) == a,
    ;
}

/// A cipher: key generation, encryption and decryption of byte streams.
///
/// Encryption may be randomized, so what it produces is stated as a relation
/// between key, plaintext and ciphertext; decryption likewise relates key,
/// ciphertext and its outcome (`None` for an error).
pub trait Cipher {
    type K: Key;

    /// Whether `ct` is a ciphertext that `encrypt` can produce for `pt`.
    spec fn encrypts_to(key: Seq<u8>, pt: Seq<u8>, ct: Seq<u8>) -> bool;

    /// Whether `decrypt` can end with `out` on `ct`.
    spec fn decrypts_to(key: Seq<u8>, ct: Seq<u8>, out: Option<Seq<u8>>) -> bool;

    /// Generates a new, random key.
    fn keygen() -> (r: Result<Self::K, Error>)
        ensures
            r is Ok ==> valid_key(r->Ok_0),
    ;

    /// Encrypts `pt`, appending the ciphertext to `ct`.
    fn encrypt(key: Self::K, pt: &[u8], ct: &mut Vec<u8>) -> (r: Result<(), Error>)
        ensures
            extends(old(ct)@, final(ct)@),
            r is Ok ==> Self::encrypts_to(key.key_bytes(), pt@, appended(old(ct)@, final(ct)@)),
    ;

    /// Decrypts `ct`, appending the plaintext to `pt`. On an error, what was
    /// appended is to be discarded.
    fn decrypt(key: Self::K, ct: &[u8], pt: &mut Vec<u8>) -> (r: Result<(), Error>)
        ensures
            extends(old(pt)@, final(pt)@),
            Self::decrypts_to(
                key.key_bytes(),
                ct@,
                if r is Ok {
                    Some(appended(old(pt)@, final(pt)@))
                } else {
                    None
                },
            ),
    ;
}

/// A cipher whose decryption undoes its encryption exactly.
pub trait ExactCipher: Cipher {
    /// Decrypting a ciphertext that `encrypt` produced gives the plaintext.
    proof fn lemma_round_trip(key: Seq<u8>, pt: Seq<u8>, ct: Seq<u8>, out: Option<Seq<u8>>)
        requires
            Self::encrypts_to(key, pt, ct),
            Self::decrypts_to(key, ct, out),
        ensures
            out == Some(pt),
    ;
}

/// A ciphertext-independent updatable cipher: a token made from two keys
/// alone moves any ciphertext from the first key to the second.
pub trait UpEncCtxtIndep: Cipher {
    /// Whether `token` is a token that `rekeygen` can produce for the keys.
    spec fn token_for(k1: Seq<u8>, k2: Seq<u8>, token: Seq<u8>) -> bool;

    /// Whether `reencrypt` can end with `out` for the token and ciphertext.
    spec fn reencrypts_to(token: Seq<u8>, ct_old: Seq<u8>, out: Option<Seq<u8>>) -> bool;

    /// Appends a re-keying token for the pair of keys to `token`.
    fn rekeygen(k1: Self::K, k2: Self::K, token: &mut Vec<u8>) -> (r: Result<(), Error>)
        ensures
            extends(old(token)@, final(token)@),
            r is Ok ==> Self::token_for(
                k1.key_bytes(),
                k2.key_bytes(),
                appended(old(token)@, final(token)@),
            ),
    ;

    /// Moves `ct_old` to the new key with the token `rk`, appending the new
    /// ciphertext to `ct_new`.
    fn reencrypt(rk: &[u8], ct_old: &[u8], ct_new: &mut Vec<u8>) -> (r: Result<(), Error>)
        ensures
            extends(old(ct_new)@, final(ct_new)@),
            Self::reencrypts_to(
                rk@,
                ct_old@,
                if r is Ok {
                    Some(appended(old(ct_new)@, final(ct_new)@))
                } else {
                    None
                },
            ),
    ;
}

/// An updatable encryption scheme. A ciphertext is a header and a body;
/// `rekeygen` makes a token from two keys and the header, and `reencrypt`
/// uses it to move the ciphertext to the second key.
pub trait UpEnc {
    type K: Key;

    /// Whether `encrypt` can produce the header and body for `pt`.
    spec fn encrypts_to(key: Seq<u8>, pt: Seq<u8>, hdr: Seq<u8>, body: Seq<u8>) -> bool;

    /// Whether `decrypt` can end with `out` on the header and body.
    spec fn decrypts_to(key: Seq<u8>, hdr: Seq<u8>, body: Seq<u8>, out: Option<Seq<u8>>) -> bool;

    /// Whether `rekeygen` can end with `out` for the keys and header.
    spec fn token_for(k1: Seq<u8>, k2: Seq<u8>, hdr: Seq<u8>, out: Option<Seq<u8>>) -> bool;

    /// Whether `reencrypt` can end with `out` (new header and body) for the
    /// token and the old header and body.
    spec fn reencrypts_to(
        token: Seq<u8>,
        hdr: Seq<u8>,
        body: Seq<u8>,
        out: Option<(Seq<u8>, Seq<u8>)>,
    ) -> bool;

    /// Generates a new, random key.
    fn keygen() -> (r: Result<Self::K, Error>)
        ensures
            r is Ok ==> valid_key(r->Ok_0),
    ;

    /// Appends to `token` a re-keying token for the keys and the header.
    fn rekeygen(k1: Self::K, k2: Self::K, ct_hdr: &[u8], token: &mut Vec<u8>) -> (r: Result<
        (),
        Error,
    >)
        ensures
            extends(old(token)@, final(token)@),
            Self::token_for(
                k1.key_bytes(),
                k2.key_bytes(),
                ct_hdr@,
                if r is Ok {
                    Some(appended(old(token)@, final(token)@))
                } else {
                    None
                },
            ),
    ;

    /// Encrypts `pt`, appending the header and the body to `ct_hdr` and
    /// `ct_body`.
    fn encrypt(key: Self::K, pt: &[u8], ct_hdr: &mut Vec<u8>, ct_body: &mut Vec<u8>) -> (r:
        Result<(), Error>)
        ensures
            extends(old(ct_hdr)@, final(ct_hdr)@),
            extends(old(ct_body)@, final(ct_body)@),
            r is Ok ==> Self::encrypts_to(
                key.key_bytes(),
                pt@,
                appended(old(ct_hdr)@, final(ct_hdr)@),
                appended(old(ct_body)@, final(ct_body)@),
            ),
    ;

    /// Moves a ciphertext to a new key with the token `rk`, appending the new
    /// header and body to `ct2_hdr` and `ct2_body`.
    fn reencrypt(
        rk: &[u8],
        ct1_hdr: &[u8],
        ct1_body: &[u8],
        ct2_hdr: &mut Vec<u8>,
        ct2_body: &mut Vec<u8>,
    ) -> (r: Result<(), Error>)
        ensures
            extends(old(ct2_hdr)@, final(ct2_hdr)@),
            extends(old(ct2_body)@, final(ct2_body)@),
            Self::reencrypts_to(
                rk@,
                ct1_hdr@,
                ct1_body@,
                if r is Ok {
                    Some(
                        (
                            appended(old(ct2_hdr)@, final(ct2_hdr)@),
                            appended(old(ct2_body)@, final(ct2_body)@),
                        ),
                    )
                } else {
                    None
                },
            ),
    ;

    /// Decrypts the header and body, appending the plaintext to `pt`. On an
    /// error, what was appended is to be discarded.
    fn decrypt(key: Self::K, ct_hdr: &[u8], ct_body: &[u8], pt: &mut Vec<u8>) -> (r: Result<
        (),
        Error,
    >)
        ensures
            extends(old(pt)@, final(pt)@),
            Self::decrypts_to(
                key.key_bytes(),
                ct_hdr@,
                ct_body@,
                if r is Ok {
                    Some(appended(old(pt)@, final(pt)@))
                } else {
                    None
                },
            ),
    ;
}

/// An updatable scheme whose decryption undoes its encryption and whose
/// rotations keep the plaintext.
pub trait ExactUpEnc: UpEnc {
    /// Decrypting what `encrypt` produced gives the plaintext.
    proof fn lemma_up_round_trip(
        key: Seq<u8>,
        pt: Seq<u8>,
        hdr: Seq<u8>,
        body: Seq<u8>,
        out: Option<Seq<u8>>,
    )
        requires
            Self::encrypts_to(key, pt, hdr, body),
            Self::decrypts_to(key, hdr, body, out),
        ensures
            out == Some(pt),
    ;

    /// A rotation (a token from `rekeygen` applied by `reencrypt`) gives a
    /// ciphertext of the same plaintext under the second key.
    proof fn lemma_up_rotation(
        k1: Seq<u8>,
        k2: Seq<u8>,
        pt: Seq<u8>,
        hdr: Seq<u8>,
        body: Seq<u8>,
        token: Seq<u8>,
        hdr2: Seq<u8>,
        body2: Seq<u8>,
    )
        requires
            Self::encrypts_to(k1, pt, hdr, body),
            Self::token_for(k1, k2, hdr, Some(token)),
            Self::reencrypts_to(token, hdr, body, Some((hdr2, body2))),
        ensures
            Self::encrypts_to(k2, pt, hdr2, body2),
    ;
}

/// Whether the ciphertexts `(hdrs[i], bodies[i])` come from an encryption
/// under `keys[0]` followed by a rotation from `keys[i]` to `keys[i + 1]` with
/// `tokens[i]`, for each `i`.
pub open spec fn rotation_chain<S: UpEnc>(
    keys: Seq<Seq<u8>>,
    hdrs: Seq<Seq<u8>>,
    bodies: Seq<Seq<u8>>,
    tokens: Seq<Seq<u8>>,
    pt: Seq<u8>,
) -> bool {
    &&& keys.len() == tokens.len() + 1
    &&& hdrs.len() == keys.len()
    &&& bodies.len() == keys.len()
    &&& S::encrypts_to(keys[0], pt, hdrs[0], bodies[0])
    &&& forall|i: int|
        0 <= i < tokens.len() ==> #[trigger] S::token_for(
            keys[i],
            keys[i + 1],
            hdrs[i],
            Some(tokens[i]),
        ) && S::reencrypts_to(tokens[i], hdrs[i], bodies[i], Some((hdrs[i + 1], bodies[i + 1])))
}

proof fn lemma_rotation_prefix<S: ExactUpEnc>(
    keys: Seq<Seq<u8>>,
    hdrs: Seq<Seq<u8>>,
    bodies: Seq<Seq<u8>>,
    tokens: Seq<Seq<u8>>,
    pt: Seq<u8>,
    n: int,
)
    requires
        rotation_chain::<S>(keys, hdrs, bodies, tokens, pt),
        0 <= n < keys.len(),
    ensures
        S::encrypts_to(keys[n], pt, hdrs[n], bodies[n]),
    decreases n,
{
    if n > 0 {
        lemma_rotation_prefix::<S>(keys, hdrs, bodies, tokens, pt, n - 1);
        let i = n - 1;
        assert(S::token_for(keys[i], keys[i + 1], hdrs[i], Some(tokens[i])));
        S::lemma_up_rotation(
            keys[i],
            keys[i + 1],
            pt,
            hdrs[i],
            bodies[i],
            tokens[i],
            hdrs[i + 1],
            bodies[i + 1],
        );
    }
}

/// Any number of rotations keeps the plaintext: after an encryption under
/// `keys[0]` and `n >= 0` rotations through `keys[1..]`, decryption under the
/// last key gives the plaintext.
pub proof fn lemma_rotations_round_trip<S: ExactUpEnc>(
    keys: Seq<Seq<u8>>,
    hdrs: Seq<Seq<u8>>,
    bodies: Seq<Seq<u8>>,
    tokens: Seq<Seq<u8>>,
    pt: Seq<u8>,
    out: Option<Seq<u8>>,
)
    requires
        rotation_chain::<S>(keys, hdrs, bodies, tokens, pt),
        S::decrypts_to(keys.last(), hdrs.last(), bodies.last(), out),
    ensures
        out == Some(pt),
{
    let n = tokens.len() as int;
    lemma_rotation_prefix::<S>(keys, hdrs, bodies, tokens, pt, n);
    S::lemma_up_round_trip(keys[n], pt, hdrs[n], bodies[n], out);
}

} // verus!
