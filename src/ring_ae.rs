//! Authenticated encryption with the AEAD algorithms of *ring*.
//!
//! A ciphertext is a random 12-byte nonce followed by what *ring* seals under
//! it: the encrypted plaintext and a 16-byte tag.
use vstd::prelude::*;

use ring::aead;
use ring::rand::SecureRandom;

use crate::io::{append_bytes, slice_from};
use crate::{appended, extends, Cipher, Error, ExactCipher, Key, KeyAlgebra};

verus! {

/// The AEAD algorithms that the library takes from *ring*.
#[derive(Clone, Copy, Debug, PartialEq, Eq, Structural)]
pub enum AeadAlgorithm {
    Aes128Gcm,
    ChaCha20Poly1305,
}

/// Length of the nonce that starts every ciphertext.
pub const NONCE_LEN: usize = 12;

/// Length of the authentication tag.
pub const TAG_LEN: usize = 16;

/// The longest input that *ring* seals with either algorithm (the bound of
/// AES-GCM; ChaCha20-Poly1305 allows more).
pub const MAX_SEAL_LEN: u64 = 68719476704;

/// Length of a key of the algorithm.
pub open spec fn aead_key_size(alg: AeadAlgorithm) -> nat {
    match alg {
        AeadAlgorithm::Aes128Gcm => 16,
        AeadAlgorithm::ChaCha20Poly1305 => 32,
    }
}

/// Length of a key of the algorithm.
pub fn aead_key_len(alg: AeadAlgorithm) -> (n: usize)
    ensures
        n == aead_key_size(alg),
{
    match alg {
        AeadAlgorithm::Aes128Gcm => 16,
        AeadAlgorithm::ChaCha20Poly1305 => 32,
    }
}

/// What *ring* produces when it seals `pt` under the key and nonce:
/// the encrypted plaintext followed by the tag.
pub uninterp spec fn aead_seal_of(
    alg: AeadAlgorithm,
    key: Seq<u8>,
    nonce: Seq<u8>,
    pt: Seq<u8>,
) -> Seq<u8>;

/// What *ring* produces when it opens `ct` under the key and nonce: the
/// plaintext, or `None` when the key is refused or the tag does not match.
pub uninterp spec fn aead_open_of(
    alg: AeadAlgorithm,
    key: Seq<u8>,
    nonce: Seq<u8>,
    ct: Seq<u8>,
) -> Option<Seq<u8>>;

/// Relies on *ring*'s `SystemRandom::fill`: `len` bytes from the operating
/// system's generator, or a failure.
#[verifier::external_body]
fn fill_random(len: usize) -> (r: Option<Vec<u8>>)
    ensures
        r is Some ==> r->Some_0@.len() == len,
{
    let mut bytes = vec![0u8; len];
    ring::rand::SystemRandom::new().fill(&mut bytes).ok()?;
    Some(bytes)
}

/// Relies on *ring*'s `LessSafeKey::seal_in_place_append_tag` (the key made by
/// `UnboundKey::new`, which refuses a key of the wrong length): the sealed
/// bytes are the encrypted plaintext, of the plaintext's length, and the tag;
/// with a key of the right length it refuses only inputs longer than its
/// bound (`max_input_len` of the algorithm).
#[verifier::external_body]
fn aead_seal(alg: AeadAlgorithm, key: &[u8], nonce: [u8; 12], pt: &[u8]) -> (r: Option<Vec<u8>>)
    ensures
        r is Some ==> r->Some_0@ == aead_seal_of(alg, key@, nonce@, pt@),
        r is Some ==> r->Some_0@.len() == pt@.len() + TAG_LEN,
        key@.len() != aead_key_size(alg) ==> r is None,
        key@.len() == aead_key_size(alg) && pt@.len() <= MAX_SEAL_LEN ==> r is Some,
{
    let algorithm = match alg {
        AeadAlgorithm::Aes128Gcm => &aead::AES_128_GCM,
        AeadAlgorithm::ChaCha20Poly1305 => &aead::CHACHA20_POLY1305,
    };
    let key = aead::LessSafeKey::new(aead::UnboundKey::new(algorithm, key).ok()?);
    let mut in_out = pt.to_vec();
    let nonce = aead::Nonce::assume_unique_for_key(nonce);
    key.seal_in_place_append_tag(nonce, aead::Aad::empty(), &mut in_out).ok()?;
    Some(in_out)
}

/// Relies on *ring*'s `LessSafeKey::open_in_place` (the key made by
/// `UnboundKey::new`): it authenticates and decrypts, and it gives back the
/// plaintext of whatever was sealed under the same key and nonce.
#[verifier::external_body]
fn aead_open(alg: AeadAlgorithm, key: &[u8], nonce: [u8; 12], ct: &[u8]) -> (r: Option<Vec<u8>>)
    ensures
        r is Some ==> aead_open_of(alg, key@, nonce@, ct@) == Some(r->Some_0@),
        r is None ==> aead_open_of(alg, key@, nonce@, ct@) is None,
        forall|m: Seq<u8>|
            key@.len() == aead_key_size(alg) && ct@ == aead_seal_of(alg, key@, nonce@, m) ==> (
            r is Some && r->Some_0@ == m),
{
    let algorithm = match alg {
        AeadAlgorithm::Aes128Gcm => &aead::AES_128_GCM,
        AeadAlgorithm::ChaCha20Poly1305 => &aead::CHACHA20_POLY1305,
    };
    let key = aead::LessSafeKey::new(aead::UnboundKey::new(algorithm, key).ok()?);
    let mut in_out = ct.to_vec();
    let nonce = aead::Nonce::assume_unique_for_key(nonce);
    let pt = key.open_in_place(nonce, aead::Aad::empty(), &mut in_out).ok()?;
    Some(pt.to_vec())
}

/// Whether `ct` is a nonce followed by the sealing of `pt` under it.
pub open spec fn aead_encrypts_to(alg: AeadAlgorithm, key: Seq<u8>, pt: Seq<u8>, ct: Seq<u8>) -> bool {
    &&& key.len() == aead_key_size(alg)
    &&& ct.len() >= NONCE_LEN
    &&& ct.skip(NONCE_LEN as int) == aead_seal_of(alg, key, ct.take(NONCE_LEN as int), pt)
}

/// The outcome of decrypting `ct`: `None` for a ciphertext shorter than a
/// nonce, else what opening the rest under the nonce gives, which is the
/// plaintext of anything sealed under the key and the nonce.
pub open spec fn aead_decrypts_to(
    alg: AeadAlgorithm,
    key: Seq<u8>,
    ct: Seq<u8>,
    out: Option<Seq<u8>>,
) -> bool {
    if ct.len() < NONCE_LEN {
        out is None
    } else {
        let nonce = ct.take(NONCE_LEN as int);
        let sealed = ct.skip(NONCE_LEN as int);
        &&& out == aead_open_of(alg, key, nonce, sealed)
        &&& forall|m: Seq<u8>|
            key.len() == aead_key_size(alg) && sealed == aead_seal_of(alg, key, nonce, m) ==> out
                == Some(m)
    }
}

/// Seals `pt` under the key and the given nonce, and appends the nonce and
/// the sealed bytes to `ct`. Fails, leaving `ct` as it was, where *ring*
/// refuses the key (one of the wrong length) or the input.
pub fn seal_with_nonce(
    alg: AeadAlgorithm,
    key: &[u8],
    nonce: [u8; 12],
    pt: &[u8],
    ct: &mut Vec<u8>,
) -> (r: Result<(), Error>)
    ensures
        r is Ok ==> final(ct)@ == old(ct)@ + nonce@ + aead_seal_of(alg, key@, nonce@, pt@),
        r is Err ==> final(ct)@ == old(ct)@ && r == Err::<(), Error>(Error::CipherFailure),
        key@.len() != aead_key_size(alg) ==> r is Err,
        key@.len() == aead_key_size(alg) && pt@.len() <= MAX_SEAL_LEN ==> r is Ok,
{
    match aead_seal(alg, key, nonce, pt) {
        None => Err(Error::CipherFailure),
        Some(sealed) => {
            append_bytes(ct, &nonce);
            append_bytes(ct, &sealed);
            Ok(())
        },
    }
}

/// Encrypts `pt` under a fresh random nonce, appending the ciphertext to `ct`.
pub fn aead_encrypt(alg: AeadAlgorithm, key: &[u8], pt: &[u8], ct: &mut Vec<u8>) -> (r: Result<
    (),
    Error,
>)
    ensures
        extends(old(ct)@, final(ct)@),
        r is Ok ==> aead_encrypts_to(alg, key@, pt@, appended(old(ct)@, final(ct)@)),
{
    let nonce_bytes = match fill_random(NONCE_LEN) {
        Some(b) => b,
        None => {
            assert(old(ct)@.take(old(ct)@.len() as int) =~= old(ct)@);
            return Err(Error::RandomnessUnavailable);
        },
    };
    let nonce: [u8; 12] = [
        nonce_bytes[0],
        nonce_bytes[1],
        nonce_bytes[2],
        nonce_bytes[3],
        nonce_bytes[4],
        nonce_bytes[5],
        nonce_bytes[6],
        nonce_bytes[7],
        nonce_bytes[8],
        nonce_bytes[9],
        nonce_bytes[10],
        nonce_bytes[11],
    ];
    let ghost start = ct@;
    let r = seal_with_nonce(alg, key, nonce, pt, ct);
    proof {
        assert(ct@.take(start.len() as int) =~= start);
        if r is Ok {
            let c = appended(start, ct@);
            assert(c =~= nonce@ + aead_seal_of(alg, key@, nonce@, pt@));
            assert(c.take(NONCE_LEN as int) =~= nonce@);
            assert(c.skip(NONCE_LEN as int) =~= aead_seal_of(alg, key@, nonce@, pt@));
        }
    }
    r
}

/// Decrypts `ct` (a nonce and the sealed bytes), appending the plaintext to
/// `pt`. A ciphertext shorter than a nonce is malformed; one that does not
/// open is an integrity failure.
pub fn aead_decrypt(alg: AeadAlgorithm, key: &[u8], ct: &[u8], pt: &mut Vec<u8>) -> (r: Result<
    (),
    Error,
>)
    ensures
        extends(old(pt)@, final(pt)@),
        aead_decrypts_to(
            alg,
            key@,
            ct@,
            if r is Ok {
                Some(appended(old(pt)@, final(pt)@))
            } else {
                None
            },
        ),
        ct@.len() < NONCE_LEN ==> r == Err::<(), Error>(Error::MalformedCiphertext),
        ct@.len() >= NONCE_LEN && aead_open_of(
            alg,
            key@,
            ct@.take(NONCE_LEN as int),
            ct@.skip(NONCE_LEN as int),
        ) is None ==> r == Err::<(), Error>(Error::IntegrityFailure),
{
    let ghost start = pt@;
    assert(start.take(start.len() as int) =~= start);
    if ct.len() < NONCE_LEN {
        return Err(Error::MalformedCiphertext);
    }
    let nonce: [u8; 12] = [
        ct[0],
        ct[1],
        ct[2],
        ct[3],
        ct[4],
        ct[5],
        ct[6],
        ct[7],
        ct[8],
        ct[9],
        ct[10],
        ct[11],
    ];
    assert(nonce@ =~= ct@.take(NONCE_LEN as int));
    let sealed = slice_from(ct, NONCE_LEN);
    match aead_open(alg, key, nonce, sealed.as_slice()) {
        None => Err(Error::IntegrityFailure),
        Some(p) => {
            append_bytes(pt, p.as_slice());
            assert(pt@.take(start.len() as int) =~= start);
            assert(appended(start, pt@) =~= p@);
            Ok(())
        },
    }
}

/// Decrypting what `aead_encrypt` produced gives the plaintext back.
pub proof fn lemma_aead_round_trip(
    alg: AeadAlgorithm,
    key: Seq<u8>,
    pt: Seq<u8>,
    ct: Seq<u8>,
    out: Option<Seq<u8>>,
)
    requires
        aead_encrypts_to(alg, key, pt, ct),
        aead_decrypts_to(alg, key, ct, out),
    ensures
        out == Some(pt),
{
}

/// The encoding of the sum (and of the difference) of two keys of the AEAD
/// ciphers: their bytes combined by exclusive or.
pub open spec fn xor_bytes(a: Seq<u8>, b: Seq<u8>) -> Seq<u8> {
    Seq::new(
        if a.len() <= b.len() {
            a.len()
        } else {
            b.len()
        },
        |i: int| a[i] ^ b[i],
    )
}

/// Combines two keys by exclusive or, byte by byte, over the shorter length.
fn xor_keys(a: &Vec<u8>, b: &Vec<u8>) -> (r: Vec<u8>)
    ensures
        r@ == xor_bytes(a@, b@),
{
    let n = if a.len() <= b.len() {
        a.len()
    } else {
        b.len()
    };
    let mut out: Vec<u8> = Vec::new();
    let mut i: usize = 0;
    while i < n
        invariant
            i <= n,
            n <= a@.len(),
            n <= b@.len(),
            out@ =~= xor_bytes(a@, b@).take(i as int),
            n == xor_bytes(a@, b@).len(),
        decreases n - i,
    {
        out.push(a[i] ^ b[i]);
        i = i + 1;
    }
    out
}

/// Reads the first `len` bytes of `key_in` as a key.
fn read_key_bytes(key_in: &[u8], len: usize) -> (r: Result<Vec<u8>, Error>)
    ensures
        r is Ok <==> key_in@.len() >= len,
        r is Ok ==> r->Ok_0@ == key_in@.take(len as int),
        r is Err ==> r == Err::<Vec<u8>, Error>(Error::MalformedCiphertext),
{
    if key_in.len() < len {
        return Err(Error::MalformedCiphertext);
    }
    let mut out: Vec<u8> = Vec::new();
    let mut i: usize = 0;
    while i < len
        invariant
            i <= len <= key_in@.len(),
            out@ =~= key_in@.take(i as int),
        decreases len - i,
    {
        out.push(key_in[i]);
        i = i + 1;
    }
    Ok(out)
}

proof fn lemma_xor_add_sub(a: Seq<u8>, b: Seq<u8>)
    requires
        a.len() == b.len(),
    ensures
        xor_bytes(xor_bytes(a, b), b) == a,
{
    assert forall|i: int| 0 <= i < a.len() implies #[trigger] xor_bytes(xor_bytes(a, b), b)[i]
        == a[i] by {
        let x = a[i];
        let y = b[i];
        assert((x ^ y) ^ y == x) by (bit_vector);
    }
    assert(xor_bytes(xor_bytes(a, b), b) =~= a);
}

proof fn lemma_xor_shift(a: Seq<u8>, b: Seq<u8>, c: Seq<u8>)
    requires
        a.len() == b.len(),
        b.len() == c.len(),
    ensures
        xor_bytes(xor_bytes(a, c), xor_bytes(b, c)) == xor_bytes(a, b),
{
    assert forall|i: int| 0 <= i < a.len() implies #[trigger] xor_bytes(
        xor_bytes(a, c),
        xor_bytes(b, c),
    )[i] == xor_bytes(a, b)[i] by {
        let x = a[i];
        let y = b[i];
        let z = c[i];
        assert((x ^ z) ^ (y ^ z) == x ^ y) by (bit_vector);
    }
    assert(xor_bytes(xor_bytes(a, c), xor_bytes(b, c)) =~= xor_bytes(a, b));
}

/// AES-128-GCM from *ring*.
pub struct RingAes;

/// ChaCha20-Poly1305 from *ring*.
pub struct RingChaCha;

/// A key of `RingAes`: 16 raw bytes.
#[derive(Clone, Debug, PartialEq)]
pub struct AesKey128(pub Vec<u8>);

/// A key of `RingChaCha`: 32 raw bytes.
#[derive(Clone, Debug, PartialEq)]
pub struct ChaChaKey128(pub Vec<u8>);

impl Key for AesKey128 {
    open spec fn key_bytes(&self) -> Seq<u8> {
        self.0@
    }

    open spec fn key_size() -> nat {
        16
    }

    open spec fn accepts(bytes: Seq<u8>) -> bool {
        true
    }

    fn key_len() -> (n: usize) {
        16
    }

    fn read_key(key_in: &[u8]) -> (r: Result<Self, Error>) {
        let bytes = read_key_bytes(key_in, 16)?;
        Ok(AesKey128(bytes))
    }

    fn write_key(&self, key_out: &mut Vec<u8>) {
        append_bytes(key_out, self.0.as_slice());
    }
}

impl KeyAlgebra for AesKey128 {
    open spec fn sum_bytes(a: Seq<u8>, b: Seq<u8>) -> Seq<u8> {
        xor_bytes(a, b)
    }

    open spec fn difference_bytes(a: Seq<u8>, b: Seq<u8>) -> Seq<u8> {
        xor_bytes(a, b)
    }

    fn add(&self, other: &Self) -> (r: Self) {
        AesKey128(xor_keys(&self.0, &other.0))
    }

    fn sub(&self, other: &Self) -> (r: Self) {
        AesKey128(xor_keys(&self.0, &other.0))
    }

    proof fn lemma_sum_valid(a: Seq<u8>, b: Seq<u8>) {
    }

    proof fn lemma_difference_shift(a: Seq<u8>, b: Seq<u8>, c: Seq<u8>) {
        lemma_xor_shift(a, b, c);
    }

    proof fn lemma_add_sub(a: Seq<u8>, b: Seq<u8>) {
        lemma_xor_add_sub(a, b);
    }
}

impl Cipher for RingAes {
    type K = AesKey128;

    open spec fn encrypts_to(key: Seq<u8>, pt: Seq<u8>, ct: Seq<u8>) -> bool {
        aead_encrypts_to(AeadAlgorithm::Aes128Gcm, key, pt, ct)
    }

    open spec fn decrypts_to(key: Seq<u8>, ct: Seq<u8>, out: Option<Seq<u8>>) -> bool {
        aead_decrypts_to(AeadAlgorithm::Aes128Gcm, key, ct, out)
    }

    fn keygen() -> (r: Result<Self::K, Error>) {
        match fill_random(16) {
            Some(bytes) => Ok(AesKey128(bytes)),
            None => Err(Error::RandomnessUnavailable),
        }
    }

    fn encrypt(key: Self::K, pt: &[u8], ct: &mut Vec<u8>) -> (r: Result<(), Error>) {
        aead_encrypt(AeadAlgorithm::Aes128Gcm, key.0.as_slice(), pt, ct)
    }

    fn decrypt(key: Self::K, ct: &[u8], pt: &mut Vec<u8>) -> (r: Result<(), Error>) {
        aead_decrypt(AeadAlgorithm::Aes128Gcm, key.0.as_slice(), ct, pt)
    }
}

impl ExactCipher for RingAes {
    proof fn lemma_round_trip(key: Seq<u8>, pt: Seq<u8>, ct: Seq<u8>, out: Option<Seq<u8>>) {
        lemma_aead_round_trip(AeadAlgorithm::Aes128Gcm, key, pt, ct, out);
    }
}

impl Key for ChaChaKey128 {
    open spec fn key_bytes(&self) -> Seq<u8> {
        self.0@
    }

    open spec fn key_size() -> nat {
        32
    }

    open spec fn accepts(bytes: Seq<u8>) -> bool {
        true
    }

    fn key_len() -> (n: usize) {
        32
    }

    fn read_key(key_in: &[u8]) -> (r: Result<Self, Error>) {
        let bytes = read_key_bytes(key_in, 32)?;
        Ok(ChaChaKey128(bytes))
    }

    fn write_key(&self, key_out: &mut Vec<u8>) {
        append_bytes(key_out, self.0.as_slice());
    }
}

impl KeyAlgebra for ChaChaKey128 {
    open spec fn sum_bytes(a: Seq<u8>, b: Seq<u8>) -> Seq<u8> {
        xor_bytes(a, b)
    }

    open spec fn difference_bytes(a: Seq<u8>, b: Seq<u8>) -> Seq<u8> {
        xor_bytes(a, b)
    }

    fn add(&self, other: &Self) -> (r: Self) {
        ChaChaKey128(xor_keys(&self.0, &other.0))
    }

    fn sub(&self, other: &Self) -> (r: Self) {
        ChaChaKey128(xor_keys(&self.0, &other.0))
    }

    proof fn lemma_sum_valid(a: Seq<u8>, b: Seq<u8>) {
    }

    proof fn lemma_difference_shift(a: Seq<u8>, b: Seq<u8>, c: Seq<u8>) {
        lemma_xor_shift(a, b, c);
    }

    proof fn lemma_add_sub(a: Seq<u8>, b: Seq<u8>) {
        lemma_xor_add_sub(a, b);
    }
}

impl Cipher for RingChaCha {
    type K = ChaChaKey128;

    open spec fn encrypts_to(key: Seq<u8>, pt: Seq<u8>, ct: Seq<u8>) -> bool {
        aead_encrypts_to(AeadAlgorithm::ChaCha20Poly1305, key, pt, ct)
    }

    open spec fn decrypts_to(key: Seq<u8>, ct: Seq<u8>, out: Option<Seq<u8>>) -> bool {
        aead_decrypts_to(AeadAlgorithm::ChaCha20Poly1305, key, ct, out)
    }

    fn keygen() -> (r: Result<Self::K, Error>) {
        match fill_random(32) {
            Some(bytes) => Ok(ChaChaKey128(bytes)),
            None => Err(Error::RandomnessUnavailable),
        }
    }

    fn encrypt(key: Self::K, pt: &[u8], ct: &mut Vec<u8>) -> (r: Result<(), Error>) {
        aead_encrypt(AeadAlgorithm::ChaCha20Poly1305, key.0.as_slice(), pt, ct)
    }

    fn decrypt(key: Self::K, ct: &[u8], pt: &mut Vec<u8>) -> (r: Result<(), Error>) {
        aead_decrypt(AeadAlgorithm::ChaCha20Poly1305, key.0.as_slice(), ct, pt)
    }
}

impl ExactCipher for RingChaCha {
    proof fn lemma_round_trip(key: Seq<u8>, pt: Seq<u8>, ct: Seq<u8>, out: Option<Seq<u8>>) {
        lemma_aead_round_trip(AeadAlgorithm::ChaCha20Poly1305, key, pt, ct, out);
    }
}

} // verus!
