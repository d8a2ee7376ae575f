//! The updatable schemes: `Kss` (KEM-DEM with secret sharing) and `ReCrypt`.
use vstd::prelude::*;

use super::naive::{copy_through, holds_key, lemma_nothing_appended};
use crate::common::{h, sha256_of};
use crate::io::{append_bytes, read_chunk, slice_from};
use crate::kh_prf::{
    lemma_kh_round_trip,
    block_ciphertext, block_plaintext, block_update, decrypt_block, encrypt_block, group_order,
    kh_blocks_invert, kh_blocks_update, kh_ciphertext, lemma_kh_reencrypt, kh_key_bytes, kh_plaintext, kh_reencryption, key_counter,
    key_scalar, le_nat, reduced, update_block, KhKey, KhPrf,
};
use crate::{
    appended, extends, Cipher, Error, ExactCipher, ExactUpEnc, Key, KeyAlgebra, UpEnc,
    UpEncCtxtIndep,
};

verus! {

/// `KSS` scheme: KEM-DEM with secret sharing.
///
/// Encryption is computed as:
/// ```text
/// E(k, m) = (A(k, x+y || H(C)), y || C)   where C = B(x, m)
/// ```
/// for fresh keys `x, y` of `B`. A rotation draws a new share `y'` and moves
/// the header to `x+y+y'` and the body's share to `y+y'`; the data encryption
/// key `x`, and so the body's ciphertext `C`, are not changed.
pub struct Kss<A, B> {
    kem_cipher: std::marker::PhantomData<A>,
    dem_cipher: std::marker::PhantomData<B>,
}

/// The share `y` (or the key `chi`) at the start of `bytes`.
pub open spec fn share_of<K: Key>(bytes: Seq<u8>) -> Seq<u8> {
    bytes.take(K::key_size() as int)
}

/// What follows the share at the start of `bytes`.
pub open spec fn after_share<K: Key>(bytes: Seq<u8>) -> Seq<u8> {
    bytes.skip(K::key_size() as int)
}

/// Whether, with `hp` the header's plaintext `chi || tau`, `hdr` and `body`
/// are a `Kss` encryption of `pt` under `key`: the body is `y || C` with
/// `tau` the digest of `C` and `C` an encryption of `pt` under `chi - y`.
pub open spec fn kss_encrypts_with<A: Cipher, B: Cipher>(
    key: Seq<u8>,
    hp: Seq<u8>,
    pt: Seq<u8>,
    hdr: Seq<u8>,
    body: Seq<u8>,
) -> bool where B::K: KeyAlgebra {
    let chi = share_of::<B::K>(hp);
    let y = share_of::<B::K>(body);
    let c = after_share::<B::K>(body);
    &&& A::encrypts_to(key, hp, hdr)
    &&& holds_key::<B::K>(hp)
    &&& holds_key::<B::K>(body)
    &&& after_share::<B::K>(hp) == sha256_of(c)
    &&& B::encrypts_to(B::K::difference_bytes(chi, y), pt, c)
}

/// The outcome of `Kss` decryption once the header has given `hp`.
pub open spec fn kss_body_outcome<B: Cipher>(
    hp: Option<Seq<u8>>,
    body: Seq<u8>,
    out: Option<Seq<u8>>,
) -> bool where B::K: KeyAlgebra {
    match hp {
        None => out is None,
        Some(p) => if !holds_key::<B::K>(p) || !holds_key::<B::K>(body) {
            out is None
        } else if after_share::<B::K>(p) != sha256_of(after_share::<B::K>(body)) {
            out is None
        } else {
            B::decrypts_to(
                B::K::difference_bytes(share_of::<B::K>(p), share_of::<B::K>(body)),
                after_share::<B::K>(body),
                out,
            )
        },
    }
}

/// The error of `Kss` decryption once the header has given `hp`: a digest of
/// the ciphertext that differs from the tag is an integrity failure.
pub open spec fn kss_decrypt_error<B: Cipher>(
    hp: Option<Seq<u8>>,
    body: Seq<u8>,
    r: Result<(), Error>,
) -> bool where B::K: KeyAlgebra {
    match hp {
        None => r is Err,
        Some(p) => if !holds_key::<B::K>(p) || !holds_key::<B::K>(body) {
            r is Err
        } else if after_share::<B::K>(p) != sha256_of(after_share::<B::K>(body)) {
            r == Err::<(), Error>(Error::IntegrityFailure)
        } else {
            true
        },
    }
}

/// Whether `token` is `y' || A(k2, chi + y' || tau)` for a new share `y'`,
/// where `hdr` decrypts under `k1` to `chi || tau`.
pub open spec fn kss_token_with<A: Cipher, B: Cipher>(
    k1: Seq<u8>,
    k2: Seq<u8>,
    hdr: Seq<u8>,
    hp: Seq<u8>,
    token: Seq<u8>,
) -> bool where B::K: KeyAlgebra {
    let y_new = share_of::<B::K>(token);
    &&& A::decrypts_to(k1, hdr, Some(hp))
    &&& holds_key::<B::K>(hp)
    &&& holds_key::<B::K>(token)
    &&& A::encrypts_to(
        k2,
        B::K::sum_bytes(share_of::<B::K>(hp), y_new) + after_share::<B::K>(hp),
        after_share::<B::K>(token),
    )
}

/// Whether `token` is a `Kss` token from `k1` to `k2` for `hdr`.
pub open spec fn kss_token<A: Cipher, B: Cipher>(
    k1: Seq<u8>,
    k2: Seq<u8>,
    hdr: Seq<u8>,
    token: Seq<u8>,
) -> bool where B::K: KeyAlgebra {
    exists|hp: Seq<u8>| #[trigger] kss_token_with::<A, B>(k1, k2, hdr, hp, token)
}

/// What `Kss` re-encryption gives: the header from the token, and the body
/// with its share `y` moved to `y + y'`.
pub open spec fn kss_reencrypted<B: Cipher>(token: Seq<u8>, body: Seq<u8>) -> (Seq<u8>, Seq<u8>) where
    B::K: KeyAlgebra,
 {
    (
        after_share::<B::K>(token),
        B::K::sum_bytes(share_of::<B::K>(body), share_of::<B::K>(token)) + after_share::<B::K>(
            body,
        ),
    )
}

/// Reads the key at the start of `bytes` and returns it with what follows.
fn split_key<K: Key>(bytes: &[u8]) -> (r: Result<(K, Vec<u8>), Error>)
    ensures
        r is Ok <==> holds_key::<K>(bytes@),
        r is Ok ==> r->Ok_0.0.key_bytes() == share_of::<K>(bytes@) && r->Ok_0.1@ == after_share::<
            K,
        >(bytes@),
{
    let k = K::read_key(bytes)?;
    let rest = slice_from(bytes, K::key_len());
    Ok((k, rest))
}

/// Whether two byte strings are equal.
fn bytes_eq(a: &[u8], b: &[u8]) -> (r: bool)
    ensures
        r == (a@ == b@),
{
    if a.len() != b.len() {
        return false;
    }
    let mut i: usize = 0;
    while i < a.len()
        invariant
            a@.len() == b@.len(),
            i <= a@.len(),
            forall|j: int| 0 <= j < i ==> a@[j] == b@[j],
        decreases a.len() - i,
    {
        if a[i] != b[i] {
            return false;
        }
        i = i + 1;
    }
    assert(a@ =~= b@);
    true
}

impl<A: Cipher, B: Cipher> UpEnc for Kss<A, B> where B::K: KeyAlgebra {
    type K = A::K;

    open spec fn encrypts_to(key: Seq<u8>, pt: Seq<u8>, hdr: Seq<u8>, body: Seq<u8>) -> bool {
        exists|hp: Seq<u8>| #[trigger] kss_encrypts_with::<A, B>(key, hp, pt, hdr, body)
    }

    open spec fn decrypts_to(key: Seq<u8>, hdr: Seq<u8>, body: Seq<u8>, out: Option<Seq<u8>>) -> bool {
        exists|hp: Option<Seq<u8>>|
            #[trigger] A::decrypts_to(key, hdr, hp) && kss_body_outcome::<B>(hp, body, out)
    }

    open spec fn token_for(k1: Seq<u8>, k2: Seq<u8>, hdr: Seq<u8>, out: Option<Seq<u8>>) -> bool {
        match out {
            Some(token) => kss_token::<A, B>(k1, k2, hdr, token),
            None => true,
        }
    }

    open spec fn reencrypts_to(
        token: Seq<u8>,
        hdr: Seq<u8>,
        body: Seq<u8>,
        out: Option<(Seq<u8>, Seq<u8>)>,
    ) -> bool {
        if holds_key::<B::K>(token) && holds_key::<B::K>(body) {
            out == Some(kss_reencrypted::<B>(token, body))
        } else {
            out is None
        }
    }

    fn keygen() -> (r: Result<Self::K, Error>) {
        A::keygen()
    }

    fn rekeygen(k1: Self::K, k2: Self::K, ct_hdr: &[u8], token: &mut Vec<u8>) -> (r: Result<
        (),
        Error,
    >)
        ensures
            r is Err ==> final(token)@ == old(token)@,
    {
        proof {
            lemma_nothing_appended(token@);
        }
        let ghost kb1 = k1.key_bytes();
        let mut buf: Vec<u8> = Vec::new();
        let d = A::decrypt(k1, ct_hdr, &mut buf);
        assert(appended(Seq::<u8>::empty(), buf@) =~= buf@);
        if d.is_err() {
            return d;
        }
        let y_new = B::keygen()?;
        let (chi, tau) = split_key::<B::K>(buf.as_slice())?;
        let rk = chi.add(&y_new);
        let mut hp: Vec<u8> = Vec::new();
        rk.write_key(&mut hp);
        append_bytes(&mut hp, tau.as_slice());
        let mut sealed: Vec<u8> = Vec::new();
        let e = A::encrypt(k2, hp.as_slice(), &mut sealed);
        assert(appended(Seq::<u8>::empty(), sealed@) =~= sealed@);
        if e.is_err() {
            return e;
        }
        let mut out: Vec<u8> = Vec::new();
        y_new.write_key(&mut out);
        append_bytes(&mut out, sealed.as_slice());
        let ghost t0 = token@;
        append_bytes(token, out.as_slice());
        proof {
            assert(token@.take(t0.len() as int) =~= t0);
            let t = appended(t0, token@);
            assert(t =~= y_new.key_bytes() + sealed@);
            assert(t.take(B::K::key_size() as int) =~= y_new.key_bytes());
            assert(after_share::<B::K>(t) =~= sealed@);
            assert(hp@ =~= B::K::sum_bytes(share_of::<B::K>(buf@), share_of::<B::K>(t))
                + after_share::<B::K>(buf@));
            assert(kss_token_with::<A, B>(kb1, k2.key_bytes(), ct_hdr@, buf@, t));
            assert(kss_token::<A, B>(kb1, k2.key_bytes(), ct_hdr@, t));
        }
        Ok(())
    }

    fn encrypt(key: Self::K, pt: &[u8], ct_hdr: &mut Vec<u8>, ct_body: &mut Vec<u8>) -> (r:
        Result<(), Error>) {
        proof {
            lemma_nothing_appended(ct_hdr@);
            lemma_nothing_appended(ct_body@);
        }
        let ghost kb = key.key_bytes();
        let x = B::keygen()?;
        let y = B::keygen()?;
        let chi = x.add(&y);
        let ghost xb = x.key_bytes();
        let mut c: Vec<u8> = Vec::new();
        let e = B::encrypt(x, pt, &mut c);
        assert(appended(Seq::<u8>::empty(), c@) =~= c@);
        if e.is_err() {
            return e;
        }
        let tau = h(c.as_slice());
        let mut hp: Vec<u8> = Vec::new();
        chi.write_key(&mut hp);
        append_bytes(&mut hp, tau.as_slice());
        let ghost b0 = ct_body@;
        y.write_key(ct_body);
        append_bytes(ct_body, c.as_slice());
        let r = A::encrypt(key, hp.as_slice(), ct_hdr);
        proof {
            let body = appended(b0, ct_body@);
            assert(ct_body@.take(b0.len() as int) =~= b0);
            assert(body =~= y.key_bytes() + c@);
            B::K::lemma_sum_valid(xb, y.key_bytes());
            B::K::lemma_add_sub(xb, y.key_bytes());
            assert(share_of::<B::K>(hp@) =~= chi.key_bytes());
            assert(after_share::<B::K>(hp@) =~= tau@);
            assert(share_of::<B::K>(body) =~= y.key_bytes());
            assert(after_share::<B::K>(body) =~= c@);
            if r is Ok {
                assert(kss_encrypts_with::<A, B>(
                    kb,
                    hp@,
                    pt@,
                    appended(old(ct_hdr)@, ct_hdr@),
                    body,
                ));
            }
        }
        r
    }

    fn reencrypt(
        rk: &[u8],
        ct1_hdr: &[u8],
        ct1_body: &[u8],
        ct2_hdr: &mut Vec<u8>,
        ct2_body: &mut Vec<u8>,
    ) -> (r: Result<(), Error>) {
        proof {
            lemma_nothing_appended(ct2_hdr@);
            lemma_nothing_appended(ct2_body@);
        }
        let (y_new, new_hdr) = split_key::<B::K>(rk)?;
        let (y, c) = split_key::<B::K>(ct1_body)?;
        let ghost b0 = ct2_body@;
        let yy = y.add(&y_new);
        yy.write_key(ct2_body);
        append_bytes(ct2_body, c.as_slice());
        copy_through(new_hdr.as_slice(), ct2_hdr);
        proof {
            assert(ct2_body@.take(b0.len() as int) =~= b0);
            assert(appended(b0, ct2_body@) =~= kss_reencrypted::<B>(rk@, ct1_body@).1);
        }
        Ok(())
    }

    fn decrypt(key: Self::K, ct_hdr: &[u8], ct_body: &[u8], pt: &mut Vec<u8>) -> (r: Result<
        (),
        Error,
    >)
        ensures
            r is Err ==> final(pt)@ == old(pt)@,
            exists|hp: Option<Seq<u8>>|
                #[trigger] A::decrypts_to(key.key_bytes(), ct_hdr@, hp) && kss_decrypt_error::<B>(
                    hp,
                    ct_body@,
                    r,
                ) && kss_body_outcome::<B>(
                    hp,
                    ct_body@,
                    if r is Ok {
                        Some(appended(old(pt)@, final(pt)@))
                    } else {
                        None
                    },
                ),
    {
        proof {
            lemma_nothing_appended(pt@);
        }
        let ghost kb = key.key_bytes();
        let mut buf: Vec<u8> = Vec::new();
        let d = A::decrypt(key, ct_hdr, &mut buf);
        assert(appended(Seq::<u8>::empty(), buf@) =~= buf@);
        if d.is_err() {
            assert(A::decrypts_to(kb, ct_hdr@, None));
            assert(kss_decrypt_error::<B>(None, ct_body@, d));
            return d;
        }
        assert(A::decrypts_to(kb, ct_hdr@, Some(buf@)));
        let (chi, tau) = match split_key::<B::K>(buf.as_slice()) {
            Ok(v) => v,
            Err(e) => {
                assert(kss_decrypt_error::<B>(Some(buf@), ct_body@, Err(e)));
                return Err(e);
            },
        };
        let (y, c) = match split_key::<B::K>(ct_body) {
            Ok(v) => v,
            Err(e) => {
                assert(kss_decrypt_error::<B>(Some(buf@), ct_body@, Err(e)));
                return Err(e);
            },
        };
        // The tag covers the ciphertext, so it is checked before any
        // plaintext is produced.
        let tau_check = h(c.as_slice());
        if !bytes_eq(tau.as_slice(), tau_check.as_slice()) {
            assert(kss_decrypt_error::<B>(Some(buf@), ct_body@, Err(Error::IntegrityFailure)));
            return Err(Error::IntegrityFailure);
        }
        let x = chi.sub(&y);
        let mut m: Vec<u8> = Vec::new();
        let r = B::decrypt(x, c.as_slice(), &mut m);
        assert(appended(Seq::<u8>::empty(), m@) =~= m@);
        if r.is_err() {
            assert(kss_body_outcome::<B>(Some(buf@), ct_body@, None));
            assert(kss_decrypt_error::<B>(Some(buf@), ct_body@, r));
            return r;
        }
        copy_through(m.as_slice(), pt);
        assert(kss_body_outcome::<B>(Some(buf@), ct_body@, Some(m@)));
        assert(kss_decrypt_error::<B>(Some(buf@), ct_body@, r));
        r
    }
}

/// `Kss` decrypts what it encrypts.
pub proof fn lemma_kss_round_trip<A: ExactCipher, B: ExactCipher>(
    key: Seq<u8>,
    pt: Seq<u8>,
    hdr: Seq<u8>,
    body: Seq<u8>,
    out: Option<Seq<u8>>,
)
    where
        B::K: KeyAlgebra,
    requires
        Kss::<A, B>::encrypts_to(key, pt, hdr, body),
        Kss::<A, B>::decrypts_to(key, hdr, body, out),
    ensures
        out == Some(pt),
{
    let hp = choose|hp: Seq<u8>| #[trigger] kss_encrypts_with::<A, B>(key, hp, pt, hdr, body);
    let o = choose|o: Option<Seq<u8>>|
        #[trigger] A::decrypts_to(key, hdr, o) && kss_body_outcome::<B>(o, body, out);
    A::lemma_round_trip(key, hp, hdr, o);
    let x = B::K::difference_bytes(share_of::<B::K>(hp), share_of::<B::K>(body));
    B::lemma_round_trip(x, pt, after_share::<B::K>(body), out);
}

/// A rotation of `Kss` gives a ciphertext of the same plaintext under the
/// second key: the shares change, their difference (the data key) does not.
pub proof fn lemma_kss_rotation<A: ExactCipher, B: ExactCipher>(
    k1: Seq<u8>,
    k2: Seq<u8>,
    pt: Seq<u8>,
    hdr: Seq<u8>,
    body: Seq<u8>,
    token: Seq<u8>,
    hdr2: Seq<u8>,
    body2: Seq<u8>,
)
    where
        B::K: KeyAlgebra,
    requires
        Kss::<A, B>::encrypts_to(k1, pt, hdr, body),
        Kss::<A, B>::token_for(k1, k2, hdr, Some(token)),
        Kss::<A, B>::reencrypts_to(token, hdr, body, Some((hdr2, body2))),
    ensures
        Kss::<A, B>::encrypts_to(k2, pt, hdr2, body2),
{
    let s = B::K::key_size() as int;
    let hp = choose|hp: Seq<u8>| #[trigger] kss_encrypts_with::<A, B>(k1, hp, pt, hdr, body);
    let hq = choose|hq: Seq<u8>| #[trigger] kss_token_with::<A, B>(k1, k2, hdr, hq, token);
    A::lemma_round_trip(k1, hp, hdr, Some(hq));
    let chi = share_of::<B::K>(hp);
    let y = share_of::<B::K>(body);
    let y_new = share_of::<B::K>(token);
    let c = after_share::<B::K>(body);
    B::K::lemma_sum_valid(chi, y_new);
    B::K::lemma_sum_valid(y, y_new);
    B::K::lemma_difference_shift(chi, y, y_new);
    let hp2 = B::K::sum_bytes(chi, y_new) + after_share::<B::K>(hp);
    assert(share_of::<B::K>(hp2) =~= B::K::sum_bytes(chi, y_new));
    assert(after_share::<B::K>(hp2) =~= after_share::<B::K>(hp));
    assert(share_of::<B::K>(body2) =~= B::K::sum_bytes(y, y_new));
    assert(after_share::<B::K>(body2) =~= c);
    assert(kss_encrypts_with::<A, B>(k2, hp2, pt, hdr2, body2));
}

impl<A: ExactCipher, B: ExactCipher> ExactUpEnc for Kss<A, B> where B::K: KeyAlgebra {
    proof fn lemma_up_round_trip(
        key: Seq<u8>,
        pt: Seq<u8>,
        hdr: Seq<u8>,
        body: Seq<u8>,
        out: Option<Seq<u8>>,
    ) {
        lemma_kss_round_trip::<A, B>(key, pt, hdr, body, out);
    }

    proof fn lemma_up_rotation(
        k1: Seq<u8>,
        k2: Seq<u8>,
        pt: Seq<u8>,
        hdr: Seq<u8>,
        body: Seq<u8>,
        token: Seq<u8>,
        hdr2: Seq<u8>,
        body2: Seq<u8>,
    ) {
        lemma_kss_rotation::<A, B>(k1, k2, pt, hdr, body, token, hdr2, body2);
    }
}

/// ReCrypt updatable encryption.
///
/// This scheme meets the strongest set of security notions: a rotation
/// (`rekeygen` followed by `reencrypt`) refreshes the entire ciphertext.
/// With `x, y` fresh keys of the key-homomorphic PRF:
/// ```text
/// E(k, m) = (A(k, x+y || tau), y || C)   where C = KhPrf(x, m)
///                                          tau = H(m)[..31] + F(x, 0)
/// ```
/// A rotation draws `x', y'`, moves the header to `x+y+x'+y'` and `tau + F(x', 0)`,
/// the body's share to `y+y'`, and every block of `C` from `x` to `x+x'`.
pub struct ReCrypt<A, B> {
    kem_cipher: std::marker::PhantomData<A>,
    upenc_cipher: std::marker::PhantomData<B>,
}

/// Size of the plaintext of a `ReCrypt` header: the key `chi` and the tag.
pub open spec fn recrypt_header_size() -> nat {
    33 + 32
}

/// Whether `bytes` holds a `KhKey` at its start.
pub open spec fn holds_kh_key(bytes: Seq<u8>) -> bool {
    holds_key::<KhKey>(bytes)
}

/// The scalar of the `KhKey` at the start of `bytes`.
pub open spec fn kh_scalar_at(bytes: Seq<u8>) -> nat {
    le_nat(bytes.take(32))
}

/// The sum modulo the group order.
pub open spec fn mod_sum(a: nat, b: nat) -> nat {
    (a + b) % group_order()
}

/// The scalar of the data key `x = chi - y`, where the header's plaintext `hp`
/// starts with `chi` and the body with `y`.
pub open spec fn data_scalar(hp: Seq<u8>, body: Seq<u8>) -> nat {
    ((kh_scalar_at(hp) - kh_scalar_at(body)) % (group_order() as int)) as nat
}

/// The block that the tag encrypts: the first 31 bytes of the plaintext's
/// digest.
pub open spec fn tag_block(pt: Seq<u8>) -> Seq<u8> {
    sha256_of(pt).take(31)
}

/// Whether a header plaintext `hp` (`chi || tau`) and a body (`y || C`) have
/// the layout of `ReCrypt`, with the counters of `chi` and `y` equal.
pub open spec fn recrypt_well_formed(hp: Seq<u8>, body: Seq<u8>) -> bool {
    &&& hp.len() == recrypt_header_size()
    &&& holds_kh_key(hp)
    &&& holds_kh_key(body)
    &&& body[32] == hp[32]
}

/// Whether, with `hp` the header's plaintext `chi || tau`, `hdr` and `body`
/// are a `ReCrypt` encryption of `pt` under `key`: the body's blocks encrypt
/// `pt` under `x = chi - y` from the counter of `chi`, and `tau` encrypts the
/// digest's first 31 bytes under `x` at counter 0.
pub open spec fn recrypt_encrypts_with<A: Cipher>(
    key: Seq<u8>,
    hp: Seq<u8>,
    pt: Seq<u8>,
    hdr: Seq<u8>,
    body: Seq<u8>,
) -> bool {
    &&& A::encrypts_to(key, hp, hdr)
    &&& recrypt_well_formed(hp, body)
    &&& hp[32] == 1
    &&& tag_block(pt).len() == 31
    &&& kh_ciphertext(data_scalar(hp, body), hp[32] as nat, pt) == Some(body.skip(33))
    &&& block_ciphertext(data_scalar(hp, body), tag_block(pt), 0) == Some(hp.skip(33))
}

/// What `ReCrypt` decryption gives once the header has given `hp`: the body
/// decrypted under `x = chi - y`, where the tag decrypts to the first 31 bytes
/// of its digest.
pub open spec fn recrypt_plaintext(hp: Seq<u8>, body: Seq<u8>) -> Option<Seq<u8>> {
    if !recrypt_well_formed(hp, body) {
        None
    } else {
        let x = data_scalar(hp, body);
        match kh_plaintext(x, hp[32] as nat, body.skip(33)) {
            Some(m) => if block_plaintext(x, hp.skip(33), 0) == Some(tag_block(m)) {
                Some(m)
            } else {
                None
            },
            None => None,
        }
    }
}

/// The error of `ReCrypt` decryption once the header has given `hp`: a
/// malformed layout, a body or tag that does not decode, or a tag that does not
/// match the digest of the plaintext, each with its own error.
pub open spec fn recrypt_decrypt_error(hp: Option<Seq<u8>>, body: Seq<u8>, r: Result<(), Error>) -> bool {
    match hp {
        None => r is Err,
        Some(p) => if !recrypt_well_formed(p, body) {
            r == Err::<(), Error>(Error::MalformedCiphertext)
        } else {
            let x = data_scalar(p, body);
            match kh_plaintext(x, p[32] as nat, body.skip(33)) {
                None => r == Err::<(), Error>(Error::MalformedCiphertext) || r == Err::<(), Error>(
                    Error::InvalidEncoding,
                ),
                Some(m) => match block_plaintext(x, p.skip(33), 0) {
                    None => r == Err::<(), Error>(Error::InvalidEncoding),
                    Some(t) => if t != tag_block(m) {
                        r == Err::<(), Error>(Error::IntegrityFailure)
                    } else {
                        r is Ok
                    },
                },
            }
        },
    }
}

/// Decryption inverts encryption on the body's blocks and on the tag.
pub open spec fn recrypt_inverts(hp: Seq<u8>, body: Seq<u8>) -> bool {
    recrypt_well_formed(hp, body) ==> {
        &&& kh_blocks_invert(data_scalar(hp, body), hp[32] as nat, body.skip(33))
        &&& forall|t: Seq<u8>|
            t.len() == 31 && block_ciphertext(data_scalar(hp, body), t, 0) == Some(hp.skip(33))
                ==> block_plaintext(data_scalar(hp, body), hp.skip(33), 0) == Some(t)
    }
}

/// The outcome of `ReCrypt` decryption once the header has given `hp`.
pub open spec fn recrypt_body_outcome(hp: Option<Seq<u8>>, body: Seq<u8>, out: Option<Seq<u8>>) -> bool {
    match hp {
        None => out is None,
        Some(p) => out == recrypt_plaintext(p, body) && recrypt_inverts(p, body),
    }
}

/// Whether `hp2` is the header plaintext `chi || tau` moved by the shares
/// `x'` and `y'`: `chi + (x' + y')`, with the counter of `chi`, and
/// `tau + F(x', 0)`.
pub open spec fn rekeyed_header(hp: Seq<u8>, x_new: Seq<u8>, y_new: Seq<u8>, hp2: Seq<u8>) -> bool {
    &&& hp.len() == recrypt_header_size()
    &&& holds_kh_key(hp)
    &&& hp2.len() == recrypt_header_size()
    &&& holds_kh_key(hp2)
    &&& kh_scalar_at(hp2) == mod_sum(
        kh_scalar_at(hp),
        mod_sum(kh_scalar_at(x_new), kh_scalar_at(y_new)),
    )
    &&& hp2[32] == hp[32]
    &&& block_update(reduced(x_new.take(32)), hp.skip(33), 0) == Some(hp2.skip(33))
    &&& forall|k: nat, t: Seq<u8>|
        k < group_order() && t.len() == 31 && #[trigger] block_ciphertext(k, t, 0) == Some(
            hp.skip(33),
        ) ==> block_update(reduced(x_new.take(32)), hp.skip(33), 0) == block_ciphertext(
            (k + reduced(x_new.take(32))) % group_order(),
            t,
            0,
        )
}

/// Whether `token` is `x' || y' || A(k2, hp2)` where `hdr` decrypts under `k1`
/// to `hp` and `hp2` is `hp` moved by `x'` and `y'`.
pub open spec fn recrypt_token_with<A: Cipher>(
    k1: Seq<u8>,
    k2: Seq<u8>,
    hdr: Seq<u8>,
    hp: Seq<u8>,
    hp2: Seq<u8>,
    token: Seq<u8>,
) -> bool {
    &&& A::decrypts_to(k1, hdr, Some(hp))
    &&& holds_kh_key(token)
    &&& token[32] == 1
    &&& holds_kh_key(token.skip(33))
    &&& rekeyed_header(hp, token.take(33), token.skip(33).take(33), hp2)
    &&& A::encrypts_to(k2, hp2, token.skip(66))
}

/// Whether `token` is a `ReCrypt` token from `k1` to `k2` for `hdr`.
pub open spec fn recrypt_token<A: Cipher>(k1: Seq<u8>, k2: Seq<u8>, hdr: Seq<u8>, token: Seq<u8>) -> bool {
    exists|hp: Seq<u8>, hp2: Seq<u8>| #[trigger] recrypt_token_with::<A>(k1, k2, hdr, hp, hp2, token)
}

/// What `ReCrypt` re-encryption gives, where it succeeds: the header from the
/// token, and a body whose share is `y + y'`, with the counter of `y` kept,
/// and whose blocks are the old ones moved on by `x'`.
pub open spec fn recrypt_reencrypted(token: Seq<u8>, body: Seq<u8>, hdr2: Seq<u8>, body2: Seq<u8>) -> bool {
    &&& hdr2 == token.skip(66)
    &&& holds_kh_key(body2)
    &&& kh_scalar_at(body2) == mod_sum(kh_scalar_at(body), kh_scalar_at(token.skip(33)))
    &&& body2[32] == body[32]
    &&& kh_reencryption(key_scalar(token), key_counter(token), body.skip(33)) == Some(
        body2.skip(33),
    )
    &&& kh_blocks_update(key_scalar(token), key_counter(token), body.skip(33))
}

proof fn lemma_kh_key_prefix(k: KhKey, bytes: Seq<u8>)
    requires
        kh_key_bytes(k) == bytes.take(33),
        bytes.len() >= 33,
    ensures
        k.0@ == bytes.take(32),
        k.scalar() == kh_scalar_at(bytes),
        k.1 == bytes[32],
{
    assert(kh_key_bytes(k).take(32) =~= k.0@);
    assert(bytes.take(33).take(32) =~= bytes.take(32));
    assert(kh_key_bytes(k)[32] == bytes[32]);
}

proof fn lemma_kh_key_bytes(k: KhKey)
    ensures
        kh_key_bytes(k).len() == 33,
        kh_key_bytes(k).take(32) == k.0@,
        kh_scalar_at(kh_key_bytes(k)) == k.scalar(),
        kh_key_bytes(k)[32] == k.1,
        key_scalar(kh_key_bytes(k)) == reduced(k.0@),
        key_counter(kh_key_bytes(k)) == k.1 as nat,
{
    assert(kh_key_bytes(k).take(32) =~= k.0@);
}

/// A scalar below the group order is its own reduction.
proof fn lemma_reduced_small(s: nat)
    requires
        s < group_order(),
    ensures
        s % group_order() == s,
{
    vstd::arithmetic::power2::lemma_pow2_pos(252);
    vstd::arithmetic::div_mod::lemma_small_mod(s, group_order());
}

/// `((a + b) mod l - b) mod l == a` for `a` below the group order `l`.
proof fn lemma_mod_add_sub(a: nat, b: nat)
    requires
        a < group_order(),
    ensures
        ((mod_sum(a, b) - b) % (group_order() as int)) as nat == a,
{
    vstd::arithmetic::power2::lemma_pow2_pos(252);
    let l = group_order() as int;
    vstd::arithmetic::div_mod::lemma_sub_mod_noop((a + b) as int, b as int, l);
    vstd::arithmetic::div_mod::lemma_sub_mod_noop_right(mod_sum(a, b) as int, b as int, l);
    vstd::arithmetic::div_mod::lemma_small_mod(a, l as nat);
    assert((a + b) - b == a);
}

/// Moves a `ReCrypt` header plaintext `chi || tau` by the new shares: the key
/// becomes `chi + (x' + y')` with the counter of `chi`, and the tag
/// `tau + F(x', 0)`. A plaintext that is not 65 bytes is malformed; one whose
/// tag is not a point (or does not move) is an invalid encoding.
pub fn rekey_header(hp: &[u8], x_new: &KhKey, y_new: &KhKey) -> (r: Result<Vec<u8>, Error>)
    ensures
        hp@.len() != recrypt_header_size() ==> r == Err::<Vec<u8>, Error>(
            Error::MalformedCiphertext,
        ),
        hp@.len() == recrypt_header_size() ==> (r is Ok <==> holds_kh_key(hp@) && block_update(
            reduced(x_new.0@),
            hp@.skip(33),
            0,
        ) is Some),
        hp@.len() == recrypt_header_size() && r is Err ==> r == Err::<Vec<u8>, Error>(
            Error::InvalidEncoding,
        ),
        r is Ok ==> rekeyed_header(hp@, kh_key_bytes(*x_new), kh_key_bytes(*y_new), r->Ok_0@),
{
    if hp.len() != 65 {
        return Err(Error::MalformedCiphertext);
    }
    let chi = KhKey::read_key(hp)?;
    let tau = slice_from(hp, 33);
    proof {
        vstd::arithmetic::power2::lemma_pow2_pos(252);
    }
    let chi_new = chi.add(&x_new.add(y_new));
    let tau_new = update_block(&x_new.0, tau.as_slice(), 0)?;
    let mut out: Vec<u8> = Vec::new();
    chi_new.write_key(&mut out);
    append_bytes(&mut out, tau_new.as_slice());
    proof {
        lemma_kh_key_bytes(chi_new);
        lemma_kh_key_bytes(*x_new);
        lemma_kh_key_bytes(*y_new);
        lemma_kh_key_prefix(chi, hp@);
        assert(out@.take(33) =~= kh_key_bytes(chi_new));
        assert(out@.take(33).take(32) =~= chi_new.0@);
        assert(out@.take(32) =~= chi_new.0@);
        assert(out@.skip(33) =~= tau_new@);
        assert(kh_key_bytes(*x_new).take(32) =~= x_new.0@);
    }
    Ok(out)
}

impl<A: Cipher> UpEnc for ReCrypt<A, KhPrf> {
    type K = A::K;

    open spec fn encrypts_to(key: Seq<u8>, pt: Seq<u8>, hdr: Seq<u8>, body: Seq<u8>) -> bool {
        exists|hp: Seq<u8>| #[trigger] recrypt_encrypts_with::<A>(key, hp, pt, hdr, body)
    }

    open spec fn decrypts_to(key: Seq<u8>, hdr: Seq<u8>, body: Seq<u8>, out: Option<Seq<u8>>) -> bool {
        exists|hp: Option<Seq<u8>>|
            #[trigger] A::decrypts_to(key, hdr, hp) && recrypt_body_outcome(hp, body, out)
    }

    open spec fn token_for(k1: Seq<u8>, k2: Seq<u8>, hdr: Seq<u8>, out: Option<Seq<u8>>) -> bool {
        match out {
            Some(token) => recrypt_token::<A>(k1, k2, hdr, token),
            None => true,
        }
    }

    open spec fn reencrypts_to(
        token: Seq<u8>,
        hdr: Seq<u8>,
        body: Seq<u8>,
        out: Option<(Seq<u8>, Seq<u8>)>,
    ) -> bool {
        &&& !holds_kh_key(token) || !holds_kh_key(token.skip(33)) || !holds_kh_key(body) ==> out is None
        &&& holds_kh_key(token) && holds_kh_key(token.skip(33)) && holds_kh_key(body) ==> (out is Some
            <==> kh_reencryption(key_scalar(token), key_counter(token), body.skip(33)) is Some)
        &&& out is Some ==> recrypt_reencrypted(token, body, out->Some_0.0, out->Some_0.1)
    }

    fn keygen() -> (r: Result<Self::K, Error>) {
        A::keygen()
    }

    fn rekeygen(k1: Self::K, k2: Self::K, ct_hdr: &[u8], token: &mut Vec<u8>) -> (r: Result<
        (),
        Error,
    >)
        ensures
            r is Err ==> final(token)@ == old(token)@,
    {
        proof {
            lemma_nothing_appended(token@);
        }
        let ghost kb1 = k1.key_bytes();
        let mut buf: Vec<u8> = Vec::new();
        let d = A::decrypt(k1, ct_hdr, &mut buf);
        assert(appended(Seq::<u8>::empty(), buf@) =~= buf@);
        if d.is_err() {
            return d;
        }
        let x_new = KhPrf::keygen()?;
        let y_new = KhPrf::keygen()?;
        let hp = rekey_header(buf.as_slice(), &x_new, &y_new)?;
        let mut sealed: Vec<u8> = Vec::new();
        let e = A::encrypt(k2, hp.as_slice(), &mut sealed);
        assert(appended(Seq::<u8>::empty(), sealed@) =~= sealed@);
        if e.is_err() {
            return e;
        }
        let mut out: Vec<u8> = Vec::new();
        x_new.write_key(&mut out);
        y_new.write_key(&mut out);
        append_bytes(&mut out, sealed.as_slice());
        let ghost t0 = token@;
        append_bytes(token, out.as_slice());
        proof {
            assert(token@.take(t0.len() as int) =~= t0);
            let t = appended(t0, token@);
            assert(t =~= out@);
            lemma_kh_key_bytes(x_new);
            lemma_kh_key_bytes(y_new);
            assert(t.take(33) =~= kh_key_bytes(x_new));
            assert(t.skip(33).take(33) =~= kh_key_bytes(y_new));
            assert(t.skip(66) =~= sealed@);
            assert(t[32] == 1);
            assert(recrypt_token_with::<A>(kb1, k2.key_bytes(), ct_hdr@, buf@, hp@, t));
            assert(recrypt_token::<A>(kb1, k2.key_bytes(), ct_hdr@, t));
        }
        Ok(())
    }

    fn encrypt(key: Self::K, pt: &[u8], ct_hdr: &mut Vec<u8>, ct_body: &mut Vec<u8>) -> (r:
        Result<(), Error>) {
        proof {
            lemma_nothing_appended(ct_hdr@);
            lemma_nothing_appended(ct_body@);
        }
        let ghost kb = key.key_bytes();
        let x = KhPrf::keygen()?;
        let y = KhPrf::keygen()?;
        let chi = x.add(&y);
        proof {
            lemma_kh_key_bytes(x);
            lemma_kh_key_bytes(y);
            lemma_kh_key_bytes(chi);
        }
        let mut c: Vec<u8> = Vec::new();
        let e = KhPrf::encrypt(x, pt, &mut c);
        assert(appended(Seq::<u8>::empty(), c@) =~= c@);
        if e.is_err() {
            return e;
        }
        // The tag is the digest of the plaintext, encrypted under `x` at
        // counter 0, which the body's blocks do not use.
        let hm = h(pt);
        let hm_block = read_chunk(hm.as_slice(), 0, 31);
        assert(hm_block@ =~= tag_block(pt@));
        let tau = encrypt_block(&x.0, hm_block.as_slice(), 0)?;
        let mut hp: Vec<u8> = Vec::new();
        chi.write_key(&mut hp);
        append_bytes(&mut hp, tau.as_slice());
        let ghost b0 = ct_body@;
        y.write_key(ct_body);
        append_bytes(ct_body, c.as_slice());
        let r = A::encrypt(key, hp.as_slice(), ct_hdr);
        proof {
            let body = appended(b0, ct_body@);
            assert(ct_body@.take(b0.len() as int) =~= b0);
            assert(body =~= kh_key_bytes(y) + c@);
            assert(body.take(33) =~= kh_key_bytes(y));
            assert(hp@.take(33) =~= kh_key_bytes(chi));
            assert(hp@.take(32) =~= chi.0@);
            assert(body.take(32) =~= y.0@);
            assert(body.skip(33) =~= c@);
            assert(hp@.skip(33) =~= tau@);
            assert(hp@.len() == 65);
            assert(hp@.take(33).take(32) =~= chi.0@);
            assert(body.take(33).take(32) =~= y.0@);
            assert(body[32] == kh_key_bytes(y)[32]);
            assert(hp@[32] == kh_key_bytes(chi)[32]);
            assert(hp@[32] == 1);
            lemma_reduced_small(x.scalar());
            lemma_mod_add_sub(x.scalar(), y.scalar());
            assert(data_scalar(hp@, body) == reduced(x.0@));
            if r is Ok {
                assert(recrypt_encrypts_with::<A>(
                    kb,
                    hp@,
                    pt@,
                    appended(old(ct_hdr)@, ct_hdr@),
                    body,
                ));
            }
        }
        r
    }

    fn reencrypt(
        rk: &[u8],
        ct1_hdr: &[u8],
        ct1_body: &[u8],
        ct2_hdr: &mut Vec<u8>,
        ct2_body: &mut Vec<u8>,
    ) -> (r: Result<(), Error>) {
        proof {
            lemma_nothing_appended(ct2_hdr@);
            lemma_nothing_appended(ct2_body@);
        }
        let (x_new, rest) = split_key::<KhKey>(rk)?;
        let (y_new, new_hdr) = split_key::<KhKey>(rest.as_slice())?;
        let (y, c) = split_key::<KhKey>(ct1_body)?;
        proof {
            assert(rest@ =~= rk@.skip(33));
            assert(new_hdr@ =~= rk@.skip(66));
            lemma_kh_key_prefix(x_new, rk@);
            lemma_kh_key_bytes(x_new);
            assert(rk@.take(33).take(32) =~= rk@.take(32));
        }
        let mut x_new_bytes: Vec<u8> = Vec::new();
        x_new.write_key(&mut x_new_bytes);
        assert(x_new_bytes@ =~= kh_key_bytes(x_new));
        proof {
            assert(x_new_bytes@.take(32) =~= rk@.take(32));
            assert(c@ =~= ct1_body@.skip(33));
        }
        let mut blocks: Vec<u8> = Vec::new();
        let u = KhPrf::reencrypt(x_new_bytes.as_slice(), c.as_slice(), &mut blocks);
        assert(appended(Seq::<u8>::empty(), blocks@) =~= blocks@);
        proof {
            assert(x_new_bytes@ =~= rk@.take(33));
            assert(x_new_bytes@.take(33) =~= x_new_bytes@);
            assert(holds_key::<KhKey>(x_new_bytes@));
            assert(key_scalar(x_new_bytes@) == key_scalar(rk@));
            assert(key_counter(x_new_bytes@) == key_counter(rk@));
        }
        if u.is_err() {
            assert(kh_reencryption(key_scalar(rk@), key_counter(rk@), ct1_body@.skip(33)) is None);
            return u;
        }
        let ghost b0 = ct2_body@;
        let yy = y.add(&y_new);
        yy.write_key(ct2_body);
        append_bytes(ct2_body, blocks.as_slice());
        copy_through(new_hdr.as_slice(), ct2_hdr);
        proof {
            let body2 = appended(b0, ct2_body@);
            lemma_kh_key_bytes(yy);
            lemma_kh_key_prefix(y, ct1_body@);
            lemma_kh_key_prefix(y_new, rk@.skip(33));
            assert(ct2_body@.take(b0.len() as int) =~= b0);
            assert(body2 =~= kh_key_bytes(yy) + blocks@);
            assert(body2.take(33) =~= kh_key_bytes(yy));
            assert(body2.take(32) =~= yy.0@);
            assert(body2.skip(33) =~= blocks@);
        }
        Ok(())
    }

    fn decrypt(key: Self::K, ct_hdr: &[u8], ct_body: &[u8], pt: &mut Vec<u8>) -> (r: Result<
        (),
        Error,
    >)
        ensures
            r is Err ==> final(pt)@ == old(pt)@,
            exists|hp: Option<Seq<u8>>|
                #[trigger] A::decrypts_to(key.key_bytes(), ct_hdr@, hp) && recrypt_decrypt_error(
                    hp,
                    ct_body@,
                    r,
                ) && recrypt_body_outcome(
                    hp,
                    ct_body@,
                    if r is Ok {
                        Some(appended(old(pt)@, final(pt)@))
                    } else {
                        None
                    },
                ),
    {
        proof {
            lemma_nothing_appended(pt@);
        }
        let ghost kb = key.key_bytes();
        let mut buf: Vec<u8> = Vec::new();
        let d = A::decrypt(key, ct_hdr, &mut buf);
        assert(appended(Seq::<u8>::empty(), buf@) =~= buf@);
        if d.is_err() {
            assert(A::decrypts_to(kb, ct_hdr@, None));
            assert(recrypt_decrypt_error(None, ct_body@, d));
            return d;
        }
        assert(A::decrypts_to(kb, ct_hdr@, Some(buf@)));
        if buf.len() != 65 {
            assert(recrypt_decrypt_error(Some(buf@), ct_body@, Err(Error::MalformedCiphertext)));
            return Err(Error::MalformedCiphertext);
        }
        let chi = KhKey::read_key(buf.as_slice())?;
        let tau_bytes = slice_from(buf.as_slice(), 33);
        let y = match KhKey::read_key(ct_body) {
            Ok(y) => y,
            Err(e) => {
                assert(recrypt_decrypt_error(Some(buf@), ct_body@, Err(e)));
                return Err(e);
            },
        };
        let c = slice_from(ct_body, 33);
        proof {
            lemma_kh_key_prefix(chi, buf@);
            lemma_kh_key_prefix(y, ct_body@);
        }
        // Both counters start at 1 and rotations keep them: a share whose
        // counter differs has been tampered with.
        if y.1 != chi.1 {
            assert(recrypt_decrypt_error(Some(buf@), ct_body@, Err(Error::MalformedCiphertext)));
            return Err(Error::MalformedCiphertext);
        }
        let x = chi.sub(&y);
        proof {
            vstd::arithmetic::power2::lemma_pow2_pos(252);
            lemma_reduced_small(x.scalar());
            assert(reduced(x.0@) == data_scalar(buf@, ct_body@));
            lemma_kh_key_bytes(x);
        }
        // Both the tag and the body are decrypted; the plaintext is held back
        // until the tag has been checked.
        let tau = decrypt_block(&x.0, tau_bytes.as_slice(), 0);
        let mut m: Vec<u8> = Vec::new();
        let e = KhPrf::decrypt(x, c.as_slice(), &mut m);
        assert(appended(Seq::<u8>::empty(), m@) =~= m@);
        proof {
            assert(recrypt_inverts(buf@, ct_body@));
        }
        if e.is_err() {
            assert(recrypt_decrypt_error(Some(buf@), ct_body@, e));
            return e;
        }
        let tau = match tau {
            Ok(t) => t,
            Err(err) => {
                assert(recrypt_decrypt_error(Some(buf@), ct_body@, Err(err)));
                return Err(err);
            },
        };
        let tau_check = h(m.as_slice());
        let tau_check_block = read_chunk(tau_check.as_slice(), 0, 31);
        assert(tau_check_block@ =~= tag_block(m@));
        if !bytes_eq(tau.as_slice(), tau_check_block.as_slice()) {
            assert(recrypt_decrypt_error(Some(buf@), ct_body@, Err(Error::IntegrityFailure)));
            return Err(Error::IntegrityFailure);
        }
        copy_through(m.as_slice(), pt);
        assert(recrypt_body_outcome(Some(buf@), ct_body@, Some(m@)));
        assert(recrypt_decrypt_error(Some(buf@), ct_body@, Ok(())));
        Ok(())
    }
}

/// `ReCrypt` decrypts what it encrypts.
pub proof fn lemma_recrypt_round_trip<A: ExactCipher>(
    key: Seq<u8>,
    pt: Seq<u8>,
    hdr: Seq<u8>,
    body: Seq<u8>,
    out: Option<Seq<u8>>,
)
    requires
        ReCrypt::<A, KhPrf>::encrypts_to(key, pt, hdr, body),
        ReCrypt::<A, KhPrf>::decrypts_to(key, hdr, body, out),
    ensures
        out == Some(pt),
{
    let hp = choose|hp: Seq<u8>| #[trigger] recrypt_encrypts_with::<A>(key, hp, pt, hdr, body);
    let o = choose|o: Option<Seq<u8>>|
        #[trigger] A::decrypts_to(key, hdr, o) && recrypt_body_outcome(o, body, out);
    A::lemma_round_trip(key, hp, hdr, o);
    let x = data_scalar(hp, body);
    lemma_kh_round_trip(x, hp[32] as nat, pt, body.skip(33));
    assert(block_plaintext(x, hp.skip(33), 0) == Some(tag_block(pt)));
}

/// A rotation of `ReCrypt` gives a ciphertext of the same plaintext under the
/// second key: the blocks and the tag are moved from `x` to `x + x'`, which is
/// the difference of the new header key and the new share.
pub proof fn lemma_recrypt_rotation<A: ExactCipher>(
    k1: Seq<u8>,
    k2: Seq<u8>,
    pt: Seq<u8>,
    hdr: Seq<u8>,
    body: Seq<u8>,
    token: Seq<u8>,
    hdr2: Seq<u8>,
    body2: Seq<u8>,
)
    requires
        ReCrypt::<A, KhPrf>::encrypts_to(k1, pt, hdr, body),
        ReCrypt::<A, KhPrf>::token_for(k1, k2, hdr, Some(token)),
        ReCrypt::<A, KhPrf>::reencrypts_to(token, hdr, body, Some((hdr2, body2))),
    ensures
        ReCrypt::<A, KhPrf>::encrypts_to(k2, pt, hdr2, body2),
{
    vstd::arithmetic::power2::lemma_pow2_pos(252);
    let hp = choose|hp: Seq<u8>| #[trigger] recrypt_encrypts_with::<A>(k1, hp, pt, hdr, body);
    let (hq, hp2) = choose|hq: Seq<u8>, hp2: Seq<u8>|
        #[trigger] recrypt_token_with::<A>(k1, k2, hdr, hq, hp2, token);
    A::lemma_round_trip(k1, hp, hdr, Some(hq));
    let l = group_order();
    let x = data_scalar(hp, body);
    let xn = kh_scalar_at(token);
    let yn = kh_scalar_at(token.skip(33));
    assert(token.take(33).take(32) =~= token.take(32));
    assert(token.skip(33).take(33).take(32) =~= token.skip(33).take(32));
    let xr = xn % l;
    assert(key_scalar(token) == xr);
    assert(reduced(token.take(33).take(32)) == xr);
    lemma_recrypt_rotation_keys(kh_scalar_at(hp), kh_scalar_at(body), xn, yn);
    assert(data_scalar(hp2, body2) == (x + xn) % l);
    vstd::arithmetic::div_mod::lemma_add_mod_noop_right(x as int, xn as int, l as int);
    assert((x + xr) % l == (x + xn) % l);
    lemma_kh_reencrypt(x, xr, 1, pt, body.skip(33));
    assert(block_ciphertext(x, tag_block(pt), 0) == Some(hp.skip(33)));
    assert(recrypt_encrypts_with::<A>(k2, hp2, pt, hdr2, body2));
}

impl<A: ExactCipher> ExactUpEnc for ReCrypt<A, KhPrf> {
    proof fn lemma_up_round_trip(
        key: Seq<u8>,
        pt: Seq<u8>,
        hdr: Seq<u8>,
        body: Seq<u8>,
        out: Option<Seq<u8>>,
    ) {
        lemma_recrypt_round_trip::<A>(key, pt, hdr, body, out);
    }

    proof fn lemma_up_rotation(
        k1: Seq<u8>,
        k2: Seq<u8>,
        pt: Seq<u8>,
        hdr: Seq<u8>,
        body: Seq<u8>,
        token: Seq<u8>,
        hdr2: Seq<u8>,
        body2: Seq<u8>,
    ) {
        lemma_recrypt_rotation::<A>(k1, k2, pt, hdr, body, token, hdr2, body2);
    }
}

/// The key algebra behind a `ReCrypt` rotation: where the header's key is
/// `chi` and the body's share `y`, so that the body's blocks are under
/// `x = chi - y`, a token `x' || y'` leaves the header key `chi + (x' + y')`
/// and the share `y + y'`, whose difference is `x + x'`: the key under which
/// the homomorphic update leaves the blocks.
pub proof fn lemma_recrypt_rotation_keys(chi: nat, y: nat, x_new: nat, y_new: nat)
    ensures
        (mod_sum(chi, mod_sum(x_new, y_new)) - mod_sum(y, y_new)) % (group_order() as int) == (((
        chi - y) % (group_order() as int)) + x_new) % (group_order() as int),
{
    vstd::arithmetic::power2::lemma_pow2_pos(252);
    let l = group_order() as int;
    let c = chi as int;
    let yy = y as int;
    let xn = x_new as int;
    let yn = y_new as int;
    let a = mod_sum(chi, mod_sum(x_new, y_new)) as int;
    let b = mod_sum(y, y_new) as int;
    let s = (xn + yn) % l;
    assert(a == (c + s) % l);
    assert(a == (c + xn + yn) % l) by {
        vstd::arithmetic::div_mod::lemma_add_mod_noop_right(c, xn + yn, l);
    }
    assert(b == (yy + yn) % l);
    vstd::arithmetic::div_mod::lemma_sub_mod_noop(c + xn + yn, yy + yn, l);
    vstd::arithmetic::div_mod::lemma_mod_twice(c + xn + yn, l);
    vstd::arithmetic::div_mod::lemma_mod_twice(yy + yn, l);
    assert((c + xn + yn) - (yy + yn) == xn + (c - yy));
    vstd::arithmetic::div_mod::lemma_add_mod_noop_right(xn, c - yy, l);
    assert(((c - yy) % l + xn) == xn + (c - yy) % l);
}

} // verus!
