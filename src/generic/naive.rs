//! Baseline schemes that share the interface of updatable encryption but do
//! not meet its security goals: `Naive` and `KemDem`.
use vstd::prelude::*;

use crate::io::append_bytes;
use crate::{appended, extends, Cipher, Error, ExactCipher, ExactUpEnc, Key, UpEnc};

verus! {

/// Encrypts the whole plaintext into the header. Its token is the plaintext
/// encrypted anew under the second key.
pub struct Naive<C> {
    cipher: std::marker::PhantomData<C>,
}

/// Envelope encryption: the header holds a data key encrypted under the key,
/// the body the plaintext encrypted under the data key. Its token re-encrypts
/// the data key only; the body is never changed.
pub struct KemDem<C> {
    cipher: std::marker::PhantomData<C>,
}

/// Appends `input` to `out` and proves what was appended.
pub(crate) fn copy_through(input: &[u8], out: &mut Vec<u8>)
    ensures
        final(out)@ == old(out)@ + input@,
        extends(old(out)@, final(out)@),
        appended(old(out)@, final(out)@) == input@,
{
    append_bytes(out, input);
    assert(out@.take(old(out)@.len() as int) =~= old(out)@);
    assert(appended(old(out)@, out@) =~= input@);
}

/// Leaves `out` as it is, which appends nothing.
pub(crate) proof fn lemma_nothing_appended(out: Seq<u8>)
    ensures
        extends(out, out),
        appended(out, out) == Seq::<u8>::empty(),
{
    assert(out.take(out.len() as int) =~= out);
    assert(appended(out, out) =~= Seq::<u8>::empty());
}

/// Whether `token` is an encryption under `k2` of what `hdr` decrypts to
/// under `k1`.
pub open spec fn reencrypted_under<C: Cipher>(
    k1: Seq<u8>,
    k2: Seq<u8>,
    hdr: Seq<u8>,
    token: Seq<u8>,
) -> bool {
    exists|m: Seq<u8>| C::decrypts_to(k1, hdr, Some(m)) && #[trigger] C::encrypts_to(k2, m, token)
}

/// Decrypts `hdr` under `k1` and appends its encryption under `k2` to
/// `token`.
fn rewrap<C: Cipher>(k1: C::K, k2: C::K, hdr: &[u8], token: &mut Vec<u8>) -> (r: Result<(), Error>)
    ensures
        extends(old(token)@, final(token)@),
        r is Ok ==> reencrypted_under::<C>(
            k1.key_bytes(),
            k2.key_bytes(),
            hdr@,
            appended(old(token)@, final(token)@),
        ),
{
    proof {
        lemma_nothing_appended(token@);
    }
    let mut buf: Vec<u8> = Vec::new();
    let d = C::decrypt(k1, hdr, &mut buf);
    assert(appended(Seq::<u8>::empty(), buf@) =~= buf@);
    if d.is_err() {
        return d;
    }
    let r = C::encrypt(k2, buf.as_slice(), token);
    proof {
        if r is Ok {
            assert(C::decrypts_to(k1.key_bytes(), hdr@, Some(buf@)));
        }
    }
    r
}

impl<C: Cipher> UpEnc for Naive<C> {
    type K = C::K;

    open spec fn encrypts_to(key: Seq<u8>, pt: Seq<u8>, hdr: Seq<u8>, body: Seq<u8>) -> bool {
        C::encrypts_to(key, pt, hdr) && body == Seq::<u8>::empty()
    }

    open spec fn decrypts_to(key: Seq<u8>, hdr: Seq<u8>, body: Seq<u8>, out: Option<Seq<u8>>) -> bool {
        C::decrypts_to(key, hdr, out)
    }

    open spec fn token_for(k1: Seq<u8>, k2: Seq<u8>, hdr: Seq<u8>, out: Option<Seq<u8>>) -> bool {
        match out {
            Some(token) => reencrypted_under::<C>(k1, k2, hdr, token),
            None => true,
        }
    }

    open spec fn reencrypts_to(
        token: Seq<u8>,
        hdr: Seq<u8>,
        body: Seq<u8>,
        out: Option<(Seq<u8>, Seq<u8>)>,
    ) -> bool {
        out == Some((token, Seq::<u8>::empty()))
    }

    fn keygen() -> (r: Result<Self::K, Error>) {
        C::keygen()
    }

    fn rekeygen(k1: Self::K, k2: Self::K, ct_hdr: &[u8], token: &mut Vec<u8>) -> (r: Result<
        (),
        Error,
    >) {
        rewrap::<C>(k1, k2, ct_hdr, token)
    }

    fn encrypt(key: Self::K, pt: &[u8], ct_hdr: &mut Vec<u8>, ct_body: &mut Vec<u8>) -> (r:
        Result<(), Error>) {
        proof {
            lemma_nothing_appended(ct_body@);
        }
        C::encrypt(key, pt, ct_hdr)
    }

    fn reencrypt(
        rk: &[u8],
        ct1_hdr: &[u8],
        ct1_body: &[u8],
        ct2_hdr: &mut Vec<u8>,
        ct2_body: &mut Vec<u8>,
    ) -> (r: Result<(), Error>) {
        proof {
            lemma_nothing_appended(ct2_body@);
        }
        copy_through(rk, ct2_hdr);
        Ok(())
    }

    fn decrypt(key: Self::K, ct_hdr: &[u8], ct_body: &[u8], pt: &mut Vec<u8>) -> (r: Result<
        (),
        Error,
    >) {
        C::decrypt(key, ct_hdr, pt)
    }
}

/// `Naive` decrypts what it encrypts.
pub proof fn lemma_naive_round_trip<C: ExactCipher>(
    key: Seq<u8>,
    pt: Seq<u8>,
    hdr: Seq<u8>,
    body: Seq<u8>,
    out: Option<Seq<u8>>,
)
    requires
        Naive::<C>::encrypts_to(key, pt, hdr, body),
        Naive::<C>::decrypts_to(key, hdr, body, out),
    ensures
        out == Some(pt),
{
    C::lemma_round_trip(key, pt, hdr, out);
}

/// A rotation of `Naive` (a token from `rekeygen` applied by `reencrypt`)
/// gives a ciphertext of the same plaintext under the second key.
pub proof fn lemma_naive_rotation<C: ExactCipher>(
    k1: Seq<u8>,
    k2: Seq<u8>,
    pt: Seq<u8>,
    hdr: Seq<u8>,
    body: Seq<u8>,
    token: Seq<u8>,
    hdr2: Seq<u8>,
    body2: Seq<u8>,
)
    requires
        Naive::<C>::encrypts_to(k1, pt, hdr, body),
        Naive::<C>::token_for(k1, k2, hdr, Some(token)),
        Naive::<C>::reencrypts_to(token, hdr, body, Some((hdr2, body2))),
    ensures
        Naive::<C>::encrypts_to(k2, pt, hdr2, body2),
{
    let m = choose|m: Seq<u8>| C::decrypts_to(k1, hdr, Some(m)) && #[trigger] C::encrypts_to(k2, m, token);
    C::lemma_round_trip(k1, pt, hdr, Some(m));
}

/// Whether the first `key_size` bytes of `bytes` are a key that `read_key`
/// accepts.
pub open spec fn holds_key<K: Key>(bytes: Seq<u8>) -> bool {
    bytes.len() >= K::key_size() && K::accepts(bytes.take(K::key_size() as int))
}

/// The outcome of decrypting a `KemDem` body once the header has given `hp`.
pub open spec fn kem_dem_body_outcome<C: Cipher>(
    hp: Option<Seq<u8>>,
    body: Seq<u8>,
    out: Option<Seq<u8>>,
) -> bool {
    match hp {
        None => out is None,
        Some(p) => if holds_key::<C::K>(p) {
            C::decrypts_to(p.take(C::K::key_size() as int), body, out)
        } else {
            out is None
        },
    }
}

/// Whether `hdr` and `body` are, under `key`, an encryption of the data key
/// `k_dem` and an encryption of `pt` under that data key.
pub open spec fn kem_dem_encrypts_with<C: Cipher>(
    key: Seq<u8>,
    k_dem: Seq<u8>,
    pt: Seq<u8>,
    hdr: Seq<u8>,
    body: Seq<u8>,
) -> bool {
    &&& k_dem.len() == C::K::key_size()
    &&& C::K::accepts(k_dem)
    &&& C::encrypts_to(key, k_dem, hdr)
    &&& C::encrypts_to(k_dem, pt, body)
}

impl<C: Cipher> UpEnc for KemDem<C> {
    type K = C::K;

    open spec fn encrypts_to(key: Seq<u8>, pt: Seq<u8>, hdr: Seq<u8>, body: Seq<u8>) -> bool {
        exists|k_dem: Seq<u8>| #[trigger] kem_dem_encrypts_with::<C>(key, k_dem, pt, hdr, body)
    }

    open spec fn decrypts_to(key: Seq<u8>, hdr: Seq<u8>, body: Seq<u8>, out: Option<Seq<u8>>) -> bool {
        exists|hp: Option<Seq<u8>>|
            #[trigger] C::decrypts_to(key, hdr, hp) && kem_dem_body_outcome::<C>(hp, body, out)
    }

    open spec fn token_for(k1: Seq<u8>, k2: Seq<u8>, hdr: Seq<u8>, out: Option<Seq<u8>>) -> bool {
        match out {
            Some(token) => reencrypted_under::<C>(k1, k2, hdr, token),
            None => true,
        }
    }

    open spec fn reencrypts_to(
        token: Seq<u8>,
        hdr: Seq<u8>,
        body: Seq<u8>,
        out: Option<(Seq<u8>, Seq<u8>)>,
    ) -> bool {
        out == Some((token, body))
    }

    fn keygen() -> (r: Result<Self::K, Error>) {
        C::keygen()
    }

    fn rekeygen(k1: Self::K, k2: Self::K, ct_hdr: &[u8], token: &mut Vec<u8>) -> (r: Result<
        (),
        Error,
    >) {
        rewrap::<C>(k1, k2, ct_hdr, token)
    }

    fn encrypt(key: Self::K, pt: &[u8], ct_hdr: &mut Vec<u8>, ct_body: &mut Vec<u8>) -> (r:
        Result<(), Error>) {
        proof {
            lemma_nothing_appended(ct_hdr@);
            lemma_nothing_appended(ct_body@);
        }
        let k_dem = match C::keygen() {
            Ok(k) => k,
            Err(e) => {
                return Err(e);
            },
        };
        let mut buf: Vec<u8> = Vec::new();
        k_dem.write_key(&mut buf);
        assert(buf@ =~= k_dem.key_bytes());
        let ghost kd = k_dem.key_bytes();
        let h = C::encrypt(key, buf.as_slice(), ct_hdr);
        if h.is_err() {
            return h;
        }
        let r = C::encrypt(k_dem, pt, ct_body);
        proof {
            if r is Ok {
                assert(kem_dem_encrypts_with::<C>(
                    key.key_bytes(),
                    kd,
                    pt@,
                    appended(old(ct_hdr)@, ct_hdr@),
                    appended(old(ct_body)@, ct_body@),
                ));
            }
        }
        r
    }

    fn reencrypt(
        rk: &[u8],
        ct1_hdr: &[u8],
        ct1_body: &[u8],
        ct2_hdr: &mut Vec<u8>,
        ct2_body: &mut Vec<u8>,
    ) -> (r: Result<(), Error>) {
        copy_through(rk, ct2_hdr);
        copy_through(ct1_body, ct2_body);
        Ok(())
    }

    fn decrypt(key: Self::K, ct_hdr: &[u8], ct_body: &[u8], pt: &mut Vec<u8>) -> (r: Result<
        (),
        Error,
    >) {
        proof {
            lemma_nothing_appended(pt@);
        }
        let ghost kb = key.key_bytes();
        let mut buf: Vec<u8> = Vec::new();
        let d = C::decrypt(key, ct_hdr, &mut buf);
        assert(appended(Seq::<u8>::empty(), buf@) =~= buf@);
        if d.is_err() {
            assert(C::decrypts_to(kb, ct_hdr@, None));
            assert(kem_dem_body_outcome::<C>(None, ct_body@, None));
            return d;
        }
        assert(C::decrypts_to(kb, ct_hdr@, Some(buf@)));
        let k_dem = match C::K::read_key(buf.as_slice()) {
            Ok(k) => k,
            Err(e) => {
                assert(kem_dem_body_outcome::<C>(Some(buf@), ct_body@, None));
                return Err(e);
            },
        };
        let r = C::decrypt(k_dem, ct_body, pt);
        assert(kem_dem_body_outcome::<C>(
            Some(buf@),
            ct_body@,
            if r is Ok {
                Some(appended(old(pt)@, pt@))
            } else {
                None
            },
        ));
        r
    }
}

/// `KemDem` decrypts what it encrypts.
pub proof fn lemma_kem_dem_round_trip<C: ExactCipher>(
    key: Seq<u8>,
    pt: Seq<u8>,
    hdr: Seq<u8>,
    body: Seq<u8>,
    out: Option<Seq<u8>>,
)
    requires
        KemDem::<C>::encrypts_to(key, pt, hdr, body),
        KemDem::<C>::decrypts_to(key, hdr, body, out),
    ensures
        out == Some(pt),
{
    let kd = choose|kd: Seq<u8>| #[trigger] kem_dem_encrypts_with::<C>(key, kd, pt, hdr, body);
    let hp = choose|hp: Option<Seq<u8>>|
        #[trigger] C::decrypts_to(key, hdr, hp) && kem_dem_body_outcome::<C>(hp, body, out);
    C::lemma_round_trip(key, kd, hdr, hp);
    assert(kd.take(C::K::key_size() as int) =~= kd);
    C::lemma_round_trip(kd, pt, body, out);
}

/// A rotation of `KemDem` gives a ciphertext of the same plaintext under the
/// second key: the header now wraps the same data key under that key.
pub proof fn lemma_kem_dem_rotation<C: ExactCipher>(
    k1: Seq<u8>,
    k2: Seq<u8>,
    pt: Seq<u8>,
    hdr: Seq<u8>,
    body: Seq<u8>,
    token: Seq<u8>,
    hdr2: Seq<u8>,
    body2: Seq<u8>,
)
    requires
        KemDem::<C>::encrypts_to(k1, pt, hdr, body),
        KemDem::<C>::token_for(k1, k2, hdr, Some(token)),
        KemDem::<C>::reencrypts_to(token, hdr, body, Some((hdr2, body2))),
    ensures
        KemDem::<C>::encrypts_to(k2, pt, hdr2, body2),
{
    let kd = choose|kd: Seq<u8>| #[trigger] kem_dem_encrypts_with::<C>(k1, kd, pt, hdr, body);
    let m = choose|m: Seq<u8>| C::decrypts_to(k1, hdr, Some(m)) && #[trigger] C::encrypts_to(k2, m, token);
    C::lemma_round_trip(k1, kd, hdr, Some(m));
    assert(kem_dem_encrypts_with::<C>(k2, kd, pt, hdr2, body2));
}

impl<C: ExactCipher> ExactUpEnc for Naive<C> {
    proof fn lemma_up_round_trip(
        key: Seq<u8>,
        pt: Seq<u8>,
        hdr: Seq<u8>,
        body: Seq<u8>,
        out: Option<Seq<u8>>,
    ) {
        lemma_naive_round_trip::<C>(key, pt, hdr, body, out);
    }

    proof fn lemma_up_rotation(
        k1: Seq<u8>,
        k2: Seq<u8>,
        pt: Seq<u8>,
        hdr: Seq<u8>,
        body: Seq<u8>,
        token: Seq<u8>,
        hdr2: Seq<u8>,
        body2: Seq<u8>,
    ) {
        lemma_naive_rotation::<C>(k1, k2, pt, hdr, body, token, hdr2, body2);
    }
}

impl<C: ExactCipher> ExactUpEnc for KemDem<C> {
    proof fn lemma_up_round_trip(
        key: Seq<u8>,
        pt: Seq<u8>,
        hdr: Seq<u8>,
        body: Seq<u8>,
        out: Option<Seq<u8>>,
    ) {
        lemma_kem_dem_round_trip::<C>(key, pt, hdr, body, out);
    }

    proof fn lemma_up_rotation(
        k1: Seq<u8>,
        k2: Seq<u8>,
        pt: Seq<u8>,
        hdr: Seq<u8>,
        body: Seq<u8>,
        token: Seq<u8>,
        hdr2: Seq<u8>,
        body2: Seq<u8>,
    ) {
        lemma_kem_dem_rotation::<C>(k1, k2, pt, hdr, body, token, hdr2, body2);
    }
}

} // verus!
