//! The identity cipher, for testing the constructions.
use vstd::prelude::*;

use super::naive::copy_through;
use crate::{appended, Cipher, Error, ExactCipher, Key, UpEncCtxtIndep};

verus! {

/// A cipher that leaves its input as it is.
pub struct NullCipher;

impl Key for () {
    open spec fn key_bytes(&self) -> Seq<u8> {
        Seq::empty()
    }

    open spec fn key_size() -> nat {
        0
    }

    open spec fn accepts(bytes: Seq<u8>) -> bool {
        true
    }

    fn key_len() -> (n: usize) {
        0
    }

    fn read_key(key_in: &[u8]) -> (r: Result<Self, Error>) {
        Ok(())
    }

    fn write_key(&self, key_out: &mut Vec<u8>) {
        assert(key_out@ + Seq::<u8>::empty() =~= key_out@);
    }
}

impl Cipher for NullCipher {
    type K = ();

    open spec fn encrypts_to(key: Seq<u8>, pt: Seq<u8>, ct: Seq<u8>) -> bool {
        ct == pt
    }

    open spec fn decrypts_to(key: Seq<u8>, ct: Seq<u8>, out: Option<Seq<u8>>) -> bool {
        out == Some(ct)
    }

    fn keygen() -> (r: Result<Self::K, Error>) {
        Ok(())
    }

    fn encrypt(key: Self::K, pt: &[u8], ct: &mut Vec<u8>) -> (r: Result<(), Error>) {
        copy_through(pt, ct);
        Ok(())
    }

    fn decrypt(key: Self::K, ct: &[u8], pt: &mut Vec<u8>) -> (r: Result<(), Error>) {
        copy_through(ct, pt);
        Ok(())
    }
}

impl ExactCipher for NullCipher {
    proof fn lemma_round_trip(key: Seq<u8>, pt: Seq<u8>, ct: Seq<u8>, out: Option<Seq<u8>>) {
    }
}

impl UpEncCtxtIndep for NullCipher {
    open spec fn token_for(k1: Seq<u8>, k2: Seq<u8>, token: Seq<u8>) -> bool {
        token == Seq::<u8>::empty()
    }

    open spec fn reencrypts_to(token: Seq<u8>, ct_old: Seq<u8>, out: Option<Seq<u8>>) -> bool {
        out == Some(ct_old)
    }

    fn rekeygen(k1: Self::K, k2: Self::K, token: &mut Vec<u8>) -> (r: Result<(), Error>) {
        assert(token@.take(token@.len() as int) =~= token@);
        assert(appended(token@, token@) =~= Seq::<u8>::empty());
        Ok(())
    }

    fn reencrypt(rk: &[u8], ct_old: &[u8], ct_new: &mut Vec<u8>) -> (r: Result<(), Error>) {
        copy_through(ct_old, ct_new);
        Ok(())
    }
}

} // verus!
