use recrypt::generic::NullCipher;
use recrypt::kh_prf::{
    check_embedding, decrypt_block, encode_point, encrypt_block, u64_to_u8, update_block, KhKey, KhPrf,
};
use recrypt::ring_ae::{aead_decrypt, seal_with_nonce, AeadAlgorithm, AesKey128, RingAes, RingChaCha};
use recrypt::{Cipher, Error, Key, KeyAlgebra, UpEncCtxtIndep};

#[test]
fn u64_to_u8_is_big_endian() {
    assert_eq!(u64_to_u8(0x0102030405060708), [1, 2, 3, 4, 5, 6, 7, 8]);
    assert_eq!(u64_to_u8(255), [0, 0, 0, 0, 0, 0, 0, 255]);
}

#[test]
fn kh_prf_round_trip() {
    for n in [0usize, 1, 30, 31, 32, 100] {
        let pt: Vec<u8> = (0..n).map(|i| (i * 7) as u8).collect();
        let key = KhPrf::keygen().unwrap();
        let mut ct = Vec::new();
        KhPrf::encrypt(key, &pt, &mut ct).unwrap();
        assert_eq!(ct.len(), 32 * (n / 31 + 1));
        let mut out = Vec::new();
        KhPrf::decrypt(key, &ct, &mut out).unwrap();
        assert_eq!(out, pt);
    }
}

#[test]
fn kh_prf_update_equals_encrypt_under_new_key() {
    let pt = b"a message of more than one block of plaintext".to_vec();
    let k1 = KhPrf::keygen().unwrap();
    let k2 = KhPrf::keygen().unwrap();
    let mut ct1 = Vec::new();
    KhPrf::encrypt(k1, &pt, &mut ct1).unwrap();
    let mut token = Vec::new();
    KhPrf::rekeygen(k1, k2, &mut token).unwrap();
    let mut ct2 = Vec::new();
    KhPrf::reencrypt(&token, &ct1, &mut ct2).unwrap();
    assert_ne!(ct1, ct2);
    let mut out = Vec::new();
    KhPrf::decrypt(k2, &ct2, &mut out).unwrap();
    assert_eq!(out, pt);
    // Under the first key the updated blocks decrypt to garbage or fail.
    let mut wrong = Vec::new();
    let r = KhPrf::decrypt(k1, &ct2, &mut wrong);
    assert!(r.is_err() || wrong != pt);
}

#[test]
fn kh_key_algebra() {
    let a = KhPrf::keygen().unwrap();
    let b = KhPrf::keygen().unwrap();
    assert_eq!(a.add(&b).sub(&b), a);
    let zero = KhKey([0u8; 32], 7);
    assert_eq!(a.add(&zero), a);
    assert_eq!(a.offset(3).1, a.1 + 3);
    // 2 + 3 == 5, and 2 - 3 wraps around the group order.
    let mut two = [0u8; 32];
    two[0] = 2;
    let mut three = [0u8; 32];
    three[0] = 3;
    let mut five = [0u8; 32];
    five[0] = 5;
    assert_eq!(KhKey(two, 1).add(&KhKey(three, 9)), KhKey(five, 1));
    assert_eq!(KhKey(two, 1).sub(&KhKey(three, 1)).add(&KhKey(three, 1)), KhKey(two, 1));
}

#[test]
fn kh_key_encoding() {
    let k = KhPrf::keygen().unwrap();
    let mut buf = Vec::new();
    k.write_key(&mut buf);
    assert_eq!(buf.len(), 33);
    assert_eq!(buf[32], 1);
    assert_eq!(KhKey::read_key(&buf).unwrap(), k);
    assert_eq!(KhKey::read_key(&buf[..32]), Err(Error::MalformedCiphertext));
    // A scalar that is not reduced is written and read back as it is.
    let big = KhKey([0xffu8; 32], 9);
    let mut buf2 = Vec::new();
    big.write_key(&mut buf2);
    assert_eq!(KhKey::read_key(&buf2).unwrap(), big);
}

#[test]
fn kh_prf_bad_padding_is_refused() {
    // A single block whose plaintext ends in a zero byte has no valid padding.
    let key = KhPrf::keygen().unwrap();
    let mut block = [7u8; 31];
    block[30] = 0;
    let c = encrypt_block(&key.0, &block, key.1 as u64).unwrap();
    let mut out = Vec::new();
    assert_eq!(KhPrf::decrypt(key, &c, &mut out), Err(Error::MalformedCiphertext));
    assert!(out.is_empty());
}

#[test]
fn kh_prf_block_update_equals_summed_key() {
    let k = KhPrf::keygen().unwrap();
    let d = KhPrf::keygen().unwrap();
    let m = [19u8; 31];
    let c = encrypt_block(&k.0, &m, 5).unwrap();
    let c2 = update_block(&d.0, &c, 5).unwrap();
    assert_eq!(decrypt_block(&k.add(&d).0, &c2, 5).unwrap(), m.to_vec());
}

#[test]
fn kh_prf_rejects_non_point_block() {
    let key = KhPrf::keygen().unwrap();
    // Find 32 bytes that are not the encoding of a point.
    let mut bad = [0u8; 32];
    for v in 0..=255u8 {
        bad[0] = v;
        if curve25519_dalek::edwards::CompressedEdwardsY(bad).decompress().is_none() {
            break;
        }
    }
    let mut out = Vec::new();
    assert_eq!(KhPrf::decrypt(key, &bad, &mut out), Err(Error::InvalidEncoding));
}

#[test]
fn kh_prf_malformed_ciphertext() {
    let key = KhPrf::keygen().unwrap();
    let mut out = Vec::new();
    assert_eq!(KhPrf::decrypt(key, &[0u8; 33], &mut out), Err(Error::MalformedCiphertext));
    let mut token = Vec::new();
    KhPrf::rekeygen(key, key, &mut token).unwrap();
    let mut ct2 = Vec::new();
    assert_eq!(KhPrf::reencrypt(&token, &[0u8; 31], &mut ct2), Err(Error::MalformedCiphertext));
}

#[test]
fn kh_prf_token_is_key_difference() {
    let k1 = KhPrf::keygen().unwrap();
    let k2 = KhPrf::keygen().unwrap();
    let mut token = Vec::new();
    KhPrf::rekeygen(k1, k2, &mut token).unwrap();
    let rk = KhKey::read_key(&token).unwrap();
    assert_eq!(k1.add(&rk), k2);
}

#[test]
fn point_embedding_round_trip() {
    let block = [42u8; 31];
    let bytes = encode_point(&block).unwrap();
    assert_eq!(&bytes[..31], &block[..]);
    assert_eq!(check_embedding(&bytes).unwrap(), block.to_vec());
    let mut bad = bytes;
    bad[31] = 200;
    assert_eq!(check_embedding(&bad), Err(Error::InvalidEncoding));
}

#[test]
fn aead_seal_and_open() {
    let key = vec![3u8; 16];
    let mut ct = Vec::new();
    seal_with_nonce(AeadAlgorithm::Aes128Gcm, &key, [9u8; 12], b"hello", &mut ct).unwrap();
    assert_eq!(ct.len(), 12 + 5 + 16);
    assert_eq!(&ct[..12], &[9u8; 12]);
    assert!(&ct[12..17] != b"hello");
    let mut pt = Vec::new();
    aead_decrypt(AeadAlgorithm::Aes128Gcm, &key, &ct, &mut pt).unwrap();
    assert_eq!(pt, b"hello");
    let mut bad = ct.clone();
    bad[20] ^= 1;
    let mut pt2 = Vec::new();
    assert_eq!(aead_decrypt(AeadAlgorithm::Aes128Gcm, &key, &bad, &mut pt2), Err(Error::IntegrityFailure));
    let mut pt3 = Vec::new();
    assert_eq!(aead_decrypt(AeadAlgorithm::Aes128Gcm, &key, &ct[..5], &mut pt3), Err(Error::MalformedCiphertext));
}

#[test]
fn aead_refuses_wrong_key_length() {
    let mut ct = Vec::new();
    let r = seal_with_nonce(AeadAlgorithm::ChaCha20Poly1305, &[1u8; 16], [0u8; 12], b"x", &mut ct);
    assert_eq!(r, Err(Error::CipherFailure));
    assert!(ct.is_empty());
}

#[test]
fn ring_ciphers_round_trip() {
    let k = RingAes::keygen().unwrap();
    let mut ct = Vec::new();
    RingAes::encrypt(k.clone(), b"data", &mut ct).unwrap();
    let mut pt = Vec::new();
    RingAes::decrypt(k, &ct, &mut pt).unwrap();
    assert_eq!(pt, b"data");
    let k = RingChaCha::keygen().unwrap();
    assert_eq!(k.0.len(), 32);
    let mut ct = Vec::new();
    RingChaCha::encrypt(k.clone(), b"data", &mut ct).unwrap();
    let mut pt = Vec::new();
    RingChaCha::decrypt(k, &ct, &mut pt).unwrap();
    assert_eq!(pt, b"data");
}

#[test]
fn aes_key_algebra_is_xor() {
    let a = AesKey128(vec![0b1010u8; 16]);
    let b = AesKey128(vec![0b0110u8; 16]);
    assert_eq!(a.add(&b), AesKey128(vec![0b1100u8; 16]));
    assert_eq!(a.add(&b).sub(&b), a);
}

#[test]
fn null_cipher_copies() {
    let mut ct = Vec::new();
    NullCipher::encrypt((), b"abc", &mut ct).unwrap();
    assert_eq!(ct, b"abc");
    let mut out = Vec::new();
    NullCipher::reencrypt(&[], &ct, &mut out).unwrap();
    assert_eq!(out, b"abc");
    let mut token = Vec::new();
    NullCipher::rekeygen((), (), &mut token).unwrap();
    assert!(token.is_empty());
}
