use std::fmt::Debug;

use recrypt::generic::{rekey_header, KemDem, Kss, Naive, ReCrypt};
use recrypt::kh_prf::KhPrf;
use recrypt::ring_ae::RingAes;
use recrypt::{Error, Key, UpEnc};

const TEST_REPEAT: u64 = 100;

type RegCipher = RingAes;

// Plaintexts around the block size.
fn get_plaintexts(block_size: usize) -> Vec<Vec<u8>> {
    vec![
        String::from("Something legible").into_bytes(),
        vec![131u8; 5],
        vec![0u8; block_size],
        vec![0u8; block_size + 1],
        vec![255u8; block_size],
        vec![255u8; block_size + 1],
    ]
}

// Encrypts, applies `update_cnt` rotations to fresh keys, and decrypts.
fn enc_upd_rt_buffer<S: UpEnc>(pt_bytes: &[u8], update_cnt: u16)
where
    S::K: Clone,
{
    let key = S::keygen().unwrap();
    let mut ct_hdr = Vec::new();
    let mut ct_body = Vec::new();
    S::encrypt(key.clone(), pt_bytes, &mut ct_hdr, &mut ct_body).unwrap();
    assert!(ct_body != pt_bytes);

    let mut cur_key = key;
    for _ in 0..update_cnt {
        let newkey = S::keygen().unwrap();
        let mut upd_hdr = Vec::new();
        let mut upd_body = Vec::new();
        let mut rk_buf = Vec::new();
        S::rekeygen(cur_key, newkey.clone(), &ct_hdr, &mut rk_buf).unwrap();
        S::reencrypt(&rk_buf, &ct_hdr, &ct_body, &mut upd_hdr, &mut upd_body).unwrap();
        ct_hdr = upd_hdr;
        ct_body = upd_body;
        cur_key = newkey;
    }

    let mut pt_buf = Vec::new();
    S::decrypt(cur_key, &ct_hdr, &ct_body, &mut pt_buf).unwrap();
    assert_eq!(pt_bytes, &pt_buf[..]);
}

fn filecrypt_rt<S: UpEnc>(block_size: usize)
where
    S::K: Clone,
{
    for pt in get_plaintexts(block_size) {
        enc_upd_rt_buffer::<S>(&pt, 0);
    }
}

fn encrypt_update_once<S: UpEnc>(block_size: usize)
where
    S::K: Clone,
{
    for pt in get_plaintexts(block_size) {
        enc_upd_rt_buffer::<S>(&pt, 1);
    }
}

fn encrypt_update_many<S: UpEnc>(block_size: usize)
where
    S::K: Clone,
{
    for pt in get_plaintexts(block_size) {
        enc_upd_rt_buffer::<S>(&pt, 5);
    }
}

fn keygen_sane<S: UpEnc>() {
    for _ in 0..TEST_REPEAT {
        S::keygen().unwrap();
    }
}

fn write_keyfile_sane<S: UpEnc>() {
    let mut f = Vec::new();
    S::keygen().unwrap().write_key(&mut f);
    assert_eq!(f.len(), S::K::key_len());
}

fn keyfile_rt<S: UpEnc>()
where
    S::K: PartialEq + Debug,
{
    for _ in 0..10 {
        let k = S::keygen().unwrap();
        let mut buf = Vec::new();
        k.write_key(&mut buf);
        let k2 = S::K::read_key(&buf).unwrap();
        assert_eq!(k, k2);
    }
}

#[test]
fn encrypt_sane() {
    filecrypt_rt::<Naive<RingAes>>(16);
}

#[test]
fn sanity() {
    let mut buf = Vec::new();
    Naive::<RingAes>::keygen().unwrap().write_key(&mut buf);
    assert_eq!(buf.len(), 16);
}

#[test]
fn naive_tests_keygen_sane() {
    keygen_sane::<Naive<RegCipher>>();
    keygen_sane::<KemDem<RegCipher>>();
}

#[test]
fn naive_tests_write_keyfile_sane() {
    write_keyfile_sane::<Naive<RegCipher>>();
    write_keyfile_sane::<KemDem<RegCipher>>();
}

#[test]
fn naive_tests_keyfile_rt() {
    keyfile_rt::<Naive<RegCipher>>();
    keyfile_rt::<KemDem<RegCipher>>();
}

#[test]
fn naive_tests_filecrypt_rt() {
    filecrypt_rt::<Naive<RegCipher>>(32);
    filecrypt_rt::<KemDem<RegCipher>>(32);
}

#[test]
fn naive_tests_encrypt_update_once() {
    encrypt_update_once::<Naive<RegCipher>>(32);
    encrypt_update_once::<KemDem<RegCipher>>(32);
}

#[test]
fn naive_tests_encrypt_update_many() {
    encrypt_update_many::<Naive<RegCipher>>(32);
    encrypt_update_many::<KemDem<RegCipher>>(32);
}

#[test]
fn hybrid_tests_keygen_sane() {
    keygen_sane::<Kss<RegCipher, RegCipher>>();
    keygen_sane::<ReCrypt<RegCipher, KhPrf>>();
}

#[test]
fn hybrid_tests_write_keyfile_sane() {
    write_keyfile_sane::<Kss<RegCipher, RegCipher>>();
    write_keyfile_sane::<ReCrypt<RegCipher, KhPrf>>();
}

#[test]
fn hybrid_tests_keyfile_rt() {
    keyfile_rt::<Kss<RegCipher, RegCipher>>();
    keyfile_rt::<ReCrypt<RegCipher, KhPrf>>();
}

#[test]
fn hybrid_tests_filecrypt_rt() {
    filecrypt_rt::<Kss<RegCipher, RegCipher>>(32);
    filecrypt_rt::<ReCrypt<RegCipher, KhPrf>>(31);
}

#[test]
fn hybrid_tests_encrypt_update_once() {
    encrypt_update_once::<Kss<RegCipher, RegCipher>>(32);
    encrypt_update_once::<ReCrypt<RegCipher, KhPrf>>(31);
}

#[test]
fn hybrid_tests_encrypt_update_many() {
    encrypt_update_many::<Kss<RegCipher, RegCipher>>(32);
    encrypt_update_many::<ReCrypt<RegCipher, KhPrf>>(32);
}

// Flips each byte of the header and of the body in turn: decryption must fail.
fn tamper_detected<S: UpEnc>(pt: &[u8])
where
    S::K: Clone,
{
    let key = S::keygen().unwrap();
    let mut hdr = Vec::new();
    let mut body = Vec::new();
    S::encrypt(key.clone(), pt, &mut hdr, &mut body).unwrap();
    for i in 0..hdr.len() {
        let mut bad = hdr.clone();
        bad[i] ^= 0x01;
        let mut out = Vec::new();
        assert!(S::decrypt(key.clone(), &bad, &body, &mut out).is_err());
    }
    for i in 0..body.len() {
        let mut bad = body.clone();
        bad[i] ^= 0x80;
        let mut out = Vec::new();
        assert!(S::decrypt(key.clone(), &hdr, &bad, &mut out).is_err());
    }
}

#[test]
fn tamper_detection_kss_and_recrypt() {
    tamper_detected::<Kss<RegCipher, RegCipher>>(b"Something legible");
    tamper_detected::<ReCrypt<RegCipher, KhPrf>>(b"Something legible");
    tamper_detected::<KemDem<RegCipher>>(b"Something legible");
    tamper_detected::<Naive<RegCipher>>(b"Something legible");
}

#[test]
fn kss_tamper_emits_no_plaintext() {
    let key = Kss::<RegCipher, RegCipher>::keygen().unwrap();
    let mut hdr = Vec::new();
    let mut body = Vec::new();
    Kss::<RegCipher, RegCipher>::encrypt(key.clone(), &[5u8; 70], &mut hdr, &mut body).unwrap();
    let last = body.len() - 1;
    body[last] ^= 1;
    let mut out = Vec::new();
    let r = Kss::<RegCipher, RegCipher>::decrypt(key, &hdr, &body, &mut out);
    assert_eq!(r, Err(Error::IntegrityFailure));
    assert!(out.is_empty());
}

#[test]
fn recrypt_concrete_scenario() {
    type S = ReCrypt<RegCipher, KhPrf>;
    let pt = b"Something legible".to_vec();
    let key = S::keygen().unwrap();
    let mut hdr = Vec::new();
    let mut body = Vec::new();
    S::encrypt(key.clone(), &pt, &mut hdr, &mut body).unwrap();
    // The body is the share y (33 bytes) and one 32-byte block.
    assert_eq!(body.len(), 33 + 32);
    let mut out = Vec::new();
    S::decrypt(key, &hdr, &body, &mut out).unwrap();
    assert_eq!(out, pt);
}

#[test]
fn recrypt_rotation_moves_to_second_key_only() {
    type S = ReCrypt<RegCipher, KhPrf>;
    let pt = vec![0u8; 32];
    let k1 = S::keygen().unwrap();
    let k2 = S::keygen().unwrap();
    let mut hdr = Vec::new();
    let mut body = Vec::new();
    S::encrypt(k1.clone(), &pt, &mut hdr, &mut body).unwrap();
    let mut token = Vec::new();
    S::rekeygen(k1.clone(), k2.clone(), &hdr, &mut token).unwrap();
    let mut hdr2 = Vec::new();
    let mut body2 = Vec::new();
    S::reencrypt(&token, &hdr, &body, &mut hdr2, &mut body2).unwrap();
    // Every block of the body is refreshed.
    assert_eq!(body2.len(), body.len());
    assert!(body2[33..] != body[33..]);
    let mut out = Vec::new();
    S::decrypt(k2, &hdr2, &body2, &mut out).unwrap();
    assert_eq!(out, pt);
    let mut wrong = Vec::new();
    assert!(S::decrypt(k1, &hdr2, &body2, &mut wrong).is_err());
}

#[test]
fn kss_rotation_keeps_ciphertext_part() {
    type S = Kss<RegCipher, RegCipher>;
    let k1 = S::keygen().unwrap();
    let k2 = S::keygen().unwrap();
    let mut hdr = Vec::new();
    let mut body = Vec::new();
    S::encrypt(k1.clone(), b"Something legible", &mut hdr, &mut body).unwrap();
    let mut token = Vec::new();
    S::rekeygen(k1.clone(), k2, &hdr, &mut token).unwrap();
    let mut hdr2 = Vec::new();
    let mut body2 = Vec::new();
    S::reencrypt(&token, &hdr, &body, &mut hdr2, &mut body2).unwrap();
    assert_eq!(body2[16..], body[16..]);
    assert!(body2[..16] != body[..16]);
    let mut out = Vec::new();
    assert!(S::decrypt(k1, &hdr2, &body2, &mut out).is_err());
}

#[test]
fn empty_and_block_sized_plaintexts_round_trip() {
    for n in [0usize, 1, 30, 31, 32, 62, 63, 200] {
        let pt: Vec<u8> = (0..n).map(|i| i as u8).collect();
        enc_upd_rt_buffer::<ReCrypt<RegCipher, KhPrf>>(&pt, 2);
        enc_upd_rt_buffer::<Kss<RegCipher, RegCipher>>(&pt, 2);
    }
}

#[test]
fn short_inputs_are_refused() {
    type S = ReCrypt<RegCipher, KhPrf>;
    let key = S::keygen().unwrap();
    let mut out = Vec::new();
    assert_eq!(S::decrypt(key.clone(), &[0u8; 5], &[], &mut out), Err(Error::MalformedCiphertext));
    let mut h2 = Vec::new();
    let mut b2 = Vec::new();
    assert!(S::reencrypt(&[1u8; 10], &[], &[], &mut h2, &mut b2).is_err());
    let mut token = Vec::new();
    assert!(Kss::<RegCipher, RegCipher>::rekeygen(key.clone(), key, &[0u8; 40], &mut token).is_err());
}

#[test]
fn failed_rekeygen_leaves_token_unchanged() {
    let k1 = ReCrypt::<RegCipher, KhPrf>::keygen().unwrap();
    let k2 = ReCrypt::<RegCipher, KhPrf>::keygen().unwrap();
    let mut token = vec![1u8, 2, 3];
    assert!(ReCrypt::<RegCipher, KhPrf>::rekeygen(k1.clone(), k2.clone(), &[0u8; 40], &mut token).is_err());
    assert_eq!(token, vec![1u8, 2, 3]);
    assert!(Kss::<RegCipher, RegCipher>::rekeygen(k1, k2, &[0u8; 40], &mut token).is_err());
    assert_eq!(token, vec![1u8, 2, 3]);
}

#[test]
fn rekey_header_errors() {
    let x = <KhPrf as recrypt::Cipher>::keygen().unwrap();
    let y = <KhPrf as recrypt::Cipher>::keygen().unwrap();
    assert_eq!(rekey_header(&[0u8; 10], &x, &y), Err(Error::MalformedCiphertext));
    // A tag that is not the encoding of a point.
    let mut hp = [0u8; 65];
    for v in 0..=255u8 {
        hp[33] = v;
        let mut tag = [0u8; 32];
        tag.copy_from_slice(&hp[33..]);
        if curve25519_dalek::edwards::CompressedEdwardsY(tag).decompress().is_none() {
            break;
        }
    }
    assert_eq!(rekey_header(&hp, &x, &y), Err(Error::InvalidEncoding));
}
