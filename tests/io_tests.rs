use recrypt::common::h;
use recrypt::io::{read_chunk, write_pt};

#[test]
fn read_chunk_takes_up_to_len() {
    let data = [1u8, 2, 3, 4, 5];
    assert_eq!(read_chunk(&data, 0, 2), vec![1, 2]);
    assert_eq!(read_chunk(&data, 3, 4), vec![4, 5]);
    assert_eq!(read_chunk(&data, 5, 4), Vec::<u8>::new());
}

#[test]
fn write_pt_variants() {
    let mut out = vec![9u8];
    write_pt(vec![], &mut out, true);
    assert_eq!(out, vec![9]);
    write_pt(vec![1, 2, 2], &mut out, false);
    assert_eq!(out, vec![9, 1, 2, 2]);
    write_pt(vec![1, 2, 2], &mut out, true);
    assert_eq!(out, vec![9, 1, 2, 2, 1]);
    // Invalid padding writes nothing.
    write_pt(vec![1, 9], &mut out, true);
    assert_eq!(out, vec![9, 1, 2, 2, 1]);
    write_pt(vec![1, 0], &mut out, true);
    assert_eq!(out, vec![9, 1, 2, 2, 1]);
}

#[test]
fn hash_is_sane() {
    let x = [rand::random::<u8>(); 32];
    assert_eq!(h(&x), h(&x));
    assert_eq!(h(&x).len(), 32);
}

#[test]
fn sha256_known_value() {
    let d = h(b"abc");
    assert_eq!(
        d,
        vec![
            0xba, 0x78, 0x16, 0xbf, 0x8f, 0x01, 0xcf, 0xea, 0x41, 0x41, 0x40, 0xde, 0x5d, 0xae,
            0x22, 0x23, 0xb0, 0x03, 0x61, 0xa3, 0x96, 0x17, 0x7a, 0x9c, 0xb4, 0x10, 0xff, 0x61,
            0xf2, 0x00, 0x15, 0xad
        ]
    );
}
