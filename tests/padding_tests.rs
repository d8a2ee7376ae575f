use recrypt::common::{pad, remove_padding};

fn random_vec(n: usize) -> Vec<u8> {
    let mut v = Vec::new();
    for _ in 0..n {
        v.push(rand::random::<u8>());
    }
    v
}

#[test]
fn pad_empty_block() {
    let empty: Vec<u8> = vec![];
    for len in 2..256 {
        let mut block = empty.clone();
        pad(&mut block, len);
        assert_eq!(vec![len as u8; len], block);
    }
}

#[test]
fn pad_rt_empty_block() {
    let empty: Vec<u8> = vec![];
    for len in 2..256 {
        let mut block = empty.clone();
        pad(&mut block, len);
        block = remove_padding(block).unwrap();
        assert!(block.is_empty());
    }
}

#[test]
fn remove_pad_empty_block() {
    for len in 2..256 {
        let mut block = vec![len as u8; len];
        block = remove_padding(block).unwrap();
        assert!(block.is_empty());
    }
}

// Tests add/remove with random inputs of various sizes.
#[test]
fn padding_rt_random_full_block() {
    for len in 2..(31 * 2 + 10) {
        for _ in 0..10 {
            let block = random_vec(len);
            let mut padded = block.clone();
            pad(&mut padded, len);
            padded = remove_padding(padded).unwrap();
            assert_eq!(block, padded);
        }
    }
}

#[test]
#[should_panic]
fn illegal_block_len_0() {
    pad(&mut random_vec(4), 0);
}

#[test]
#[should_panic]
fn illegal_block_len_1() {
    pad(&mut random_vec(4), 1);
}

#[test]
#[should_panic]
fn illegal_block_len_256() {
    pad(&mut random_vec(4), 256);
}

#[test]
#[should_panic]
fn illegal_block_len_huge() {
    let max = !0 as usize;
    pad(&mut random_vec(4), max);
}

// Test possibly problematic encoding.
#[test]
fn pad_rt_matching_bytes() {
    let msg = vec![100; 100];
    let mut all_same = msg.clone();
    pad(&mut all_same, 200);
    assert_eq!(all_same.len(), 200);
    assert_eq!(*all_same.last().unwrap(), 100);
    let result = remove_padding(all_same).unwrap();
    assert_eq!(msg, result);
}

#[test]
fn invalid_pad_block_too_small() {
    // 1 byte of message and 98 bytes of pad claiming there are 100.
    let mut block = vec![100; 98];
    block.insert(0, 33);
    assert_eq!(99, block.len());
    assert_eq!(33, block[0]);
    assert_eq!(100, *block.last().unwrap());
    assert!(remove_padding(block).is_none());
}

#[test]
fn pad_exact_values() {
    let mut msg = vec![7u8; 5];
    pad(&mut msg, 8);
    assert_eq!(msg, vec![7, 7, 7, 7, 7, 3, 3, 3]);
    let mut full = vec![9u8; 4];
    pad(&mut full, 4);
    assert_eq!(full, vec![9, 9, 9, 9, 4, 4, 4, 4]);
}

#[test]
fn remove_padding_rejects_bad_input() {
    assert_eq!(remove_padding(vec![]), None);
    assert_eq!(remove_padding(vec![1, 2, 5]), None);
    assert_eq!(remove_padding(vec![1, 3, 2, 2, 3]), None);
    assert_eq!(remove_padding(vec![1, 2, 2]), Some(vec![1]));
    // A pad count is at least 1.
    assert_eq!(remove_padding(vec![4, 0]), None);
}

#[test]
fn pad_then_remove_every_length() {
    for block_len in 2..256usize {
        for n in [0usize, 1, block_len - 1, block_len, block_len + 1] {
            let msg = random_vec(n);
            let mut p = msg.clone();
            pad(&mut p, block_len);
            assert_eq!(p.len() % block_len, 0);
            assert_eq!(remove_padding(p), Some(msg));
        }
    }
}
