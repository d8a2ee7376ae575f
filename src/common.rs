//! Functionality shared across the library: PKCS7-style padding and the
//! SHA-256 digest.
use vstd::prelude::*;


verus! {

/// The SHA-256 digest of `data`.
pub uninterp spec fn sha256_of(data: Seq<u8>) -> Seq<u8>;

/// Relies on *ring*'s `digest::digest` with `SHA256`: the 32-byte digest of
/// `data`, a function of `data` alone.
#[verifier::external_body]
pub fn h(data: &[u8]) -> (r: Vec<u8>)
    ensures
        r@ == sha256_of(data@),
        r@.len() == 32,
{
    ring::digest::digest(&ring::digest::SHA256, data).as_ref().to_vec()
}

/// Whether `block_len` is a legal padding block length.
pub open spec fn legal_block_len(block_len: int) -> bool {
    2 <= block_len <= 255
}

/// The number of pad bytes that `pad` appends to a message of `len` bytes.
pub open spec fn pad_count(len: nat, block_len: nat) -> nat
    recommends
        block_len > 0,
{
    (block_len - (len as int) % (block_len as int)) as nat
}

/// The bytes that `pad` appends: `pad_count` copies of the count itself.
pub open spec fn padding(len: nat, block_len: nat) -> Seq<u8> {
    let n = pad_count(len, block_len);
    Seq::new(n, |i: int| n as u8)
}

/// The message with padding appended.
pub open spec fn padded(msg: Seq<u8>, block_len: nat) -> Seq<u8> {
    msg + padding(msg.len(), block_len)
}

/// What `remove_padding` returns: the message without its last `p` bytes,
/// where `p` is the value of the last byte, when `p` is a pad count (between 1
/// and the length) and those bytes all equal `p`.
pub open spec fn unpadded(msg: Seq<u8>) -> Option<Seq<u8>> {
    if msg.len() == 0 {
        None
    } else {
        let p = msg.last() as int;
        if p == 0 || p > msg.len() {
            None
        } else if forall|i: int| msg.len() - p <= i < msg.len() ==> msg[i] == p as u8 {
            Some(msg.take(msg.len() - p))
        } else {
            None
        }
    }
}

/// Pads `msg` to a multiple of `block_len` in the manner of PKCS7: appends
/// `n` bytes of value `n`, where `n` is between 1 and `block_len`. A
/// `block_len` outside `[2, 255]` is a programming error: it is ruled out by
/// the precondition, and a caller that breaks it stops at the check.
pub fn pad(msg: &mut Vec<u8>, block_len: usize)
    requires
        legal_block_len(block_len as int),
    ensures
        final(msg)@ == padded(old(msg)@, block_len as nat),
{
    vstd::pervasive::runtime_assert(2 <= block_len && block_len <= 255);
    let rem = msg.len() % block_len;
    let pad_bytes: u8 = (block_len - rem) as u8;
    let ghost start = msg@;
    let ghost n = pad_count(start.len(), block_len as nat);
    assert(n == pad_bytes as nat);
    let mut i: u8 = 0;
    while i < pad_bytes
        invariant
            i <= pad_bytes,
            n == pad_bytes as nat,
            msg@ == start + Seq::new(i as nat, |k: int| pad_bytes),
        decreases pad_bytes - i,
    {
        msg.push(pad_bytes);
        i = i + 1;
        assert(msg@ =~= start + Seq::new(i as nat, |k: int| pad_bytes));
    }
    assert(msg@ =~= padded(start, block_len as nat));
}

/// Strips padding added by `pad`. Returns `None` if `msg` is empty, if its
/// last byte is 0 or exceeds its length, or if the pad bytes are inconsistent.
pub fn remove_padding(msg: Vec<u8>) -> (r: Option<Vec<u8>>)
    ensures
        match r {
            Some(v) => unpadded(msg@) == Some(v@),
            None => unpadded(msg@) is None,
        },
{
    let ghost start = msg@;
    let mut rest = msg;
    let len = rest.len();
    if len == 0 {
        return None;
    }
    let pad_bytes = rest[len - 1];
    if pad_bytes == 0 || pad_bytes as usize > len {
        return None;
    }
    let mut i: usize = 0;
    while i < pad_bytes as usize
        invariant
            start == msg@,
            len == start.len(),
            pad_bytes == start.last(),
            pad_bytes as usize <= len,
            i <= pad_bytes,
            rest@ == start.take(len - i),
            forall|k: int| len - i <= k < len ==> start[k] == pad_bytes,
        decreases pad_bytes - i,
    {
        let v = rest.pop();
        match v {
            Some(b) => {
                if b != pad_bytes {
                    let ghost k = len - 1 - i;
                    assert(start[k] != pad_bytes);
                    assert(len - pad_bytes <= k < len);
                    return None;
                }
            },
            None => {
                return None;
            },
        }
        i = i + 1;
        assert(rest@ =~= start.take(len - i));
    }
    Some(rest)
}

/// Padding and its removal undo each other: for every message and every legal
/// block length, removing the padding from the padded message gives the
/// message back.
pub proof fn lemma_pad_round_trip(msg: Seq<u8>, block_len: nat)
    requires
        legal_block_len(block_len as int),
    ensures
        unpadded(padded(msg, block_len)) == Some(msg),
        (padded(msg, block_len).len() as int) % (block_len as int) == 0,
{
    let n = pad_count(msg.len(), block_len);
    let p = padded(msg, block_len);
    assert(1 <= n <= block_len);
    assert(p.last() == n as u8);
    assert(p.take(p.len() - n) =~= msg);
    let m = msg.len() as int;
    let b = block_len as int;
    assert((m + (b - m % b)) % b == 0) by (nonlinear_arith)
        requires
            b > 0,
    {
        vstd::arithmetic::div_mod::lemma_fundamental_div_mod(m, b);
        vstd::arithmetic::div_mod::lemma_mod_multiples_basic(m / b + 1, b);
    }
}

} // verus!
