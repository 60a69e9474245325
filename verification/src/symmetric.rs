//! The symmetric half of the hybrid scheme: a key derived from an element of
//! the target group, and a stream cipher under that key.
use aes::cipher::{KeyIvInit, StreamCipher};
use bls12_381::Gt;
use sha3::Digest;
use vstd::prelude::*;

verus! {

/// Length of a key of the stream cipher, in bytes.
pub const KEY_LEN: usize = 16;

/// The text in which an element of the target group is written out.
pub uninterp spec fn gt_text(e: Gt) -> Seq<u8>;

/// The SHA3-256 digest of a byte string.
pub uninterp spec fn sha3_256_digest(data: Seq<u8>) -> Seq<u8>;

/// The byte at position `i` of the keystream of AES-128 in counter mode, with
/// a little-endian counter of 64 bits, under `key` and starting from `iv`.
pub uninterp spec fn ctr_keystream(key: Seq<u8>, iv: Seq<u8>, i: int) -> u8;

/// The nonce of every encryption. It is the same for all of them because no
/// key is used twice: all zero.
pub open spec fn zero_iv() -> Seq<u8> {
    Seq::new(16, |i: int| 0u8)
}

/// The key that an element of the target group stands for: the first half of
/// the digest of its text.
pub open spec fn derived_key(e: Gt) -> Seq<u8> {
    sha3_256_digest(gt_text(e)).take(16)
}

/// The data with the keystream under `key` laid over it.
pub open spec fn keystream_xor(key: Seq<u8>, data: Seq<u8>) -> Seq<u8> {
    Seq::new(data.len(), |i: int| data[i] ^ ctr_keystream(key, zero_iv(), i))
}

/// The `Display` form of `Gt`, as bytes. It writes each coordinate in full,
/// so that equal elements have equal texts.
#[verifier::external_body]
fn gt_to_text(e: &Gt) -> (text: Vec<u8>)
    ensures
        text@ == gt_text(*e),
{
    e.to_string().into_bytes()
}

/// `Sha3_256::digest`: the digest of the data, 32 bytes long.
#[verifier::external_body]
fn sha3_256(data: &Vec<u8>) -> (digest: Vec<u8>)
    ensures
        digest@ == sha3_256_digest(data@),
        digest@.len() == 32,
{
    sha3::Sha3_256::digest(data).to_vec()
}

/// `apply_keystream` of a fresh `Ctr64LE<Aes128>`: each byte of the data is
/// combined by exclusive or with the keystream byte of its position. A key or
/// a nonce of another length makes the call panic, which `requires` leaves
/// out.
#[verifier::external_body]
fn aes128_ctr_apply(key: &Vec<u8>, iv: &Vec<u8>, data: Vec<u8>) -> (out: Vec<u8>)
    requires
        key@.len() == 16,
        iv@.len() == 16,
    ensures
        out@.len() == data@.len(),
        forall|i: int|
            0 <= i < out@.len() ==> #[trigger] out@[i] == data@[i] ^ ctr_keystream(key@, iv@, i),
{
    let mut data = data;
    let mut cipher = ctr::Ctr64LE::<aes::Aes128>::new_from_slices(key, iv).unwrap();
    cipher.apply_keystream(&mut data);
    data
}

/// Derives the key of the stream cipher from an element of the target group.
pub fn kdf(e: &Gt) -> (key: Vec<u8>)
    ensures
        key@ == derived_key(*e),
        key@.len() == KEY_LEN,
{
    let text = gt_to_text(e);
    let digest = sha3_256(&text);
    let mut key: Vec<u8> = Vec::new();
    let mut i: usize = 0;
    while i < KEY_LEN
        invariant
            i <= KEY_LEN,
            digest@.len() == 32,
            key@ == digest@.take(i as int),
        decreases KEY_LEN - i,
    {
        key.push(digest[i]);
        i += 1;
    }
    key
}

/// Encrypts or decrypts the data under the key: both are the same operation.
pub fn stream_xor(key: &Vec<u8>, data: Vec<u8>) -> (out: Vec<u8>)
    requires
        key@.len() == KEY_LEN,
    ensures
        out@ == keystream_xor(key@, data@),
        out@.len() == data@.len(),
{
    let mut iv: Vec<u8> = Vec::new();
    let mut i: usize = 0;
    while i < 16
        invariant
            i <= 16,
            iv@ == Seq::new(i as nat, |k: int| 0u8),
        decreases 16 - i,
    {
        iv.push(0u8);
        i += 1;
    }
    aes128_ctr_apply(key, &iv, data)
}

/// Laying the same keystream over the data twice gives the data back: what
/// was encrypted under a key is decrypted under the same key.
pub proof fn lemma_keystream_xor_involution(key: Seq<u8>, data: Seq<u8>)
    ensures
        keystream_xor(key, keystream_xor(key, data)) == data,
{
    assert forall|i: int| 0 <= i < data.len() implies #[trigger] keystream_xor(
        key,
        keystream_xor(key, data),
    )[i] == data[i] by {
        let x = data[i];
        let k = ctr_keystream(key, zero_iv(), i);
        assert((x ^ k) ^ k == x) by (bit_vector);
    }
}

} // verus!
