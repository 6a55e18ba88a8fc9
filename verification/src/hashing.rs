//! Content fingerprinting primitives: cryptographic digests of byte buffers
//! and their lowercase hexadecimal rendering.

use vstd::prelude::*;
use vstd::std_specs::hash::DefaultHasherAdditionalSpecFns;
use std::hash::Hasher;

verus! {

/// The value of a single hexadecimal digit, `0` through `15`, as a character.
pub open spec fn hex_digit(n: int) -> char {
    if n == 0 {
        '0'
    } else if n == 1 {
        '1'
    } else if n == 2 {
        '2'
    } else if n == 3 {
        '3'
    } else if n == 4 {
        '4'
    } else if n == 5 {
        '5'
    } else if n == 6 {
        '6'
    } else if n == 7 {
        '7'
    } else if n == 8 {
        '8'
    } else if n == 9 {
        '9'
    } else if n == 10 {
        'a'
    } else if n == 11 {
        'b'
    } else if n == 12 {
        'c'
    } else if n == 13 {
        'd'
    } else if n == 14 {
        'e'
    } else {
        'f'
    }
}

/// Lowercase hexadecimal rendering of a byte sequence: two digits per byte,
/// in order.
pub open spec fn hex_of(data: Seq<u8>) -> Seq<char>
    decreases data.len(),
{
    if data.len() == 0 {
        Seq::empty()
    } else {
        hex_of(data.drop_last()) + seq![
            hex_digit(data.last() as int / 16),
            hex_digit(data.last() as int % 16),
        ]
    }
}

/// The SHA-256 digest as computed by the `sha2` crate; a function of the
/// input bytes alone.
pub uninterp spec fn sha256_of(data: Seq<u8>) -> Seq<u8>;

/// The SHA-256 digest as computed by the `ring` crate; a function of the
/// input bytes alone.
pub uninterp spec fn ring_sha256_of(data: Seq<u8>) -> Seq<u8>;

/// The MD5 digest as computed by the `md5` crate; a function of the input
/// bytes alone.
pub uninterp spec fn md5_of(data: Seq<u8>) -> Seq<u8>;

/// Relies on sha2's `Sha256::digest`: a 32-byte digest determined by the
/// input bytes alone.
#[verifier::external_body]
pub(crate) fn sha256_bytes(data: &[u8]) -> (r: Vec<u8>)
    ensures
        r@ == sha256_of(data@),
        r@.len() == 32,
{
    <sha2::Sha256 as sha2::Digest>::digest(data).to_vec()
}

/// Relies on ring's `digest::digest` with the `SHA256` algorithm: a 32-byte
/// digest determined by the input bytes alone.
#[verifier::external_body]
pub(crate) fn ring_sha256_bytes(data: &[u8]) -> (r: Vec<u8>)
    ensures
        r@ == ring_sha256_of(data@),
        r@.len() == 32,
{
    ring::digest::digest(&ring::digest::SHA256, data).as_ref().to_vec()
}

/// Relies on md5's `compute`: a 16-byte digest determined by the input bytes
/// alone.
#[verifier::external_body]
pub(crate) fn md5_bytes(data: &[u8]) -> (r: Vec<u8>)
    ensures
        r@ == md5_of(data@),
        r@.len() == 16,
{
    md5::compute(data).0.to_vec()
}

/// Relies on hex's `encode`: the lowercase hexadecimal rendering of the
/// input, two digits per byte.
#[verifier::external_body]
pub(crate) fn hex_encode_bytes(data: &[u8]) -> (r: String)
    ensures
        r@ == hex_of(data@),
{
    hex::encode(data)
}

/// One hexadecimal digit as a string slice.
fn hex_digit_str(n: u8) -> (r: &'static str)
    requires
        n < 16,
    ensures
        r@ == seq![hex_digit(n as int)],
{
    proof {
        reveal_strlit("0");
        reveal_strlit("1");
        reveal_strlit("2");
        reveal_strlit("3");
        reveal_strlit("4");
        reveal_strlit("5");
        reveal_strlit("6");
        reveal_strlit("7");
        reveal_strlit("8");
        reveal_strlit("9");
        reveal_strlit("a");
        reveal_strlit("b");
        reveal_strlit("c");
        reveal_strlit("d");
        reveal_strlit("e");
        reveal_strlit("f");
    }
    let r = match n {
        0 => "0",
        1 => "1",
        2 => "2",
        3 => "3",
        4 => "4",
        5 => "5",
        6 => "6",
        7 => "7",
        8 => "8",
        9 => "9",
        10 => "a",
        11 => "b",
        12 => "c",
        13 => "d",
        14 => "e",
        _ => "f",
    };
    proof {
        assert(r@ =~= seq![hex_digit(n as int)]);
    }
    r
}

/// Renders bytes as lowercase hexadecimal, two digits per byte.
pub fn data_to_hex(data: &[u8]) -> (r: String)
    ensures
        r@ == hex_of(data@),
{
    let mut r = String::new();
    let mut i: usize = 0;
    while i < data.len()
        invariant
            i <= data@.len(),
            r@ == hex_of(data@.take(i as int)),
        decreases data@.len() - i,
    {
        let b = data[i];
        r.append(hex_digit_str(b / 16));
        r.append(hex_digit_str(b % 16));
        proof {
            assert(data@.take(i + 1).drop_last() =~= data@.take(i as int));
            assert(data@.take(i + 1).last() == data@[i as int]);
        }
        i = i + 1;
    }
    proof {
        assert(data@.take(data@.len() as int) =~= data@);
    }
    r
}

/// The MD5 digest of the input, rendered as lowercase hexadecimal.
pub fn compute_md5(data: &[u8]) -> (r: String)
    ensures
        r@ == hex_of(md5_of(data@)),
{
    let digest = md5_bytes(data);
    data_to_hex(digest.as_slice())
}

/// The SHA-256 digest of a whole byte buffer (the ring implementation), as
/// raw digest bytes.
pub fn get_file_sha256_digest(content: &[u8]) -> (r: Vec<u8>)
    ensures
        r@ == ring_sha256_of(content@),
        r@.len() == 32,
{
    ring_sha256_bytes(content)
}

/// The fingerprint key of a whole content buffer: its SHA-256 digest in
/// lowercase hexadecimal.
pub open spec fn full_hash_key(content: Seq<u8>) -> Seq<char> {
    hex_of(sha256_of(content))
}

/// The fingerprint key of the first `limit` bytes of a content buffer
/// (the whole buffer when it is shorter): the SHA-256 digest of exactly the
/// bytes covered, in lowercase hexadecimal.
pub open spec fn partial_hash_key(content: Seq<u8>, limit: int) -> Seq<char> {
    full_hash_key(content.take(if limit <= content.len() { limit } else { content.len() as int }))
}

/// Hashes a whole content buffer with SHA-256 and renders the digest as
/// lowercase hexadecimal.
pub fn compute_full_hash(content: &[u8]) -> (r: String)
    ensures
        r@ == full_hash_key(content@),
{
    let digest = sha256_bytes(content);
    hex_encode_bytes(digest.as_slice())
}

/// Hashes at most the first `limit` bytes of a content buffer; a shorter
/// buffer is hashed as it is, never padded.
pub fn compute_partial_hash(content: &[u8], limit: usize) -> (r: String)
    ensures
        r@ == partial_hash_key(content@, limit as int),
{
    let end = if limit <= content.len() {
        limit
    } else {
        content.len()
    };
    let prefix = vstd::slice::slice_subrange(content, 0, end);
    proof {
        assert(prefix@ =~= content@.take(end as int));
    }
    let digest = sha256_bytes(prefix);
    hex_encode_bytes(digest.as_slice())
}

/// A cheap non-cryptographic hash of a byte buffer, from std's default
/// hasher: the hasher's digest after absorbing exactly this buffer.
pub fn compute_simple_hash(data: &[u8]) -> (r: u64)
    ensures
        r == std::collections::hash_map::DefaultHasher::spec_finish(seq![data@]),
{
    let mut hasher = std::collections::hash_map::DefaultHasher::new();
    hasher.write(data);
    proof {
        assert(hasher@ =~= seq![data@]);
    }
    hasher.finish()
}

} // verus!
