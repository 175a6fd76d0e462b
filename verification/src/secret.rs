//! The shared secret: a digest of the operator's seed cut to sixteen bytes,
//! and its lower-case hexadecimal rendering.

use crypto::digest::Digest;
use crypto::sha2::Sha256;
use vstd::prelude::*;

verus! {

/// Length of the secret in bytes.
pub const SECRET_LEN: usize = 16;

/// The SHA-256 digest of a string's UTF-8 encoding.
pub uninterp spec fn sha256_digest(seed: Seq<char>) -> Seq<u8>;

/// Whether a seed is short enough to be digested: the digest counts its
/// input in bits in 64 bits, and a character takes at most four bytes.
pub open spec fn seed_fits(seed: Seq<char>) -> bool {
    seed.len() < 0x0800_0000_0000_0000
}

/// `Sha256::new`, `Digest::input_str` and `Digest::result` of the `crypto`
/// crate: the digest of the seed, which for SHA-256 is 32 bytes long. Input
/// whose length in bits overflows 64 bits is left out.
#[verifier::external_body]
fn sha256(seed: &str) -> (digest: Vec<u8>)
    requires
        seed_fits(seed@),
    ensures
        digest@ == sha256_digest(seed@),
        digest@.len() == 32,
{
    let mut sha = Sha256::new();
    let mut digest = vec![0u8; sha.output_bytes()];
    sha.input_str(seed);
    sha.result(&mut digest);
    digest
}

/// `String::from_iter` over characters: the string made of exactly them.
#[verifier::external_body]
fn string_of(chars: Vec<char>) -> (s: String)
    ensures
        s@ == chars@,
{
    String::from_iter(chars)
}

/// The leading `SECRET_LEN` bytes of a digest, or all of it if it is shorter.
pub open spec fn spec_secret(digest: Seq<u8>) -> Seq<u8> {
    if digest.len() > SECRET_LEN {
        digest.subrange(0, SECRET_LEN as int)
    } else {
        digest
    }
}

/// The lower-case hexadecimal digit for a value; `f` from fifteen up.
pub open spec fn hex_char(n: u8) -> char {
    if n == 0 {
        '0'
    } else if n == 1 {
        '1'
    } else if n == 2 {
        '2'
    } else if n == 3 {
        '3'
    } else if n == 4 {
        '4'
    } else if n == 5 {
        '5'
    } else if n == 6 {
        '6'
    } else if n == 7 {
        '7'
    } else if n == 8 {
        '8'
    } else if n == 9 {
        '9'
    } else if n == 10 {
        'a'
    } else if n == 11 {
        'b'
    } else if n == 12 {
        'c'
    } else if n == 13 {
        'd'
    } else if n == 14 {
        'e'
    } else {
        'f'
    }
}

/// Two digits per byte, high nibble first.
pub open spec fn spec_hex(bytes: Seq<u8>) -> Seq<char> {
    Seq::new(
        2 * bytes.len(),
        |i: int|
            if i % 2 == 0 {
                hex_char(bytes[i / 2] / 16)
            } else {
                hex_char(bytes[i / 2] % 16)
            },
    )
}

/// The lower-case hexadecimal digit for a value; `f` from fifteen up.
pub fn hex_digit(n: u8) -> (c: char)
    ensures
        c == hex_char(n),
{
    if n == 0 {
        '0'
    } else if n == 1 {
        '1'
    } else if n == 2 {
        '2'
    } else if n == 3 {
        '3'
    } else if n == 4 {
        '4'
    } else if n == 5 {
        '5'
    } else if n == 6 {
        '6'
    } else if n == 7 {
        '7'
    } else if n == 8 {
        '8'
    } else if n == 9 {
        '9'
    } else if n == 10 {
        'a'
    } else if n == 11 {
        'b'
    } else if n == 12 {
        'c'
    } else if n == 13 {
        'd'
    } else if n == 14 {
        'e'
    } else {
        'f'
    }
}

/// Cuts a digest down to the secret.
pub fn secret_from_digest(digest: Vec<u8>) -> (secret: Vec<u8>)
    ensures
        secret@ == spec_secret(digest@),
{
    let mut secret = digest;
    secret.truncate(SECRET_LEN);
    secret
}

/// Derives the sixteen-byte secret from the operator's seed.
pub fn derive_secret(seed: &str) -> (secret: Vec<u8>)
    requires
        seed_fits(seed@),
    ensures
        secret@ == sha256_digest(seed@).subrange(0, SECRET_LEN as int),
        secret@.len() == SECRET_LEN,
{
    secret_from_digest(sha256(seed))
}

/// Renders bytes as lower-case hexadecimal, two digits per byte.
pub fn hex_encode(bytes: &Vec<u8>) -> (s: String)
    requires
        2 * bytes@.len() <= usize::MAX,
    ensures
        s@ == spec_hex(bytes@),
{
    let mut chars: Vec<char> = Vec::new();
    let mut i: usize = 0;
    while i < bytes.len()
        invariant
            i <= bytes@.len(),
            2 * bytes@.len() <= usize::MAX,
            chars@ == spec_hex(bytes@.subrange(0, i as int)),
        decreases bytes@.len() - i,
    {
        let b: u8 = bytes[i];
        chars.push(hex_digit(b / 16));
        chars.push(hex_digit(b % 16));
        i += 1;
        assert(chars@ =~= spec_hex(bytes@.subrange(0, i as int)));
    }
    assert(bytes@.subrange(0, i as int) =~= bytes@);
    string_of(chars)
}

} // verus!
