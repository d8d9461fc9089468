//! The SHA-256 of a file's bytes, written as the records write it: 64 lowercase hexadecimal
//! digits.
use vstd::prelude::*;

use crate::text::{chars_eq, chars_of, push_char};

verus! {

/// The SHA-256 digest of `data`, as `sha2` computes it.
pub uninterp spec fn sha256_of(data: Seq<u8>) -> Seq<u8>;

/// `sha2::Sha256`'s `Digest::digest` of `data`: its SHA-256, 32 bytes, as `sha256_of` names it.
/// The digest's bytes are not stated; their number is the output size `Sha256` declares.
#[verifier::external_body]
fn sha256_digest(data: &[u8]) -> (digest: Vec<u8>)
    ensures
        digest@ == sha256_of(data@),
        digest@.len() == 32,
{
    <sha2::Sha256 as sha2::Digest>::digest(data).to_vec()
}

/// The lowercase hexadecimal digit for `d`.
pub open spec fn hex_digit(d: nat) -> char {
    if d < 10 {
        ((d + 48) as u8) as char
    } else {
        ((d + 87) as u8) as char
    }
}

/// `bytes` in lowercase hexadecimal, two digits each, as `{:02x}` writes a byte.
pub open spec fn lower_hex(bytes: Seq<u8>) -> Seq<char>
    decreases bytes.len(),
{
    if bytes.len() == 0 {
        Seq::empty()
    } else {
        lower_hex(bytes.drop_last()) + seq![hex_digit(bytes.last() as nat / 16), hex_digit(bytes.last() as nat % 16)]
    }
}

/// The lowercase hexadecimal digit for `d`.
fn hex_char(d: u8) -> (c: char)
    requires
        d < 16,
    ensures
        c == hex_digit(d as nat),
{
    if d < 10 {
        (d + 48) as char
    } else {
        (d + 87) as char
    }
}

/// `bytes` in lowercase hexadecimal, two digits each.
pub fn hex_of(bytes: &[u8]) -> (hex: String)
    ensures
        hex@ == lower_hex(bytes@),
        hex@.len() == 2 * bytes@.len(),
{
    let mut hex = String::new();
    let mut k: usize = 0;
    assert(bytes@.take(0) =~= Seq::<u8>::empty());
    assert(hex@ =~= Seq::<char>::empty());
    while k < bytes.len()
        invariant
            0 <= k <= bytes.len(),
            hex@ == lower_hex(bytes@.take(k as int)),
            hex@.len() == 2 * k,
        decreases bytes.len() - k,
    {
        let b = bytes[k];
        assert(bytes@.take(k + 1).drop_last() =~= bytes@.take(k as int));
        assert(bytes@.take(k + 1).last() == b);
        push_char(&mut hex, hex_char(b / 16));
        push_char(&mut hex, hex_char(b % 16));
        k += 1;
    }
    assert(bytes@.take(bytes.len() as int) =~= bytes@);
    hex
}

/// The SHA-256 of `bytes` in lowercase hexadecimal.
pub fn sha256(bytes: &[u8]) -> (hex: String)
    ensures
        hex@ == lower_hex(sha256_of(bytes@)),
        hex@.len() == 64,
{
    let digest = sha256_digest(bytes);
    hex_of(digest.as_slice())
}

/// Whether `bytes` are the file a record flew: their SHA-256 is the one it gives.
pub fn same_file(bytes: &[u8], recorded: &str) -> (same: bool)
    ensures
        same == (lower_hex(sha256_of(bytes@)) == recorded@),
{
    let hex = sha256(bytes);
    let a = chars_of(hex.as_str());
    let b = chars_of(recorded);
    chars_eq(a.as_slice(), b.as_slice())
}

} // verus!
