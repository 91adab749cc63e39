use vstd::prelude::*;
use crate::text::push_char;
use sha2::Digest;

verus! {

/// The SHA-256 digest of `data`, as `sha2::Sha256::digest` computes it.
pub uninterp spec fn sha256_digest(data: Seq<u8>) -> Seq<u8>;

/// `sha2::Sha256::digest` on the given bytes, copied out of its fixed-size array.
/// Claimed: the bytes are the digest of `data` (a function of `data` alone) and there are 32 of them.
#[verifier::external_body]
fn sha256(data: &[u8]) -> (digest: Vec<u8>)
    ensures
        digest@ == sha256_digest(data@),
        digest@.len() == 32,
{
    sha2::Sha256::digest(data).to_vec()
}

/// Lowercase hexadecimal digit for a value below 16.
pub open spec fn hex_digit(d: u8) -> char {
    if d < 10 {
        (48 + d) as char
    } else {
        (87 + d) as char
    }
}

/// Two lowercase hexadecimal digits per byte, most significant digit first.
pub open spec fn hex_lower(bytes: Seq<u8>) -> Seq<char>
    decreases bytes.len(),
{
    if bytes.len() == 0 {
        Seq::empty()
    } else {
        let last = bytes.last();
        hex_lower(bytes.drop_last()).push(hex_digit(last / 16)).push(hex_digit(last % 16))
    }
}

/// The lowercase hexadecimal SHA-256 of the UTF-8 bytes of `content`.
pub open spec fn checksum_text(content: Seq<char>) -> Seq<char> {
    hex_lower(sha256_digest(vstd::utf8::encode_utf8(content)))
}

fn digit(d: u8) -> (c: char)
    requires
        d < 16,
    ensures
        c == hex_digit(d),
{
    if d < 10 {
        (48u8 + d) as char
    } else {
        (87u8 + d) as char
    }
}

/// Hexadecimal SHA-256 checksum of a text.
pub fn checksum(content: &str) -> (r: String)
    ensures
        r@ == checksum_text(content@),
        r@.len() == 64,
{
    let bytes = sha256(content.as_bytes());
    let mut out = String::new();
    let mut i: usize = 0;
    while i < bytes.len()
        invariant
            i <= bytes@.len(),
            bytes@.len() == 32,
            out@ == hex_lower(bytes@.take(i as int)),
            out@.len() == 2 * i,
        decreases bytes@.len() - i,
    {
        let b = bytes[i];
        proof {
            assert(bytes@.take(i as int + 1).drop_last() =~= bytes@.take(i as int));
        }
        push_char(&mut out, digit(b / 16));
        push_char(&mut out, digit(b % 16));
        i = i + 1;
    }
    proof {
        assert(bytes@.take(32) =~= bytes@);
    }
    out
}

/// The memory scope of a project: the checksum of its root path's text.
pub fn project_scope(path: &str) -> (r: String)
    ensures
        r@ == checksum_text(path@),
{
    checksum(path)
}

} // verus!
