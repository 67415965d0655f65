//! Content hashes: SHA-256 of the captured bytes, rendered as lower-case hex.
use sha2::Digest;
use vstd::prelude::*;

use crate::text::string_from_chars;

verus! {

/// The SHA-256 digest of `data` (a name for what `sha2` computes).
pub uninterp spec fn sha256_digest(data: Seq<u8>) -> Seq<u8>;

/// Calls `<sha2::Sha256 as Digest>::digest`. Claims that the result is the SHA-256
/// digest of `data`, named `sha256_digest`, and that it is 32 bytes long
/// (`Sha256`'s output size is `U32`).
#[verifier::external_body]
fn sha256(data: &[u8]) -> (res: Vec<u8>)
    ensures
        res@ == sha256_digest(data@),
        res@.len() == 32,
{
    sha2::Sha256::digest(data).to_vec()
}

/// Lower-case hex digit of a nibble.
pub open spec fn hex_digit(n: int) -> char {
    if n < 10 {
        (('0' as u32) + n) as char
    } else {
        (('a' as u32) + n - 10) as char
    }
}

/// Lower-case hex rendering of `bytes`, two digits per byte (`format!("{b:02x}")`).
pub open spec fn hex_lower(bytes: Seq<u8>) -> Seq<char> {
    Seq::new(
        2 * bytes.len(),
        |i: int|
            if i % 2 == 0 {
                hex_digit(bytes[i / 2] as int / 16)
            } else {
                hex_digit(bytes[i / 2] as int % 16)
            },
    )
}

/// Every character of `s` is a lower-case hex digit (`0`-`9`, `a`-`f`).
pub open spec fn is_lower_hex(s: Seq<char>) -> bool {
    forall|i: int| 0 <= i < s.len() ==> ('0' <= #[trigger] s[i] <= '9') || ('a' <= s[i] <= 'f')
}

/// The hex hash under which content is deduplicated.
pub open spec fn content_hash_of(bytes: Seq<u8>) -> Seq<char> {
    hex_lower(sha256_digest(bytes))
}

fn nibble_char(n: u8) -> (c: char)
    requires
        n < 16,
    ensures
        c == hex_digit(n as int),
        ('0' <= c <= '9') || ('a' <= c <= 'f'),
{
    let code: u8 = if n < 10 {
        48 + n
    } else {
        87 + n
    };
    code as char
}

/// Lower-case hex of `bytes`.
pub fn hex(bytes: &[u8]) -> (s: String)
    ensures
        s@ == hex_lower(bytes@),
        s@.len() == 2 * bytes@.len(),
        is_lower_hex(s@),
{
    let mut out: Vec<char> = Vec::new();
    let mut i: usize = 0;
    while i < bytes.len()
        invariant
            i <= bytes@.len(),
            out@ =~= hex_lower(bytes@.take(i as int)),
            is_lower_hex(out@),
        decreases bytes.len() - i,
    {
        let b = bytes[i];
        out.push(nibble_char(b / 16));
        out.push(nibble_char(b % 16));
        proof {
            let h = hex_lower(bytes@.take(i + 1));
            assert forall|k: int| 0 <= k < 2 * (i + 1) implies #[trigger] out@[k] == h[k] by {
                assert(bytes@.take(i + 1)[k / 2] == bytes@[k / 2]);
                if k < 2 * i {
                    assert(bytes@.take(i as int)[k / 2] == bytes@[k / 2]);
                }
            }
        }
        i = i + 1;
    }
    assert(bytes@.take(bytes@.len() as int) =~= bytes@);
    string_from_chars(&out)
}

/// Hex-encoded SHA-256 of `bytes`: the deduplication key of a history entry.
pub fn content_hash(bytes: &[u8]) -> (h: String)
    ensures
        h@ == content_hash_of(bytes@),
        h@.len() == 64,
        is_lower_hex(h@),
{
    let d = sha256(bytes);
    hex(d.as_slice())
}

} // verus!
