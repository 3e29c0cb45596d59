//! Content addressing: the cache key for a generated artifact is the SHA-256
//! digest of the normalized prompt (trimmed, then lowercased), hex encoded.

use vstd::prelude::*;
use vstd::utf8::encode_utf8;
use sha2::Digest;

verus! {

/// What `str::trim` returns: the string with leading and trailing Unicode
/// whitespace removed. A function of the characters alone.
pub uninterp spec fn trim_of(s: Seq<char>) -> Seq<char>;

/// The Unicode White_Space characters, the set `str::trim` documents itself
/// against (what `char::is_whitespace` accepts).
pub open spec fn is_unicode_whitespace(c: char) -> bool {
    ||| ('\u{0009}' <= c && c <= '\u{000D}')
    ||| c == ' '
    ||| c == '\u{0085}'
    ||| c == '\u{00A0}'
    ||| c == '\u{1680}'
    ||| ('\u{2000}' <= c && c <= '\u{200A}')
    ||| c == '\u{2028}'
    ||| c == '\u{2029}'
    ||| c == '\u{202F}'
    ||| c == '\u{205F}'
    ||| c == '\u{3000}'
}

/// Neither end of the string is whitespace (an empty string trivially so).
pub open spec fn edge_trimmed(s: Seq<char>) -> bool {
    s.len() > 0 ==> !is_unicode_whitespace(s.first()) && !is_unicode_whitespace(s.last())
}

/// Relies on `str::trim`: removes leading and trailing Unicode whitespace,
/// so a string with no whitespace at either end comes back unchanged.
#[verifier::external_body]
pub(crate) fn trim_str(s: &str) -> (r: &str)
    ensures
        r@ == trim_of(s@),
        edge_trimmed(s@) ==> r@ == s@,
{
    s.trim()
}

/// What `str::to_lowercase` returns: the Unicode lowercase form of the
/// string. A function of the characters alone.
pub uninterp spec fn lower_of(s: Seq<char>) -> Seq<char>;

/// Relies on `str::to_lowercase`: the result depends on the characters alone.
#[verifier::external_body]
fn lowercase(s: &str) -> (r: String)
    ensures
        r@ == lower_of(s@),
{
    s.to_lowercase()
}

/// The SHA-256 digest of a byte sequence: 32 bytes, a function of the input
/// alone.
pub uninterp spec fn sha256_of(b: Seq<u8>) -> Seq<u8>;

/// Relies on `sha2::Sha256` (through `Digest::digest`): returns the SHA-256
/// digest of the input, which is 32 bytes long and depends on the input
/// bytes alone.
#[verifier::external_body]
fn sha256_digest(b: &[u8]) -> (r: Vec<u8>)
    ensures
        r@ == sha256_of(b@),
        r@.len() == 32,
{
    sha2::Sha256::digest(b).to_vec()
}

/// The sixteen lowercase hexadecimal digits, in value order.
pub open spec fn hex_digits() -> Seq<char> {
    seq!['0', '1', '2', '3', '4', '5', '6', '7', '8', '9', 'a', 'b', 'c', 'd', 'e', 'f']
}

/// Lowercase hexadecimal encoding: two digits for each byte, high nibble
/// first.
pub open spec fn hex_of(b: Seq<u8>) -> Seq<char>
    decreases b.len(),
{
    if b.len() == 0 {
        Seq::<char>::empty()
    } else {
        seq![
            hex_digits()[b.first() as int / 16],
            hex_digits()[b.first() as int % 16],
        ] + hex_of(b.drop_first())
    }
}

/// Relies on `hex::encode`: two lowercase hex digits for each input byte,
/// high nibble first.
#[verifier::external_body]
fn hex_encode(b: &[u8]) -> (r: String)
    ensures
        r@ == hex_of(b@),
{
    hex::encode(b)
}

/// The content hash of a prompt: SHA-256 of the UTF-8 bytes of the
/// normalized (trimmed, lowercased) prompt, hex encoded.
pub open spec fn content_hash_of(p: Seq<char>) -> Seq<char> {
    hex_of(sha256_of(encode_utf8(lower_of(trim_of(p)))))
}

/// Compute the content hash of a prompt.
pub fn prompt_hash(prompt: &str) -> (r: String)
    ensures
        r@ == content_hash_of(prompt@),
        r@.len() == 64,
{
    let trimmed = trim_str(prompt);
    let lowered = lowercase(trimmed);
    let digest = sha256_digest(lowered.as_str().as_bytes());
    proof {
        lemma_hex_of_len(digest@);
    }
    hex_encode(digest.as_slice())
}

/// Two prompts with the same normalized form always yield the same content
/// hash, whatever their casing or surrounding whitespace.
pub proof fn lemma_content_hash_respects_normalization(p1: Seq<char>, p2: Seq<char>)
    requires
        lower_of(trim_of(p1)) == lower_of(trim_of(p2)),
    ensures
        content_hash_of(p1) == content_hash_of(p2),
{
}

/// Hex encoding doubles the length.
pub proof fn lemma_hex_of_len(b: Seq<u8>)
    ensures
        hex_of(b).len() == 2 * b.len(),
    decreases b.len(),
{
    if b.len() > 0 {
        lemma_hex_of_len(b.drop_first());
    }
}

} // verus!
