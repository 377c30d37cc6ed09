//! Content addressing: the identifier of a piece of text is the hexadecimal
//! SHA-1 digest of its UTF-8 bytes.

use crypto::digest::Digest;
use crypto::sha1::Sha1;
use vstd::prelude::*;
use vstd::string::StringSliceAdditionalSpecFns;

verus! {

/// Largest number of bytes (exclusive) that the digest accepts in one input.
pub const MAX_CONTENT_BYTES: u64 = 0x2000_0000_0000_0000;

/// The SHA-1 digest of the UTF-8 encoding of `content`, written as
/// hexadecimal digits.
pub uninterp spec fn sha1_hex(content: Seq<char>) -> Seq<char>;

/// The form of an identifier: forty hexadecimal digits, the letters among
/// them in lower case.
pub open spec fn is_hex_digest(hash: Seq<char>) -> bool {
    &&& hash.len() == 40
    &&& forall|i: int|
        0 <= i < hash.len() ==> ('0' <= #[trigger] hash[i] <= '9') || ('a' <= hash[i] <= 'f')
}

/// Whether `content` is short enough to be hashed.
pub open spec fn hashable(content: Seq<char>) -> bool {
    vstd::utf8::encode_utf8(content).len() < MAX_CONTENT_BYTES
}

/// Whether `content` is short enough to be hashed.
pub fn can_hash(content: &str) -> (b: bool)
    ensures
        b == hashable(content@),
{
    let n: usize = content.as_bytes().len();
    (n as u64) < MAX_CONTENT_BYTES
}

/// Calls `Sha1::new`, `Digest::input_str` and `Digest::result_str` of the
/// `crypto` crate. The contract is taken on trust. It claims that the
/// returned string depends on the text alone, and that it is the 160 bits
/// of the digest written as forty lower-case hexadecimal digits. Inputs of
/// 2^61 bytes or more are left out, because the digest's bit counter
/// refuses them.
#[verifier::external_body]
fn sha1_of_str(content: &str) -> (hex: String)
    requires
        hashable(content@),
    ensures
        hex@ == sha1_hex(content@),
        is_hex_digest(hex@),
{
    let mut hasher = Sha1::new();
    hasher.input_str(content);
    hasher.result_str()
}

/// The identifier under which `content` is stored.
pub fn content_hash(content: &str) -> (hash: String)
    requires
        hashable(content@),
    ensures
        hash@ == sha1_hex(content@),
        is_hex_digest(hash@),
{
    sha1_of_str(content)
}

/// The identifier depends on the text alone: the same text has the same
/// identifier, whenever and wherever it is hashed.
pub proof fn lemma_hash_is_determined_by_content(first: Seq<char>, second: Seq<char>)
    requires
        first == second,
    ensures
        sha1_hex(first) == sha1_hex(second),
{
}

} // verus!
