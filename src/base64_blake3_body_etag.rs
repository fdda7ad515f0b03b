//! The ETag of a response body: the base64 of its blake3 digest, in quotes.

use vstd::prelude::*;
use vstd::string::StringExecFns;

verus! {

/// The blake3 digest of `input`.
pub uninterp spec fn blake3_of(input: Seq<u8>) -> Seq<u8>;

/// The standard padded base64 text of `input`.
pub uninterp spec fn base64_of(input: Seq<u8>) -> Seq<char>;

/// The quoted ETag value for a body whose bytes are `body`.
pub open spec fn etag_of(body: Seq<u8>) -> Seq<char> {
    seq!['"'] + base64_of(blake3_of(body)) + seq!['"']
}

/// Relies on `blake3::hash`: the 32-byte digest, which depends on the input
/// bytes alone.
#[verifier::external_body]
fn blake3_digest(input: &[u8]) -> (r: Vec<u8>)
    ensures
        r@ == blake3_of(input@),
        r@.len() == 32,
{
    blake3::hash(input).as_bytes().to_vec()
}

/// Relies on `data_encoding::BASE64.encode`: standard padded base64, which
/// depends on the input bytes alone; it panics on inputs longer than
/// `usize::MAX / 512` bytes.
#[verifier::external_body]
fn base64_encode(input: &[u8]) -> (r: String)
    requires
        input@.len() <= usize::MAX / 512,
    ensures
        r@ == base64_of(input@),
{
    data_encoding::BASE64.encode(input)
}

/// The ETag value of a body: its blake3 digest in base64, wrapped in double
/// quotes.
pub fn base64_blake3_body_etag(body: &[u8]) -> (r: String)
    ensures
        r@ == etag_of(body@),
{
    let digest = blake3_digest(body);
    let encoded = base64_encode(digest.as_slice());
    let mut r = String::from_str("\"");
    r.append(encoded.as_str());
    r.append("\"");
    proof {
        reveal_strlit("\"");
    }
    assert(r@ =~= etag_of(body@));
    r
}

} // verus!
