//! Building the basic-auth header for the token exchange: the one
//! computation the orchestration borrows from an outside encoder.

use vstd::prelude::*;

verus! {

/// The base64 digits (standard alphabet, padded) of a byte string. The
/// outside encoder computes them from the input bytes alone.
pub uninterp spec fn base64_of(bytes: Seq<u8>) -> Seq<u8>;

/// Relies on base64::encode: standard alphabet with padding, so the output
/// is four bytes per three input bytes (rounded up) and depends on the
/// input alone.
#[verifier::external_body]
fn encode_base64(bytes: &Vec<u8>) -> (r: Vec<u8>)
    ensures
        r@ == base64_of(bytes@),
        r@.len() == 4 * ((bytes@.len() + 2) / 3),
{
    base64::encode(bytes).into_bytes()
}

/// The value of the authorization header used by the token exchange:
/// `Basic ` followed by the base64 of `key:secret`.
pub open spec fn spec_basic_auth(key: Seq<u8>, secret: Seq<u8>) -> Seq<u8> {
    seq![66u8, 97u8, 115u8, 105u8, 99u8, 32u8] + base64_of(key + seq![58u8] + secret)
}

/// Builds the basic-auth header value for one credential set, handed in and
/// out as plain bytes.
pub fn basic_auth_header(key: &Vec<u8>, secret: &Vec<u8>) -> (r: Vec<u8>)
    ensures
        r@ == spec_basic_auth(key@, secret@),
{
    let mut joined: Vec<u8> = Vec::new();
    let mut i: usize = 0;
    while i < key.len()
        invariant
            i <= key@.len(),
            joined@ =~= key@.take(i as int),
        decreases key@.len() - i,
    {
        joined.push(key[i]);
        i = i + 1;
    }
    joined.push(58);
    let mut j: usize = 0;
    while j < secret.len()
        invariant
            j <= secret@.len(),
            joined@ =~= key@ + seq![58u8] + secret@.take(j as int),
        decreases secret@.len() - j,
    {
        joined.push(secret[j]);
        j = j + 1;
    }
    assert(joined@ =~= key@ + seq![58u8] + secret@);

    let mut encoded = encode_base64(&joined);
    let mut r: Vec<u8> = Vec::new();
    r.push(66);
    r.push(97);
    r.push(115);
    r.push(105);
    r.push(99);
    r.push(32);
    assert(r@ =~= seq![66u8, 97u8, 115u8, 105u8, 99u8, 32u8]);
    r.append(&mut encoded);
    r
}

} // verus!
