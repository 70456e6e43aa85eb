use vstd::prelude::*;
use sha1::{Digest, Sha1};

verus! {

/// The SHA-1 digest of a byte string: 20 bytes that serve as a content
/// address. Named only; no contract of this crate says what the digest
/// is on given bytes.
pub uninterp spec fn sha1_of(data: Seq<u8>) -> Seq<u8>;

/// Relies on sha1's `Sha1` hasher (through the `Digest` trait): the
/// digest is a function of the hashed bytes alone, 20 bytes long.
#[verifier::external_body]
pub(crate) fn sha1_digest(data: &[u8]) -> (r: Vec<u8>)
    ensures
        r@ == sha1_of(data@),
        r@.len() == 20,
{
    Sha1::digest(data).to_vec()
}

/// The lowercase hex digit for a value below sixteen.
pub open spec fn spec_hex_digit(d: u8) -> u8 {
    if d < 10 {
        (48 + d) as u8
    } else {
        (87 + d) as u8
    }
}

/// The lowercase hex rendering of a byte string: two digits per byte,
/// high part first, in the bytes' order.
pub open spec fn spec_hex(data: Seq<u8>) -> Seq<u8>
    decreases data.len(),
{
    if data.len() == 0 {
        Seq::empty()
    } else {
        seq![spec_hex_digit(data[0] / 16), spec_hex_digit(data[0] % 16)] + spec_hex(
        data.drop_first())
    }
}

/// A hex rendering is twice as long as its input.
pub proof fn lemma_hex_len(data: Seq<u8>)
    ensures
        spec_hex(data).len() == 2 * data.len(),
    decreases data.len(),
{
    if data.len() > 0 {
        lemma_hex_len(data.drop_first());
    }
}

/// Relies on hex::encode: two lowercase hex digits for each byte, high
/// part first, in the bytes' order.
#[verifier::external_body]
pub fn hex_bytes(data: &[u8]) -> (r: Vec<u8>)
    ensures
        r@ == spec_hex(data@),
{
    hex::encode(data).into_bytes()
}

} // verus!
