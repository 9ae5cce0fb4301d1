//! Base64 text, for the engine store's snapshot.
use base64::Engine as _;
use vstd::prelude::*;

verus! {

/// The padded standard-alphabet base64 text of a byte string.
pub uninterp spec fn base64_of(b: Seq<u8>) -> Seq<u8>;

#[verifier::external_type_specification]
#[verifier::external_body]
pub struct ExDecodeError(base64::DecodeError);

/// Relies on `base64::engine::general_purpose::STANDARD.encode`; it panics only
/// when the output length overflows a `usize`.
#[verifier::external_body]
pub(crate) fn encode_base64(b: &[u8]) -> (r: Vec<u8>)
    requires
        b@.len() <= usize::MAX / 2,
    ensures
        r@ == base64_of(b@),
{
    base64::engine::general_purpose::STANDARD.encode(b).into_bytes()
}

/// Relies on `base64::engine::general_purpose::STANDARD.decode`: its padding is
/// canonical and it rejects non-zero trailing bits, so it accepts exactly the
/// texts that `encode` writes and gives back the bytes that were encoded.
#[verifier::external_body]
pub(crate) fn decode_base64(t: &[u8]) -> (r: Result<Vec<u8>, base64::DecodeError>)
    ensures
        r matches Ok(v) ==> base64_of(v@) == t@,
        forall|b: Seq<u8>| #[trigger] base64_of(b) == t@ ==> r is Ok && r->Ok_0@ == b,
{
    base64::engine::general_purpose::STANDARD.decode(t)
}

} // verus!
