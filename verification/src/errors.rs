//! Remote failure diagnostics: a failure of a structured kind already
//! carries its message; one of an opaque kind carries the raw response
//! body, which is decoded as text before it is reported.

use vstd::prelude::*;
use vstd::utf8::{valid_utf8, decode_utf8, pop_first_scalar, valid_first_scalar};

verus! {

/// A remote request failure as the transport reports it: either a
/// structured error already rendered to text, or an opaque one carrying
/// the raw response body.
pub enum RemoteFailure {
    Structured(String),
    Opaque(Vec<u8>),
}

/// Relies on str::from_utf8: it returns Ok exactly when the bytes are
/// valid UTF-8, and the resulting slice is those bytes decoded.
#[verifier::external_body]
fn utf8_to_string(bytes: &Vec<u8>) -> (r: Option<String>)
    ensures
        r is Some <==> valid_utf8(bytes@),
        r matches Some(s) ==> s@ == decode_utf8(bytes@),
{
    match std::str::from_utf8(bytes.as_slice()) {
        Ok(s) => Some(s.to_string()),
        Err(_) => None,
    }
}

/// The diagnostic message of a failed delete-bucket request: a
/// structured failure is reported as it stands; an opaque one is
/// reported as its body decoded as text, and yields nothing exactly when
/// the body is not valid text.
pub fn delete_failure_message(f: &RemoteFailure) -> (r: Option<String>)
    ensures
        f matches RemoteFailure::Structured(s) ==> (r matches Some(m) && m@ == s@),
        f matches RemoteFailure::Opaque(b) ==> (r is Some <==> valid_utf8(b@)),
        f matches RemoteFailure::Opaque(b) ==> (r matches Some(m) ==> m@ == decode_utf8(b@)),
{
    match f {
        RemoteFailure::Structured(s) => Some(s.clone()),
        RemoteFailure::Opaque(b) => utf8_to_string(b),
    }
}

/// An opaque failure body of ASCII text is always decodable: seven-bit
/// bytes are valid UTF-8 and decode to one character per byte, so
/// `delete_failure_message` yields a message for every such body.
pub proof fn lemma_ascii_body_decodable(bytes: Seq<u8>)
    requires
        forall|i: int| 0 <= i < bytes.len() ==> bytes[i] < 0x80,
    ensures
        valid_utf8(bytes),
        decode_utf8(bytes).len() == bytes.len(),
    decreases bytes.len(),
{
    if bytes.len() != 0 {
        let b0 = bytes[0];
        assert(b0 < 0x80);
        assert(b0 & 0x7f < 0x80) by (bit_vector);
        assert(valid_first_scalar(bytes));
        let rest = pop_first_scalar(bytes);
        assert(rest =~= bytes.subrange(1, bytes.len() as int));
        assert(forall|i: int| 0 <= i < rest.len() ==> rest[i] < 0x80);
        lemma_ascii_body_decodable(rest);
        assert(valid_utf8(bytes));
        assert(decode_utf8(bytes).len() == 1 + decode_utf8(rest).len());
    }
}

} // verus!
