//! UTF-8 validation through `simdutf8`.
use vstd::prelude::*;
use vstd::utf8::valid_utf8;
use vstd::string::StringSliceAdditionalSpecFns;

verus! {

/// Calls `simdutf8::basic::from_utf8`, which checks that the bytes are valid
/// UTF-8 and, if they are, hands back the same bytes as a `&str`. The contract
/// claims exactly that: the result is `Some` iff the bytes are valid UTF-8 (in
/// the sense of `vstd::utf8::valid_utf8`), and the string's bytes are the input.
#[verifier::external_body]
pub(crate) fn checked_str(bytes: &[u8]) -> (r: Option<&str>)
    ensures
        r is Some <==> valid_utf8(bytes@),
        r matches Some(s) ==> s.spec_bytes() == bytes@,
{
    simdutf8::basic::from_utf8(bytes).ok()
}

} // verus!
