//! Texts and the bytes that hold them.

use vstd::prelude::*;
use vstd::utf8::encode_utf8;
use vstd::utf8::valid_utf8;

verus! {

/// Whether `bytes` is valid UTF-8, as [`core::str::from_utf8`] decides it:
/// that function returns `Ok` exactly on the byte strings that are valid
/// UTF-8.
#[verifier::external_body]
pub(crate) fn is_utf8(bytes: &[u8]) -> (ok: bool)
    ensures
        ok == valid_utf8(bytes@),
{
    core::str::from_utf8(bytes).is_ok()
}

/// The text that a byte string holds, as [`String::from_utf8`] gives it:
/// that function returns `Ok` exactly on valid UTF-8, with the string
/// whose bytes are the ones handed in.
#[verifier::external_body]
pub(crate) fn string_from_utf8(bytes: Vec<u8>) -> (r: Option<String>)
    ensures
        r is Some == valid_utf8(bytes@),
        r matches Some(s) ==> encode_utf8(s@) == bytes@,
{
    String::from_utf8(bytes).ok()
}

} // verus!
