//! UTF-8 validation of payload bytes.

use vstd::prelude::*;

verus! {

/// Whether the bytes of `s` form a valid UTF-8 encoding. The meaning of
/// the name is fixed by `validate_utf8_from` below: it holds exactly of
/// the inputs that `simdutf8::basic::from_utf8` accepts.
pub uninterp spec fn is_utf8_seq(s: Seq<u8>) -> bool;

/// Whether `bytes[start..]` is valid UTF-8.
///
/// Relies on `simdutf8::basic::from_utf8`, which returns `Ok` exactly when
/// its input is valid UTF-8; the verdict depends on the bytes alone.
#[verifier::external_body]
pub fn validate_utf8_from(bytes: &Vec<u8>, start: usize) -> (r: bool)
    requires
        start <= bytes@.len(),
    ensures
        r == is_utf8_seq(bytes@.skip(start as int)),
{
    simdutf8::basic::from_utf8(&bytes[start..]).is_ok()
}

} // verus!
