//! Text handling that the standard library does for the program.

use vstd::prelude::*;

verus! {

/// Calls `std::str::from_utf8` and tells whether it accepted `bytes`.
/// Its documentation promises success exactly on well-formed UTF-8, which
/// is what `vstd::utf8::valid_utf8` describes.
#[verifier::external_body]
pub(crate) fn is_utf8(bytes: &[u8]) -> (r: bool)
    ensures
        r == vstd::utf8::valid_utf8(bytes@),
{
    std::str::from_utf8(bytes).is_ok()
}

} // verus!
