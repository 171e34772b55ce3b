//! UTF-8 decoding of frame arguments, through `core::str::from_utf8`.

use vstd::prelude::*;
use vstd::utf8::valid_utf8;
use vstd::string::StringSliceAdditionalSpecFns;
use core::str::Utf8Error;

verus! {

/// `core::str::Utf8Error`, carried through the library as an opaque value.
#[verifier::external_type_specification]
#[verifier::external_body]
pub struct ExUtf8Error(Utf8Error);

/// The error value `core::str::from_utf8` reports for an invalid byte
/// sequence; it depends on the bytes alone.
pub uninterp spec fn utf8_error_of(bytes: Seq<u8>) -> Utf8Error;

/// `core::str::from_utf8`: succeeds exactly on valid UTF-8, and the string
/// it returns has the given bytes; on failure the error is the one named
/// by `utf8_error_of` for those bytes.
pub assume_specification[ core::str::from_utf8 ](v: &[u8]) -> (res: Result<&str, Utf8Error>)
    ensures
        res is Ok <==> valid_utf8(v@),
        res matches Ok(s) ==> s.spec_bytes() == v@,
        res matches Err(e) ==> e == utf8_error_of(v@),
;

} // verus!
