//! Conversion from path bytes back to `String` for display and records.

use vstd::prelude::*;

verus! {

/// Relies on `String::from_utf8`: for valid UTF-8 input it returns a string
/// holding exactly those bytes; invalid input is mapped to the empty string
/// here.
#[verifier::external_body]
pub fn bytes_to_string(v: &Vec<u8>) -> (r: String)
    ensures
        vstd::utf8::valid_utf8(v@) ==> vstd::utf8::encode_utf8(r@) == v@,
        !vstd::utf8::valid_utf8(v@) ==> r@ == Seq::<char>::empty(),
{
    match String::from_utf8(v.clone()) {
        Ok(s) => s,
        Err(_) => String::new(),
    }
}

} // verus!
