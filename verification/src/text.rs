use vstd::prelude::*;
use vstd::utf8::{decode_utf8, valid_utf8};

verus! {

/// Relies on std's String::from_utf8: it returns a string exactly when the
/// bytes are valid UTF-8, and that string decodes those bytes.
#[verifier::external_body]
pub fn utf8_to_string(b: Vec<u8>) -> (r: Option<String>)
    ensures
        (match r {
            Some(s) => valid_utf8(b@) && s@ == decode_utf8(b@),
            None => !valid_utf8(b@),
        }),
{
    match String::from_utf8(b) {
        Ok(s) => Some(s),
        Err(_) => None,
    }
}

/// Relies on std's str::from_utf8: it succeeds exactly on valid UTF-8.
#[verifier::external_body]
pub fn is_valid_utf8(b: &[u8]) -> (r: bool)
    ensures
        r == valid_utf8(b@),
{
    core::str::from_utf8(b).is_ok()
}

/// Relies on std's String::from_utf8: ASCII bytes are valid UTF-8 and decode
/// to the code points of the same values.
#[verifier::external_body]
pub fn ascii_to_string(b: Vec<u8>) -> (r: String)
    requires
        forall|i: int| 0 <= i < b@.len() ==> b@[i] < 128,
    ensures
        r@ == b@.map_values(|x: u8| x as char),
{
    String::from_utf8(b).unwrap_or_default()
}

} // verus!
