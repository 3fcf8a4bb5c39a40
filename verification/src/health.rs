//! The reply of the health endpoint, as the health check reads it.

use crate::text::{find_byte, position_of, same_bytes};
use vstd::prelude::*;
use vstd::slice::slice_subrange;
use vstd::utf8::encode_utf8;

verus! {

/// Whether `text` ends with `ending`.
pub open spec fn ends_with(text: Seq<u8>, ending: Seq<u8>) -> bool {
    text.len() >= ending.len() && text.subrange(
        text.len() - ending.len(),
        text.len() as int,
    ) == ending
}

/// Whether a status line reports success. It may still carry the carriage
/// return of its line ending.
pub open spec fn reports_success(status: Seq<u8>) -> bool {
    ends_with(status, encode_utf8(" 200 OK\r"@)) || ends_with(status, encode_utf8(" 200 OK"@))
}

/// Whether `text` ends with `ending`.
fn has_ending(text: &[u8], ending: &[u8]) -> (result: bool)
    ensures
        result == ends_with(text@, ending@),
{
    if text.len() < ending.len() {
        return false;
    }
    same_bytes(slice_subrange(text, text.len() - ending.len(), text.len()), ending)
}

/// Whether the first line of a reply reports success.
pub fn health_response_is_ok(response: &[u8]) -> (ok: bool)
    ensures
        ok == reports_success(response@.subrange(0, position_of(response@, 0, 10))),
{
    let end: usize = find_byte(response, 0, 10);
    let status: &[u8] = slice_subrange(response, 0, end);
    has_ending(status, " 200 OK\r".as_bytes()) || has_ending(status, " 200 OK".as_bytes())
}

} // verus!
