//! What the HTTP library accepts as a URI and as a header value.

use hyper::header::HeaderValue;
use hyper::Uri;
use vstd::prelude::*;

verus! {

/// `text` parses as a `hyper::Uri`.
pub uninterp spec fn uri_accepts(text: Seq<char>) -> bool;

/// Calls `hyper::Uri::from_str`, through `str::parse`, and says whether it succeeded. That is
/// named `uri_accepts`: the grammar, its length limit and its limits on the parts are the
/// library's.
#[verifier::external_body]
pub(crate) fn uri_parses(text: &str) -> (ok: bool)
    ensures
        ok == uri_accepts(text@),
{
    text.parse::<Uri>().is_ok()
}

/// A character that may stand in a header value: anything but the control characters of ASCII, of
/// which the tab alone is allowed.
pub open spec fn is_header_char(c: char) -> bool {
    (c >= ' ' && c != '\u{7f}') || c == '\t'
}

/// Calls `hyper::header::HeaderValue::from_str`, and says whether it succeeded. It tests each byte
/// of the text, and lets those from 32 on pass except 127, and 9. A character beyond ASCII is
/// made of bytes from 128 on, so the text passes exactly if every character may stand in a header
/// value.
#[verifier::external_body]
pub(crate) fn header_value_parses(text: &str) -> (ok: bool)
    ensures
        ok == forall|i: int| 0 <= i < text@.len() ==> is_header_char(#[trigger] text@[i]),
{
    HeaderValue::from_str(text).is_ok()
}

} // verus!
