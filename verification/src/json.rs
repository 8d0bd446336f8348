//! Reading one string out of a line of JSON.
use vstd::prelude::*;

use crate::picker::opt_text;

verus! {

/// The string a JSON text holds at a JSON pointer such as `/window/app`, as
/// `serde_json` reads it: `None` when the text is not JSON, when nothing
/// stands at the pointer, or when what stands there is not a string.
pub uninterp spec fn json_string_at(text: Seq<char>, pointer: Seq<char>) -> Option<Seq<char>>;

/// `serde_json::from_str` into a `serde_json::Value`, then `Value::pointer`
/// and `Value::as_str` on what it finds. Claimed: the answer depends on the
/// text and the pointer alone. What `serde_json` accepts as JSON is not
/// restated here.
#[verifier::external_body]
pub(crate) fn string_at(text: &str, pointer: &str) -> (r: Option<String>)
    ensures
        opt_text(r) == json_string_at(text@, pointer@),
{
    let value: serde_json::Value = serde_json::from_str(text).ok()?;
    value.pointer(pointer)?.as_str().map(|s| s.to_string())
}

/// Whether a text is JSON, as `serde_json` reads it.
pub uninterp spec fn json_parses(text: Seq<char>) -> bool;

/// `serde_json::from_str` into a `serde_json::Value`, asked only whether it
/// succeeded. Claimed: the answer depends on the text alone.
#[verifier::external_body]
pub(crate) fn parses(text: &str) -> (r: bool)
    ensures
        r == json_parses(text@),
{
    serde_json::from_str::<serde_json::Value>(text).is_ok()
}

} // verus!
