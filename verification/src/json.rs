//! The JSON text of a string, as `serde_json` writes and reads it.
//!
//! Nothing here is proved: the two functions call `serde_json`, and their
//! contracts only give names to what it returns.

use vstd::prelude::*;

verus! {

/// The bytes that `serde_json::to_vec` writes for the string `s`, or `None`
/// where it reports an error.
pub uninterp spec fn json_string_text(s: Seq<char>) -> Option<Seq<u8>>;

/// The string that `serde_json::from_slice` reads from `bytes` when asked for
/// a `String`, or `None` where it reports an error.
pub uninterp spec fn json_string_value(bytes: Seq<u8>) -> Option<Seq<char>>;

/// Calls `serde_json::to_vec` on a string and drops the error's detail.  The
/// contract claims only that the outcome is a function of the string: the
/// bytes are `json_string_text` of it, and `None` comes exactly where that is
/// `None`.
#[verifier::external_body]
pub(crate) fn to_json_text(s: &str) -> (r: Option<Vec<u8>>)
    ensures
        match r {
            Some(bytes) => json_string_text(s@) == Some(bytes@),
            None => json_string_text(s@) is None,
        },
{
    serde_json::to_vec(s).ok()
}

/// Calls `serde_json::from_slice` for a `String` and drops the error's
/// detail.  The contract claims only that the outcome is a function of the
/// bytes: the string is `json_string_value` of them, and `None` comes exactly
/// where that is `None`.
#[verifier::external_body]
pub(crate) fn from_json_text(bytes: &[u8]) -> (r: Option<String>)
    ensures
        match r {
            Some(s) => json_string_value(bytes@) == Some(s@),
            None => json_string_value(bytes@) is None,
        },
{
    serde_json::from_slice::<String>(bytes).ok()
}

} // verus!
