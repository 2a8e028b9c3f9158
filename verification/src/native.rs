//! The rules of the conversation with the native capture helper: how long a reply may take,
//! how large it may be, and when a reply reports a failure. The helper process and its pipes
//! are handled outside the library.
use vstd::prelude::*;
use crate::models::MAX_DISPLAYS;
use crate::text::str_eq;

verus! {

/// Seconds to wait for the helper: two minutes for a permission request, which waits for
/// the user; twenty seconds otherwise.
pub fn reply_timeout_seconds(command: &str) -> (r: u64)
    ensures
        command@ == "request_permission"@ ==> r == 120,
        command@ != "request_permission"@ ==> r == 20,
{
    if str_eq(command, "request_permission") { 120 } else { 20 }
}

/// The largest reply line accepted: three million bytes per display and one million more.
pub const MAX_REPLY_BYTES: usize = 49_000_000;

/// Whether a reply line of `len` bytes is too large.
pub fn reply_too_long(len: usize) -> (r: bool)
    ensures
        r == (len > MAX_DISPLAYS * 3_000_000 + 1_000_000),
{
    len > MAX_REPLY_BYTES
}

/// A reply whose `ok` is not `true` is a failure, with the helper's error text or a general one.
pub fn reply_failure(ok: bool, error: Option<&str>) -> (r: Option<String>)
    ensures
        ok ==> r is None,
        !ok ==> (r matches Some(m) && m@ == match error { Some(e) => e@, None => "原生采集失败"@ }),
{
    if ok {
        return None;
    }
    match error {
        Some(e) => Some(String::from_str(e)),
        None => Some(String::from_str("原生采集失败")),
    }
}

} // verus!
