//! Small string helpers shared by the display layer.

use vstd::prelude::*;
use vstd::string::StrSliceExecFns;
use vstd::string::StringExecFns;

verus! {

/// Shortens `s` to its first `max_len` characters and appends `"..."`;
/// a string of at most `max_len` characters is returned unchanged.
pub fn truncate_with_ellipsis(s: String, max_len: usize) -> (r: String)
    ensures
        s@.len() <= max_len ==> r@ == s@,
        s@.len() > max_len ==> r@ == s@.subrange(0, max_len as int) + "..."@,
{
    let n = s.as_str().unicode_len();
    if n <= max_len {
        s
    } else {
        let head = s.as_str().substring_char(0, max_len);
        let mut r = head.to_owned();
        r.append("...");
        r
    }
}

} // verus!
