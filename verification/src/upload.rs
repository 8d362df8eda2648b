//! Value types and helpers for the upload stage. The network calls
//! themselves live with the caller; the library holds the result type they
//! hand back and the display-name trimming they apply first.

use vstd::prelude::*;
use vstd::string::*;

verus! {

/// Longest display name an upload may carry, in characters.
pub const MAX_DISPLAY_NAME_LENGTH: usize = 50;

/// Result of uploading one animation: the created asset and the
/// cross-site-request token the service handed back for reuse.
#[derive(Debug, Clone)]
pub struct AnimationResult {
    pub asset_id: u64,
    pub csrf: String,
}

/// Keep the last `MAX_DISPLAY_NAME_LENGTH` characters of a name; shorter
/// names pass through whole. The cut counts characters, deliberately not
/// bytes: a byte cut could fall inside a multi-byte character and cannot
/// be total, while this function must never panic. On ASCII names the two
/// agree.
pub fn trim_display_name(name: &str) -> (r: String)
    ensures
        name@.len() <= MAX_DISPLAY_NAME_LENGTH ==> r@ == name@,
        name@.len() > MAX_DISPLAY_NAME_LENGTH ==> r@ == name@.skip(
            name@.len() - MAX_DISPLAY_NAME_LENGTH,
        ),
{
    let len = name.unicode_len();
    if len <= MAX_DISPLAY_NAME_LENGTH {
        name.to_owned()
    } else {
        let start = len - MAX_DISPLAY_NAME_LENGTH;
        let tail = name.substring_char(start, len);
        proof {
            assert(tail@ =~= name@.skip(name@.len() - MAX_DISPLAY_NAME_LENGTH));
        }
        tail.to_owned()
    }
}

} // verus!
