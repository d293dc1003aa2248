//! Reports of messages to the moderators.

use vstd::prelude::*;
use vstd::string::StringSliceAdditionalSpecFns;
use vstd::utf8::is_char_boundary;

verus! {

/// The number of bytes of a reported message that a report quotes.
pub const REPORT_MESSAGE_LENGTH: usize = 500;

/// The beginning of a reported message that the report quotes: all of a
/// message of at most `REPORT_MESSAGE_LENGTH` bytes, else its first
/// `REPORT_MESSAGE_LENGTH` bytes, which must end with a whole character.
pub fn abbreviate(content: &str) -> (r: &str)
    requires
        content.spec_bytes().len() > REPORT_MESSAGE_LENGTH ==> is_char_boundary(
            content.spec_bytes(),
            REPORT_MESSAGE_LENGTH as int,
        ),
    ensures
        r.spec_bytes() == if content.spec_bytes().len() > REPORT_MESSAGE_LENGTH {
            content.spec_bytes().subrange(0, REPORT_MESSAGE_LENGTH as int)
        } else {
            content.spec_bytes()
        },
{
    if content.as_bytes().len() > REPORT_MESSAGE_LENGTH {
        let parts = content.split_at(REPORT_MESSAGE_LENGTH);
        parts.0
    } else {
        content
    }
}

} // verus!
