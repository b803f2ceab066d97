//! Helpers of the center editing sheet.
use vstd::prelude::*;
use crate::offsets::{byte_off, chars_and_len, offset_of};

verus! {

/// The byte offset at which character `ci` of `s` starts; past the end, the
/// byte length of `s`.
pub fn char_to_byte(s: &str, ci: usize) -> (r: usize)
    ensures
        r == byte_off(s@, if ci < s@.len() { ci as int } else { s@.len() as int }),
{
    let (cs, _len) = chars_and_len(s);
    let i = if ci < cs.len() { ci } else { cs.len() };
    offset_of(cs.as_slice(), i)
}

/// A `file://` URL for a path.
pub fn file_url(p: &str) -> (r: String)
    ensures
        r@ == "file://"@ + p@,
{
    let mut r = String::from_str("file://");
    r.append(p);
    r
}

} // verus!
