//! Tab strip helpers.
use vstd::prelude::*;
use crate::text::{chars_of, push_char, slice_of, string_of};

verus! {

/// `title` cut to at most `max_chars` characters, the last of them an
/// ellipsis when it had to be cut.
pub open spec fn truncated(title: Seq<char>, max_chars: nat) -> Seq<char> {
    if title.len() <= max_chars {
        title
    } else {
        title.take(if max_chars > 0 {
            max_chars - 1
        } else {
            0
        }).push('…')
    }
}

/// Truncate a tab title to fit, appending `…` when cut. `max_chars` is a rough
/// proxy for the ~140px width budget.
pub fn truncate_title(title: &str, max_chars: usize) -> (r: String)
    ensures
        r@ == truncated(title@, max_chars as nat),
{
    let cs = chars_of(title);
    if cs.len() <= max_chars {
        return string_of(cs.as_slice());
    }
    let keep = if max_chars > 0 {
        max_chars - 1
    } else {
        0
    };
    let head = slice_of(cs.as_slice(), 0, keep);
    let mut r = string_of(head.as_slice());
    push_char(&mut r, '…');
    assert(head@ =~= cs@.take(keep as int));
    r
}

/// A cut title never exceeds the budget (when the budget leaves room for
/// the ellipsis), and keeps the title's start.
pub proof fn law_truncated_fits(title: Seq<char>, max_chars: nat)
    ensures
        max_chars > 0 ==> truncated(title, max_chars).len() <= max_chars,
        title.len() > max_chars && max_chars > 0 ==> truncated(title, max_chars).len() == max_chars,
        title.len() <= max_chars ==> truncated(title, max_chars) == title,
        forall|i: int|
            0 <= i < truncated(title, max_chars).len() - 1 ==> #[trigger] truncated(title, max_chars)[i]
                == title[i],
{
}

} // verus!
