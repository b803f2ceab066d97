//! Timeline view helpers.
use vstd::prelude::*;
use crate::breadcrumb::{components_of, path_components};
use crate::text::{chars_of, same_chars, views};

verus! {

/// The glyph of a git porcelain status, by its first letter.
pub open spec fn glyph_of(status: Seq<char>) -> Seq<char> {
    if status.len() == 0 {
        "✎"@
    } else if status[0] == 'A' || status[0] == 'C' {
        "⊕"@
    } else if status[0] == 'M' {
        "✎"@
    } else if status[0] == 'D' {
        "⊝"@
    } else if status[0] == 'R' {
        "⤴"@
    } else {
        "✎"@
    }
}

/// Map a git porcelain status letter to a glyph. Unknown → ✎.
pub fn change_glyph(status: &str) -> (r: &'static str)
    ensures
        r@ == glyph_of(status@),
{
    let cs = chars_of(status);
    if cs.len() == 0 {
        return "✎";
    }
    match cs[0] {
        'A' => "⊕",
        'M' => "✎",
        'D' => "⊝",
        'R' => "⤴",
        'C' => "⊕",
        _ => "✎",
    }
}

/// The Timeline cache, keyed by vault root and window token, must be
/// computed again: there is none, or it belongs to another root (compared
/// component by component, as paths are) or another token.
pub open spec fn cache_stale(cached: Option<(Seq<char>, Seq<char>)>, root: Seq<char>, token: Seq<char>) -> bool {
    match cached {
        Some((r, t)) => path_components(r) != path_components(root) || t != token,
        None => true,
    }
}

pub(crate) fn same_components(a: &Vec<Vec<char>>, b: &Vec<Vec<char>>) -> (r: bool)
    ensures
        r == (views(a@) == views(b@)),
{
    if a.len() != b.len() {
        assert(views(a@).len() != views(b@).len());
        return false;
    }
    let mut i: usize = 0;
    while i < a.len()
        invariant
            i <= a@.len(),
            a@.len() == b@.len(),
            forall|k: int| 0 <= k < i ==> a@[k]@ == b@[k]@,
        decreases a@.len() - i,
    {
        if !same_chars(a[i].as_slice(), b[i].as_slice()) {
            assert(views(a@)[i as int] != views(b@)[i as int]);
            return false;
        }
        i += 1;
    }
    assert(views(a@) =~= views(b@));
    true
}

/// Whether the Timeline must recompute its change list for vault `root` and
/// window `token`, given the key of the cached result (if any).
pub fn timeline_cache_stale(cached: Option<(&str, &str)>, root: &str, token: &str) -> (b: bool)
    ensures
        b == cache_stale(
            match cached {
                Some((r, t)) => Some((r@, t@)),
                None => None,
            },
            root@,
            token@,
        ),
{
    match cached {
        None => true,
        Some((r, t)) => {
            let rc = chars_of(r);
            let oc = chars_of(root);
            let a = components_of(rc.as_slice());
            let b = components_of(oc.as_slice());
            let tc = chars_of(t);
            let kc = chars_of(token);
            !same_components(&a, &b) || !same_chars(tc.as_slice(), kc.as_slice())
        },
    }
}

} // verus!
