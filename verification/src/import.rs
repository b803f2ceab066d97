//! Titles of imported files.
use vstd::prelude::*;
use crate::breadcrumb::{components_of, path_components};
use crate::text::{chars_of, slice_of, string_of};

verus! {

/// The last component of a path when it names a file or directory (not the
/// root, a leading `.`, or `..`), as `Path::file_name` gives it.
pub open spec fn file_name_of(s: Seq<char>) -> Option<Seq<char>> {
    let cs = path_components(s);
    if cs.len() == 0 {
        None
    } else {
        let l = cs.last();
        if l == seq!['/'] || l == seq!['.'] || l == seq!['.', '.'] {
            None
        } else {
            Some(l)
        }
    }
}

/// Position of the last `.` of `s`, if any.
pub open spec fn last_dot(s: Seq<char>) -> Option<int>
    decreases s.len(),
{
    if s.len() == 0 {
        None
    } else if s.last() == '.' {
        Some(s.len() - 1)
    } else {
        last_dot(s.drop_last())
    }
}

/// A file name without its extension (`Path::file_stem`): the part before
/// the last `.`, unless that part would be empty.
pub open spec fn stem_of(name: Seq<char>) -> Seq<char> {
    match last_dot(name) {
        Some(k) => if k == 0 {
            name
        } else {
            name.take(k)
        },
        None => name,
    }
}

/// The title a file is imported under: its file stem, or `Importado`.
pub open spec fn import_title(path: Seq<char>) -> Seq<char> {
    match file_name_of(path) {
        Some(n) => stem_of(n),
        None => "Importado"@,
    }
}

fn last_dot_exec(s: &[char]) -> (r: Option<usize>)
    ensures
        match r {
            Some(k) => last_dot(s@) == Some(k as int) && k < s@.len(),
            None => last_dot(s@) is None,
        },
{
    let mut j = s.len();
    assert(s@.take(j as int) =~= s@);
    while j > 0 && s[j - 1] != '.'
        invariant
            j <= s@.len(),
            last_dot(s@) == last_dot(s@.take(j as int)),
        decreases j,
    {
        assert(s@.take(j as int).drop_last() =~= s@.take(j - 1));
        j -= 1;
    }
    if j == 0 {
        None
    } else {
        Some(j - 1)
    }
}

/// The title an imported file gets: its file stem, or `Importado` when the
/// path names no file.
pub fn stem(path: &str) -> (r: String)
    ensures
        r@ == import_title(path@),
{
    let cs = chars_of(path);
    let comps = components_of(cs.as_slice());
    let n = comps.len();
    if n == 0 {
        return String::from_str("Importado");
    }
    let l = &comps[n - 1];
    assert(comps@[n - 1]@ == path_components(path@).last());
    let is_root = l.len() == 1 && l[0] == '/';
    let is_dot = l.len() == 1 && l[0] == '.';
    let is_dotdot = l.len() == 2 && l[0] == '.' && l[1] == '.';
    proof {
        let lv = l@;
        if lv.len() == 1 && lv[0] == '/' {
            assert(lv =~= seq!['/']);
        }
        if lv.len() == 1 && lv[0] == '.' {
            assert(lv =~= seq!['.']);
        }
        if lv.len() == 2 && lv[0] == '.' && lv[1] == '.' {
            assert(lv =~= seq!['.', '.']);
        }
    }
    if is_root || is_dot || is_dotdot {
        return String::from_str("Importado");
    }
    match last_dot_exec(l.as_slice()) {
        Some(k) => {
            if k == 0 {
                string_of(l.as_slice())
            } else {
                let head = slice_of(l.as_slice(), 0, k);
                assert(head@ =~= l@.take(k as int));
                string_of(head.as_slice())
            }
        },
        None => string_of(l.as_slice()),
    }
}

} // verus!
