//! The sidebar's note list: which notes of a folder show for the search
//! text and the type filter.
use vstd::prelude::*;
use crate::breadcrumb::{components_of, path_components};
use crate::text::{chars_of, contains_exec, contains_seq, lowercase, to_lowercase, views};
use crate::timeline::same_components;

verus! {

/// The type of a note, as its frontmatter records it.
#[derive(Clone, Copy, Debug, PartialEq, Eq, Structural)]
pub enum NoteKind {
    Resumo,
    Citacao,
    Codigo,
    Exercicio,
    Duvida,
    Definicao,
}

/// A note as the sidebar lists it: its vault-relative path, title, content
/// and type.
#[derive(Clone, Debug, PartialEq, Eq)]
pub struct NoteEntry {
    pub rel_path: String,
    pub title: String,
    pub content: String,
    pub kind: NoteKind,
}

/// The components of the parent of a path (none for a path without one).
pub open spec fn parent_components(path: Seq<char>) -> Seq<Seq<char>> {
    let cs = path_components(path);
    if cs.len() == 0 {
        cs
    } else {
        cs.drop_last()
    }
}

/// A note shows in the sidebar under `folder`: it sits directly in that
/// folder (compared component by component, as paths are), the search text
/// is empty or its lowercase form occurs in the lowercased title or content,
/// and the note has the filtered type, when a type filter is set.
pub open spec fn listed(
    rel_path: Seq<char>,
    folder: Seq<char>,
    title: Seq<char>,
    content: Seq<char>,
    kind: NoteKind,
    query: Seq<char>,
    type_filter: Option<NoteKind>,
) -> bool {
    let q = lowercase(query);
    &&& parent_components(rel_path) == path_components(folder)
    &&& (q.len() == 0 || contains_seq(lowercase(title), q) || contains_seq(lowercase(content), q))
    &&& (type_filter matches Some(t) ==> t == kind)
}

/// Whether a note shows in the sidebar's list of `folder` for the search
/// text `query` and the type filter.
pub fn note_listed(
    rel_path: &str,
    folder: &str,
    title: &str,
    content: &str,
    kind: NoteKind,
    query: &str,
    type_filter: Option<NoteKind>,
) -> (r: bool)
    ensures
        r == listed(rel_path@, folder@, title@, content@, kind, query@, type_filter),
{
    let pc = chars_of(rel_path);
    let mut comps = components_of(pc.as_slice());
    if comps.len() > 0 {
        let ghost before = comps@;
        comps.pop();
        assert(views(comps@) =~= views(before).drop_last());
    }
    let fc = chars_of(folder);
    let fcomps = components_of(fc.as_slice());
    if !same_components(&comps, &fcomps) {
        return false;
    }
    let type_ok = match type_filter {
        Some(t) => t == kind,
        None => true,
    };
    if !type_ok {
        return false;
    }
    let q = chars_of(to_lowercase(query).as_str());
    if q.len() == 0 {
        return true;
    }
    let lt = chars_of(to_lowercase(title).as_str());
    if contains_exec(lt.as_slice(), q.as_slice()) {
        return true;
    }
    let lc = chars_of(to_lowercase(content).as_str());
    contains_exec(lc.as_slice(), q.as_slice())
}

/// The positions, in order, of the notes the sidebar lists under `folder`
/// for the search text and the type filter.
pub fn visible_notes(notes: &[NoteEntry], folder: &str, query: &str, type_filter: Option<NoteKind>) -> (r: Vec<usize>)
    ensures
        forall|k: int| 0 <= k < r@.len() ==> (#[trigger] r@[k]) < notes@.len(),
        forall|k: int, l: int| 0 <= k < l < r@.len() ==> #[trigger] r@[k] < #[trigger] r@[l],
        forall|i: int|
            0 <= i < notes@.len() ==> (r@.contains(i as usize) <==> listed(
                (#[trigger] notes@[i]).rel_path@,
                folder@,
                notes@[i].title@,
                notes@[i].content@,
                notes@[i].kind,
                query@,
                type_filter,
            )),
{
    let mut r: Vec<usize> = Vec::new();
    let mut i: usize = 0;
    while i < notes.len()
        invariant
            i <= notes@.len(),
            forall|k: int| 0 <= k < r@.len() ==> (#[trigger] r@[k]) < i,
            forall|k: int, l: int| 0 <= k < l < r@.len() ==> #[trigger] r@[k] < #[trigger] r@[l],
            forall|j: int|
                0 <= j < i ==> (r@.contains(j as usize) <==> listed(
                    (#[trigger] notes@[j]).rel_path@,
                    folder@,
                    notes@[j].title@,
                    notes@[j].content@,
                    notes@[j].kind,
                    query@,
                    type_filter,
                )),
        decreases notes@.len() - i,
    {
        let n = &notes[i];
        let shown = note_listed(
            n.rel_path.as_str(),
            folder,
            n.title.as_str(),
            n.content.as_str(),
            n.kind,
            query,
            type_filter,
        );
        let ghost before = r@;
        if shown {
            r.push(i);
        }
        assert forall|j: int| 0 <= j <= i implies (r@.contains(j as usize) <==> listed(
            (#[trigger] notes@[j]).rel_path@,
            folder@,
            notes@[j].title@,
            notes@[j].content@,
            notes@[j].kind,
            query@,
            type_filter,
        )) by {
            if j < i {
                if r@.contains(j as usize) && !before.contains(j as usize) {
                    let w = choose|w: int| 0 <= w < r@.len() && r@[w] == j as usize;
                    assert(w == before.len());
                }
                if before.contains(j as usize) {
                    let w = choose|w: int| 0 <= w < before.len() && before[w] == j as usize;
                    assert(r@[w] == j as usize);
                }
            } else {
                if shown {
                    assert(r@[before.len() as int] == i);
                } else {
                    assert(r@ == before);
                }
            }
        }
        i += 1;
    }
    r
}

/// The type filter after a click on the chip of type `t`: clicking the
/// active chip clears the filter, any other chip selects its type.
pub fn type_filter_after_click(current: Option<NoteKind>, t: NoteKind) -> (r: Option<NoteKind>)
    ensures
        r == (if current == Some(t) {
            None
        } else {
            Some(t)
        }),
{
    let selected = match current {
        Some(c) => c == t,
        None => false,
    };
    if selected {
        None
    } else {
        Some(t)
    }
}

} // verus!
