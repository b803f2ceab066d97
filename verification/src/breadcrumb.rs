//! Editor breadcrumb row: the note's folder path, its word count, and the
//! read/edit mode switch.
use vstd::prelude::*;
use crate::text::{chars_of, char_is_ws, is_ws, lemma_views_concat, same_chars, string_of, views};

verus! {

/// The read/edit mode a user can ask for.
#[derive(Clone, Copy, Debug, PartialEq, Eq, Structural)]
pub enum ReadEditMode {
    Read,
    Edit,
}

/// Whether the editor is editing, and whether discipline notes show their
/// typed (read-only) view.
#[derive(Clone, Copy, Debug, PartialEq, Eq, Structural)]
pub struct ReadEditState {
    pub editing: bool,
    pub discipline_typed: bool,
}

/// Switching modes sets `editing` and keeps the typed-view preference.
pub fn transitioned_read_edit(current: ReadEditState, target: ReadEditMode) -> (r: ReadEditState)
    ensures
        r.editing == (target == ReadEditMode::Edit),
        r.discipline_typed == current.discipline_typed,
{
    match target {
        ReadEditMode::Read => ReadEditState { editing: false, ..current },
        ReadEditMode::Edit => ReadEditState { editing: true, ..current },
    }
}

/// Switching to a mode twice is the same as switching once, and switching
/// never touches the typed-view preference.
pub proof fn law_transition_idempotent(current: ReadEditState, target: ReadEditMode)
    ensures
        transition(transition(current, target), target) == transition(current, target),
        transition(current, target).discipline_typed == current.discipline_typed,
{
}

/// The state a mode switch leads to.
pub open spec fn transition(current: ReadEditState, target: ReadEditMode) -> ReadEditState {
    ReadEditState { editing: target == ReadEditMode::Edit, discipline_typed: current.discipline_typed }
}

/// The mode a toggle asks for: Read while editing, Edit otherwise.
pub open spec fn toggled_mode(editing: bool) -> ReadEditMode {
    if editing {
        ReadEditMode::Read
    } else {
        ReadEditMode::Edit
    }
}

/// The mode the read/edit shortcut asks for.
pub fn toggle_target(editing: bool) -> (m: ReadEditMode)
    ensures
        m == toggled_mode(editing),
{
    if editing {
        ReadEditMode::Read
    } else {
        ReadEditMode::Edit
    }
}

/// What a request for mode `target` does: nothing (`None`) when that mode is
/// already the current one, so the editor keeps its transient state;
/// otherwise the state after the switch (the editor's transients are then
/// cleared).
pub open spec fn mode_request(current: ReadEditState, target: ReadEditMode) -> Option<ReadEditState> {
    if (target == ReadEditMode::Edit) == current.editing {
        None
    } else {
        Some(transition(current, target))
    }
}

/// Apply a read/edit mode request (see `mode_request`).
pub fn read_edit_request(current: ReadEditState, target: ReadEditMode) -> (r: Option<ReadEditState>)
    ensures
        r == mode_request(current, target),
{
    let already = match target {
        ReadEditMode::Read => !current.editing,
        ReadEditMode::Edit => current.editing,
    };
    if already {
        None
    } else {
        Some(transitioned_read_edit(current, target))
    }
}

/// The shortcut always switches: toggling flips `editing`, keeps the
/// typed-view preference, and toggling twice comes back to the start.
pub proof fn law_toggle_twice_restores(s: ReadEditState)
    ensures
        mode_request(s, toggled_mode(s.editing)) matches Some(t) && t.editing != s.editing
            && t.discipline_typed == s.discipline_typed && mode_request(t, toggled_mode(t.editing))
            == Some(s),
{
}

/// Pieces of `s` split on `c` from position `i`, after the finished `parts`
/// and the piece `cur` being read (empty pieces included).
pub open spec fn split_from(s: Seq<char>, c: char, i: int, parts: Seq<Seq<char>>, cur: Seq<char>) -> Seq<
    Seq<char>,
>
    decreases s.len() - i,
{
    if i < 0 || i >= s.len() {
        parts.push(cur)
    } else if s[i] == c {
        split_from(s, c, i + 1, parts.push(cur), Seq::empty())
    } else {
        split_from(s, c, i + 1, parts, cur.push(s[i]))
    }
}

/// The pieces of `s` between the `c`s.
pub open spec fn pieces_of(s: Seq<char>, c: char) -> Seq<Seq<char>> {
    split_from(s, c, 0, Seq::empty(), Seq::empty())
}

/// The pieces that name a directory or file: non-empty and not `.`.
pub open spec fn normal_parts(ps: Seq<Seq<char>>) -> Seq<Seq<char>>
    decreases ps.len(),
{
    if ps.len() == 0 {
        Seq::empty()
    } else {
        normal_parts(ps.drop_last()) + if ps.last().len() > 0 && ps.last() != seq!['.'] {
            seq![ps.last()]
        } else {
            Seq::empty()
        }
    }
}

/// The components of a `/`-separated path as `Path::components` yields them:
/// a leading `/` is the root, a leading `.` is kept, and otherwise repeated
/// separators and `.` are normalised away.
pub open spec fn path_components(s: Seq<char>) -> Seq<Seq<char>> {
    let ps = pieces_of(s, '/');
    if s.len() > 0 && s[0] == '/' {
        seq![seq!['/']] + normal_parts(ps)
    } else if ps.len() > 0 && ps[0] == seq!['.'] {
        seq![seq!['.']] + normal_parts(ps.drop_first())
    } else {
        normal_parts(ps)
    }
}

/// `parts` joined with `sep` between them.
pub open spec fn joined(parts: Seq<Seq<char>>, sep: Seq<char>) -> Seq<char>
    decreases parts.len(),
{
    if parts.len() == 0 {
        Seq::empty()
    } else if parts.len() == 1 {
        parts[0]
    } else {
        joined(parts.drop_last(), sep) + sep + parts.last()
    }
}

/// The breadcrumb of a vault-relative path: its parent's components joined
/// with ` / `, or empty at the vault root.
pub open spec fn crumb(s: Seq<char>) -> Seq<char> {
    let cs = path_components(s);
    if cs.len() <= 1 {
        Seq::empty()
    } else {
        joined(cs.drop_last(), seq![' ', '/', ' '])
    }
}

pub(crate) fn split_pieces(s: &[char], c: char) -> (r: Vec<Vec<char>>)
    ensures
        views(r@) == pieces_of(s@, c),
        r@.len() >= 1,
{
    let mut parts: Vec<Vec<char>> = Vec::new();
    let mut cur: Vec<char> = Vec::new();
    let mut i: usize = 0;
    assert(views(parts@) =~= Seq::<Seq<char>>::empty());
    assert(cur@ =~= Seq::<char>::empty());
    while i < s.len()
        invariant
            i <= s@.len(),
            pieces_of(s@, c) == split_from(s@, c, i as int, views(parts@), cur@),
        decreases s@.len() - i,
    {
        if s[i] == c {
            let ghost before = parts@;
            let done = cur;
            parts.push(done);
            assert(views(parts@) =~= views(before).push(done@));
            cur = Vec::new();
            assert(cur@ =~= Seq::<char>::empty());
        } else {
            cur.push(s[i]);
        }
        i += 1;
    }
    let ghost before = parts@;
    let done = cur;
    parts.push(done);
    assert(views(parts@) =~= views(before).push(done@));
    parts
}

fn normal_from(ps: &Vec<Vec<char>>, start: usize) -> (r: Vec<Vec<char>>)
    requires
        start <= ps@.len(),
    ensures
        views(r@) == normal_parts(views(ps@).skip(start as int)),
{
    let mut out: Vec<Vec<char>> = Vec::new();
    let mut i = start;
    let dot = vec!['.'];
    assert(views(ps@).skip(start as int).take(0) =~= Seq::<Seq<char>>::empty());
    while i < ps.len()
        invariant
            start <= i <= ps@.len(),
            dot@ == seq!['.'],
            views(out@) == normal_parts(views(ps@).skip(start as int).take(i - start)),
        decreases ps@.len() - i,
    {
        let ghost q = views(ps@).skip(start as int);
        assert(q.take(i - start + 1).drop_last() =~= q.take(i - start));
        assert(q.take(i - start + 1).last() == ps@[i as int]@);
        let p = &ps[i];
        if p.len() > 0 && !same_chars(p.as_slice(), dot.as_slice()) {
            let ghost before = out@;
            out.push(p.clone());
            assert(views(out@) =~= views(before) + seq![ps@[i as int]@]);
        } else {
            assert(normal_parts(q.take(i - start + 1)) =~= normal_parts(q.take(i - start)));
        }
        i += 1;
    }
    assert(views(ps@).skip(start as int).take(i - start) =~= views(ps@).skip(start as int));
    out
}

/// The components of a path, as characters.
pub fn components_of(s: &[char]) -> (r: Vec<Vec<char>>)
    ensures
        views(r@) == path_components(s@),
{
    let ps = split_pieces(s, '/');
    let dot = vec!['.'];
    assert(dot@ =~= seq!['.']);
    assert(views(ps@).skip(0) =~= views(ps@));
    if s.len() > 0 && s[0] == '/' {
        let root = vec!['/'];
        assert(root@ =~= seq!['/']);
        let mut out: Vec<Vec<char>> = Vec::new();
        out.push(root);
        assert(views(out@)[0] == seq!['/']);
        let mut rest = normal_from(&ps, 0);
        let ghost r0 = out@;
        let ghost r1 = rest@;
        out.append(&mut rest);
        assert(views(r0) =~= seq![seq!['/']]);
        proof {
            lemma_views_concat(r0, r1);
            assert(out@ == r0 + r1);
            assert(views(out@) == seq![seq!['/']] + normal_parts(views(ps@)));
        }
        out
    } else if same_chars(ps[0].as_slice(), dot.as_slice()) {
        assert(views(ps@)[0] == ps@[0]@);
        let cur = vec!['.'];
        assert(cur@ =~= seq!['.']);
        let mut out: Vec<Vec<char>> = Vec::new();
        out.push(cur);
        assert(views(out@)[0] == seq!['.']);
        let mut rest = normal_from(&ps, 1);
        assert(views(ps@).skip(1) =~= views(ps@).drop_first());
        let ghost r0 = out@;
        let ghost r1 = rest@;
        out.append(&mut rest);
        assert(views(r0) =~= seq![seq!['.']]);
        proof {
            lemma_views_concat(r0, r1);
            assert(out@ == r0 + r1);
            assert(views(out@) == seq![seq!['.']] + normal_parts(views(ps@).drop_first()));
        }
        out
    } else {
        assert(views(ps@)[0] == ps@[0]@);
        normal_from(&ps, 0)
    }
}

/// `Daily/2026/2026-05-20.md` → `Daily / 2026`. Returns an empty string for a
/// note at the vault root (no parent segments to show).
pub fn breadcrumb_path(rel_path: &str) -> (r: String)
    ensures
        r@ == crumb(rel_path@),
{
    let cs = chars_of(rel_path);
    let comps = components_of(cs.as_slice());
    let n = comps.len();
    if n <= 1 {
        return String::new();
    }
    let mut out: Vec<char> = Vec::new();
    let sep = vec![' ', '/', ' '];
    let ghost all = views(comps@).drop_last();
    let mut i: usize = 0;
    assert(views(comps@).drop_last().take(0) =~= Seq::<Seq<char>>::empty());
    while i < n - 1
        invariant
            n == comps@.len(),
            i <= n - 1,
            all == views(comps@).drop_last(),
            sep@ == seq![' ', '/', ' '],
            out@ == joined(all.take(i as int), sep@),
        decreases n - 1 - i,
    {
        assert(all.take(i + 1).drop_last() =~= all.take(i as int));
        assert(all.take(i + 1).last() == comps@[i as int]@);
        if i > 0 {
            let mut s = sep.clone();
            out.append(&mut s);
        }
        let mut c = comps[i].clone();
        let ghost before = out@;
        out.append(&mut c);
        proof {
            if i == 0 {
                assert(all.take(1) =~= seq![comps@[0]@]);
                assert(out@ =~= comps@[0]@);
            }
        }
        i += 1;
    }
    assert(all.take(i as int) =~= all);
    string_of(out.as_slice())
}

proof fn lemma_split_without_sep(s: Seq<char>, c: char, i: int, parts: Seq<Seq<char>>, cur: Seq<char>)
    requires
        0 <= i <= s.len(),
        !s.contains(c),
    ensures
        split_from(s, c, i, parts, cur) == parts.push(cur + s.skip(i)),
    decreases s.len() - i,
{
    if i < s.len() {
        assert(s[i] != c);
        lemma_split_without_sep(s, c, i + 1, parts, cur.push(s[i]));
        assert(cur.push(s[i]) + s.skip(i + 1) =~= cur + s.skip(i));
    } else {
        assert(cur + s.skip(i) =~= cur);
    }
}

/// A note at the vault root (a path with no `/`) has an empty breadcrumb.
pub proof fn law_root_note_has_no_crumb(s: Seq<char>)
    requires
        !s.contains('/'),
    ensures
        crumb(s) == Seq::<char>::empty(),
{
    lemma_split_without_sep(s, '/', 0, Seq::empty(), Seq::empty());
    let ps = pieces_of(s, '/');
    assert(Seq::<char>::empty() + s.skip(0) =~= s);
    assert(ps == seq![s]);
    if s.len() > 0 {
        assert(s[0] != '/');
    }
    assert(seq![s].drop_last() =~= Seq::<Seq<char>>::empty());
    assert(seq![s].drop_first() =~= Seq::<Seq<char>>::empty());
    assert(normal_parts(Seq::<Seq<char>>::empty()) =~= Seq::<Seq<char>>::empty());
}

/// Number of whitespace-separated words in `s` (the positions where a word
/// starts).
pub open spec fn words(s: Seq<char>) -> nat
    decreases s.len(),
{
    if s.len() == 0 {
        0
    } else {
        words(s.drop_last()) + if !is_ws(s.last()) && (s.len() == 1 || is_ws(s[s.len() - 2])) {
            1nat
        } else {
            0nat
        }
    }
}

/// Word count over whitespace-separated tokens (a status hint, not a metric).
pub fn word_count(content: &str) -> (r: usize)
    ensures
        r == words(content@),
{
    let cs = chars_of(content);
    let mut count: usize = 0;
    let mut i: usize = 0;
    while i < cs.len()
        invariant
            i <= cs@.len(),
            count == words(cs@.take(i as int)),
            count <= i,
        decreases cs@.len() - i,
    {
        assert(cs@.take(i + 1).drop_last() =~= cs@.take(i as int));
        if !char_is_ws(cs[i]) && (i == 0 || char_is_ws(cs[i - 1])) {
            count += 1;
        }
        i += 1;
    }
    assert(cs@.take(i as int) =~= cs@);
    count
}

} // verus!
