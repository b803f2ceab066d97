//! Markdown formatting actions of the note editor: which actions each entry
//! point offers, and how an action rewrites the note at a byte selection.
use vstd::prelude::*;
use crate::offsets::{
    byte_len, byte_off, ceil_boundary, ceil_char, char_width, chars_and_len, lemma_ceil_char,
    lemma_encode_concat, lemma_off_end, lemma_off_mono, lemma_sel_chars, sel_bytes, sel_chars,
    snap_selection,
};
use vstd::utf8::encode_utf8;
use crate::breadcrumb::{pieces_of, split_pieces};
use crate::text::{chars_of, ltrim, ltrim_index, slice_of, string_of, string_views, trim, trimmed, views};

verus! {

/// A markdown formatting action.
#[derive(Clone, Copy, Debug, PartialEq, Eq, Hash, Structural)]
pub enum MdFormat {
    Bold,
    Italic,
    Strike,
    InlineCode,
    H1,
    H2,
    H3,
    Bullet,
    Numbered,
    Todo,
    Quote,
    Link,
    CodeBlock,
    Wikilink,
    Divider,
    Math,
}

/// Where a formatting request comes from.
#[derive(Clone, Copy, Debug, PartialEq, Eq, Structural)]
pub enum EditorEntryPoint {
    NativeMenu,
    SlashMenu,
    CommandPalette,
    UiButton,
    Keyboard,
}

/// The byte target of an action: a selection, a caret, or the position of
/// the `/` that opened the slash menu.
#[derive(Clone, Copy, Debug, PartialEq, Eq, Structural)]
pub enum EditTarget {
    Selection(usize, usize),
    Cursor(usize),
    Slash(usize),
}

impl EditTarget {
    /// The byte selection the target stands for: a caret is an empty
    /// selection, and a slash target puts the caret just after the `/`.
    pub fn selection_hint(self) -> (r: (usize, usize))
        ensures
            r == (match self {
                EditTarget::Selection(a, b) => (a, b),
                EditTarget::Cursor(p) => (p, p),
                EditTarget::Slash(p) => if p < usize::MAX {
                    ((p + 1) as usize, (p + 1) as usize)
                } else {
                    (p, p)
                },
            }),
    {
        match self {
            EditTarget::Selection(a, b) => (a, b),
            EditTarget::Cursor(pos) => (pos, pos),
            EditTarget::Slash(pos) => {
                let cursor = pos.saturating_add(1);
                (cursor, cursor)
            },
        }
    }
}

/// The note text and byte selection an editor action leaves behind.
#[derive(Debug, PartialEq, Eq)]
pub struct EditResult {
    pub content: String,
    pub selection: (usize, usize),
}

/// An editor action queued for the note `note_id`.
#[derive(Clone, Debug, PartialEq, Eq)]
pub struct PendingEditorAction {
    pub note_id: String,
    pub format: MdFormat,
    pub target: EditTarget,
}

impl MdFormat {
    /// Whether the entry point offers this action: menus, palette and buttons
    /// offer all; the slash menu all but Math; the keyboard Bold, Italic, Math.
    pub open spec fn offered(self, entrypoint: EditorEntryPoint) -> bool {
        match entrypoint {
            EditorEntryPoint::NativeMenu => true,
            EditorEntryPoint::CommandPalette | EditorEntryPoint::UiButton => true,
            EditorEntryPoint::SlashMenu => self != MdFormat::Math,
            EditorEntryPoint::Keyboard => self == MdFormat::Bold || self == MdFormat::Italic || self
                == MdFormat::Math,
        }
    }

    /// Whether the entry point offers this action.
    pub fn supports(self, entrypoint: EditorEntryPoint) -> (b: bool)
        ensures
            b == self.offered(entrypoint),
    {
        match entrypoint {
            EditorEntryPoint::NativeMenu => true,
            EditorEntryPoint::CommandPalette | EditorEntryPoint::UiButton => true,
            EditorEntryPoint::SlashMenu => self != MdFormat::Math,
            EditorEntryPoint::Keyboard => {
                matches!(self, MdFormat::Bold | MdFormat::Italic | MdFormat::Math)
            },
        }
    }

    /// Actions that prefix each selected line (headings, lists, quote).
    pub open spec fn prefixes_lines(self) -> bool {
        self == MdFormat::H1 || self == MdFormat::H2 || self == MdFormat::H3 || self
            == MdFormat::Bullet || self == MdFormat::Numbered || self == MdFormat::Todo || self
            == MdFormat::Quote
    }

    /// Whether the action prefixes each selected line.
    pub fn is_line_prefix(self) -> (b: bool)
        ensures
            b == self.prefixes_lines(),
    {
        matches!(
            self,
            MdFormat::H1 | MdFormat::H2 | MdFormat::H3 | MdFormat::Bullet | MdFormat::Numbered
                | MdFormat::Todo | MdFormat::Quote
        )
    }

    /// The menu label of the action (glyph and Portuguese name).
    pub fn label(self) -> (r: &'static str)
        ensures
            r@ == (match self {
                MdFormat::Bold => "𝐁  Negrito"@,
                MdFormat::Italic => "𝐼  Itálico"@,
                MdFormat::Strike => "S̶  Tachado"@,
                MdFormat::InlineCode => "‹›  Código"@,
                MdFormat::Link => "🔗  Link"@,
                MdFormat::CodeBlock => "▦  Bloco de código"@,
                MdFormat::H1 => "H1  Título"@,
                MdFormat::H2 => "H2  Subtítulo"@,
                MdFormat::H3 => "H3  Seção"@,
                MdFormat::Bullet => "•  Lista"@,
                MdFormat::Numbered => "1.  Lista numerada"@,
                MdFormat::Todo => "☐  Tarefa"@,
                MdFormat::Quote => "❝  Citação"@,
                MdFormat::Wikilink => "⟦⟧  Wikilink"@,
                MdFormat::Divider => "―  Divisor"@,
                MdFormat::Math => "∑  Avaliar linha"@,
            }),
    {
        match self {
            MdFormat::Bold => "𝐁  Negrito",
            MdFormat::Italic => "𝐼  Itálico",
            MdFormat::Strike => "S̶  Tachado",
            MdFormat::InlineCode => "‹›  Código",
            MdFormat::Link => "🔗  Link",
            MdFormat::CodeBlock => "▦  Bloco de código",
            MdFormat::H1 => "H1  Título",
            MdFormat::H2 => "H2  Subtítulo",
            MdFormat::H3 => "H3  Seção",
            MdFormat::Bullet => "•  Lista",
            MdFormat::Numbered => "1.  Lista numerada",
            MdFormat::Todo => "☐  Tarefa",
            MdFormat::Quote => "❝  Citação",
            MdFormat::Wikilink => "⟦⟧  Wikilink",
            MdFormat::Divider => "―  Divisor",
            MdFormat::Math => "∑  Avaliar linha",
        }
    }
}

/// Every action, in menu order.
pub open spec fn all_formats() -> Seq<MdFormat> {
    seq![
        MdFormat::Bold,
        MdFormat::Italic,
        MdFormat::Strike,
        MdFormat::InlineCode,
        MdFormat::CodeBlock,
        MdFormat::H1,
        MdFormat::H2,
        MdFormat::H3,
        MdFormat::Bullet,
        MdFormat::Numbered,
        MdFormat::Todo,
        MdFormat::Quote,
        MdFormat::Link,
        MdFormat::Wikilink,
        MdFormat::Divider,
        MdFormat::Math,
    ]
}

/// The actions of `s` that `entrypoint` offers, in order.
pub open spec fn offered_in(s: Seq<MdFormat>, entrypoint: EditorEntryPoint) -> Seq<MdFormat>
    decreases s.len(),
{
    if s.len() == 0 {
        Seq::empty()
    } else {
        offered_in(s.drop_last(), entrypoint) + if s.last().offered(entrypoint) {
            seq![s.last()]
        } else {
            Seq::empty()
        }
    }
}

/// Every action, in menu order.
pub fn all_md_formats() -> (r: Vec<MdFormat>)
    ensures
        r@ == all_formats(),
{
    let r = vec![
        MdFormat::Bold,
        MdFormat::Italic,
        MdFormat::Strike,
        MdFormat::InlineCode,
        MdFormat::CodeBlock,
        MdFormat::H1,
        MdFormat::H2,
        MdFormat::H3,
        MdFormat::Bullet,
        MdFormat::Numbered,
        MdFormat::Todo,
        MdFormat::Quote,
        MdFormat::Link,
        MdFormat::Wikilink,
        MdFormat::Divider,
        MdFormat::Math,
    ];
    assert(r@ =~= all_formats());
    r
}

/// The actions an entry point offers, in menu order.
pub fn editor_actions_for(entrypoint: EditorEntryPoint) -> (r: Vec<MdFormat>)
    ensures
        r@ == offered_in(all_formats(), entrypoint),
{
    let all = all_md_formats();
    let mut r: Vec<MdFormat> = Vec::new();
    let mut i: usize = 0;
    while i < all.len()
        invariant
            i <= all@.len(),
            all@ == all_formats(),
            r@ == offered_in(all@.take(i as int), entrypoint),
        decreases all@.len() - i,
    {
        let f = all[i];
        assert(all@.take(i + 1).drop_last() =~= all@.take(i as int));
        if f.supports(entrypoint) {
            r.push(f);
        }
        i += 1;
        assert(r@ =~= offered_in(all@.take(i as int), entrypoint));
    }
    assert(all@.take(i as int) =~= all@);
    r
}

/// The items of the slash menu: every action but Math, in menu order.
pub fn slash_menu_items() -> (r: Vec<MdFormat>)
    ensures
        r@ == offered_in(all_formats(), EditorEntryPoint::SlashMenu),
{
    editor_actions_for(EditorEntryPoint::SlashMenu)
}

/// The markers an inline action wraps the selection with.
pub open spec fn markers(format: MdFormat) -> Option<(Seq<char>, Seq<char>)> {
    match format {
        MdFormat::Bold => Some((seq!['*', '*'], seq!['*', '*'])),
        MdFormat::Italic => Some((seq!['_'], seq!['_'])),
        MdFormat::Strike => Some((seq!['~', '~'], seq!['~', '~'])),
        MdFormat::InlineCode => Some((seq!['`'], seq!['`'])),
        MdFormat::CodeBlock => Some((seq!['`', '`', '`', '\n'], seq!['\n', '`', '`', '`'])),
        MdFormat::Link => Some((seq!['['], seq![']', '(', 'u', 'r', 'l', ')'])),
        MdFormat::Wikilink => Some((seq!['[', '['], seq![']', ']'])),
        _ => None,
    }
}

/// The markers an inline action wraps the selection with, or `None` for the
/// line and block actions.
pub fn wrapping_markers(format: MdFormat) -> (r: Option<(&'static str, &'static str)>)
    ensures
        match r {
            Some((pre, post)) => markers(format) == Some((pre@, post@)),
            None => markers(format) is None,
        },
{
    proof {
        reveal_strlit("**");
        reveal_strlit("_");
        reveal_strlit("~~");
        reveal_strlit("`");
        reveal_strlit("```\n");
        reveal_strlit("\n```");
        reveal_strlit("[");
        reveal_strlit("](url)");
        reveal_strlit("[[");
        reveal_strlit("]]");
    }
    let r = match format {
        MdFormat::Bold => Some(("**", "**")),
        MdFormat::Italic => Some(("_", "_")),
        MdFormat::Strike => Some(("~~", "~~")),
        MdFormat::InlineCode => Some(("`", "`")),
        MdFormat::CodeBlock => Some(("```\n", "\n```")),
        MdFormat::Link => Some(("[", "](url)")),
        MdFormat::Wikilink => Some(("[[", "]]")),
        _ => None,
    };
    proof {
        match r {
            Some((pre, post)) => {
                assert(markers(format) == Some((pre@, post@)));
            },
            None => {},
        }
    }
    r
}

/// The byte range a selection denotes once clamped to `content`, put in
/// order, and each end snapped forward to a character boundary.
pub fn normalized_byte_range(content: &str, sel: (usize, usize)) -> (r: (usize, usize))
    ensures
        (r.0 as int, r.1 as int) == sel_bytes(content@, sel.0 as int, sel.1 as int),
{
    let (cs, len) = chars_and_len(content);
    let (_ca, _cb, a, b) = snap_selection(cs.as_slice(), len, sel.0, sel.1);
    (a, b)
}

/// The byte offset of character `char_index`, or the byte length past the end.
pub fn char_index_to_byte(content: &str, char_index: usize) -> (r: usize)
    ensures
        r == byte_off(
            content@,
            if char_index < content@.len() {
                char_index as int
            } else {
                content@.len() as int
            },
        ),
{
    crate::sheet::char_to_byte(content, char_index)
}


/// Length of the run of `m` that `t` begins with.
pub open spec fn run_len(t: Seq<char>, m: char) -> nat
    decreases t.len(),
{
    if t.len() > 0 && t[0] == m {
        1 + run_len(t.drop_first(), m)
    } else {
        0
    }
}

/// The code-fence opener/closer of a line: after leading whitespace, a run
/// of at least three backticks or tildes (its character and length).
pub open spec fn fence_of(line: Seq<char>) -> Option<(char, nat)> {
    let t = ltrim(line);
    if t.len() == 0 || (t[0] != '`' && t[0] != '~') {
        None
    } else if run_len(t, t[0]) >= 3 {
        Some((t[0], run_len(t, t[0])))
    } else {
        None
    }
}

fn fence_chars(line: &[char]) -> (r: Option<(char, usize)>)
    ensures
        match r {
            Some((m, n)) => fence_of(line@) == Some((m, n as nat)),
            None => fence_of(line@) is None,
        },
{
    let a = ltrim_index(line);
    if a == line.len() {
        return None;
    }
    let m = line[a];
    if m != '`' && m != '~' {
        return None;
    }
    let ghost t = line@.subrange(a as int, line@.len() as int);
    let mut k = a;
    while k < line.len() && line[k] == m
        invariant
            a <= k <= line@.len(),
            t == line@.subrange(a as int, line@.len() as int),
            run_len(t, m) == (k - a) + run_len(line@.subrange(k as int, line@.len() as int), m),
        decreases line@.len() - k,
    {
        assert(line@.subrange(k as int, line@.len() as int).drop_first() =~= line@.subrange(
            k + 1,
            line@.len() as int,
        ));
        k += 1;
    }
    let n = k - a;
    if n >= 3 {
        Some((m, n))
    } else {
        None
    }
}

/// A line's code-fence marker and run length, if it opens or closes a fence.
pub fn fence_marker(line: &str) -> (r: Option<(char, usize)>)
    ensures
        match r {
            Some((m, n)) => fence_of(line@) == Some((m, n as nat)),
            None => fence_of(line@) is None,
        },
{
    let cs = crate::text::chars_of(line);
    fence_chars(cs.as_slice())
}

/// Fence state after one more line: a marker of the open fence's kind at
/// least as long closes it; with no fence open, any marker opens one.
pub open spec fn fence_step(open: Option<(char, nat)>, line: Seq<char>) -> Option<(char, nat)> {
    match fence_of(line) {
        None => open,
        Some((m, c)) => match open {
            Some((om, oc)) => if m == om && c >= oc {
                None
            } else {
                open
            },
            None => Some((m, c)),
        },
    }
}

/// Left-to-right scan of `s` for `split_inclusive('\n')`: the completed
/// pieces (each ending in its `\n`) and the piece being read.
pub open spec fn pieces_scan(s: Seq<char>) -> (Seq<Seq<char>>, Seq<char>)
    decreases s.len(),
{
    if s.len() == 0 {
        (Seq::empty(), Seq::empty())
    } else {
        let prev = pieces_scan(s.drop_last());
        if s.last() == '\n' {
            (prev.0.push(prev.1.push('\n')), Seq::empty())
        } else {
            (prev.0, prev.1.push(s.last()))
        }
    }
}

/// The fence state after the lines `ps`, from no open fence.
pub open spec fn fence_fold(ps: Seq<Seq<char>>) -> Option<(char, nat)>
    decreases ps.len(),
{
    if ps.len() == 0 {
        None
    } else {
        fence_step(fence_fold(ps.drop_last()), ps.last())
    }
}

/// Whether a fenced code block is open at the end of `s`.
pub open spec fn fence_open_after(s: Seq<char>) -> bool {
    let sc = pieces_scan(s);
    (if sc.1.len() > 0 {
        fence_step(fence_fold(sc.0), sc.1)
    } else {
        fence_fold(sc.0)
    }) is Some
}

/// Whether byte position `pos` (clamped and snapped to a boundary) is inside
/// a fenced code block of `cs`.
pub open spec fn in_fence(cs: Seq<char>, pos: int) -> bool {
    fence_open_after(cs.take(sel_chars(cs, pos, pos).0))
}

fn fence_open_prefix(cs: &[char], end: usize) -> (b: bool)
    requires
        end <= cs@.len(),
    ensures
        b == fence_open_after(cs@.take(end as int)),
{
    let mut open: Option<(char, usize)> = None;
    let mut cur: Vec<char> = Vec::new();
    let mut i: usize = 0;
    while i < end
        invariant
            i <= end <= cs@.len(),
            cur@ == pieces_scan(cs@.take(i as int)).1,
            match open {
                Some((m, n)) => fence_fold(pieces_scan(cs@.take(i as int)).0) == Some((m, n as nat)),
                None => fence_fold(pieces_scan(cs@.take(i as int)).0) is None,
            },
        decreases end - i,
    {
        let c = cs[i];
        assert(cs@.take(i + 1).drop_last() =~= cs@.take(i as int));
        let ghost prev = pieces_scan(cs@.take(i as int));
        if c == '\n' {
            cur.push('\n');
            let f = fence_chars(cur.as_slice());
            match f {
                None => {},
                Some((m, n)) => {
                    match open {
                        Some((om, oc)) => {
                            if m == om && n >= oc {
                                open = None;
                            }
                        },
                        None => {
                            open = Some((m, n));
                        },
                    }
                },
            }
            assert(pieces_scan(cs@.take(i + 1)).0.drop_last() =~= prev.0);
            cur = Vec::new();
            assert(cur@ =~= Seq::<char>::empty());
        } else {
            cur.push(c);
        }
        i += 1;
    }
    if cur.len() > 0 {
        match fence_chars(cur.as_slice()) {
            None => open.is_some(),
            Some((m, n)) => match open {
                Some((om, oc)) => !(m == om && n >= oc),
                None => true,
            },
        }
    } else {
        open.is_some()
    }
}

/// Whether `byte_pos` (clamped and snapped forward to a character boundary)
/// lies inside a fenced code block, counting the fences before it.
pub fn inside_code_fence(content: &str, byte_pos: usize) -> (b: bool)
    ensures
        b == in_fence(content@, byte_pos as int),
{
    let (cs, len) = chars_and_len(content);
    let (ca, _cb, _a, _b) = snap_selection(cs.as_slice(), len, byte_pos, byte_pos);
    fence_open_prefix(cs.as_slice(), ca)
}


/// Character index where the line holding character position `k` starts:
/// just after the last `\n` before `k`, or 0.
pub open spec fn line_start(w: Seq<char>, k: int) -> int
    decreases k,
{
    if k <= 0 {
        0
    } else if k <= w.len() && w[k - 1] == '\n' {
        k
    } else {
        line_start(w, k - 1)
    }
}

/// Number of `\n` at positions `j` with `lo <= j` and `j + 1 < hi`.
pub open spec fn newlines_between(w: Seq<char>, lo: int, hi: int) -> nat
    decreases hi - lo,
{
    if lo < 0 || lo + 1 >= hi || lo >= w.len() {
        0
    } else {
        (if w[lo] == '\n' {
            1nat
        } else {
            0nat
        }) + newlines_between(w, lo + 1, hi)
    }
}

/// `w` from character `k` on, with `p` inserted after every `\n` whose next
/// position is before `hi`.
pub open spec fn prefixed_from(w: Seq<char>, k: int, hi: int, p: Seq<char>) -> Seq<char>
    decreases w.len() - k,
{
    if k < 0 || k >= w.len() {
        Seq::empty()
    } else if w[k] == '\n' && k + 1 < hi {
        seq![w[k]] + p + prefixed_from(w, k + 1, hi, p)
    } else {
        seq![w[k]] + prefixed_from(w, k + 1, hi, p)
    }
}

/// The line prefix a line action inserts.
pub open spec fn line_prefix(format: MdFormat) -> Seq<char> {
    match format {
        MdFormat::H1 => seq!['#', ' '],
        MdFormat::H2 => seq!['#', '#', ' '],
        MdFormat::H3 => seq!['#', '#', '#', ' '],
        MdFormat::Bullet => seq!['-', ' '],
        MdFormat::Numbered => seq!['1', '.', ' '],
        MdFormat::Todo => seq!['-', ' ', '[', ' ', ']', ' '],
        MdFormat::Quote => seq!['>', ' '],
        _ => Seq::empty(),
    }
}

/// The character index of the `/` at byte `pos`, when `pos` is a character
/// boundary inside the text holding a `/`.
pub open spec fn slash_index(cs: Seq<char>, pos: int) -> Option<int> {
    let i = ceil_char(cs, pos);
    if pos < byte_len(cs) && i < cs.len() && byte_off(cs, i) == pos && cs[i] == '/' {
        Some(i)
    } else {
        None
    }
}

/// The text an action works on and its byte selection: a slash target drops
/// its `/` (and is refused for Math or when no `/` is there); a selection is
/// normalised; a caret is normalised to an empty selection.
pub open spec fn working(cs: Seq<char>, target: EditTarget, format: MdFormat) -> Option<
    (Seq<char>, int, int),
> {
    match target {
        EditTarget::Slash(pos) => if format == MdFormat::Math {
            None
        } else {
            match slash_index(cs, pos as int) {
                Some(i) => Some((cs.remove(i), pos as int, pos as int)),
                None => None,
            }
        },
        EditTarget::Selection(a, b) => {
            let s = sel_bytes(cs, a as int, b as int);
            Some((cs, s.0, s.1))
        },
        EditTarget::Cursor(p) => {
            let s = sel_bytes(cs, p as int, p as int);
            Some((cs, s.0, s.0))
        },
    }
}

/// A replacement of the bytes `start..end` of `w` is well placed: in order,
/// inside the text, on character boundaries, and the caret after it fits.
pub open spec fn splice_ok(w: Seq<char>, sub: (Seq<char>, usize, usize)) -> bool {
    &&& sub.1 <= sub.2 <= byte_len(w)
    &&& byte_off(w, ceil_char(w, sub.1 as int)) == sub.1
    &&& byte_off(w, ceil_char(w, sub.2 as int)) == sub.2
    &&& sub.1 + byte_len(sub.0) <= usize::MAX
}

/// What an action makes of the text `w` with byte selection `s0..s1`: the
/// new text and byte selection, or `None` when it does not apply. `math` is
/// the line substitution the arithmetic evaluator proposed for Math.
pub open spec fn edit_of(
    w: Seq<char>,
    s0: int,
    s1: int,
    format: MdFormat,
    math: Option<(Seq<char>, usize, usize)>,
) -> Option<(Seq<char>, int, int)> {
    let c = sel_chars(w, s0, s1);
    let a = sel_bytes(w, s0, s1).0;
    let b = sel_bytes(w, s0, s1).1;
    if format == MdFormat::Math {
        match math {
            None => None,
            Some((nl, st, en)) => {
                let cur = st + byte_len(nl);
                Some(
                    (
                        w.take(ceil_char(w, st as int)) + nl + w.skip(ceil_char(w, en as int)),
                        cur,
                        cur,
                    ),
                )
            },
        }
    } else if format == MdFormat::CodeBlock && in_fence(w, a) {
        None
    } else if format.prefixes_lines() {
        let p = line_prefix(format);
        let cf = line_start(w, c.0);
        Some(
            (
                w.take(cf) + p + prefixed_from(w, cf, c.1, p),
                a + p.len(),
                b + p.len() * (1 + newlines_between(w, cf, c.1)),
            ),
        )
    } else if format == MdFormat::Divider {
        let cf = line_start(w, c.0);
        Some((w.take(cf) + seq!['-', '-', '-', '\n'] + w.skip(cf), a + 4, b + 4))
    } else {
        match markers(format) {
            Some((pre, post)) => Some(
                (
                    w.take(c.0) + pre + w.subrange(c.0, c.1) + post + w.skip(c.1),
                    a + pre.len(),
                    b + pre.len(),
                ),
            ),
            None => None,
        }
    }
}

/// The outcome of an editor action on the note `cs`.
pub open spec fn editor_action(
    cs: Seq<char>,
    target: EditTarget,
    format: MdFormat,
    math: Option<(Seq<char>, usize, usize)>,
) -> Option<(Seq<char>, int, int)> {
    match working(cs, target, format) {
        None => None,
        Some((w, s0, s1)) => edit_of(w, s0, s1, format, math),
    }
}


/// Removing a character takes away its width.
proof fn lemma_remove_len(cs: Seq<char>, i: int)
    requires
        0 <= i < cs.len(),
    ensures
        byte_len(cs.remove(i)) + char_width(cs[i]) == byte_len(cs),
{
    assert(cs =~= cs.take(i) + seq![cs[i]] + cs.skip(i + 1));
    assert(cs.remove(i) =~= cs.take(i) + cs.skip(i + 1));
    lemma_encode_concat(cs.take(i), seq![cs[i]]);
    lemma_encode_concat(cs.take(i) + seq![cs[i]], cs.skip(i + 1));
    lemma_encode_concat(cs.take(i), cs.skip(i + 1));
    assert(seq![cs[i]].drop_first() =~= Seq::<char>::empty());
    assert(encode_utf8(seq![cs[i]]) =~= vstd::utf8::encode_scalar(cs[i] as u32) + encode_utf8(
        Seq::<char>::empty(),
    ));
}

/// The characters of `s` with character `i` removed.
fn without(s: &[char], i: usize) -> (r: Vec<char>)
    requires
        i < s@.len(),
    ensures
        r@ == s@.remove(i as int),
{
    let n = s.len();
    let mut r = slice_of(s, 0, i);
    let mut tail = slice_of(s, i + 1, n);
    r.append(&mut tail);
    assert(r@ =~= s@.remove(i as int));
    r
}

/// For Math, the proposed substitution is well placed in the working text.
pub open spec fn math_fits(
    cs: Seq<char>,
    target: EditTarget,
    format: MdFormat,
    math: Option<(Seq<char>, usize, usize)>,
) -> bool {
    match (working(cs, target, format), math) {
        (Some((w, _s0, _s1)), Some(sub)) => format == MdFormat::Math ==> splice_ok(w, sub),
        _ => true,
    }
}

/// The view of an arithmetic substitution.
pub open spec fn math_view(math: Option<(String, usize, usize)>) -> Option<(Seq<char>, usize, usize)> {
    match math {
        Some((s, a, b)) => Some((s@, a, b)),
        None => None,
    }
}

fn working_exec(content: &str, target: EditTarget, format: MdFormat) -> (r: Option<(Vec<char>, usize, usize, usize)>)
    ensures
        match r {
            Some((w, wl, s0, s1)) => working(content@, target, format) == Some(
                (w@, s0 as int, s1 as int),
            ) && wl == byte_len(w@) && wl <= byte_len(content@),
            None => working(content@, target, format) is None,
        },
{
    let (cs, len) = chars_and_len(content);
    match target {
        EditTarget::Slash(pos) => {
            if format == MdFormat::Math || pos >= len {
                return None;
            }
            let (ci, co) = ceil_boundary(cs.as_slice(), pos);
            if ci >= cs.len() || co != pos || cs[ci] != '/' {
                return None;
            }
            let w = without(cs.as_slice(), ci);
            proof {
                lemma_remove_len(cs@, ci as int);
            }
            Some((w, len - 1, pos, pos))
        },
        EditTarget::Selection(a, b) => {
            let (_ca, _cb, x, y) = snap_selection(cs.as_slice(), len, a, b);
            Some((cs, len, x, y))
        },
        EditTarget::Cursor(p) => {
            let (_ca, _cb, x, _y) = snap_selection(cs.as_slice(), len, p, p);
            Some((cs, len, x, x))
        },
    }
}

fn line_start_exec(w: &[char], k: usize) -> (r: usize)
    requires
        k <= w@.len(),
    ensures
        r as int == line_start(w@, k as int),
        r <= k,
{
    let mut j = k;
    while j > 0 && w[j - 1] != '\n'
        invariant
            j <= k <= w@.len(),
            line_start(w@, k as int) == line_start(w@, j as int),
        decreases j,
    {
        j -= 1;
    }
    j
}

fn push_range(out: &mut Vec<char>, s: &[char], lo: usize, hi: usize)
    requires
        lo <= hi <= s@.len(),
    ensures
        final(out)@ == old(out)@ + s@.subrange(lo as int, hi as int),
{
    let mut part = slice_of(s, lo, hi);
    out.append(&mut part);
}

proof fn lemma_newlines_bound(w: Seq<char>, lo: int, hi: int)
    requires
        0 <= lo,
    ensures
        newlines_between(w, lo, hi) <= if hi - lo > 0 { hi - lo } else { 0 },
    decreases hi - lo,
{
    if lo < 0 || lo + 1 >= hi || lo >= w.len() {
    } else {
        lemma_newlines_bound(w, lo + 1, hi);
    }
}

fn line_prefix_exec(format: MdFormat) -> (p: Vec<char>)
    requires
        format.prefixes_lines(),
    ensures
        p@ == line_prefix(format),
        1 <= p@.len() <= 6,
{
    let p = match format {
        MdFormat::H1 => vec!['#', ' '],
        MdFormat::H2 => vec!['#', '#', ' '],
        MdFormat::H3 => vec!['#', '#', '#', ' '],
        MdFormat::Bullet => vec!['-', ' '],
        MdFormat::Numbered => vec!['1', '.', ' '],
        MdFormat::Todo => vec!['-', ' ', '[', ' ', ']', ' '],
        _ => vec!['>', ' '],
    };
    assert(p@ =~= line_prefix(format));
    p
}

/// `w` with prefix `p` before the line starting at `cf` and after each
/// later `\n` whose next position is before `cb`; also that number of
/// newlines.
fn prefix_lines(w: &[char], cf: usize, cb: usize, p: &[char]) -> (r: (Vec<char>, usize))
    requires
        cf <= cb <= w@.len(),
    ensures
        r.0@ == w@.take(cf as int) + p@ + prefixed_from(w@, cf as int, cb as int, p@),
        r.1 == newlines_between(w@, cf as int, cb as int),
        r.1 <= w@.len(),
{
    let mut out = slice_of(w, 0, cf);
    assert(out@ =~= w@.take(cf as int));
    let mut pv = slice_of(p, 0, p.len());
    assert(pv@ =~= p@);
    out.append(&mut pv);
    let ghost head = out@;
    let mut count: usize = 0;
    let mut k = cf;
    proof {
        lemma_newlines_bound(w@, cf as int, cb as int);
    }
    assert(head + prefixed_from(w@, cf as int, cb as int, p@) =~= out@ + prefixed_from(
        w@,
        k as int,
        cb as int,
        p@,
    ));
    while k < w.len()
        invariant
            cf <= k <= w@.len(),
            cb <= w@.len(),
            head == w@.take(cf as int) + p@,
            head + prefixed_from(w@, cf as int, cb as int, p@) == out@ + prefixed_from(
                w@,
                k as int,
                cb as int,
                p@,
            ),
            count + newlines_between(w@, k as int, cb as int) == newlines_between(
                w@,
                cf as int,
                cb as int,
            ),
            newlines_between(w@, cf as int, cb as int) <= w@.len(),
        decreases w@.len() - k,
    {
        let c = w[k];
        let ghost before = out@;
        out.push(c);
        if c == '\n' && k + 1 < cb {
            let mut pv = slice_of(p, 0, p.len());
            assert(pv@ =~= p@);
            out.append(&mut pv);
            count += 1;
            assert(before + prefixed_from(w@, k as int, cb as int, p@) =~= out@ + prefixed_from(
                w@,
                k + 1,
                cb as int,
                p@,
            ));
        } else {
            assert(before + prefixed_from(w@, k as int, cb as int, p@) =~= out@ + prefixed_from(
                w@,
                k + 1,
                cb as int,
                p@,
            ));
        }
        k += 1;
    }
    assert(prefixed_from(w@, k as int, cb as int, p@) =~= Seq::<char>::empty());
    assert(newlines_between(w@, k as int, cb as int) == 0);
    assert(out@ =~= head + prefixed_from(w@, cf as int, cb as int, p@));
    (out, count)
}

/// The view of an edit result.
pub open spec fn result_view(r: Option<EditResult>) -> Option<(Seq<char>, int, int)> {
    match r {
        Some(e) => Some((e.content@, e.selection.0 as int, e.selection.1 as int)),
        None => None,
    }
}

fn math_branch(w: &Vec<char>, wl: usize, s0: usize, s1: usize, math: Option<(String, usize, usize)>) -> (r: Option<EditResult>)
    requires
        wl == byte_len(w@),
        math matches Some(sub) ==> splice_ok(w@, (sub.0@, sub.1, sub.2)),
    ensures
        result_view(r) == edit_of(w@, s0 as int, s1 as int, MdFormat::Math, math_view(math)),
{
    match math {
        None => None,
        Some((nl, st, en)) => {
            let (ncs, nlen) = chars_and_len(nl.as_str());
            let (cst, _o1) = ceil_boundary(w.as_slice(), st);
            let (cen, _o2) = ceil_boundary(w.as_slice(), en);
            proof {
                crate::offsets::lemma_ceil_mono(w@, st as int, en as int);
            }
            let mut out = slice_of(w.as_slice(), 0, cst);
            let mut mid = ncs;
            out.append(&mut mid);
            push_range(&mut out, w.as_slice(), cen, w.len());
            assert(out@ =~= w@.take(cst as int) + nl@ + w@.skip(cen as int));
            let cursor = st + nlen;
            Some(EditResult { content: string_of(out.as_slice()), selection: (cursor, cursor) })
        },
    }
}

fn line_branch(w: &Vec<char>, wl: usize, s0: usize, s1: usize, format: MdFormat) -> (r: Option<EditResult>)
    requires
        wl == byte_len(w@),
        wl <= usize::MAX / 8,
        format.prefixes_lines(),
    ensures
        result_view(r) == edit_of(w@, s0 as int, s1 as int, format, None),
{
    let (ca, cb, a, b) = snap_selection(w.as_slice(), wl, s0, s1);
    proof {
        lemma_off_mono(w@, 0, w@.len() as int);
        lemma_off_end(w@);
    }
    let p = line_prefix_exec(format);
    let cf = line_start_exec(w.as_slice(), ca);
    let (out, nl) = prefix_lines(w.as_slice(), cf, cb, p.as_slice());
    let plen = p.len();
    proof {
        assert(plen * (1 + nl) <= 6 * (1 + wl)) by (nonlinear_arith)
            requires
                plen <= 6,
                nl <= wl,
        ;
    }
    Some(
        EditResult {
            content: string_of(out.as_slice()),
            selection: (a + plen, b + plen * (1 + nl)),
        },
    )
}

fn divider_branch(w: &Vec<char>, wl: usize, s0: usize, s1: usize) -> (r: Option<EditResult>)
    requires
        wl == byte_len(w@),
        wl <= usize::MAX / 8,
    ensures
        result_view(r) == edit_of(w@, s0 as int, s1 as int, MdFormat::Divider, None),
{
    let (ca, _cb, a, b) = snap_selection(w.as_slice(), wl, s0, s1);
    let cf = line_start_exec(w.as_slice(), ca);
    let mut out = slice_of(w.as_slice(), 0, cf);
    let mut dash = vec!['-', '-', '-', '\n'];
    out.append(&mut dash);
    push_range(&mut out, w.as_slice(), cf, w.len());
    assert(out@ =~= w@.take(cf as int) + seq!['-', '-', '-', '\n'] + w@.skip(cf as int));
    Some(EditResult { content: string_of(out.as_slice()), selection: (a + 4, b + 4) })
}

fn wrap_branch(w: &Vec<char>, wl: usize, s0: usize, s1: usize, format: MdFormat) -> (r: Option<EditResult>)
    requires
        wl == byte_len(w@),
        wl <= usize::MAX / 8,
        format != MdFormat::Math,
        !format.prefixes_lines(),
        format != MdFormat::Divider,
        format == MdFormat::CodeBlock ==> !in_fence(w@, sel_bytes(w@, s0 as int, s1 as int).0),
    ensures
        result_view(r) == edit_of(w@, s0 as int, s1 as int, format, None),
{
    let (ca, cb, a, b) = snap_selection(w.as_slice(), wl, s0, s1);
    match wrapping_markers(format) {
        None => None,
        Some((pre, post)) => {
            let pre_c = crate::text::chars_of(pre);
            let post_c = crate::text::chars_of(post);
            assert(pre_c@.len() <= 4) by {
                reveal_strlit("**");
                reveal_strlit("_");
                reveal_strlit("~~");
                reveal_strlit("`");
                reveal_strlit("```\n");
                reveal_strlit("[");
                reveal_strlit("[[");
            }
            let mut out = slice_of(w.as_slice(), 0, ca);
            let mut x = slice_of(pre_c.as_slice(), 0, pre_c.len());
            out.append(&mut x);
            push_range(&mut out, w.as_slice(), ca, cb);
            let mut y = slice_of(post_c.as_slice(), 0, post_c.len());
            out.append(&mut y);
            push_range(&mut out, w.as_slice(), cb, w.len());
            assert(out@ =~= w@.take(ca as int) + pre@ + w@.subrange(ca as int, cb as int) + post@
                + w@.skip(cb as int));
            let n = pre_c.len();
            Some(EditResult { content: string_of(out.as_slice()), selection: (a + n, b + n) })
        },
    }
}

/// The action a format command queues: none when the raw editor is not live
/// or no note is open; otherwise the format for the open note, aimed at the
/// current selection, or at the end of the note when there is none.
pub fn queued_editor_action(
    editor_active: bool,
    note: Option<(&str, usize)>,
    editor_sel: Option<(usize, usize)>,
    format: MdFormat,
) -> (r: Option<PendingEditorAction>)
    ensures
        match r {
            Some(p) => editor_active && (note matches Some((id, len)) && p.note_id@ == id@
                && p.format == format && p.target == (match editor_sel {
                Some((a, b)) => EditTarget::Selection(a, b),
                None => EditTarget::Cursor(len),
            })),
            None => !editor_active || note is None,
        },
{
    if !editor_active {
        return None;
    }
    match note {
        None => None,
        Some((id, len)) => {
            let target = match editor_sel {
                Some((a, b)) => EditTarget::Selection(a, b),
                None => EditTarget::Cursor(len),
            };
            Some(PendingEditorAction { note_id: String::from_str(id), format, target })
        },
    }
}

/// The tags of a comma-separated tag field: each piece between commas,
/// trimmed, empty pieces dropped, in order.
pub open spec fn tags_from(pieces: Seq<Seq<char>>) -> Seq<Seq<char>>
    decreases pieces.len(),
{
    if pieces.len() == 0 {
        Seq::empty()
    } else {
        let p = tags_from(pieces.drop_last());
        let t = trim(pieces.last());
        if t.len() > 0 {
            p.push(t)
        } else {
            p
        }
    }
}

/// Parse the tag field of the note header (`rust, prog, ...`).
pub fn parse_tags(field: &str) -> (r: Vec<String>)
    ensures
        string_views(r@) == tags_from(pieces_of(field@, ',')),
{
    let cs = chars_of(field);
    let ps = split_pieces(cs.as_slice(), ',');
    let mut r: Vec<String> = Vec::new();
    let mut i: usize = 0;
    while i < ps.len()
        invariant
            i <= ps@.len(),
            views(ps@) == pieces_of(field@, ','),
            string_views(r@) == tags_from(views(ps@).take(i as int)),
        decreases ps@.len() - i,
    {
        assert(views(ps@).take(i + 1).drop_last() =~= views(ps@).take(i as int));
        assert(views(ps@).take(i + 1).last() == ps@[i as int]@);
        let t = trimmed(ps[i].as_slice());
        if t.len() > 0 {
            let ghost before = r@;
            r.push(string_of(t.as_slice()));
            assert(string_views(r@) =~= string_views(before).push(t@));
        }
        i += 1;
    }
    assert(views(ps@).take(i as int) =~= views(ps@));
    r
}

/// Where the slash menu stands once the caret is at byte `pos` of the text
/// whose UTF-8 bytes are `b`: a `/` just typed at the start of a line opens
/// it at that `/`; otherwise an open menu stays while the caret is at or
/// after its `/`, inside the text, and the `/` is still there.
pub open spec fn slash_menu_after(b: Seq<u8>, pos: int, current: Option<usize>) -> Option<usize> {
    if pos > 0 && b[pos - 1] == 0x2Fu8 {
        if pos == 1 || b[pos - 2] == 0x0Au8 {
            Some((pos - 1) as usize)
        } else {
            current
        }
    } else {
        match current {
            Some(at) => if pos >= at && pos <= b.len() && at < b.len() && b[at as int] == 0x2Fu8 {
                Some(at)
            } else {
                None
            },
            None => None,
        }
    }
}

/// The slash-menu position after the caret moved to byte `pos` (see
/// `slash_menu_after`).
pub fn slash_menu_pos_after(content: &str, pos: usize, current: Option<usize>) -> (r: Option<usize>)
    requires
        pos == 0 || pos <= byte_len(content@),
    ensures
        r == slash_menu_after(encode_utf8(content@), pos as int, current),
{
    let bytes = content.as_bytes();
    if pos > 0 && bytes[pos - 1] == 0x2Fu8 {
        if pos == 1 || bytes[pos - 2] == 0x0Au8 {
            Some(pos - 1)
        } else {
            current
        }
    } else {
        match current {
            Some(at) => {
                if pos >= at && pos <= bytes.len() && at < bytes.len() && bytes[at] == 0x2Fu8 {
                    Some(at)
                } else {
                    None
                }
            },
            None => None,
        }
    }
}

/// Applies one editor action at a validated byte target and returns the new
/// content plus the byte selection to restore. Invalid or stale targets are
/// no-ops. For Math, `math` is what the arithmetic evaluator proposed for
/// the working text and the selection end: the replacement line and its
/// byte range.
pub fn apply_editor_action(
    content: &str,
    target: EditTarget,
    format: MdFormat,
    math: Option<(String, usize, usize)>,
) -> (r: Option<EditResult>)
    requires
        byte_len(content@) <= usize::MAX / 8,
        math_fits(content@, target, format, math_view(math)),
    ensures
        result_view(r) == editor_action(content@, target, format, math_view(math)),
{
    let (w, wl, s0, s1) = match working_exec(content, target, format) {
        Some(x) => x,
        None => return None,
    };
    if format == MdFormat::Math {
        return math_branch(&w, wl, s0, s1, math);
    }
    if format == MdFormat::CodeBlock {
        let (ca, _cb, a, _b) = snap_selection(w.as_slice(), wl, s0, s1);
        assert(sel_chars(w@, a as int, a as int).0 == ca) by {
            lemma_ceil_exact(w@, ca as int);
        }
        if fence_open_prefix(w.as_slice(), ca) {
            return None;
        }
    }
    if format.is_line_prefix() {
        return line_branch(&w, wl, s0, s1, format);
    }
    if format == MdFormat::Divider {
        return divider_branch(&w, wl, s0, s1);
    }
    wrap_branch(&w, wl, s0, s1, format)
}

/// Snapping a position that is already a character boundary keeps it.
proof fn lemma_ceil_exact(cs: Seq<char>, i: int)
    requires
        0 <= i <= cs.len(),
    ensures
        ceil_char(cs, byte_off(cs, i) as int) == i,
{
    let x = byte_off(cs, i) as int;
    lemma_off_mono(cs, i, cs.len() as int);
    lemma_off_end(cs);
    lemma_ceil_char(cs, x);
    let c = ceil_char(cs, x);
    if c < i {
        lemma_off_mono(cs, c, i);
    } else if c > i {
        assert(byte_off(cs, i) < x);
    }
}

/// A text of ASCII characters takes one byte per character.
proof fn lemma_ascii_len(s: Seq<char>)
    requires
        forall|k: int| 0 <= k < s.len() ==> (#[trigger] s[k] as u32) < 0x80,
    ensures
        byte_len(s) == s.len(),
    decreases s.len(),
{
    if s.len() > 0 {
        lemma_ascii_len(s.drop_first());
    }
}

/// The byte offset of a position inside the second part of a concatenation.
proof fn lemma_off_concat(u: Seq<char>, v: Seq<char>, k: int)
    requires
        0 <= k <= v.len(),
    ensures
        byte_off(u + v, u.len() + k) == byte_len(u) + byte_off(v, k),
{
    assert((u + v).take(u.len() + k) =~= u + v.take(k));
    lemma_encode_concat(u, v.take(k));
}

/// `sel_bytes` lands on boundaries that `sel_chars` maps back to the same
/// characters.
proof fn lemma_sel_bytes_exact(cs: Seq<char>, a: int, b: int)
    requires
        0 <= a,
        0 <= b,
    ensures
        sel_chars(cs, sel_bytes(cs, a, b).0, sel_bytes(cs, a, b).1) == sel_chars(cs, a, b),
{
    lemma_sel_chars(cs, a, b);
    let c = sel_chars(cs, a, b);
    lemma_off_mono(cs, c.0, c.1);
    lemma_off_mono(cs, c.1, cs.len() as int);
    lemma_off_end(cs);
    lemma_ceil_exact(cs, c.0);
    lemma_ceil_exact(cs, c.1);
}

/// A slash target with no `/` at its position (a stale one) leaves the note
/// alone, whatever the action.
pub proof fn law_stale_slash_is_noop(
    cs: Seq<char>,
    pos: usize,
    format: MdFormat,
    math: Option<(Seq<char>, usize, usize)>,
)
    requires
        slash_index(cs, pos as int) is None,
    ensures
        editor_action(cs, EditTarget::Slash(pos), format, math) is None,
{
}

/// A code block asked for where a fence is already open leaves the note
/// alone.
pub proof fn law_code_block_inside_fence_is_noop(cs: Seq<char>, a: usize, b: usize)
    requires
        in_fence(cs, sel_bytes(cs, a as int, b as int).0),
    ensures
        editor_action(cs, EditTarget::Selection(a, b), MdFormat::CodeBlock, None) is None,
{
    lemma_sel_bytes_exact(cs, a as int, b as int);
}

/// Wrapping a selection in markers returns a selection, on character
/// boundaries of the new text, that covers exactly the text that was
/// selected: a second action applies to the same words.
#[verifier::spinoff_prover]
pub proof fn law_wrap_keeps_the_selected_text(cs: Seq<char>, a: usize, b: usize, format: MdFormat)
    requires
        markers(format) is Some,
        format == MdFormat::CodeBlock ==> !in_fence(cs, sel_bytes(cs, a as int, b as int).0),
    ensures
        editor_action(cs, EditTarget::Selection(a, b), format, None) matches Some((n, x, y)) && {
            let c = sel_chars(cs, a as int, b as int);
            &&& byte_off(n, ceil_char(n, x)) == x
            &&& byte_off(n, ceil_char(n, y)) == y
            &&& n.subrange(ceil_char(n, x), ceil_char(n, y)) == cs.subrange(c.0, c.1)
        },
{
    let sb = sel_bytes(cs, a as int, b as int);
    lemma_sel_bytes_exact(cs, a as int, b as int);
    lemma_sel_chars(cs, a as int, b as int);
    let c = sel_chars(cs, a as int, b as int);
    let mk = markers(format)->0;
    let pre = mk.0;
    let post = mk.1;
    assert(forall|k: int| 0 <= k < pre.len() ==> (#[trigger] pre[k] as u32) < 0x80);
    lemma_ascii_len(pre);
    let head = cs.take(c.0) + pre;
    let mid = cs.subrange(c.0, c.1);
    let tail = post + cs.skip(c.1);
    let n = cs.take(c.0) + pre + mid + post + cs.skip(c.1);
    assert(n =~= head + (mid + tail));
    let x = sb.0 + pre.len();
    let y = sb.1 + pre.len();
    assert(editor_action(cs, EditTarget::Selection(a, b), format, None) == Some((n, x, y)));
    lemma_encode_concat(cs.take(c.0), pre);
    lemma_off_end(cs.take(c.0));
    assert(byte_off(cs, c.0) == byte_len(cs.take(c.0)));
    lemma_off_concat(head, mid + tail, 0);
    lemma_off_concat(head, mid + tail, mid.len() as int);
    assert((mid + tail).take(0) =~= Seq::<char>::empty());
    assert((mid + tail).take(mid.len() as int) =~= mid);
    assert(cs.take(c.1) =~= cs.take(c.0) + mid);
    lemma_encode_concat(cs.take(c.0), mid);
    lemma_off_end(mid);
    assert(byte_off(n, head.len() as int) == x);
    assert(byte_off(n, (head.len() + mid.len()) as int) == y);
    lemma_ceil_exact(n, head.len() as int);
    lemma_ceil_exact(n, (head.len() + mid.len()) as int);
    assert(n.subrange(head.len() as int, (head.len() + mid.len()) as int) =~= mid);
}

/// Offsets inside the first part of a concatenation are those of that part.
proof fn lemma_off_in_head(u: Seq<char>, v: Seq<char>, k: int)
    requires
        0 <= k <= u.len(),
    ensures
        byte_off(u + v, k) == byte_off(u, k),
{
    assert((u + v).take(k) =~= u.take(k));
}

/// The bytes of `w[i..j]` are the difference of the offsets.
proof fn lemma_sub_bytes(w: Seq<char>, i: int, j: int)
    requires
        0 <= i <= j <= w.len(),
    ensures
        byte_len(w.subrange(i, j)) == byte_off(w, j) - byte_off(w, i),
{
    assert(w.take(j) =~= w.take(i) + w.subrange(i, j));
    lemma_encode_concat(w.take(i), w.subrange(i, j));
}

/// A byte position that some character index reaches is a boundary inside
/// the text.
proof fn lemma_reached(n: Seq<char>, j: int, x: int)
    requires
        0 <= j <= n.len(),
        byte_off(n, j) == x,
    ensures
        byte_off(n, ceil_char(n, x)) == x,
        x <= byte_len(n),
{
    lemma_ceil_exact(n, j);
    lemma_off_mono(n, j, n.len() as int);
    lemma_off_end(n);
}

/// Past `hi`, the line-prefixing scan copies the text unchanged.
proof fn lemma_prefixed_tail(w: Seq<char>, k: int, hi: int, p: Seq<char>)
    requires
        0 <= hi <= k <= w.len(),
    ensures
        prefixed_from(w, k, hi, p) == w.skip(k),
    decreases w.len() - k,
{
    if k < w.len() {
        lemma_prefixed_tail(w, k + 1, hi, p);
        assert(seq![w[k]] + w.skip(k + 1) =~= w.skip(k));
    } else {
        assert(w.skip(k) =~= Seq::<char>::empty());
    }
}

/// The line-prefixing scan from `k` splits at `hi`: its part before `hi`
/// holds the characters `w[k..hi]` and one prefix per counted newline.
#[verifier::spinoff_prover]
proof fn lemma_prefixed_split(w: Seq<char>, k: int, hi: int, p: Seq<char>)
    requires
        0 <= k <= hi <= w.len(),
        forall|m: int| 0 <= m < p.len() ==> (#[trigger] p[m] as u32) < 0x80,
    ensures
        prefixed_from(w, k, hi, p) == prefixed_from(w.take(hi), k, hi, p) + w.skip(hi),
        prefixed_from(w.take(hi), k, hi, p).len() == (hi - k) + p.len() * newlines_between(w, k, hi),
        byte_len(prefixed_from(w.take(hi), k, hi, p)) == byte_len(w.subrange(k, hi)) + p.len()
            * newlines_between(w, k, hi),
    decreases hi - k,
{
    let t = w.take(hi);
    if k == hi {
        lemma_prefixed_tail(w, k, hi, p);
        assert(newlines_between(w, k, hi) == 0);
        assert(p.len() * 0 == 0) by (nonlinear_arith);
        assert(encode_utf8(Seq::<char>::empty()) =~= Seq::<u8>::empty());
        assert(prefixed_from(t, k, hi, p) =~= Seq::<char>::empty());
        assert(w.subrange(k, hi) =~= Seq::<char>::empty());
        assert(Seq::<char>::empty() + w.skip(hi) =~= w.skip(hi));
    } else {
        lemma_prefixed_split(w, k + 1, hi, p);
        lemma_ascii_len(p);
        let rest = prefixed_from(t, k + 1, hi, p);
        let ins = w[k] == '\n' && k + 1 < hi;
        let n1 = newlines_between(w, k + 1, hi);
        assert(t[k] == w[k]);
        assert(w.subrange(k, hi) =~= seq![w[k]] + w.subrange(k + 1, hi));
        lemma_encode_concat(seq![w[k]], w.subrange(k + 1, hi));
        if ins {
            assert(prefixed_from(t, k, hi, p) == seq![w[k]] + p + rest);
            assert(newlines_between(w, k, hi) == 1 + n1);
            assert(p.len() * (1 + n1) == p.len() + p.len() * n1) by (nonlinear_arith);
            lemma_encode_concat(seq![w[k]], p);
            lemma_encode_concat(seq![w[k]] + p, rest);
            assert(seq![w[k]] + p + rest + w.skip(hi) =~= seq![w[k]] + p + (rest + w.skip(hi)));
        } else {
            assert(prefixed_from(t, k, hi, p) == seq![w[k]] + rest);
            if k + 1 < hi {
                assert(newlines_between(w, k, hi) == n1);
            } else {
                assert(newlines_between(w, k, hi) == 0);
                assert(n1 == 0);
            }
            lemma_encode_concat(seq![w[k]], rest);
            assert(seq![w[k]] + rest + w.skip(hi) =~= seq![w[k]] + (rest + w.skip(hi)));
        }
    }
}

/// No newline lies between a position and the start of its line.
proof fn lemma_line_start(w: Seq<char>, k: int)
    requires
        0 <= k <= w.len(),
    ensures
        0 <= line_start(w, k) <= k,
        forall|j: int| line_start(w, k) <= j < k ==> w[j] != '\n',
        line_start(w, k) == 0 || w[line_start(w, k) - 1] == '\n',
    decreases k,
{
    if k > 0 && w[k - 1] != '\n' {
        lemma_line_start(w, k - 1);
    }
}

/// Over a stretch without newlines the line-prefixing scan copies the text.
proof fn lemma_prefixed_plain(w: Seq<char>, k: int, m: int, hi: int, p: Seq<char>)
    requires
        0 <= k <= m <= w.len(),
        forall|j: int| k <= j < m ==> w[j] != '\n',
    ensures
        prefixed_from(w, k, hi, p) == w.subrange(k, m) + prefixed_from(w, m, hi, p),
    decreases m - k,
{
    if k < m {
        lemma_prefixed_plain(w, k + 1, m, hi, p);
        assert(w.subrange(k, m) =~= seq![w[k]] + w.subrange(k + 1, m));
        assert(seq![w[k]] + w.subrange(k + 1, m) + prefixed_from(w, m, hi, p) =~= seq![w[k]] + (
        w.subrange(k + 1, m) + prefixed_from(w, m, hi, p)));
    } else {
        assert(w.subrange(k, m) =~= Seq::<char>::empty());
        assert(Seq::<char>::empty() + prefixed_from(w, m, hi, p) =~= prefixed_from(w, m, hi, p));
    }
}

/// An action's returned byte selection is ordered, lies inside the new text,
/// and both ends fall on character boundaries of it.
pub open spec fn selection_fits(n: Seq<char>, x: int, y: int) -> bool {
    &&& 0 <= x <= y <= byte_len(n)
    &&& byte_off(n, ceil_char(n, x)) == x
    &&& byte_off(n, ceil_char(n, y)) == y
}

#[verifier::spinoff_prover]
proof fn lemma_line_fits(w: Seq<char>, s0: int, s1: int, format: MdFormat)
    requires
        0 <= s0,
        0 <= s1,
        format.prefixes_lines(),
    ensures
        edit_of(w, s0, s1, format, None) matches Some((n, x, y)) && selection_fits(n, x, y),
{
    lemma_sel_chars(w, s0, s1);
    let c = sel_chars(w, s0, s1);
    let a = byte_off(w, c.0) as int;
    let b = byte_off(w, c.1) as int;
    let p = line_prefix(format);
    assert(forall|m: int| 0 <= m < p.len() ==> (#[trigger] p[m] as u32) < 0x80);
    lemma_ascii_len(p);
    lemma_line_start(w, c.0);
    let cf = line_start(w, c.0);
    let nl = newlines_between(w, cf, c.1);
    lemma_prefixed_split(w, cf, c.1, p);
    let seg = prefixed_from(w.take(c.1), cf, c.1, p);
    let n = w.take(cf) + p + prefixed_from(w, cf, c.1, p);
    let x = a + p.len();
    let y = b + p.len() * (1 + nl);
    assert(edit_of(w, s0, s1, format, None) == Some((n, x, y)));
    // The end of the selection: after the prefixed segment.
    assert(n =~= (w.take(cf) + p + seg) + w.skip(c.1));
    let jb = cf + p.len() + seg.len();
    lemma_off_in_head(w.take(cf) + p + seg, w.skip(c.1), jb);
    lemma_off_end(w.take(cf) + p + seg);
    lemma_encode_concat(w.take(cf), p);
    lemma_encode_concat(w.take(cf) + p, seg);
    lemma_off_end(w.take(cf));
    lemma_off_mono(w, cf, c.1);
    lemma_sub_bytes(w, cf, c.1);
    assert(w.take(cf).len() == cf);
    assert(p.len() * (1 + nl) == p.len() + p.len() * nl) by (nonlinear_arith);
    assert(byte_off(n, jb) == y);
    lemma_reached(n, jb, y);
    // The start of the selection: no prefix between the line start and it.
    lemma_prefixed_plain(w, cf, c.0, c.1, p);
    let head = w.take(cf) + p + w.subrange(cf, c.0);
    assert(n =~= head + prefixed_from(w, c.0, c.1, p));
    let ja = cf + p.len() + (c.0 - cf);
    lemma_off_in_head(head, prefixed_from(w, c.0, c.1, p), ja);
    lemma_off_end(head);
    lemma_encode_concat(w.take(cf) + p, w.subrange(cf, c.0));
    lemma_sub_bytes(w, cf, c.0);
    lemma_off_mono(w, cf, c.0);
    assert(byte_off(n, ja) == x);
    lemma_reached(n, ja, x);
    lemma_off_mono(w, c.0, c.1);
    assert(0 <= p.len() * nl) by (nonlinear_arith);
}

/// Inserting the ASCII text `ins` at character `i` shifts every later
/// position by its length, in characters and in bytes.
proof fn lemma_insert_shift(w: Seq<char>, i: int, ins: Seq<char>, j: int)
    requires
        0 <= i <= j <= w.len(),
        forall|m: int| 0 <= m < ins.len() ==> (#[trigger] ins[m] as u32) < 0x80,
    ensures
        byte_off(w.take(i) + ins + w.skip(i), j + ins.len()) == byte_off(w, j) + ins.len(),
        j + ins.len() <= (w.take(i) + ins + w.skip(i)).len(),
{
    lemma_ascii_len(ins);
    let n = w.take(i) + ins + w.skip(i);
    let head = w.take(i) + ins + w.subrange(i, j);
    assert(n =~= head + w.skip(j));
    lemma_off_in_head(head, w.skip(j), j + ins.len());
    lemma_off_end(head);
    lemma_encode_concat(w.take(i), ins);
    lemma_encode_concat(w.take(i) + ins, w.subrange(i, j));
    lemma_off_end(w.take(i));
    lemma_sub_bytes(w, i, j);
    lemma_off_mono(w, i, j);
}

proof fn lemma_divider_fits(w: Seq<char>, s0: int, s1: int)
    requires
        0 <= s0,
        0 <= s1,
    ensures
        edit_of(w, s0, s1, MdFormat::Divider, None) matches Some((n, x, y)) && selection_fits(n, x, y),
{
    lemma_sel_chars(w, s0, s1);
    let c = sel_chars(w, s0, s1);
    lemma_line_start(w, c.0);
    let cf = line_start(w, c.0);
    let d = seq!['-', '-', '-', '\n'];
    assert(forall|m: int| 0 <= m < d.len() ==> (#[trigger] d[m] as u32) < 0x80);
    lemma_insert_shift(w, cf, d, c.0);
    lemma_insert_shift(w, cf, d, c.1);
    let n = w.take(cf) + d + w.skip(cf);
    lemma_reached(n, c.0 + 4, (byte_off(w, c.0) + 4) as int);
    lemma_reached(n, c.1 + 4, (byte_off(w, c.1) + 4) as int);
    lemma_off_mono(w, c.0, c.1);
}

#[verifier::spinoff_prover]
proof fn lemma_wrap_fits(w: Seq<char>, s0: int, s1: int, format: MdFormat)
    requires
        0 <= s0,
        0 <= s1,
        markers(format) is Some,
    ensures
        ({
            let mk = markers(format)->0;
            let c = sel_chars(w, s0, s1);
            let n = w.take(c.0) + mk.0 + w.subrange(c.0, c.1) + mk.1 + w.skip(c.1);
            let x = sel_bytes(w, s0, s1).0 + mk.0.len();
            let y = sel_bytes(w, s0, s1).1 + mk.0.len();
            selection_fits(n, x, y)
        }),
{
    lemma_sel_chars(w, s0, s1);
    let c = sel_chars(w, s0, s1);
    let mk = markers(format)->0;
    let pre = mk.0;
    let post = mk.1;
    assert(forall|m: int| 0 <= m < pre.len() ==> (#[trigger] pre[m] as u32) < 0x80);
    lemma_insert_shift(w, c.0, pre, c.0);
    lemma_insert_shift(w, c.0, pre, c.1);
    let w1 = w.take(c.0) + pre + w.skip(c.0);
    let n = w.take(c.0) + pre + w.subrange(c.0, c.1) + post + w.skip(c.1);
    let k = c.1 + pre.len();
    assert(n =~= w1.take(k) + post + w1.skip(k));
    lemma_off_in_head(w1.take(k), post + w1.skip(k), c.0 + pre.len());
    assert(n =~= w1.take(k) + (post + w1.skip(k)));
    lemma_off_in_head(w1.take(k), post + w1.skip(k), k);
    assert(w1.take(k).take(c.0 + pre.len()) =~= w1.take(c.0 + pre.len()));
    assert(w1.take(k).take(k) =~= w1.take(k));
    lemma_off_end(w1.take(k));
    lemma_off_end(n);
    lemma_reached(n, c.0 + pre.len(), (byte_off(w, c.0) + pre.len()) as int);
    lemma_reached(n, k, (byte_off(w, c.1) + pre.len()) as int);
    lemma_off_mono(w, c.0, c.1);
}

proof fn lemma_math_fits(w: Seq<char>, s0: int, s1: int, sub: (Seq<char>, usize, usize))
    requires
        splice_ok(w, sub),
    ensures
        edit_of(w, s0, s1, MdFormat::Math, Some(sub)) matches Some((n, x, y)) && selection_fits(n, x, y),
{
    let (nl, st, en) = sub;
    lemma_ceil_char(w, st as int);
    let ca = ceil_char(w, st as int);
    let cb = ceil_char(w, en as int);
    let n = w.take(ca) + nl + w.skip(cb);
    let head = w.take(ca) + nl;
    assert(n =~= head + w.skip(cb));
    lemma_off_in_head(head, w.skip(cb), head.len() as int);
    lemma_off_end(head);
    lemma_encode_concat(w.take(ca), nl);
    lemma_off_end(w.take(ca));
    assert(w.take(ca).len() == ca);
    let cur = st + byte_len(nl);
    lemma_reached(n, head.len() as int, cur as int);
}

/// Every action that applies returns a selection that is ordered, lies
/// inside the new text and falls on its character boundaries, so the editor
/// can restore it as is (for Math, given a well-placed substitution).
#[verifier::spinoff_prover]
pub proof fn law_edit_selection_fits(
    cs: Seq<char>,
    target: EditTarget,
    format: MdFormat,
    math: Option<(Seq<char>, usize, usize)>,
)
    requires
        math_fits(cs, target, format, math),
    ensures
        editor_action(cs, target, format, math) matches Some((n, x, y)) ==> selection_fits(n, x, y),
{
    match working(cs, target, format) {
        None => {},
        Some((w, s0, s1)) => {
            assert(0 <= s0 && 0 <= s1);
            if format == MdFormat::Math {
                match math {
                    Some(sub) => lemma_math_fits(w, s0, s1, sub),
                    None => {},
                }
            } else if format == MdFormat::CodeBlock && in_fence(w, sel_bytes(w, s0, s1).0) {
            } else if format.prefixes_lines() {
                lemma_line_fits(w, s0, s1, format);
            } else if format == MdFormat::Divider {
                lemma_divider_fits(w, s0, s1);
            } else if markers(format) is Some {
                lemma_wrap_fits(w, s0, s1, format);
            }
        },
    }
}

/// Picking an action from the slash menu is deleting the `/` and then
/// applying the action at the caret where the `/` stood. This holds of the
/// edit itself for every text, whatever its length.
pub proof fn law_slash_pick_is_delete_then_caret(
    cs: Seq<char>,
    pos: usize,
    format: MdFormat,
    math: Option<(Seq<char>, usize, usize)>,
)
    requires
        format != MdFormat::Math,
        slash_index(cs, pos as int) is Some,
    ensures
        editor_action(cs, EditTarget::Slash(pos), format, math) == editor_action(
            cs.remove(slash_index(cs, pos as int)->0),
            EditTarget::Cursor(pos),
            format,
            math,
        ),
{
    let i = slash_index(cs, pos as int)->0;
    let w = cs.remove(i);
    lemma_ceil_char(cs, pos as int);
    lemma_remove_len(cs, i);
    vstd::utf8::char_is_scalar(cs[i]);
    assert(char_width(cs[i]) == 1);
    assert(w.take(i) =~= cs.take(i));
    assert(byte_off(w, i) == pos);
    assert(pos <= byte_len(w));
    assert(i <= w.len());
    lemma_ceil_exact(w, i);
    assert(sel_bytes(w, pos as int, pos as int) == (pos as int, pos as int));
}

/// Where character `j` of `w` lands in `prefixed_from(w, k, hi, p)`: after
/// the characters before it and a prefix for every newline before it that
/// gets one.
pub open spec fn prefixed_pos(w: Seq<char>, k: int, hi: int, p: Seq<char>, j: int) -> int {
    (j - k) + p.len() * newlines_between(w, k, if j + 1 < hi { j + 1 } else { hi })
}

proof fn lemma_nb_prefix(w: Seq<char>, lo: int, j: int, hi: int)
    requires
        0 <= lo <= j < w.len(),
        j + 1 <= hi,
    ensures
        newlines_between(w, lo, hi) >= newlines_between(w, lo, j + 1) + if w[j] == '\n' && j + 1 < hi {
            1int
        } else {
            0int
        },
    decreases j - lo,
{
    if lo < j {
        lemma_nb_prefix(w, lo + 1, j, hi);
    }
}

proof fn lemma_prefixed_pos_bounds(w: Seq<char>, k: int, hi: int, p: Seq<char>, j: int)
    requires
        0 <= k <= j < w.len(),
    ensures
        0 <= prefixed_pos(w, k, hi, p, j),
        prefixed_pos(w, k, hi, p, j) < (w.len() - k) + p.len() * newlines_between(w, k, hi),
        w[j] == '\n' && j + 1 < hi ==> prefixed_pos(w, k, hi, p, j) + 1 + p.len() <= (w.len() - k) + p.len()
            * newlines_between(w, k, hi),
{
    let pl = p.len() as int;
    let nh = newlines_between(w, k, hi) as int;
    if j + 1 < hi {
        lemma_nb_prefix(w, k, j, hi);
        let nj = newlines_between(w, k, j + 1) as int;
        let e: int = if w[j] == '\n' { 1 } else { 0 };
        assert(pl * nh >= pl * nj + e * pl && pl * nj >= 0) by (nonlinear_arith)
            requires nh >= nj + e, pl >= 0, nj >= 0, 0 <= e <= 1;
    } else {
        assert(pl * nh >= 0) by (nonlinear_arith)
            requires nh >= 0, pl >= 0;
    }
}

proof fn lemma_prefixed_from_at(w: Seq<char>, k: int, hi: int, p: Seq<char>)
    requires
        0 <= k <= w.len(),
    ensures
        prefixed_from(w, k, hi, p).len() == (w.len() - k) + p.len() * newlines_between(w, k, hi),
        forall|j: int|
            k <= j < w.len() ==> prefixed_from(w, k, hi, p)[#[trigger] prefixed_pos(w, k, hi, p, j)] == w[j],
        forall|j: int|
            k <= j < w.len() && w[j] == '\n' && j + 1 < hi ==> prefixed_from(w, k, hi, p).subrange(
                #[trigger] prefixed_pos(w, k, hi, p, j) + 1,
                prefixed_pos(w, k, hi, p, j) + 1 + p.len(),
            ) == p,
    decreases w.len() - k,
{
    if k < w.len() {
        lemma_prefixed_from_at(w, k + 1, hi, p);
        let t = prefixed_from(w, k + 1, hi, p);
        let ins = w[k] == '\n' && k + 1 < hi;
        let e: int = if ins { 1 } else { 0 };
        let head = if ins { seq![w[k]] + p } else { seq![w[k]] };
        assert(prefixed_from(w, k, hi, p) == head + t);
        assert(head.len() == 1 + e * p.len());
        assert(newlines_between(w, k, hi) == e + newlines_between(w, k + 1, hi));
        assert(p.len() * (e + newlines_between(w, k + 1, hi)) == e * p.len() + p.len() * newlines_between(w, k + 1, hi)) by (nonlinear_arith);
        assert forall|j: int| k <= j < w.len() implies prefixed_from(w, k, hi, p)[#[trigger] prefixed_pos(w, k, hi, p, j)] == w[j] by {
            let x = if j + 1 < hi { j + 1 } else { hi };
            if j > k {
                lemma_prefixed_pos_bounds(w, k + 1, hi, p, j);
            }
            if j == k {
                assert(newlines_between(w, k, x) == 0);
                assert(p.len() * newlines_between(w, k, x) == 0) by (nonlinear_arith)
                    requires newlines_between(w, k, x) == 0;
                assert(prefixed_pos(w, k, hi, p, j) == 0);
            } else {
                assert(newlines_between(w, k, x) == e + newlines_between(w, k + 1, x));
                assert(p.len() * (e + newlines_between(w, k + 1, x)) == e * p.len() + p.len() * newlines_between(w, k + 1, x)) by (nonlinear_arith);
                assert(prefixed_pos(w, k, hi, p, j) == head.len() + prefixed_pos(w, k + 1, hi, p, j));
                assert(0 <= prefixed_pos(w, k + 1, hi, p, j)) by (nonlinear_arith)
                    requires j - (k + 1) >= 0, p.len() >= 0, newlines_between(w, k + 1, x) >= 0,
                        prefixed_pos(w, k + 1, hi, p, j) == (j - (k + 1)) + p.len() * newlines_between(w, k + 1, x);
            }
        }
        assert forall|j: int|
            k <= j < w.len() && w[j] == '\n' && j + 1 < hi implies prefixed_from(w, k, hi, p).subrange(
                #[trigger] prefixed_pos(w, k, hi, p, j) + 1,
                prefixed_pos(w, k, hi, p, j) + 1 + p.len(),
            ) == p by {
            let x = j + 1;
            if j > k {
                lemma_prefixed_pos_bounds(w, k + 1, hi, p, j);
            }
            if j == k {
                assert(newlines_between(w, k, x) == 0);
                assert(p.len() * newlines_between(w, k, x) == 0) by (nonlinear_arith)
                    requires newlines_between(w, k, x) == 0;
                assert(prefixed_pos(w, k, hi, p, j) == 0);
                assert(prefixed_from(w, k, hi, p).subrange(1, 1 + p.len() as int) =~= p);
            } else {
                assert(newlines_between(w, k, x) == e + newlines_between(w, k + 1, x));
                assert(p.len() * (e + newlines_between(w, k + 1, x)) == e * p.len() + p.len() * newlines_between(w, k + 1, x)) by (nonlinear_arith);
                let q = prefixed_pos(w, k + 1, hi, p, j);
                assert(prefixed_pos(w, k, hi, p, j) == head.len() + q);
                assert(0 <= q) by (nonlinear_arith)
                    requires j - (k + 1) >= 0, p.len() >= 0, newlines_between(w, k + 1, x) >= 0,
                        q == (j - (k + 1)) + p.len() * newlines_between(w, k + 1, x);
                assert(t.subrange(q + 1, q + 1 + p.len()) == p);
                assert((head + t).subrange(head.len() + q + 1, head.len() + q + 1 + p.len()) =~= t.subrange(q + 1, q + 1 + p.len()));
            }
        }
    } else {
        assert(newlines_between(w, k, hi) == 0);
        assert(p.len() * newlines_between(w, k, hi) == 0) by (nonlinear_arith)
            requires newlines_between(w, k, hi) == 0;
    }
}

/// A line action puts its prefix at the start of every line that the
/// selection touches and changes nothing else. The text up to the start of
/// the line that holds the selection start is kept, the prefix opens that
/// line, and every later character follows in order, moved on by one prefix
/// for each newline before it that opens a touched line (one whose start
/// comes before the selection end); right after each such newline stands the
/// prefix. The text grows by one prefix per touched line, the selection
/// start moves by one prefix and its end by all of them.
pub proof fn law_line_prefix_each_touched_line(
    cs: Seq<char>,
    target: EditTarget,
    format: MdFormat,
    math: Option<(Seq<char>, usize, usize)>,
)
    requires
        format.prefixes_lines(),
    ensures
        editor_action(cs, target, format, math) matches Some((n, x, y)) ==> (working(cs, target, format) matches Some(
            (w, s0, s1),
        ) && exists|l: int|
            #![trigger w.take(l)]
            {
                let p = line_prefix(format);
                let hi = sel_chars(w, s0, s1).1;
                &&& 0 <= l <= sel_chars(w, s0, s1).0
                &&& (l == 0 || w[l - 1] == '\n')
                &&& (forall|j: int| l <= j < sel_chars(w, s0, s1).0 ==> w[j] != '\n')
                &&& n.len() == w.len() + p.len() * (1 + newlines_between(w, l, hi))
                &&& n.take(l) == w.take(l)
                &&& n.subrange(l, l + p.len()) == p
                &&& forall|j: int|
                    l <= j < w.len() ==> n[l + p.len() + #[trigger] prefixed_pos(w, l, hi, p, j)] == w[j]
                &&& forall|j: int|
                    l <= j < w.len() && w[j] == '\n' && j + 1 < hi ==> n.subrange(
                        l + p.len() + #[trigger] prefixed_pos(w, l, hi, p, j) + 1,
                        l + p.len() + prefixed_pos(w, l, hi, p, j) + 1 + p.len(),
                    ) == p
                &&& x == sel_bytes(w, s0, s1).0 + p.len()
                &&& y == sel_bytes(w, s0, s1).1 + p.len() * (1 + newlines_between(w, l, hi))
            }),
{
    match working(cs, target, format) {
        None => {},
        Some((w, s0, s1)) => {
            assert(0 <= s0 && 0 <= s1);
            lemma_sel_chars(w, s0, s1);
            let c = sel_chars(w, s0, s1);
            lemma_line_start(w, c.0);
            let l = line_start(w, c.0);
            let p = line_prefix(format);
            let hi = c.1;
            lemma_prefixed_from_at(w, l, hi, p);
            let t = prefixed_from(w, l, hi, p);
            let head = w.take(l) + p;
            let n = head + t;
            assert(edit_of(w, s0, s1, format, math) == Some(
                (n, sel_bytes(w, s0, s1).0 + p.len(), sel_bytes(w, s0, s1).1 + p.len() * (1 + newlines_between(w, l, hi))),
            ));
            assert(p.len() * (1 + newlines_between(w, l, hi)) == p.len() + p.len() * newlines_between(w, l, hi))
                by (nonlinear_arith);
            assert(n.take(l) =~= w.take(l));
            assert(n.subrange(l, l + p.len()) =~= p);
            assert forall|j: int| l <= j < w.len() implies n[l + p.len() + #[trigger] prefixed_pos(w, l, hi, p, j)] == w[j] by {
                lemma_prefixed_pos_bounds(w, l, hi, p, j);
            }
            assert forall|j: int| l <= j < w.len() && w[j] == '\n' && j + 1 < hi implies n.subrange(
                l + p.len() + #[trigger] prefixed_pos(w, l, hi, p, j) + 1,
                l + p.len() + prefixed_pos(w, l, hi, p, j) + 1 + p.len(),
            ) == p by {
                lemma_prefixed_pos_bounds(w, l, hi, p, j);
                let q = prefixed_pos(w, l, hi, p, j);
                assert(n.subrange(head.len() + q + 1, head.len() + q + 1 + p.len()) =~= t.subrange(q + 1, q + 1 + p.len()));
            }
        },
    }
}

/// A divider goes in at the start of the line that holds the selection
/// start: the new text is the old one with `---` and a newline put in just
/// after the last newline before the selection start (or at the very
/// start), so the characters of that line stay together after it; the
/// selection moves by the four bytes put in before it.
pub proof fn law_divider_at_line_start(
    cs: Seq<char>,
    target: EditTarget,
    math: Option<(Seq<char>, usize, usize)>,
)
    ensures
        editor_action(cs, target, MdFormat::Divider, math) matches Some((n, x, y)) ==> (working(
            cs,
            target,
            MdFormat::Divider,
        ) matches Some((w, s0, s1)) && exists|l: int|
            0 <= l <= sel_chars(w, s0, s1).0 && (l == 0 || w[l - 1] == '\n') && (forall|j: int|
                l <= j < sel_chars(w, s0, s1).0 ==> w[j] != '\n') && n == w.take(l) + seq![
                '-',
                '-',
                '-',
                '\n',
            ] + w.skip(l) && x == sel_bytes(w, s0, s1).0 + 4 && y == sel_bytes(w, s0, s1).1 + 4),
{
    match working(cs, target, MdFormat::Divider) {
        None => {},
        Some((w, s0, s1)) => {
            assert(0 <= s0 && 0 <= s1);
            lemma_sel_chars(w, s0, s1);
            let c0 = sel_chars(w, s0, s1).0;
            lemma_line_start(w, c0);
            let l = line_start(w, c0);
            assert(0 <= l <= c0 && (l == 0 || w[l - 1] == '\n') && (forall|j: int|
                l <= j < c0 ==> w[j] != '\n'));
        },
    }
}

} // verus!
