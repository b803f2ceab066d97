//! Typed views over the discipline files (SPRINT, HUMAN, NOTION, JIRA, DIARY):
//! pure parsers from the raw markdown to task, question and ticket rows.
use vstd::prelude::*;
use crate::app_state::TicketFilter;
use crate::breadcrumb::{components_of, path_components};
use crate::import::file_name_of;
use crate::text::{
    chars_of, chars_of_strings, contains_exec, contains_seq, find_char, find_char_from, has_char,
    lemma_find_char_from, lowercase, same_chars, slice_of, string_views, strings_of, to_lowercase,
    char_is_ws, has_prefix, has_prefix_exec, is_digit, is_ws, lines, lowered, ltrim_index, string_of, lines_of, ltrim, rtrim, trim, trimmed, views,
};

verus! {

/// Lifecycle bucket for a sprint task, mapped from a free-text/emoji status cell.
#[derive(Clone, Copy, Debug, PartialEq, Eq, Structural)]
pub enum TaskStatus {
    Done,
    Doing,
    Todo,
    Blocked,
}

impl TaskStatus {
    /// Sort weight so active work floats to the top: Doing, Todo, Blocked, Done.
    pub open spec fn weight(self) -> u8 {
        match self {
            TaskStatus::Doing => 0,
            TaskStatus::Todo => 1,
            TaskStatus::Blocked => 2,
            TaskStatus::Done => 3,
        }
    }

    /// Sort weight so active work floats to the top: Doing, Todo, Blocked, Done.
    pub fn order(self) -> (r: u8)
        ensures
            r == self.weight(),
    {
        match self {
            TaskStatus::Doing => 0,
            TaskStatus::Todo => 1,
            TaskStatus::Blocked => 2,
            TaskStatus::Done => 3,
        }
    }

    /// The English name shown on the status chip.
    pub fn label(self) -> (r: &'static str)
        ensures
            r@ == (match self {
                TaskStatus::Done => "Done"@,
                TaskStatus::Doing => "Doing"@,
                TaskStatus::Todo => "Todo"@,
                TaskStatus::Blocked => "Blocked"@,
            }),
    {
        match self {
            TaskStatus::Done => "Done",
            TaskStatus::Doing => "Doing",
            TaskStatus::Todo => "Todo",
            TaskStatus::Blocked => "Blocked",
        }
    }
}

/// The bucket of a status cell whose characters are `cell` and whose
/// lowercase mapping is `lower`. Blocked wins over Done, Done over Doing;
/// anything unrecognised is Todo (a backlog item).
pub open spec fn status_of(cell: Seq<char>, lower: Seq<char>) -> TaskStatus {
    if contains_seq(lower, "⛔"@) || contains_seq(lower, "🚫"@) || contains_seq(lower, "block"@) {
        TaskStatus::Blocked
    } else if cell.contains('✅') || contains_seq(lower, "done"@) || contains_seq(
        lower,
        "concluída"@,
    ) || contains_seq(lower, "concluida"@) || contains_seq(lower, "[x]"@) {
        TaskStatus::Done
    } else if cell.contains('🚧') || cell.contains('🔄') || contains_seq(lower, "progress"@)
        || contains_seq(lower, "execução"@) || contains_seq(lower, "execucao"@) || contains_seq(
        lower,
        "em obra"@,
    ) || contains_seq(lower, "parcial"@) {
        TaskStatus::Doing
    } else {
        TaskStatus::Todo
    }
}

fn has(lower: &[char], needle: &str) -> (b: bool)
    ensures
        b == contains_seq(lower@, needle@),
{
    let n = chars_of(needle);
    contains_exec(lower, n.as_slice())
}

/// The bucket of a status cell, given the cell and its lowercase mapping.
pub fn status_from_lowered(cell: &[char], lower: &[char]) -> (r: TaskStatus)
    ensures
        r == status_of(cell@, lower@),
{
    if has(lower, "⛔") || has(lower, "🚫") || has(lower, "block") {
        return TaskStatus::Blocked;
    }
    if has_char(cell, '✅') || has(lower, "done") || has(lower, "concluída") || has(
        lower,
        "concluida",
    ) || has(lower, "[x]") {
        return TaskStatus::Done;
    }
    if has_char(cell, '🚧') || has_char(cell, '🔄') || has(lower, "progress") || has(
        lower,
        "execução",
    ) || has(lower, "execucao") || has(lower, "em obra") || has(lower, "parcial") {
        return TaskStatus::Doing;
    }
    TaskStatus::Todo
}

/// Map a status cell's text/emoji to a [`TaskStatus`] (case-insensitively).
pub fn status_from_cell(cell: &str) -> (r: TaskStatus)
    ensures
        r == status_of(cell@, lowercase(cell@)),
{
    let c = chars_of(cell);
    let low = to_lowercase(cell);
    let l = chars_of(low.as_str());
    status_from_lowered(c.as_slice(), l.as_slice())
}


/// A bracket body that is a task checkbox (`[ ]`, `[x]`, `[X]`) once trimmed.
pub open spec fn is_checkbox(t: Seq<char>) -> bool {
    t.len() == 0 || t == seq!['x'] || t == seq!['X']
}

/// Whether the bracket body `inner` yields a new label, given the labels
/// `acc` found before it: not a checkbox, on one line, no nested `[`, and
/// not seen already.
pub open spec fn keeps_chip(inner: Seq<char>, acc: Seq<Seq<char>>) -> bool {
    &&& !is_checkbox(trim(inner))
    &&& !inner.contains('\n')
    &&& !inner.contains('[')
    &&& !acc.contains(trim(inner))
}

/// Bracket labels of `s` from position `i` on, after the labels `acc`.
/// `[[` (a wikilink opener) is skipped whole; a `[` with no `]` after it
/// is plain text; otherwise scanning resumes after the closing `]`.
pub open spec fn chips_from(s: Seq<char>, i: int, acc: Seq<Seq<char>>) -> Seq<Seq<char>>
    decreases s.len() - i,
{
    if i < 0 || i >= s.len() {
        acc
    } else if s[i] == '[' && i + 1 < s.len() && s[i + 1] == '[' {
        chips_from(s, i + 2, acc)
    } else if s[i] == '[' && find_char_from(s, ']', i + 1) is Some {
        let k = find_char_from(s, ']', i + 1)->0;
        proof {
            lemma_find_char_from(s, ']', i + 1);
        }
        let inner = s.subrange(i + 1, k);
        let next = if keeps_chip(inner, acc) {
            acc.push(trim(inner))
        } else {
            acc
        };
        chips_from(s, k + 1, next)
    } else {
        chips_from(s, i + 1, acc)
    }
}

/// The bracket labels of `s`, first occurrence order.
pub open spec fn chips(s: Seq<char>) -> Seq<Seq<char>> {
    chips_from(s, 0, Seq::empty())
}

proof fn lemma_chips_from_distinct(s: Seq<char>, i: int, acc: Seq<Seq<char>>)
    requires
        acc.no_duplicates(),
        forall|k: int| 0 <= k < acc.len() ==> !is_checkbox(#[trigger] acc[k]),
    ensures
        chips_from(s, i, acc).no_duplicates(),
        forall|k: int|
            0 <= k < chips_from(s, i, acc).len() ==> !is_checkbox(#[trigger] chips_from(s, i, acc)[k]),
    decreases s.len() - i,
{
    if i < 0 || i >= s.len() {
    } else if s[i] == '[' && i + 1 < s.len() && s[i + 1] == '[' {
        lemma_chips_from_distinct(s, i + 2, acc);
    } else if s[i] == '[' && find_char_from(s, ']', i + 1) is Some {
        let k = find_char_from(s, ']', i + 1)->0;
        lemma_find_char_from(s, ']', i + 1);
        let inner = s.subrange(i + 1, k);
        if keeps_chip(inner, acc) {
            let next = acc.push(trim(inner));
            assert forall|a: int, b: int| 0 <= a < b < next.len() implies next[a] != next[b] by {
                if b == acc.len() {
                    assert(acc.contains(acc[a]));
                }
            }
            assert forall|m: int| 0 <= m < next.len() implies !is_checkbox(#[trigger] next[m]) by {
                if m < acc.len() {
                    assert(next[m] == acc[m]);
                }
            }
            lemma_chips_from_distinct(s, k + 1, next);
        } else {
            lemma_chips_from_distinct(s, k + 1, acc);
        }
    } else {
        lemma_chips_from_distinct(s, i + 1, acc);
    }
}

/// The labels of a text come out once each, and none of them is a task
/// checkbox (`[ ]`, `[x]`, `[X]`).
pub proof fn law_label_chips_distinct(s: Seq<char>)
    ensures
        chips(s).no_duplicates(),
        forall|k: int| 0 <= k < chips(s).len() ==> !is_checkbox(#[trigger] chips(s)[k]),
{
    lemma_chips_from_distinct(s, 0, Seq::empty());
}

/// `a` is a prefix of `b`.
pub open spec fn is_prefix(a: Seq<Seq<char>>, b: Seq<Seq<char>>) -> bool {
    a.len() <= b.len() && forall|k: int| 0 <= k < a.len() ==> #[trigger] b[k] == a[k]
}

proof fn lemma_find_extends(s: Seq<char>, t: Seq<char>, c: char, from: int)
    requires
        0 <= from,
        find_char_from(s, c, from) is Some,
    ensures
        find_char_from(s + t, c, from) == find_char_from(s, c, from),
    decreases s.len() - from,
{
    if from < s.len() && s[from] != c {
        lemma_find_extends(s, t, c, from + 1);
    }
}

proof fn lemma_chips_keep_acc(s: Seq<char>, i: int, acc: Seq<Seq<char>>)
    ensures
        is_prefix(acc, chips_from(s, i, acc)),
    decreases s.len() - i,
{
    if i < 0 || i >= s.len() {
    } else if s[i] == '[' && i + 1 < s.len() && s[i + 1] == '[' {
        lemma_chips_keep_acc(s, i + 2, acc);
    } else if s[i] == '[' && find_char_from(s, ']', i + 1) is Some {
        let k = find_char_from(s, ']', i + 1)->0;
        lemma_find_char_from(s, ']', i + 1);
        let inner = s.subrange(i + 1, k);
        if keeps_chip(inner, acc) {
            lemma_chips_keep_acc(s, k + 1, acc.push(trim(inner)));
            assert forall|m: int| 0 <= m < acc.len() implies #[trigger] chips_from(s, i, acc)[m]
                == acc[m] by {
                assert(acc.push(trim(inner))[m] == acc[m]);
            }
        } else {
            lemma_chips_keep_acc(s, k + 1, acc);
        }
    } else {
        lemma_chips_keep_acc(s, i + 1, acc);
    }
}

proof fn lemma_chips_no_close(s: Seq<char>, j: int, acc: Seq<Seq<char>>)
    requires
        0 <= j,
        forall|m: int| j <= m < s.len() ==> s[m] != ']',
    ensures
        chips_from(s, j, acc) == acc,
    decreases s.len() - j,
{
    if j < s.len() {
        lemma_find_char_from(s, ']', j + 1);
        if s[j] == '[' && j + 1 < s.len() && s[j + 1] == '[' {
            lemma_chips_no_close(s, j + 2, acc);
        } else {
            lemma_chips_no_close(s, j + 1, acc);
        }
    }
}

proof fn lemma_chips_prefix(s: Seq<char>, t: Seq<char>, i: int, acc: Seq<Seq<char>>)
    requires
        0 <= i,
    ensures
        is_prefix(chips_from(s, i, acc), chips_from(s + t, i, acc)),
    decreases s.len() - i,
{
    let u = s + t;
    if i >= s.len() {
        lemma_chips_keep_acc(u, i, acc);
    } else {
        assert(u[i] == s[i]);
        if s[i] == '[' && i + 1 < s.len() && s[i + 1] == '[' {
            assert(u[i + 1] == s[i + 1]);
            lemma_chips_prefix(s, t, i + 2, acc);
        } else if s[i] == '[' && find_char_from(s, ']', i + 1) is Some {
            let k = find_char_from(s, ']', i + 1)->0;
            lemma_find_char_from(s, ']', i + 1);
            lemma_find_extends(s, t, ']', i + 1);
            assert(u[i + 1] == s[i + 1]);
            let inner = s.subrange(i + 1, k);
            assert(u.subrange(i + 1, k) =~= inner);
            let next = if keeps_chip(inner, acc) {
                acc.push(trim(inner))
            } else {
                acc
            };
            assert(chips_from(s, i, acc) == chips_from(s, k + 1, next));
            assert(chips_from(u, i, acc) == chips_from(u, k + 1, next));
            lemma_chips_prefix(s, t, k + 1, next);
        } else if s[i] == '[' {
            lemma_find_char_from(s, ']', i + 1);
            lemma_chips_no_close(s, i + 1, acc);
            lemma_chips_keep_acc(u, i, acc);
        } else {
            lemma_chips_prefix(s, t, i + 1, acc);
        }
    }
}

/// Appending text never removes or reorders labels already found: the
/// labels of `s` are a prefix of the labels of `s` followed by `t`.
pub proof fn law_label_chips_prefix(s: Seq<char>, t: Seq<char>)
    ensures
        is_prefix(chips(s), chips(s + t)),
{
    lemma_chips_prefix(s, t, 0, Seq::empty());
}

fn contains_chars(acc: &Vec<Vec<char>>, t: &[char]) -> (b: bool)
    ensures
        b == views(acc@).contains(t@),
{
    let mut i: usize = 0;
    while i < acc.len()
        invariant
            i <= acc@.len(),
            forall|j: int| 0 <= j < i ==> acc@[j]@ != t@,
        decreases acc@.len() - i,
    {
        if same_chars(acc[i].as_slice(), t) {
            assert(views(acc@)[i as int] == t@);
            return true;
        }
        i += 1;
    }
    assert forall|j: int| 0 <= j < views(acc@).len() implies views(acc@)[j] != t@ by {
        assert(views(acc@)[j] == acc@[j]@);
    }
    false
}

/// Extract every `[...]` bracket-label token (the DIARY/SPRINT convention),
/// deduped and order-preserving. Skips `[[wikilinks]]` (double bracket) and
/// `[ ]` / `[x]` task checkboxes.
pub fn label_chips(s: &str) -> (r: Vec<String>)
    ensures
        string_views(r@) == chips(s@),
{
    let cs = chars_of(s);
    let n = cs.len();
    let mut out: Vec<Vec<char>> = Vec::new();
    let mut i: usize = 0;
    assert(views(out@) =~= Seq::empty());
    while i < n
        invariant
            n == cs@.len(),
            cs@ == s@,
            chips(s@) == chips_from(cs@, i as int, views(out@)),
        decreases n - i,
    {
        if cs[i] == '[' {
            if i + 1 < n && cs[i + 1] == '[' {
                i += 2;
                continue;
            }
            match find_char(cs.as_slice(), ']', i + 1) {
                Some(k) => {
                    proof {
                        lemma_find_char_from(cs@, ']', i + 1);
                    }
                    let inner = slice_of(cs.as_slice(), i + 1, k);
                    let t = trimmed(inner.as_slice());
                    let is_checkbox = t.len() == 0 || (t.len() == 1 && (t[0] == 'x' || t[0]
                        == 'X'));
                    let clean = !has_char(inner.as_slice(), '\n') && !has_char(
                        inner.as_slice(),
                        '[',
                    );
                    proof {
                        assert(is_checkbox == crate::discipline::is_checkbox(t@)) by {
                            if t@.len() == 1 && t@[0] == 'x' {
                                assert(t@ =~= seq!['x']);
                            }
                            if t@.len() == 1 && t@[0] == 'X' {
                                assert(t@ =~= seq!['X']);
                            }
                        }
                    }
                    if !is_checkbox && clean && !contains_chars(&out, t.as_slice()) {
                        let ghost before = out@;
                        out.push(t);
                        assert(views(out@) =~= views(before).push(trim(inner@)));
                    }
                    i = k + 1;
                    continue;
                },
                None => {},
            }
        }
        i += 1;
    }
    strings_of(&out)
}


/// Cells of a table-row body, from position `i` on: `cells` are finished,
/// `cur` is the cell being read. `\|` is a literal pipe inside a cell; a bare
/// `|` ends the cell; cells are trimmed.
pub open spec fn cells_from(s: Seq<char>, i: int, cells: Seq<Seq<char>>, cur: Seq<char>) -> Seq<
    Seq<char>,
>
    decreases s.len() - i,
{
    if i < 0 || i >= s.len() {
        cells.push(trim(cur))
    } else if s[i] == '\\' && i + 1 < s.len() && s[i + 1] == '|' {
        cells_from(s, i + 2, cells, cur.push('|'))
    } else if s[i] == '|' {
        cells_from(s, i + 1, cells.push(trim(cur)), Seq::empty())
    } else {
        cells_from(s, i + 1, cells, cur.push(s[i]))
    }
}

/// The trimmed cells of `s` split on unescaped pipes.
pub open spec fn split_cells(s: Seq<char>) -> Seq<Seq<char>> {
    cells_from(s, 0, Seq::empty(), Seq::empty())
}

fn split_cells_exec(s: &[char]) -> (r: Vec<Vec<char>>)
    ensures
        views(r@) == split_cells(s@),
{
    let n = s.len();
    let mut cells: Vec<Vec<char>> = Vec::new();
    let mut cur: Vec<char> = Vec::new();
    let mut i: usize = 0;
    assert(views(cells@) =~= Seq::empty());
    assert(cur@ =~= Seq::<char>::empty());
    while i < n
        invariant
            n == s@.len(),
            split_cells(s@) == cells_from(s@, i as int, views(cells@), cur@),
        decreases n - i,
    {
        if s[i] == '\\' && i + 1 < n && s[i + 1] == '|' {
            cur.push('|');
            i += 2;
        } else if s[i] == '|' {
            let t = trimmed(cur.as_slice());
            let ghost before = cells@;
            cells.push(t);
            assert(views(cells@) =~= views(before).push(trim(cur@)));
            cur = Vec::new();
            assert(cur@ =~= Seq::<char>::empty());
            i += 1;
        } else {
            cur.push(s[i]);
            i += 1;
        }
    }
    let t = trimmed(cur.as_slice());
    let ghost before = cells@;
    cells.push(t);
    assert(views(cells@) =~= views(before).push(trim(cur@)));
    cells
}

/// Split on `|` while treating `\|` as an escaped literal pipe (the `\` is
/// dropped, the `|` kept in the cell). Other backslashes pass through verbatim.
/// Cells are trimmed.
pub fn split_escaped_pipes(s: &str) -> (r: Vec<String>)
    ensures
        string_views(r@) == split_cells(s@),
{
    let cs = chars_of(s);
    let cells = split_cells_exec(cs.as_slice());
    strings_of(&cells)
}

/// `s` without its leading `c`s.
pub open spec fn strip_lead(s: Seq<char>, c: char) -> Seq<char>
    decreases s.len(),
{
    if s.len() > 0 && s[0] == c {
        strip_lead(s.drop_first(), c)
    } else {
        s
    }
}

/// `s` without its trailing `c`s.
pub open spec fn strip_trail(s: Seq<char>, c: char) -> Seq<char>
    decreases s.len(),
{
    if s.len() > 0 && s.last() == c {
        strip_trail(s.drop_last(), c)
    } else {
        s
    }
}

/// The cells of a markdown table row `| a | b | c |`, or `None` when the
/// trimmed line does not start with `|`.
pub open spec fn row_cells(line: Seq<char>) -> Option<Seq<Seq<char>>> {
    let t = trim(line);
    if t.len() > 0 && t[0] == '|' {
        Some(split_cells(strip_trail(strip_lead(t, '|'), '|')))
    } else {
        None
    }
}

fn strip_pipes(s: &[char]) -> (r: Vec<char>)
    ensures
        r@ == strip_trail(strip_lead(s@, '|'), '|'),
{
    let n = s.len();
    let mut i: usize = 0;
    assert(s@.subrange(0, n as int) =~= s@);
    while i < n && s[i] == '|'
        invariant
            i <= n == s@.len(),
            strip_lead(s@, '|') == strip_lead(s@.subrange(i as int, n as int), '|'),
        decreases n - i,
    {
        assert(s@.subrange(i as int, n as int).drop_first() =~= s@.subrange(i + 1, n as int));
        i += 1;
    }
    assert(s@.subrange(0, n as int) =~= s@);
    let mut j = n;
    while j > i && s[j - 1] == '|'
        invariant
            i <= j <= n == s@.len(),
            strip_trail(s@.subrange(i as int, n as int), '|') == strip_trail(
                s@.subrange(i as int, j as int),
                '|',
            ),
        decreases j - i,
    {
        assert(s@.subrange(i as int, j as int).drop_last() =~= s@.subrange(i as int, j - 1));
        j -= 1;
    }
    slice_of(s, i, j)
}

fn split_row_chars(line: &[char]) -> (r: Option<Vec<Vec<char>>>)
    ensures
        match r {
            Some(cells) => row_cells(line@) == Some(views(cells@)),
            None => row_cells(line@) is None,
        },
{
    let t = trimmed(line);
    if t.len() == 0 || t[0] != '|' {
        return None;
    }
    let inner = strip_pipes(t.as_slice());
    Some(split_cells_exec(inner.as_slice()))
}

/// Split a markdown table row `| a | b | c |` into trimmed cell strings,
/// honouring GFM's escaped pipe (`\|` is a literal `|` inside a cell, not a
/// column boundary). Returns `None` for lines that aren't table rows.
pub fn split_row(line: &str) -> (r: Option<Vec<String>>)
    ensures
        match r {
            Some(cells) => row_cells(line@) == Some(string_views(cells@)),
            None => row_cells(line@) is None,
        },
{
    let cs = chars_of(line);
    match split_row_chars(cs.as_slice()) {
        Some(cells) => Some(strings_of(&cells)),
        None => None,
    }
}

/// A table separator row (`|---|:--:|---|`): some cells, each non-empty and
/// made only of `-`, `:` and spaces.
pub open spec fn is_separator(cells: Seq<Seq<char>>) -> bool {
    &&& cells.len() > 0
    &&& forall|k: int|
        0 <= k < cells.len() ==> #[trigger] cells[k].len() > 0 && forall|j: int|
            0 <= j < cells[k].len() ==> {
                let ch = #[trigger] cells[k][j];
                ch == '-' || ch == ':' || ch == ' '
            }
}

fn is_separator_cells(cells: &Vec<Vec<char>>) -> (b: bool)
    ensures
        b == is_separator(views(cells@)),
{
    if cells.len() == 0 {
        return false;
    }
    let mut k: usize = 0;
    while k < cells.len()
        invariant
            k <= cells@.len(),
            forall|m: int|
                0 <= m < k ==> #[trigger] cells@[m]@.len() > 0 && forall|j: int|
                    0 <= j < cells@[m]@.len() ==> {
                        let ch = #[trigger] cells@[m]@[j];
                        ch == '-' || ch == ':' || ch == ' '
                    },
        decreases cells@.len() - k,
    {
        let c = &cells[k];
        if c.len() == 0 {
            assert(views(cells@)[k as int].len() == 0);
            return false;
        }
        let mut j: usize = 0;
        while j < c.len()
            invariant
                j <= c@.len(),
                k < cells@.len(),
                c@ == cells@[k as int]@,
                forall|t: int|
                    0 <= t < j ==> {
                        let ch = #[trigger] c@[t];
                        ch == '-' || ch == ':' || ch == ' '
                    },
            decreases c@.len() - j,
        {
            let ch = c[j];
            if !(ch == '-' || ch == ':' || ch == ' ') {
                assert(views(cells@)[k as int][j as int] == ch);
                return false;
            }
            j += 1;
        }
        k += 1;
    }
    assert forall|m: int| 0 <= m < views(cells@).len() implies #[trigger] views(cells@)[m].len()
        > 0 && forall|j: int|
        0 <= j < views(cells@)[m].len() ==> {
            let ch = #[trigger] views(cells@)[m][j];
            ch == '-' || ch == ':' || ch == ' '
        } by {
        assert(views(cells@)[m] == cells@[m]@);
    }
    true
}

/// Whether a markdown table row is a separator (`|---|:--:|---|`).
pub fn is_separator_row(cells: &[String]) -> (b: bool)
    ensures
        b == is_separator(string_views(cells@)),
{
    let v = chars_of_strings(cells);
    is_separator_cells(&v)
}


/// The column roles a sprint table header can name.
pub enum HeaderRole {
    Id,
    Title,
    Status,
}

/// The key a header cell is matched by: lowercased, then trimmed.
pub open spec fn header_key(cell: Seq<char>) -> Seq<char> {
    trim(lowercase(cell))
}

/// Whether the header key `k` names the column `role`.
pub open spec fn names_role(role: HeaderRole, k: Seq<char>) -> bool {
    match role {
        HeaderRole::Id => k == "id"@,
        HeaderRole::Title => k == "tarefa"@ || k == "title"@ || k == "título"@ || k == "titulo"@,
        HeaderRole::Status => k == "status"@,
    }
}

/// The first index at or after `k` whose key names `role`.
pub open spec fn first_role_from(keys: Seq<Seq<char>>, role: HeaderRole, k: int) -> Option<int>
    decreases keys.len() - k,
{
    if k < 0 || k >= keys.len() {
        None
    } else if names_role(role, keys[k]) {
        Some(k)
    } else {
        first_role_from(keys, role, k + 1)
    }
}

/// The ID / Title / Status column indices named by a header row's keys, or
/// `None` unless all three are present.
pub open spec fn header_columns(keys: Seq<Seq<char>>) -> Option<(int, int, int)> {
    match (
        first_role_from(keys, HeaderRole::Id, 0),
        first_role_from(keys, HeaderRole::Title, 0),
        first_role_from(keys, HeaderRole::Status, 0),
    ) {
        (Some(a), Some(b), Some(c)) => Some((a, b, c)),
        _ => None,
    }
}

/// The header keys of a row.
pub open spec fn keys_of(cells: Seq<Seq<char>>) -> Seq<Seq<char>> {
    cells.map_values(|c: Seq<char>| header_key(c))
}

fn role_matches(role: &HeaderRole, k: &[char]) -> (b: bool)
    ensures
        b == names_role(*role, k@),
{
    match role {
        HeaderRole::Id => same_chars(k, chars_of("id").as_slice()),
        HeaderRole::Title => {
            same_chars(k, chars_of("tarefa").as_slice()) || same_chars(
                k,
                chars_of("title").as_slice(),
            ) || same_chars(k, chars_of("título").as_slice()) || same_chars(
                k,
                chars_of("titulo").as_slice(),
            )
        },
        HeaderRole::Status => same_chars(k, chars_of("status").as_slice()),
    }
}

fn first_role(keys: &Vec<Vec<char>>, role: HeaderRole) -> (r: Option<usize>)
    ensures
        match r {
            Some(i) => first_role_from(views(keys@), role, 0) == Some(i as int),
            None => first_role_from(views(keys@), role, 0) is None,
        },
{
    let mut i: usize = 0;
    while i < keys.len()
        invariant
            i <= keys@.len(),
            first_role_from(views(keys@), role, 0) == first_role_from(views(keys@), role, i as int),
        decreases keys@.len() - i,
    {
        assert(views(keys@)[i as int] == keys@[i as int]@);
        if role_matches(&role, keys[i].as_slice()) {
            return Some(i);
        }
        i += 1;
    }
    None
}

fn header_cols_chars(cells: &Vec<Vec<char>>) -> (r: Option<(usize, usize, usize)>)
    ensures
        match r {
            Some((a, b, c)) => header_columns(keys_of(views(cells@))) == Some(
                (a as int, b as int, c as int),
            ),
            None => header_columns(keys_of(views(cells@))) is None,
        },
{
    let mut keys: Vec<Vec<char>> = Vec::new();
    let mut i: usize = 0;
    while i < cells.len()
        invariant
            i <= cells@.len(),
            keys@.len() == i,
            forall|j: int| 0 <= j < i ==> #[trigger] keys@[j]@ == header_key(cells@[j]@),
        decreases cells@.len() - i,
    {
        let low = lowered(cells[i].as_slice());
        let k = trimmed(low.as_slice());
        keys.push(k);
        i += 1;
    }
    assert(views(keys@) =~= keys_of(views(cells@))) by {
        assert forall|j: int| 0 <= j < keys@.len() implies #[trigger] views(keys@)[j] == keys_of(
            views(cells@),
        )[j] by {
            assert(keys@[j]@ == header_key(cells@[j]@));
        }
    }
    let a = first_role(&keys, HeaderRole::Id);
    let b = first_role(&keys, HeaderRole::Title);
    let c = first_role(&keys, HeaderRole::Status);
    match (a, b, c) {
        (Some(a), Some(b), Some(c)) => Some((a, b, c)),
        _ => None,
    }
}

/// Locate, in a header row's cells, the column indices for ID / Title / Status.
/// Returns `None` unless all three are present (the signal that promotes a table
/// to a task list, distinguishing it from e.g. the NOTION Schema table).
pub fn task_header_columns(cells: &[String]) -> (r: Option<(usize, usize, usize)>)
    ensures
        match r {
            Some((a, b, c)) => header_columns(keys_of(string_views(cells@))) == Some(
                (a as int, b as int, c as int),
            ),
            None => header_columns(keys_of(string_views(cells@))) is None,
        },
{
    let v = chars_of_strings(cells);
    header_cols_chars(&v)
}


/// One task row parsed from a SPRINT table (or a bullet-list fallback).
#[derive(Clone, Debug, PartialEq, Eq)]
pub struct SprintTask {
    pub id: String,
    pub title: String,
    pub status: TaskStatus,
    pub kind: Option<String>,
    pub owner: Option<String>,
    pub points: Option<u32>,
}

/// What a parsed task row holds: its id, title and status bucket.
pub struct TaskModel {
    pub id: Seq<char>,
    pub title: Seq<char>,
    pub status: TaskStatus,
}

impl View for SprintTask {
    type V = TaskModel;

    open spec fn view(&self) -> TaskModel {
        TaskModel { id: self.id@, title: self.title@, status: self.status }
    }
}

impl SprintTask {
    /// The parsers leave the optional kind/owner/points columns unset.
    pub open spec fn no_extras(self) -> bool {
        self.kind is None && self.owner is None && self.points is None
    }
}

/// The models of a sequence of tasks.
pub open spec fn task_views(v: Seq<SprintTask>) -> Seq<TaskModel> {
    v.map_values(|t: SprintTask| t@)
}

/// The task a bullet line denotes: `- [x] text`, `* [X] text` (Done) or
/// `+ [ ] text` (Todo), after leading whitespace; the title is trimmed.
pub open spec fn bullet_of(line: Seq<char>) -> Option<TaskModel> {
    let t = ltrim(line);
    if has_prefix(t, seq!['-', ' ']) || has_prefix(t, seq!['*', ' ']) || has_prefix(
        t,
        seq!['+', ' '],
    ) {
        let rest = t.skip(2);
        if has_prefix(rest, seq!['[', 'x', ']', ' ']) || has_prefix(rest, seq!['[', 'X', ']', ' ']) {
            Some(TaskModel { id: Seq::empty(), title: trim(rest.skip(4)), status: TaskStatus::Done })
        } else if has_prefix(rest, seq!['[', ' ', ']', ' ']) {
            Some(TaskModel { id: Seq::empty(), title: trim(rest.skip(4)), status: TaskStatus::Todo })
        } else {
            None
        }
    } else {
        None
    }
}

/// The tasks of the bullet lines among `ls`, in order.
pub open spec fn bullets(ls: Seq<Seq<char>>) -> Seq<TaskModel>
    decreases ls.len(),
{
    if ls.len() == 0 {
        Seq::empty()
    } else {
        bullets(ls.drop_last()) + match bullet_of(ls.last()) {
            Some(t) => seq![t],
            None => Seq::empty(),
        }
    }
}

fn plain_task(id: &[char], title: &[char], status: TaskStatus) -> (r: SprintTask)
    ensures
        r@ == (TaskModel { id: id@, title: title@, status }),
        r.no_extras(),
{
    SprintTask { id: string_of(id), title: string_of(title), status, kind: None, owner: None, points: None }
}

fn bullet_line(line: &[char]) -> (r: Option<SprintTask>)
    ensures
        match r {
            Some(t) => bullet_of(line@) == Some(t@) && t.no_extras(),
            None => bullet_of(line@) is None,
        },
{
    let a = ltrim_index(line);
    let t = slice_of(line, a, line.len());
    let dash = vec!['-', ' '];
    let star = vec!['*', ' '];
    let plus = vec!['+', ' '];
    if !(has_prefix_exec(t.as_slice(), dash.as_slice()) || has_prefix_exec(t.as_slice(), star.as_slice())
        || has_prefix_exec(t.as_slice(), plus.as_slice())) {
        return None;
    }
    let rest = slice_of(t.as_slice(), 2, t.len());
    assert(rest@ =~= t@.skip(2));
    let done_lo = vec!['[', 'x', ']', ' '];
    let done_up = vec!['[', 'X', ']', ' '];
    let todo = vec!['[', ' ', ']', ' '];
    let status = if has_prefix_exec(rest.as_slice(), done_lo.as_slice()) || has_prefix_exec(
        rest.as_slice(),
        done_up.as_slice(),
    ) {
        TaskStatus::Done
    } else if has_prefix_exec(rest.as_slice(), todo.as_slice()) {
        TaskStatus::Todo
    } else {
        return None;
    };
    let body = slice_of(rest.as_slice(), 4, rest.len());
    assert(body@ =~= rest@.skip(4));
    let title = trimmed(body.as_slice());
    let empty: Vec<char> = Vec::new();
    assert(empty@ =~= Seq::<char>::empty());
    Some(plain_task(empty.as_slice(), title.as_slice(), status))
}

fn bullet_tasks_lines(ls: &Vec<Vec<char>>) -> (r: Vec<SprintTask>)
    ensures
        task_views(r@) == bullets(views(ls@)),
        forall|k: int| 0 <= k < r@.len() ==> #[trigger] r@[k].no_extras(),
{
    let mut out: Vec<SprintTask> = Vec::new();
    let mut i: usize = 0;
    while i < ls.len()
        invariant
            i <= ls@.len(),
            task_views(out@) == bullets(views(ls@).take(i as int)),
            forall|k: int| 0 <= k < out@.len() ==> #[trigger] out@[k].no_extras(),
        decreases ls@.len() - i,
    {
        let ghost before = out@;
        assert(views(ls@).take(i + 1).drop_last() =~= views(ls@).take(i as int));
        assert(views(ls@).take(i + 1).last() == ls@[i as int]@);
        match bullet_line(ls[i].as_slice()) {
            Some(t) => {
                out.push(t);
                assert(task_views(out@) =~= task_views(before) + seq![t@]);
            },
            None => {
                assert(task_views(out@) =~= task_views(before) + Seq::<TaskModel>::empty());
            },
        }
        i += 1;
    }
    assert(views(ls@).take(i as int) =~= views(ls@));
    out
}

/// Fallback: parse GFM task bullets `- [ ] text` / `- [x] text`.
pub fn bullet_tasks(raw: &str) -> (r: Vec<SprintTask>)
    ensures
        task_views(r@) == bullets(lines_of(raw@)),
        forall|k: int| 0 <= k < r@.len() ==> #[trigger] r@[k].no_extras(),
{
    let cs = chars_of(raw);
    let ls = lines(cs.as_slice());
    bullet_tasks_lines(&ls)
}


/// Cell `k` of a row, or empty past its end.
pub open spec fn cell_at(cells: Seq<Seq<char>>, k: int) -> Seq<char> {
    if 0 <= k < cells.len() {
        cells[k]
    } else {
        Seq::empty()
    }
}

/// The task a data row yields under the columns `c` (ID, Title, Status), or
/// `None` for a row whose ID cell is empty (a sub-header or spacer).
pub open spec fn table_task(cells: Seq<Seq<char>>, c: (int, int, int)) -> Option<TaskModel> {
    let id = cell_at(cells, c.0);
    let st = cell_at(cells, c.2);
    if id.len() == 0 {
        None
    } else {
        Some(TaskModel { id, title: cell_at(cells, c.1), status: status_of(st, lowercase(st)) })
    }
}

/// The SPRINT table scan over lines `ls` from line `k` on: the tasks so far,
/// the columns of the task table being read (if any), and whether a task
/// table header was ever seen. A non-table line ends the current table;
/// separator rows are skipped; in no table, a header naming ID, Title and
/// Status opens one.
pub open spec fn sprint_from(
    ls: Seq<Seq<char>>,
    k: int,
    tasks: Seq<TaskModel>,
    cols: Option<(int, int, int)>,
    saw: bool,
) -> (Seq<TaskModel>, bool)
    decreases ls.len() - k,
{
    if k < 0 || k >= ls.len() {
        (tasks, saw)
    } else {
        match row_cells(ls[k]) {
            None => sprint_from(ls, k + 1, tasks, None, saw),
            Some(cells) => if is_separator(cells) {
                sprint_from(ls, k + 1, tasks, cols, saw)
            } else {
                match cols {
                    None => match header_columns(keys_of(cells)) {
                        Some(f) => sprint_from(ls, k + 1, tasks, Some(f), true),
                        None => sprint_from(ls, k + 1, tasks, None, saw),
                    },
                    Some(c) => match table_task(cells, c) {
                        Some(t) => sprint_from(ls, k + 1, tasks.push(t), cols, saw),
                        None => sprint_from(ls, k + 1, tasks, cols, saw),
                    },
                }
            },
        }
    }
}

/// The tasks of a SPRINT file: the rows of its task tables, or, when it has
/// no task table at all, its checkbox bullets.
pub open spec fn sprint_model(raw: Seq<char>) -> Seq<TaskModel> {
    let ls = lines_of(raw);
    let r = sprint_from(ls, 0, Seq::empty(), None, false);
    if r.1 {
        r.0
    } else {
        r.0 + bullets(ls)
    }
}

proof fn lemma_sprint_from_no_table(
    ls: Seq<Seq<char>>,
    k: int,
    tasks: Seq<TaskModel>,
    cols: Option<(int, int, int)>,
    saw: bool,
)
    requires
        cols is Some ==> saw,
    ensures
        !sprint_from(ls, k, tasks, cols, saw).1 ==> sprint_from(ls, k, tasks, cols, saw).0 == tasks,
        saw ==> sprint_from(ls, k, tasks, cols, saw).1,
    decreases ls.len() - k,
{
    if k < 0 || k >= ls.len() {
    } else {
        match row_cells(ls[k]) {
            None => lemma_sprint_from_no_table(ls, k + 1, tasks, None, saw),
            Some(cells) => if is_separator(cells) {
                lemma_sprint_from_no_table(ls, k + 1, tasks, cols, saw)
            } else {
                match cols {
                    None => match header_columns(keys_of(cells)) {
                        Some(f) => lemma_sprint_from_no_table(ls, k + 1, tasks, Some(f), true),
                        None => lemma_sprint_from_no_table(ls, k + 1, tasks, None, saw),
                    },
                    Some(c) => match table_task(cells, c) {
                        Some(t) => lemma_sprint_from_no_table(ls, k + 1, tasks.push(t), cols, saw),
                        None => lemma_sprint_from_no_table(ls, k + 1, tasks, cols, saw),
                    },
                }
            },
        }
    }
}

/// A SPRINT file with no task table (no header naming ID, Title and Status)
/// yields exactly its checkbox bullets; one with a task table yields no
/// bullet at all, only table rows.
pub proof fn law_sprint_tables_or_bullets(raw: Seq<char>)
    ensures
        !sprint_from(lines_of(raw), 0, Seq::empty(), None, false).1 ==> sprint_model(raw) == bullets(
            lines_of(raw),
        ),
        sprint_from(lines_of(raw), 0, Seq::empty(), None, false).1 ==> sprint_model(raw) == sprint_from(
            lines_of(raw),
            0,
            Seq::empty(),
            None,
            false,
        ).0,
{
    lemma_sprint_from_no_table(lines_of(raw), 0, Seq::empty(), None, false);
    assert(Seq::<TaskModel>::empty() + bullets(lines_of(raw)) =~= bullets(lines_of(raw)));
}

/// Line `m` of `ls` is a table line (a `|` row).
pub open spec fn table_line(ls: Seq<Seq<char>>, m: int) -> bool {
    row_cells(ls[m]) is Some
}

/// Lines `a` through `b` are all table lines: they belong to one table.
pub open spec fn one_table(ls: Seq<Seq<char>>, a: int, b: int) -> bool {
    forall|j: int| a <= j <= b ==> #[trigger] table_line(ls, j)
}

/// Line `m` is a task-table header: a table line, not a separator, whose
/// cells name an ID, a Title (or Tarefa) and a Status column.
pub open spec fn header_line(ls: Seq<Seq<char>>, m: int) -> bool {
    &&& row_cells(ls[m]) is Some
    &&& !is_separator(row_cells(ls[m])->0)
    &&& header_columns(keys_of(row_cells(ls[m])->0)) is Some
}

/// Task `t` is read from line `k` of the table whose header is line `h`:
/// both lie in one table, `h` is the first header line of that table, and
/// `t` is what line `k`'s cells give under the columns `h` names.
pub open spec fn task_from_table(ls: Seq<Seq<char>>, h: int, k: int, t: TaskModel) -> bool {
    &&& 0 <= h < k < ls.len()
    &&& one_table(ls, h, k)
    &&& header_line(ls, h)
    &&& forall|m: int| 0 <= m < h && one_table(ls, m, h) ==> !#[trigger] header_line(ls, m)
    &&& !is_separator(row_cells(ls[k])->0)
    &&& table_task(row_cells(ls[k])->0, header_columns(keys_of(row_cells(ls[h])->0))->0) == Some(t)
}

/// Task `t` is read from some row of some task table of `ls`.
pub open spec fn from_a_task_table(ls: Seq<Seq<char>>, t: TaskModel) -> bool {
    exists|h: int, k: int| #[trigger] task_from_table(ls, h, k, t)
}

proof fn lemma_sprint_tasks_from_tables(
    ls: Seq<Seq<char>>,
    k: int,
    tasks: Seq<TaskModel>,
    cols: Option<(int, int, int)>,
    saw: bool,
    h: int,
)
    requires
        0 <= k <= ls.len(),
        forall|i: int| 0 <= i < tasks.len() ==> #[trigger] from_a_task_table(ls, tasks[i]),
        cols matches Some(c) ==> 0 <= h < k && header_line(ls, h) && header_columns(
            keys_of(row_cells(ls[h])->0),
        ) == Some(c) && one_table(ls, h, k - 1) && (forall|m: int|
            0 <= m < h && one_table(ls, m, h) ==> !#[trigger] header_line(ls, m)),
        cols is None ==> forall|m: int| 0 <= m < k && one_table(ls, m, k - 1) ==> !#[trigger] header_line(ls, m),
        !saw ==> cols is None && forall|m: int| 0 <= m < k ==> !#[trigger] header_line(ls, m),
    ensures
        forall|i: int|
            0 <= i < sprint_from(ls, k, tasks, cols, saw).0.len() ==> #[trigger] from_a_task_table(
                ls,
                sprint_from(ls, k, tasks, cols, saw).0[i],
            ),
        !sprint_from(ls, k, tasks, cols, saw).1 ==> forall|m: int| 0 <= m < ls.len() ==> !#[trigger] header_line(ls, m),
    decreases ls.len() - k,
{
    if k < ls.len() {
        match row_cells(ls[k]) {
            None => {
                assert(!header_line(ls, k));
                assert forall|m: int| 0 <= m < k + 1 && one_table(ls, m, k) implies !#[trigger] header_line(ls, m) by {
                    assert(table_line(ls, k));
                }
                lemma_sprint_tasks_from_tables(ls, k + 1, tasks, None, saw, h);
            },
            Some(cells) => {
                assert(table_line(ls, k));
                if is_separator(cells) {
                    assert(!header_line(ls, k));
                    if cols is Some {
                        assert forall|j: int| h <= j <= k implies #[trigger] table_line(ls, j) by {
                            if j < k {
                                assert(one_table(ls, h, k - 1));
                            }
                        }
                    } else {
                        assert forall|m: int| 0 <= m < k + 1 && one_table(ls, m, k) implies !#[trigger] header_line(ls, m) by {
                            if m < k {
                                assert forall|j: int| m <= j <= k - 1 implies #[trigger] table_line(ls, j) by {
                                    assert(one_table(ls, m, k));
                                }
                            }
                        }
                    }
                    lemma_sprint_tasks_from_tables(ls, k + 1, tasks, cols, saw, h);
                } else {
                    match cols {
                        None => match header_columns(keys_of(cells)) {
                            Some(f) => {
                                assert(header_line(ls, k));
                                assert forall|m: int| 0 <= m < k && one_table(ls, m, k) implies !#[trigger] header_line(ls, m) by {
                                    assert forall|j: int| m <= j <= k - 1 implies #[trigger] table_line(ls, j) by {
                                        assert(one_table(ls, m, k));
                                    }
                                }
                                assert forall|j: int| k <= j <= k implies #[trigger] table_line(ls, j) by {}
                                lemma_sprint_tasks_from_tables(ls, k + 1, tasks, Some(f), true, k);
                            },
                            None => {
                                assert(!header_line(ls, k));
                                assert forall|m: int| 0 <= m < k + 1 && one_table(ls, m, k) implies !#[trigger] header_line(ls, m) by {
                                    if m < k {
                                        assert forall|j: int| m <= j <= k - 1 implies #[trigger] table_line(ls, j) by {
                                            assert(one_table(ls, m, k));
                                        }
                                    }
                                }
                                lemma_sprint_tasks_from_tables(ls, k + 1, tasks, None, saw, h);
                            },
                        },
                        Some(c) => {
                            assert forall|j: int| h <= j <= k implies #[trigger] table_line(ls, j) by {
                                if j < k {
                                    assert(one_table(ls, h, k - 1));
                                }
                            }
                            match table_task(cells, c) {
                                Some(t) => {
                                    assert(task_from_table(ls, h, k, t));
                                    let t2 = tasks.push(t);
                                    assert forall|i: int| 0 <= i < t2.len() implies #[trigger] from_a_task_table(ls, t2[i]) by {
                                        if i < tasks.len() {
                                            assert(t2[i] == tasks[i]);
                                        } else {
                                            assert(t2[i] == t);
                                            assert(task_from_table(ls, h, k, t2[i]));
                                        }
                                    }
                                    lemma_sprint_tasks_from_tables(ls, k + 1, t2, cols, saw, h);
                                },
                                None => {
                                    lemma_sprint_tasks_from_tables(ls, k + 1, tasks, cols, saw, h);
                                },
                            }
                        },
                    }
                }
            },
        }
    }
}

/// Every sprint task read from a table comes from a row of that table whose
/// own header (its first header line) names ID, Title and Status: a line
/// that is not a table row ends the table, so a later table whose header
/// does not name those columns gives no task, and a row with an empty ID
/// cell gives none either. When no such header exists anywhere, the tasks
/// are the checkbox bullets.
pub proof fn law_sprint_tasks_come_from_their_table(raw: Seq<char>)
    ensures
        (forall|m: int| 0 <= m < lines_of(raw).len() ==> !#[trigger] header_line(lines_of(raw), m))
            ==> sprint_model(raw) == bullets(lines_of(raw)),
        (exists|m: int| 0 <= m < lines_of(raw).len() && #[trigger] header_line(lines_of(raw), m))
            ==> forall|i: int|
            0 <= i < sprint_model(raw).len() ==> #[trigger] from_a_task_table(lines_of(raw), sprint_model(raw)[i])
                && sprint_model(raw)[i].id.len() > 0,
{
    let ls = lines_of(raw);
    lemma_sprint_tasks_from_tables(ls, 0, Seq::empty(), None, false, 0);
    law_sprint_tables_or_bullets(raw);
    lemma_sprint_from_no_table(ls, 0, Seq::empty(), None, false);
    if forall|m: int| 0 <= m < ls.len() ==> !#[trigger] header_line(ls, m) {
        lemma_no_header_no_table(ls, 0, Seq::empty(), None, false);
    }
    assert forall|i: int| 0 <= i < sprint_model(raw).len() && from_a_task_table(ls, #[trigger] sprint_model(raw)[i])
        implies sprint_model(raw)[i].id.len() > 0 by {
        let t = sprint_model(raw)[i];
        let (h, k) = choose|h: int, k: int| #[trigger] task_from_table(ls, h, k, t);
        assert(table_task(row_cells(ls[k])->0, header_columns(keys_of(row_cells(ls[h])->0))->0) == Some(t));
    }
}

proof fn lemma_sprint_keeps_prefix(
    ls: Seq<Seq<char>>,
    k: int,
    tasks: Seq<TaskModel>,
    cols: Option<(int, int, int)>,
    saw: bool,
)
    ensures
        tasks.len() <= sprint_from(ls, k, tasks, cols, saw).0.len(),
        forall|i: int| 0 <= i < tasks.len() ==> #[trigger] sprint_from(ls, k, tasks, cols, saw).0[i] == tasks[i],
    decreases ls.len() - k,
{
    if k < 0 || k >= ls.len() {
    } else {
        match row_cells(ls[k]) {
            None => lemma_sprint_keeps_prefix(ls, k + 1, tasks, None, saw),
            Some(cells) => if is_separator(cells) {
                lemma_sprint_keeps_prefix(ls, k + 1, tasks, cols, saw)
            } else {
                match cols {
                    None => match header_columns(keys_of(cells)) {
                        Some(f) => lemma_sprint_keeps_prefix(ls, k + 1, tasks, Some(f), true),
                        None => lemma_sprint_keeps_prefix(ls, k + 1, tasks, None, saw),
                    },
                    Some(c) => match table_task(cells, c) {
                        Some(t) => {
                            lemma_sprint_keeps_prefix(ls, k + 1, tasks.push(t), cols, saw);
                            let o = sprint_from(ls, k + 1, tasks.push(t), cols, saw).0;
                            assert forall|i: int| 0 <= i < tasks.len() implies #[trigger] o[i] == tasks[i] by {
                                assert(o[i] == tasks.push(t)[i]);
                            }
                        },
                        None => lemma_sprint_keeps_prefix(ls, k + 1, tasks, cols, saw),
                    },
                }
            },
        }
    }
}

proof fn lemma_sprint_table_rows_kept(
    ls: Seq<Seq<char>>,
    k: int,
    tasks: Seq<TaskModel>,
    cols: Option<(int, int, int)>,
    saw: bool,
    h: int,
    h2: int,
    k2: int,
    t: TaskModel,
)
    requires
        0 <= k <= k2,
        task_from_table(ls, h2, k2, t),
        cols matches Some(c) ==> 0 <= h < k && header_line(ls, h) && header_columns(
            keys_of(row_cells(ls[h])->0),
        ) == Some(c) && one_table(ls, h, k - 1) && (forall|m: int|
            0 <= m < h && one_table(ls, m, h) ==> !#[trigger] header_line(ls, m)),
        cols is None ==> forall|m: int| 0 <= m < k && one_table(ls, m, k - 1) ==> !#[trigger] header_line(ls, m),
    ensures
        exists|i: int| 0 <= i < sprint_from(ls, k, tasks, cols, saw).0.len() && #[trigger] sprint_from(ls, k, tasks, cols, saw).0[i] == t,
    decreases ls.len() - k,
{
    assert(table_line(ls, k2));
    match row_cells(ls[k]) {
        None => {
            assert(k != k2);
            assert forall|m: int| 0 <= m < k + 1 && one_table(ls, m, k) implies !#[trigger] header_line(ls, m) by {
                assert(table_line(ls, k));
            }
            lemma_sprint_table_rows_kept(ls, k + 1, tasks, None, saw, h, h2, k2, t);
            assert(sprint_from(ls, k, tasks, cols, saw) == sprint_from(ls, k + 1, tasks, None, saw));
        },
        Some(cells) => {
            assert(table_line(ls, k));
            if is_separator(cells) {
                assert(k != k2);
                if cols is Some {
                    assert forall|j: int| h <= j <= k implies #[trigger] table_line(ls, j) by {
                        if j < k {
                            assert(one_table(ls, h, k - 1));
                        }
                    }
                } else {
                    assert forall|m: int| 0 <= m < k + 1 && one_table(ls, m, k) implies !#[trigger] header_line(ls, m) by {
                        if m < k {
                            assert forall|j: int| m <= j <= k - 1 implies #[trigger] table_line(ls, j) by {
                                assert(one_table(ls, m, k));
                            }
                        }
                    }
                }
                lemma_sprint_table_rows_kept(ls, k + 1, tasks, cols, saw, h, h2, k2, t);
                assert(sprint_from(ls, k, tasks, cols, saw) == sprint_from(ls, k + 1, tasks, cols, saw));
            } else {
                match cols {
                    None => {
                        if k == k2 {
                            assert forall|j: int| h2 <= j <= k - 1 implies #[trigger] table_line(ls, j) by {
                                assert(one_table(ls, h2, k2));
                            }
                            assert(!header_line(ls, h2));
                        }
                        match header_columns(keys_of(cells)) {
                            Some(f) => {
                                assert(header_line(ls, k));
                                assert forall|m: int| 0 <= m < k && one_table(ls, m, k) implies !#[trigger] header_line(ls, m) by {
                                    assert forall|j: int| m <= j <= k - 1 implies #[trigger] table_line(ls, j) by {
                                        assert(one_table(ls, m, k));
                                    }
                                }
                                assert forall|j: int| k <= j <= k implies #[trigger] table_line(ls, j) by {}
                                lemma_sprint_table_rows_kept(ls, k + 1, tasks, Some(f), true, k, h2, k2, t);
                                assert(sprint_from(ls, k, tasks, cols, saw) == sprint_from(ls, k + 1, tasks, Some(f), true));
                            },
                            None => {
                                assert(!header_line(ls, k));
                                assert forall|m: int| 0 <= m < k + 1 && one_table(ls, m, k) implies !#[trigger] header_line(ls, m) by {
                                    if m < k {
                                        assert forall|j: int| m <= j <= k - 1 implies #[trigger] table_line(ls, j) by {
                                            assert(one_table(ls, m, k));
                                        }
                                    }
                                }
                                lemma_sprint_table_rows_kept(ls, k + 1, tasks, None, saw, h, h2, k2, t);
                                assert(sprint_from(ls, k, tasks, cols, saw) == sprint_from(ls, k + 1, tasks, None, saw));
                            },
                        }
                    },
                    Some(c) => {
                        assert forall|j: int| h <= j <= k implies #[trigger] table_line(ls, j) by {
                            if j < k {
                                assert(one_table(ls, h, k - 1));
                            }
                        }
                        if k == k2 {
                            if h2 < h {
                                assert forall|j: int| h2 <= j <= h implies #[trigger] table_line(ls, j) by {
                                    assert(one_table(ls, h2, k2));
                                }
                                assert(!header_line(ls, h2));
                            }
                            if h < h2 {
                                assert forall|j: int| h <= j <= h2 implies #[trigger] table_line(ls, j) by {
                                    assert(one_table(ls, h, k));
                                }
                                assert(!header_line(ls, h));
                            }
                            assert(h == h2);
                            assert(table_task(cells, c) == Some(t));
                            let t2 = tasks.push(t);
                            lemma_sprint_keeps_prefix(ls, k + 1, t2, cols, saw);
                            let o = sprint_from(ls, k + 1, t2, cols, saw).0;
                            assert(o[tasks.len() as int] == t2[tasks.len() as int]);
                            assert(t2[tasks.len() as int] == t);
                            assert(sprint_from(ls, k, tasks, cols, saw).0 == o);
                            assert(0 <= tasks.len() < o.len() && o[tasks.len() as int] == t);
                        } else {
                            match table_task(cells, c) {
                                Some(x) => {
                                    lemma_sprint_table_rows_kept(ls, k + 1, tasks.push(x), cols, saw, h, h2, k2, t);
                                    assert(sprint_from(ls, k, tasks, cols, saw) == sprint_from(ls, k + 1, tasks.push(x), cols, saw));
                                },
                                None => {
                                    lemma_sprint_table_rows_kept(ls, k + 1, tasks, cols, saw, h, h2, k2, t);
                                    assert(sprint_from(ls, k, tasks, cols, saw) == sprint_from(ls, k + 1, tasks, cols, saw));
                                },
                            }
                        }
                    },
                }
            }
        },
    }
}

/// Every row of a task table is read: a row that lies in the same table as
/// that table's first header line (naming ID, Title and Status), below it,
/// and that gives a task under the header's columns, gives that task in the
/// sprint's task list.
pub proof fn law_sprint_table_rows_all_read(raw: Seq<char>, h: int, k: int, t: TaskModel)
    requires
        task_from_table(lines_of(raw), h, k, t),
    ensures
        exists|i: int| 0 <= i < sprint_model(raw).len() && #[trigger] sprint_model(raw)[i] == t,
{
    let ls = lines_of(raw);
    lemma_sprint_tasks_from_tables(ls, 0, Seq::empty(), None, false, 0);
    law_sprint_tables_or_bullets(raw);
    assert(header_line(ls, h));
    lemma_sprint_table_rows_kept(ls, 0, Seq::empty(), None, false, 0, h, k, t);
}

/// Line `h` heads the task table that holds line `k`: `k` is a data row
/// (not a separator) below `h` in the same table, and `h` is that table's
/// first header line naming ID, Title and Status.
pub open spec fn heads_row(ls: Seq<Seq<char>>, h: int, k: int) -> bool {
    &&& 0 <= h < k < ls.len()
    &&& one_table(ls, h, k)
    &&& header_line(ls, h)
    &&& forall|m: int| 0 <= m < h && one_table(ls, m, h) ==> !#[trigger] header_line(ls, m)
    &&& !is_separator(row_cells(ls[k])->0)
}

/// The task that line `k` gives on its own: when a task table's header
/// heads it, the task its cells give under that header's columns.
pub open spec fn row_task(ls: Seq<Seq<char>>, k: int) -> Option<TaskModel> {
    if exists|h: int| #[trigger] heads_row(ls, h, k) {
        let h = choose|h: int| #[trigger] heads_row(ls, h, k);
        table_task(row_cells(ls[k])->0, header_columns(keys_of(row_cells(ls[h])->0))->0)
    } else {
        None
    }
}

/// The tasks that lines `k` on give, one line at a time, in file order.
pub open spec fn row_tasks_from(ls: Seq<Seq<char>>, k: int) -> Seq<TaskModel>
    decreases ls.len() - k,
{
    if k < 0 || k >= ls.len() {
        Seq::empty()
    } else {
        match row_task(ls, k) {
            Some(t) => seq![t] + row_tasks_from(ls, k + 1),
            None => row_tasks_from(ls, k + 1),
        }
    }
}

proof fn lemma_heads_row_unique(ls: Seq<Seq<char>>, h1: int, h2: int, k: int)
    requires
        heads_row(ls, h1, k),
        heads_row(ls, h2, k),
    ensures
        h1 == h2,
{
    if h1 < h2 {
        assert forall|j: int| h1 <= j <= h2 implies #[trigger] table_line(ls, j) by {
            assert(one_table(ls, h1, k));
        }
        assert(!header_line(ls, h1));
    }
    if h2 < h1 {
        assert forall|j: int| h2 <= j <= h1 implies #[trigger] table_line(ls, j) by {
            assert(one_table(ls, h2, k));
        }
        assert(!header_line(ls, h2));
    }
}

proof fn lemma_row_task_step(ls: Seq<Seq<char>>, k: int, cols: Option<(int, int, int)>, h: int)
    requires
        0 <= k < ls.len(),
        cols matches Some(c) ==> 0 <= h < k && header_line(ls, h) && header_columns(
            keys_of(row_cells(ls[h])->0),
        ) == Some(c) && one_table(ls, h, k - 1) && (forall|m: int|
            0 <= m < h && one_table(ls, m, h) ==> !#[trigger] header_line(ls, m)),
        cols is None ==> forall|m: int| 0 <= m < k && one_table(ls, m, k - 1) ==> !#[trigger] header_line(ls, m),
    ensures
        row_cells(ls[k]) is None ==> row_task(ls, k) is None,
        row_cells(ls[k]) is Some && is_separator(row_cells(ls[k])->0) ==> row_task(ls, k) is None,
        cols is None ==> row_task(ls, k) is None,
        row_cells(ls[k]) is Some && !is_separator(row_cells(ls[k])->0) && cols is Some ==> row_task(ls, k)
            == table_task(row_cells(ls[k])->0, cols->0),
{
    if exists|h2: int| #[trigger] heads_row(ls, h2, k) {
        let h2 = choose|h2: int| #[trigger] heads_row(ls, h2, k);
        assert(table_line(ls, k));
        if cols is None {
            assert forall|j: int| h2 <= j <= k - 1 implies #[trigger] table_line(ls, j) by {
                assert(one_table(ls, h2, k));
            }
            assert(!header_line(ls, h2));
        } else {
            assert forall|j: int| h <= j <= k implies #[trigger] table_line(ls, j) by {
                if j < k {
                    assert(one_table(ls, h, k - 1));
                }
            }
            assert(heads_row(ls, h, k));
            lemma_heads_row_unique(ls, h, h2, k);
        }
    } else {
        if row_cells(ls[k]) is Some && !is_separator(row_cells(ls[k])->0) && cols is Some {
            assert forall|j: int| h <= j <= k implies #[trigger] table_line(ls, j) by {
                if j < k {
                    assert(one_table(ls, h, k - 1));
                }
            }
            assert(heads_row(ls, h, k));
        }
    }
}

proof fn lemma_sprint_rows(
    ls: Seq<Seq<char>>,
    k: int,
    tasks: Seq<TaskModel>,
    cols: Option<(int, int, int)>,
    saw: bool,
    h: int,
)
    requires
        0 <= k <= ls.len(),
        cols matches Some(c) ==> 0 <= h < k && header_line(ls, h) && header_columns(
            keys_of(row_cells(ls[h])->0),
        ) == Some(c) && one_table(ls, h, k - 1) && (forall|m: int|
            0 <= m < h && one_table(ls, m, h) ==> !#[trigger] header_line(ls, m)),
        cols is None ==> forall|m: int| 0 <= m < k && one_table(ls, m, k - 1) ==> !#[trigger] header_line(ls, m),
    ensures
        sprint_from(ls, k, tasks, cols, saw).0 == tasks + row_tasks_from(ls, k),
    decreases ls.len() - k,
{
    if k == ls.len() {
        assert(tasks + Seq::<TaskModel>::empty() =~= tasks);
    } else {
        lemma_row_task_step(ls, k, cols, h);
        let r = row_tasks_from(ls, k + 1);
        match row_cells(ls[k]) {
            None => {
                assert forall|m: int| 0 <= m < k + 1 && one_table(ls, m, k) implies !#[trigger] header_line(ls, m) by {
                    assert(table_line(ls, k));
                }
                lemma_sprint_rows(ls, k + 1, tasks, None, saw, h);
            },
            Some(cells) => {
                assert(table_line(ls, k));
                if is_separator(cells) {
                    if cols is Some {
                        assert forall|j: int| h <= j <= k implies #[trigger] table_line(ls, j) by {
                            if j < k {
                                assert(one_table(ls, h, k - 1));
                            }
                        }
                    } else {
                        assert forall|m: int| 0 <= m < k + 1 && one_table(ls, m, k) implies !#[trigger] header_line(ls, m) by {
                            if m < k {
                                assert forall|j: int| m <= j <= k - 1 implies #[trigger] table_line(ls, j) by {
                                    assert(one_table(ls, m, k));
                                }
                            }
                        }
                    }
                    lemma_sprint_rows(ls, k + 1, tasks, cols, saw, h);
                } else {
                    match cols {
                        None => match header_columns(keys_of(cells)) {
                            Some(f) => {
                                assert(header_line(ls, k));
                                assert forall|m: int| 0 <= m < k && one_table(ls, m, k) implies !#[trigger] header_line(ls, m) by {
                                    assert forall|j: int| m <= j <= k - 1 implies #[trigger] table_line(ls, j) by {
                                        assert(one_table(ls, m, k));
                                    }
                                }
                                assert forall|j: int| k <= j <= k implies #[trigger] table_line(ls, j) by {}
                                lemma_sprint_rows(ls, k + 1, tasks, Some(f), true, k);
                            },
                            None => {
                                assert forall|m: int| 0 <= m < k + 1 && one_table(ls, m, k) implies !#[trigger] header_line(ls, m) by {
                                    if m < k {
                                        assert forall|j: int| m <= j <= k - 1 implies #[trigger] table_line(ls, j) by {
                                            assert(one_table(ls, m, k));
                                        }
                                    }
                                }
                                lemma_sprint_rows(ls, k + 1, tasks, None, saw, h);
                            },
                        },
                        Some(c) => {
                            assert forall|j: int| h <= j <= k implies #[trigger] table_line(ls, j) by {
                                if j < k {
                                    assert(one_table(ls, h, k - 1));
                                }
                            }
                            match table_task(cells, c) {
                                Some(t) => {
                                    lemma_sprint_rows(ls, k + 1, tasks.push(t), cols, saw, h);
                                    assert(tasks.push(t) + r =~= tasks + (seq![t] + r));
                                },
                                None => {
                                    lemma_sprint_rows(ls, k + 1, tasks, cols, saw, h);
                                },
                            }
                        },
                    }
                }
            },
        }
    }
}

/// When a SPRINT file has a task table, its tasks are exactly what its
/// lines give one at a time, in file order: each data row of a task table,
/// read under the columns of that table's own header, gives its task, and
/// no other line gives one.
pub proof fn law_sprint_tasks_are_the_rows_in_order(raw: Seq<char>)
    ensures
        (exists|m: int| 0 <= m < lines_of(raw).len() && #[trigger] header_line(lines_of(raw), m))
            ==> sprint_model(raw) == row_tasks_from(lines_of(raw), 0),
{
    let ls = lines_of(raw);
    lemma_sprint_tasks_from_tables(ls, 0, Seq::empty(), None, false, 0);
    law_sprint_tables_or_bullets(raw);
    lemma_sprint_rows(ls, 0, Seq::empty(), None, false, 0);
    assert(Seq::<TaskModel>::empty() + row_tasks_from(ls, 0) =~= row_tasks_from(ls, 0));
}

proof fn lemma_no_header_no_table(
    ls: Seq<Seq<char>>,
    k: int,
    tasks: Seq<TaskModel>,
    cols: Option<(int, int, int)>,
    saw: bool,
)
    requires
        0 <= k <= ls.len(),
        forall|m: int| 0 <= m < ls.len() ==> !#[trigger] header_line(ls, m),
        cols is None,
        !saw,
    ensures
        !sprint_from(ls, k, tasks, cols, saw).1,
    decreases ls.len() - k,
{
    if k < ls.len() {
        assert(!header_line(ls, k));
        lemma_no_header_no_table(ls, k + 1, tasks, None, false);
    }
}

/// The columns as integers.
pub open spec fn cols_view(c: Option<(usize, usize, usize)>) -> Option<(int, int, int)> {
    match c {
        Some((a, b, d)) => Some((a as int, b as int, d as int)),
        None => None,
    }
}

fn cell_or_empty(cells: &Vec<Vec<char>>, k: usize) -> (r: Vec<char>)
    ensures
        r@ == cell_at(views(cells@), k as int),
{
    if k < cells.len() {
        let c = cells[k].clone();
        assert(views(cells@)[k as int] == cells@[k as int]@);
        c
    } else {
        let e: Vec<char> = Vec::new();
        assert(e@ =~= Seq::<char>::empty());
        e
    }
}

/// Parse SPRINT-style task tables and, failing that, a `- [ ]` / `- [x]` bullet
/// list. Only tables whose header carries ID + (Tarefa|Title) + Status are read
/// as task lists; other tables (e.g. the NOTION Schema table) are ignored.
pub fn sprint_tasks(raw: &str) -> (r: Vec<SprintTask>)
    ensures
        task_views(r@) == sprint_model(raw@),
        forall|k: int| 0 <= k < r@.len() ==> #[trigger] r@[k].no_extras(),
{
    let cs = chars_of(raw);
    let ls = lines(cs.as_slice());
    let ghost lsv = views(ls@);
    let mut tasks: Vec<SprintTask> = Vec::new();
    let mut cols: Option<(usize, usize, usize)> = None;
    let mut saw = false;
    let mut i: usize = 0;
    assert(task_views(tasks@) =~= Seq::<TaskModel>::empty());
    while i < ls.len()
        invariant
            i <= ls@.len(),
            lsv == views(ls@),
            lsv == lines_of(raw@),
            sprint_from(lsv, 0, Seq::empty(), None, false) == sprint_from(
                lsv,
                i as int,
                task_views(tasks@),
                cols_view(cols),
                saw,
            ),
            forall|k: int| 0 <= k < tasks@.len() ==> #[trigger] tasks@[k].no_extras(),
        decreases ls@.len() - i,
    {
        assert(lsv[i as int] == ls@[i as int]@);
        match split_row_chars(ls[i].as_slice()) {
            None => {
                cols = None;
            },
            Some(cells) => {
                if is_separator_cells(&cells) {
                } else {
                    match cols {
                        None => {
                            match header_cols_chars(&cells) {
                                Some(f) => {
                                    cols = Some(f);
                                    saw = true;
                                },
                                None => {},
                            }
                        },
                        Some((id_c, title_c, status_c)) => {
                            let id = cell_or_empty(&cells, id_c);
                            let title = cell_or_empty(&cells, title_c);
                            let st = cell_or_empty(&cells, status_c);
                            if id.len() > 0 {
                                let low = lowered(st.as_slice());
                                let status = status_from_lowered(st.as_slice(), low.as_slice());
                                let t = plain_task(id.as_slice(), title.as_slice(), status);
                                let ghost before = tasks@;
                                tasks.push(t);
                                assert(task_views(tasks@) =~= task_views(before).push(t@));
                            }
                        },
                    }
                }
            },
        }
        i += 1;
    }
    if !saw {
        let extra = bullet_tasks_lines(&ls);
        let ghost before = tasks@;
        let mut extra = extra;
        tasks.append(&mut extra);
        assert(task_views(tasks@) =~= task_views(before) + bullets(lsv));
    }
    tasks
}


/// One HUMAN.md question (`### Q-NN · …`), bucketed Open vs Resolved.
#[derive(Clone, Debug, PartialEq, Eq)]
pub struct HumanQ {
    pub id: String,
    pub question: String,
    pub resolved: bool,
}

/// What a parsed question holds.
pub struct QuestionModel {
    pub id: Seq<char>,
    pub question: Seq<char>,
    pub resolved: bool,
}

impl View for HumanQ {
    type V = QuestionModel;

    open spec fn view(&self) -> QuestionModel {
        QuestionModel { id: self.id@, question: self.question@, resolved: self.resolved }
    }
}

/// The models of a sequence of questions.
pub open spec fn question_views(v: Seq<HumanQ>) -> Seq<QuestionModel> {
    v.map_values(|q: HumanQ| q@)
}

/// Length of the run of ASCII digits that `s` begins with.
pub open spec fn digit_run(s: Seq<char>) -> nat
    decreases s.len(),
{
    if s.len() > 0 && is_digit(s[0]) {
        1 + digit_run(s.drop_first())
    } else {
        0
    }
}

/// `Q-07` from the start of a heading body: `Q-` and the digits after it,
/// or `None` when there are none.
pub open spec fn q_id(s: Seq<char>) -> Option<Seq<char>> {
    if has_prefix(s, seq!['Q', '-']) && digit_run(s.skip(2)) > 0 {
        Some(s.take(2 + digit_run(s.skip(2)) as int))
    } else {
        None
    }
}

/// `s` up to (not including) its first `c`, or all of `s`.
pub open spec fn before_char(s: Seq<char>, c: char) -> Seq<char> {
    match find_char_from(s, c, 0) {
        Some(k) => s.take(k),
        None => s,
    }
}

/// The question text of a heading body `rest` whose id is `id`: after the
/// id and the `·` separators, up to the next `·` metadata separator, trimmed.
pub open spec fn question_text(rest: Seq<char>, id: Seq<char>) -> Seq<char> {
    let after = trim(strip_lead(ltrim(rest.skip(id.len() as int)), '·'));
    trim(before_char(after, '·'))
}

/// The new "inside the Resolved section" flag after a `## ` section heading
/// whose lowercase mapping is `lower`.
pub open spec fn section_flag(lower: Seq<char>, in_resolved: bool) -> bool {
    if contains_seq(lower, "resolved"@) || contains_seq(lower, "resolvid"@) {
        true
    } else if contains_seq(lower, "open question"@) || contains_seq(lower, "abertas"@) {
        false
    } else {
        in_resolved
    }
}

/// The HUMAN.md scan over lines `ls` from line `k` on, after the questions
/// `out`, inside (or not) the Resolved section.
pub open spec fn questions_from(
    ls: Seq<Seq<char>>,
    k: int,
    out: Seq<QuestionModel>,
    in_resolved: bool,
) -> Seq<QuestionModel>
    decreases ls.len() - k,
{
    if k < 0 || k >= ls.len() {
        out
    } else {
        let t = trim(ls[k]);
        let lower = lowercase(t);
        if has_prefix(t, seq!['#', '#', ' ']) {
            questions_from(ls, k + 1, out, section_flag(lower, in_resolved))
        } else if has_prefix(t, seq!['#', '#', '#', ' ']) && q_id(trim(t.skip(4))) is Some {
            let rest = trim(t.skip(4));
            let id = q_id(rest)->0;
            let q = QuestionModel {
                id,
                question: question_text(rest, id),
                resolved: in_resolved || contains_seq(lower, "resolved"@),
            };
            questions_from(ls, k + 1, out.push(q), in_resolved)
        } else {
            questions_from(ls, k + 1, out, in_resolved)
        }
    }
}

/// The questions of a HUMAN.md file, in file order.
pub open spec fn questions(raw: Seq<char>) -> Seq<QuestionModel> {
    questions_from(lines_of(raw), 0, Seq::empty(), false)
}

/// A question heading line: after trimming, `### ` and then a `Q-NN` id.
pub open spec fn is_question_line(l: Seq<char>) -> bool {
    has_prefix(trim(l), "### "@) && q_id(trim(trim(l).skip(4))) is Some
}

/// How many of the first `k` lines are question heading lines.
pub open spec fn questions_before(ls: Seq<Seq<char>>, k: int) -> nat
    decreases k,
{
    if k <= 0 || k > ls.len() {
        0
    } else {
        questions_before(ls, k - 1) + if is_question_line(ls[k - 1]) {
            1nat
        } else {
            0nat
        }
    }
}

/// A section heading line (`## ` after trimming) that opens the Resolved
/// section: it says "resolved" or "resolvid", in any letter case.
pub open spec fn opens_resolved(l: Seq<char>) -> bool {
    &&& has_prefix(trim(l), seq!['#', '#', ' '])
    &&& (contains_seq(lowercase(trim(l)), "resolved"@) || contains_seq(lowercase(trim(l)), "resolvid"@))
}

/// A section heading line that opens the open-questions section: it does
/// not open the Resolved one, and says "open question" or "abertas".
pub open spec fn opens_open(l: Seq<char>) -> bool {
    &&& has_prefix(trim(l), seq!['#', '#', ' '])
    &&& !opens_resolved(l)
    &&& (contains_seq(lowercase(trim(l)), "open question"@) || contains_seq(lowercase(trim(l)), "abertas"@))
}

/// Line `j` lies in the Resolved section: an earlier line opened it and no
/// line since has opened the open-questions section.
pub open spec fn in_resolved_section(ls: Seq<Seq<char>>, j: int) -> bool {
    exists|m: int|
        0 <= m < j && #[trigger] opens_resolved(ls[m]) && forall|n: int| m < n < j ==> !#[trigger] opens_open(ls[n])
}

/// What a question keeps of its heading line `ls[j]`: the id there; a
/// question text with no `·` separator in it and no whitespace at either
/// end; and a resolved flag that is set exactly when the line says
/// "resolved" (in any letter case) or lies in the Resolved section.
pub open spec fn keeps_heading(q: QuestionModel, ls: Seq<Seq<char>>, j: int) -> bool {
    &&& q.id == q_id(trim(trim(ls[j]).skip(4)))->0
    &&& forall|i: int| 0 <= i < q.question.len() ==> #[trigger] q.question[i] != '·'
    &&& q.question.len() > 0 ==> !is_ws(q.question[0]) && !is_ws(q.question.last())
    &&& q.resolved == (contains_seq(lowercase(trim(ls[j])), "resolved"@) || in_resolved_section(ls, j))
}

proof fn lemma_ltrim_suffix(s: Seq<char>)
    ensures
        ltrim(s).len() <= s.len(),
        ltrim(s) == s.skip(s.len() - ltrim(s).len()),
        ltrim(s).len() > 0 ==> !is_ws(ltrim(s)[0]),
    decreases s.len(),
{
    if s.len() > 0 && is_ws(s[0]) {
        lemma_ltrim_suffix(s.drop_first());
        assert(s.drop_first().skip(s.drop_first().len() - ltrim(s).len()) =~= s.skip(s.len() - ltrim(s).len()));
    } else {
        assert(s.skip(0) =~= s);
    }
}

proof fn lemma_rtrim_prefix(s: Seq<char>)
    ensures
        rtrim(s).len() <= s.len(),
        rtrim(s) == s.take(rtrim(s).len() as int),
        rtrim(s).len() > 0 ==> !is_ws(rtrim(s).last()),
    decreases s.len(),
{
    if s.len() > 0 && is_ws(s.last()) {
        lemma_rtrim_prefix(s.drop_last());
        assert(s.drop_last().take(rtrim(s).len() as int) =~= s.take(rtrim(s).len() as int));
    } else {
        assert(s.take(s.len() as int) =~= s);
    }
}

proof fn lemma_trim_shape(s: Seq<char>)
    ensures
        exists|a: int, b: int| 0 <= a <= b <= s.len() && trim(s) == s.subrange(a, b),
        trim(s).len() > 0 ==> !is_ws(trim(s)[0]) && !is_ws(trim(s).last()),
{
    lemma_ltrim_suffix(s);
    let l = ltrim(s);
    lemma_rtrim_prefix(l);
    let a = s.len() - l.len();
    let b = a + rtrim(l).len();
    assert(trim(s) =~= s.subrange(a, b));
    if trim(s).len() > 0 {
        assert(trim(s)[0] == l[0]);
    }
}

proof fn lemma_question_text_shape(rest: Seq<char>, id: Seq<char>)
    ensures
        forall|i: int| 0 <= i < question_text(rest, id).len() ==> #[trigger] question_text(rest, id)[i] != '·',
        question_text(rest, id).len() > 0 ==> !is_ws(question_text(rest, id)[0]) && !is_ws(
            question_text(rest, id).last(),
        ),
{
    let after = trim(strip_lead(ltrim(rest.skip(id.len() as int)), '·'));
    let b = before_char(after, '·');
    lemma_find_char_from(after, '·', 0);
    assert forall|i: int| 0 <= i < b.len() implies b[i] != '·' by {
        if let Some(k) = find_char_from(after, '·', 0) {
            assert(b[i] == after[i]);
        }
    }
    lemma_trim_shape(b);
    let (x, y) = choose|x: int, y: int| 0 <= x <= y <= b.len() && trim(b) == b.subrange(x, y);
    assert forall|i: int| 0 <= i < trim(b).len() implies #[trigger] trim(b)[i] != '·' by {
        assert(trim(b)[i] == b[x + i]);
    }
}

proof fn lemma_section_step(ls: Seq<Seq<char>>, k: int)
    requires
        0 <= k < ls.len(),
    ensures
        opens_resolved(ls[k]) ==> in_resolved_section(ls, k + 1),
        opens_open(ls[k]) ==> !in_resolved_section(ls, k + 1),
        !opens_resolved(ls[k]) && !opens_open(ls[k]) ==> in_resolved_section(ls, k + 1) == in_resolved_section(
            ls,
            k,
        ),
{
    if opens_resolved(ls[k]) {
        assert(forall|n: int| k < n < k + 1 ==> !#[trigger] opens_open(ls[n]));
    }
    if opens_open(ls[k]) {
        if in_resolved_section(ls, k + 1) {
            let m = choose|m: int|
                0 <= m < k + 1 && #[trigger] opens_resolved(ls[m]) && forall|n: int|
                    m < n < k + 1 ==> !#[trigger] opens_open(ls[n]);
            assert(m != k);
            assert(!opens_open(ls[k]));
        }
    }
    if !opens_resolved(ls[k]) && !opens_open(ls[k]) {
        if in_resolved_section(ls, k) {
            let m = choose|m: int|
                0 <= m < k && #[trigger] opens_resolved(ls[m]) && forall|n: int|
                    m < n < k ==> !#[trigger] opens_open(ls[n]);
            assert(forall|n: int| m < n < k + 1 ==> !#[trigger] opens_open(ls[n]));
        }
        if in_resolved_section(ls, k + 1) {
            let m = choose|m: int|
                0 <= m < k + 1 && #[trigger] opens_resolved(ls[m]) && forall|n: int|
                    m < n < k + 1 ==> !#[trigger] opens_open(ls[n]);
            assert(m != k);
            assert(forall|n: int| m < n < k ==> !#[trigger] opens_open(ls[n]));
        }
    }
}

proof fn lemma_questions_follow_lines(ls: Seq<Seq<char>>, k: int, out: Seq<QuestionModel>, in_resolved: bool)
    requires
        0 <= k <= ls.len(),
        out.len() == questions_before(ls, k),
        in_resolved == in_resolved_section(ls, k),
        forall|j: int|
            0 <= j < k && #[trigger] is_question_line(ls[j]) ==> keeps_heading(
                out[questions_before(ls, j) as int],
                ls,
                j,
            ),
    ensures
        questions_from(ls, k, out, in_resolved).len() == questions_before(ls, ls.len() as int),
        forall|i: int| 0 <= i < out.len() ==> questions_from(ls, k, out, in_resolved)[i] == out[i],
        forall|j: int|
            0 <= j < ls.len() && #[trigger] is_question_line(ls[j]) ==> keeps_heading(
                questions_from(ls, k, out, in_resolved)[questions_before(ls, j) as int],
                ls,
                j,
            ),
    decreases ls.len() - k,
{
    if k < ls.len() {
        reveal_strlit("### ");
        assert("### "@ =~= seq!['#', '#', '#', ' ']);
        let t = trim(ls[k]);
        let lower = lowercase(t);
        lemma_section_step(ls, k);
        assert(questions_before(ls, k + 1) == questions_before(ls, k) + if is_question_line(ls[k]) {
            1nat
        } else {
            0nat
        });
        if has_prefix(t, seq!['#', '#', ' ']) {
            if has_prefix(t, "### "@) {
                assert(t.take(4)[2] == '#');
                assert(t.take(3)[2] == ' ');
                assert(t.take(4)[2] == t[2]);
                assert(t.take(3)[2] == t[2]);
            }
            assert(!is_question_line(ls[k]));
            let next = section_flag(lower, in_resolved);
            assert(questions_from(ls, k, out, in_resolved) == questions_from(ls, k + 1, out, next));
            lemma_questions_follow_lines(ls, k + 1, out, next);
        } else if has_prefix(t, seq!['#', '#', '#', ' ']) && q_id(trim(t.skip(4))) is Some {
            assert(is_question_line(ls[k]));
            let rest = trim(t.skip(4));
            let id = q_id(rest)->0;
            let q = QuestionModel {
                id,
                question: question_text(rest, id),
                resolved: in_resolved || contains_seq(lower, "resolved"@),
            };
            let o2 = out.push(q);
            lemma_question_text_shape(rest, id);
            assert forall|j: int| 0 <= j < k + 1 && #[trigger] is_question_line(ls[j]) implies keeps_heading(
                o2[questions_before(ls, j) as int],
                ls,
                j,
            ) by {
                if j < k {
                    lemma_questions_before_mono(ls, j + 1, k);
                    assert(o2[questions_before(ls, j) as int] == out[questions_before(ls, j) as int]);
                }
            }
            assert(questions_from(ls, k, out, in_resolved) == questions_from(ls, k + 1, o2, in_resolved));
            lemma_questions_follow_lines(ls, k + 1, o2, in_resolved);
            assert forall|i: int| 0 <= i < out.len() implies questions_from(ls, k, out, in_resolved)[i]
                == out[i] by {
                assert(o2[i] == out[i]);
            }
        } else {
            assert(!is_question_line(ls[k]));
            assert(questions_from(ls, k, out, in_resolved) == questions_from(ls, k + 1, out, in_resolved));
            lemma_questions_follow_lines(ls, k + 1, out, in_resolved);
        }
    }
}

proof fn lemma_questions_before_mono(ls: Seq<Seq<char>>, a: int, b: int)
    requires
        0 <= a <= b <= ls.len(),
    ensures
        questions_before(ls, a) <= questions_before(ls, b),
    decreases b - a,
{
    if a < b {
        lemma_questions_before_mono(ls, a, b - 1);
    }
}

/// HUMAN.md questions follow the question heading lines one for one, in
/// file order: the question of each such line carries the line's id and a
/// text cut at the first `·` and trimmed (no `·` in it, no whitespace at
/// either end), and is flagged resolved exactly when its heading says
/// "resolved" (whatever section it sits in) or it sits in the Resolved
/// section, that is after a `## ` line saying "resolved" (or "resolvid")
/// with no open-questions section heading since.
pub proof fn law_questions_follow_headings(raw: Seq<char>)
    ensures
        questions(raw).len() == questions_before(lines_of(raw), lines_of(raw).len() as int),
        forall|j: int|
            0 <= j < lines_of(raw).len() && #[trigger] is_question_line(lines_of(raw)[j]) ==> keeps_heading(
                questions(raw)[questions_before(lines_of(raw), j) as int],
                lines_of(raw),
                j,
            ),
{
    lemma_questions_follow_lines(lines_of(raw), 0, Seq::empty(), false);
}

/// A question id: `Q-` followed by at least one ASCII digit and nothing else.
pub open spec fn question_id_form(id: Seq<char>) -> bool {
    &&& id.len() > 2
    &&& has_prefix(id, seq!['Q', '-'])
    &&& forall|i: int| 2 <= i < id.len() ==> is_digit(#[trigger] id[i])
}

proof fn lemma_digit_run(s: Seq<char>)
    ensures
        digit_run(s) <= s.len(),
        forall|i: int| 0 <= i < digit_run(s) ==> is_digit(#[trigger] s[i]),
    decreases s.len(),
{
    if s.len() > 0 && is_digit(s[0]) {
        lemma_digit_run(s.drop_first());
        assert forall|i: int| 0 <= i < digit_run(s) implies is_digit(#[trigger] s[i]) by {
            if i > 0 {
                assert(s[i] == s.drop_first()[i - 1]);
            }
        }
    }
}

proof fn lemma_questions_ids(ls: Seq<Seq<char>>, k: int, out: Seq<QuestionModel>, in_resolved: bool)
    requires
        forall|j: int| 0 <= j < out.len() ==> question_id_form(#[trigger] out[j].id),
    ensures
        forall|j: int|
            0 <= j < questions_from(ls, k, out, in_resolved).len() ==> question_id_form(
                #[trigger] questions_from(ls, k, out, in_resolved)[j].id,
            ),
    decreases ls.len() - k,
{
    if k < 0 || k >= ls.len() {
    } else {
        let t = trim(ls[k]);
        let lower = lowercase(t);
        if has_prefix(t, seq!['#', '#', ' ']) {
            assert(questions_from(ls, k, out, in_resolved) == questions_from(
                ls,
                k + 1,
                out,
                section_flag(lower, in_resolved),
            ));
            lemma_questions_ids(ls, k + 1, out, section_flag(lower, in_resolved));
        } else if has_prefix(t, seq!['#', '#', '#', ' ']) && q_id(trim(t.skip(4))) is Some {
            let rest = trim(t.skip(4));
            let id = q_id(rest)->0;
            lemma_digit_run(rest.skip(2));
            assert(id.take(2) =~= seq!['Q', '-']);
            assert forall|i: int| 2 <= i < id.len() implies is_digit(#[trigger] id[i]) by {
                assert(id[i] == rest.skip(2)[i - 2]);
            }
            let q = QuestionModel {
                id,
                question: question_text(rest, id),
                resolved: in_resolved || contains_seq(lower, "resolved"@),
            };
            assert forall|j: int| 0 <= j < out.push(q).len() implies question_id_form(
                #[trigger] out.push(q)[j].id,
            ) by {
                if j < out.len() {
                    assert(out.push(q)[j] == out[j]);
                }
            }
            assert(questions_from(ls, k, out, in_resolved) == questions_from(
                ls,
                k + 1,
                out.push(q),
                in_resolved,
            ));
            lemma_questions_ids(ls, k + 1, out.push(q), in_resolved);
        } else {
            assert(questions_from(ls, k, out, in_resolved) == questions_from(
                ls,
                k + 1,
                out,
                in_resolved,
            ));
            lemma_questions_ids(ls, k + 1, out, in_resolved);
        }
    }
}

/// Every HUMAN.md question carries an id of the form `Q-` and digits.
pub proof fn law_question_ids(raw: Seq<char>)
    ensures
        forall|j: int| 0 <= j < questions(raw).len() ==> question_id_form(#[trigger] questions(raw)[j].id),
{
    lemma_questions_ids(lines_of(raw), 0, Seq::empty(), false);
}

fn digits_len(s: &[char], from: usize) -> (n: usize)
    requires
        from <= s@.len(),
    ensures
        n == digit_run(s@.skip(from as int)),
        from + n <= s.len(),
{
    let mut i = from;
    while i < s.len() && '0' <= s[i] && s[i] <= '9'
        invariant
            from <= i <= s@.len(),
            digit_run(s@.skip(from as int)) == (i - from) + digit_run(s@.skip(i as int)),
        decreases s@.len() - i,
    {
        assert(s@.skip(i as int).drop_first() =~= s@.skip(i + 1));
        i += 1;
    }
    assert(digit_run(s@.skip(i as int)) == 0);
    i - from
}

fn q_id_chars(s: &[char]) -> (r: Option<Vec<char>>)
    ensures
        match r {
            Some(id) => q_id(s@) == Some(id@) && id@.len() <= s@.len(),
            None => q_id(s@) is None,
        },
{
    let qd = vec!['Q', '-'];
    if !has_prefix_exec(s, qd.as_slice()) {
        return None;
    }
    let n = digits_len(s, 2);
    if n == 0 {
        return None;
    }
    let id = slice_of(s, 0, 2 + n);
    assert(id@ =~= s@.take(2 + n));
    Some(id)
}

/// `Q-07` from the start of a heading body, else `None`.
pub fn parse_q_id(s: &str) -> (r: Option<String>)
    ensures
        match r {
            Some(id) => q_id(s@) == Some(id@),
            None => q_id(s@) is None,
        },
{
    let cs = chars_of(s);
    match q_id_chars(cs.as_slice()) {
        Some(id) => Some(string_of(id.as_slice())),
        None => None,
    }
}

fn strip_lead_chars(s: &[char], c: char) -> (r: Vec<char>)
    ensures
        r@ == strip_lead(s@, c),
{
    let n = s.len();
    let mut i: usize = 0;
    assert(s@.subrange(0, n as int) =~= s@);
    while i < n && s[i] == c
        invariant
            i <= n == s@.len(),
            strip_lead(s@, c) == strip_lead(s@.subrange(i as int, n as int), c),
        decreases n - i,
    {
        assert(s@.subrange(i as int, n as int).drop_first() =~= s@.subrange(i + 1, n as int));
        i += 1;
    }
    slice_of(s, i, n)
}

fn before_char_chars(s: &[char], c: char) -> (r: Vec<char>)
    ensures
        r@ == before_char(s@, c),
{
    match find_char(s, c, 0) {
        Some(k) => {
            proof {
                lemma_find_char_from(s@, c, 0);
            }
            let r = slice_of(s, 0, k);
            assert(r@ =~= s@.take(k as int));
            r
        },
        None => slice_of(s, 0, s.len()),
    }
}

fn question_text_chars(rest: &[char], idlen: usize) -> (r: Vec<char>)
    requires
        idlen <= rest@.len(),
    ensures
        r@ == trim(before_char(trim(strip_lead(ltrim(rest@.skip(idlen as int)), '·')), '·')),
{
    let tail = slice_of(rest, idlen, rest.len());
    assert(tail@ =~= rest@.skip(idlen as int));
    let a = ltrim_index(tail.as_slice());
    let lt = slice_of(tail.as_slice(), a, tail.len());
    let st = strip_lead_chars(lt.as_slice(), '·');
    let after = trimmed(st.as_slice());
    let q = before_char_chars(after.as_slice(), '·');
    trimmed(q.as_slice())
}

/// Parse HUMAN.md `### Q-NN · …` blocks, bucketing them by the `## Open
/// questions` / `## Resolved` section markers. A question after the Resolved
/// marker (or whose heading says `resolved`) is flagged resolved.
pub fn human_questions(raw: &str) -> (r: Vec<HumanQ>)
    ensures
        question_views(r@) == questions(raw@),
{
    let cs = chars_of(raw);
    let ls = lines(cs.as_slice());
    let ghost lsv = views(ls@);
    let mut out: Vec<HumanQ> = Vec::new();
    let mut in_resolved = false;
    let mut i: usize = 0;
    let h2 = vec!['#', '#', ' '];
    let h3 = vec!['#', '#', '#', ' '];
    assert(question_views(out@) =~= Seq::<QuestionModel>::empty());
    while i < ls.len()
        invariant
            i <= ls@.len(),
            lsv == views(ls@),
            lsv == lines_of(raw@),
            h2@ == seq!['#', '#', ' '],
            h3@ == seq!['#', '#', '#', ' '],
            questions(raw@) == questions_from(lsv, i as int, question_views(out@), in_resolved),
        decreases ls@.len() - i,
    {
        assert(lsv[i as int] == ls@[i as int]@);
        let t = trimmed(ls[i].as_slice());
        let lower = lowered(t.as_slice());
        if has_prefix_exec(t.as_slice(), h2.as_slice()) {
            let resolved_word = has(lower.as_slice(), "resolved") || has(lower.as_slice(), "resolvid");
            if resolved_word {
                in_resolved = true;
            } else if has(lower.as_slice(), "open question") || has(lower.as_slice(), "abertas") {
                in_resolved = false;
            }
        } else if has_prefix_exec(t.as_slice(), h3.as_slice()) {
            let body = slice_of(t.as_slice(), 4, t.len());
            assert(body@ =~= t@.skip(4));
            let rest = trimmed(body.as_slice());
            match q_id_chars(rest.as_slice()) {
                Some(id) => {
                    let question = question_text_chars(rest.as_slice(), id.len());
                    let resolved = in_resolved || has(lower.as_slice(), "resolved");
                    let q = HumanQ {
                        id: string_of(id.as_slice()),
                        question: string_of(question.as_slice()),
                        resolved,
                    };
                    let ghost before = out@;
                    out.push(q);
                    assert(question_views(out@) =~= question_views(before).push(q@));
                },
                None => {},
            }
        }
        i += 1;
    }
    out
}


/// Which tracker a ticket row came from.
#[derive(Clone, Copy, Debug, PartialEq, Eq, Structural)]
pub enum Provider {
    Notion,
    Jira,
}

/// A merged ticket row from NOTION.md and/or JIRA.md.
#[derive(Clone, Debug, PartialEq, Eq)]
pub struct Ticket {
    pub provider: Provider,
    pub id: String,
    pub title: String,
    pub status: String,
    pub meta: String,
}

/// What a ticket row holds (its `meta` is always empty).
pub struct TicketModel {
    pub provider: Provider,
    pub id: Seq<char>,
    pub title: Seq<char>,
    pub status: Seq<char>,
}

impl View for Ticket {
    type V = TicketModel;

    open spec fn view(&self) -> TicketModel {
        TicketModel {
            provider: self.provider,
            id: self.id@,
            title: self.title@,
            status: self.status@,
        }
    }
}

/// The models of a sequence of tickets.
pub open spec fn ticket_views(v: Seq<Ticket>) -> Seq<TicketModel> {
    v.map_values(|t: Ticket| t@)
}

/// Every ticket's `meta` is empty.
pub open spec fn metas_empty(v: Seq<Ticket>) -> bool {
    forall|k: int| 0 <= k < v.len() ==> (#[trigger] v[k]).meta@.len() == 0
}

/// `tok` is exactly `prefix` followed by digits and dots, with at least one
/// digit (so `CAD-2` never matches inside `CAD-25`, and `CAD-23.1` is an id).
pub open spec fn ticket_id_like(tok: Seq<char>, prefix: Seq<char>) -> bool {
    let rest = tok.skip(prefix.len() as int);
    &&& has_prefix(tok, prefix)
    &&& forall|i: int| 0 <= i < rest.len() ==> is_digit(#[trigger] rest[i]) || rest[i] == '.'
    &&& exists|i: int| 0 <= i < rest.len() && is_digit(#[trigger] rest[i])
}

fn ticket_id_like_chars(tok: &[char], prefix: &[char]) -> (b: bool)
    ensures
        b == ticket_id_like(tok@, prefix@),
{
    if !has_prefix_exec(tok, prefix) {
        return false;
    }
    let rest = slice_of(tok, prefix.len(), tok.len());
    assert(rest@ =~= tok@.skip(prefix@.len() as int));
    let mut i: usize = 0;
    let mut any_digit = false;
    while i < rest.len()
        invariant
            i <= rest@.len(),
            rest@ == tok@.skip(prefix@.len() as int),
            has_prefix(tok@, prefix@),
            forall|j: int| 0 <= j < i ==> is_digit(#[trigger] rest@[j]) || rest@[j] == '.',
            any_digit == exists|j: int| 0 <= j < i && is_digit(#[trigger] rest@[j]),
        decreases rest@.len() - i,
    {
        let c = rest[i];
        let d = '0' <= c && c <= '9';
        if !d && c != '.' {
            assert(!is_digit(rest@[i as int]) && rest@[i as int] != '.');
            assert(tok@.skip(prefix@.len() as int)[i as int] == c);
            assert(!ticket_id_like(tok@, prefix@));
            return false;
        }
        if d {
            any_digit = true;
        }
        i += 1;
    }
    any_digit
}

/// `true` if `tok` is exactly `<prefix><digits...>` with at least one digit and
/// no trailing id chars (word-bounded — `CAD-2` ≠ `CAD-25`).
pub fn looks_like_ticket_id(tok: &str, prefix: &str) -> (b: bool)
    ensures
        b == ticket_id_like(tok@, prefix@),
{
    let t = chars_of(tok);
    let p = chars_of(prefix);
    ticket_id_like_chars(t.as_slice(), p.as_slice())
}

/// A cell that reads as a status (a non-Todo bucket, or an explicit Todo
/// keyword or glyph), given its characters and lowercase mapping.
pub open spec fn status_like(cell: Seq<char>, lower: Seq<char>) -> bool {
    status_of(cell, lower) != TaskStatus::Todo || contains_seq(lower, "todo"@) || contains_seq(
        lower,
        "backlog"@,
    ) || contains_seq(lower, "fazer"@) || cell.contains('🌱')
}

fn status_like_chars(cell: &[char]) -> (b: bool)
    ensures
        b == status_like(cell@, lowercase(cell@)),
{
    let low = lowered(cell);
    let l = low.as_slice();
    !(status_from_lowered(cell, l) == TaskStatus::Todo) || has(l, "todo") || has(l, "backlog")
        || has(l, "fazer") || has_char(cell, '🌱')
}

/// Heuristic: a cell that looks like a status (glyph or keyword), used to pick
/// the status column out of a variable-width NOTION row.
pub fn is_status_cell(cell: &str) -> (b: bool)
    ensures
        b == status_like(cell@, lowercase(cell@)),
{
    let c = chars_of(cell);
    status_like_chars(c.as_slice())
}

/// The first status-like cell at or after index `k`, or empty.
pub open spec fn first_status_from(cells: Seq<Seq<char>>, k: int) -> Seq<char>
    decreases cells.len() - k,
{
    if k < 0 || k >= cells.len() {
        Seq::empty()
    } else if status_like(cells[k], lowercase(cells[k])) {
        cells[k]
    } else {
        first_status_from(cells, k + 1)
    }
}

/// The ticket a NOTION.md line denotes: a table row (not a separator) whose
/// first cell is a `CAD-` id; its title is the second cell and its status the
/// first status-like cell after that.
pub open spec fn notion_row(line: Seq<char>) -> Option<TicketModel> {
    match row_cells(line) {
        None => None,
        Some(cells) => if is_separator(cells) || cells.len() == 0 || !ticket_id_like(
            cells[0],
            "CAD-"@,
        ) {
            None
        } else {
            Some(
                TicketModel {
                    provider: Provider::Notion,
                    id: cells[0],
                    title: cell_at(cells, 1),
                    status: first_status_from(cells, 2),
                },
            )
        },
    }
}

/// Position of the first character of `s` at or after `k` that is `a` or
/// `b`, or the length of `s`.
pub open spec fn first_of_from(s: Seq<char>, a: char, b: char, k: int) -> int
    decreases s.len() - k,
{
    if k < 0 || k >= s.len() {
        s.len() as int
    } else if s[k] == a || s[k] == b {
        k
    } else {
        first_of_from(s, a, b, k + 1)
    }
}

/// Position of the first whitespace character of `s` at or after `k`, or
/// the length of `s`.
pub open spec fn first_ws_from(s: Seq<char>, k: int) -> int
    decreases s.len() - k,
{
    if k < 0 || k >= s.len() {
        s.len() as int
    } else if is_ws(s[k]) {
        k
    } else {
        first_ws_from(s, k + 1)
    }
}

/// The ticket a JIRA.md line denotes: after trimming, dropping leading `#`s
/// and trimming again, its first whitespace-separated token is a `SCRUM-` id;
/// the title is what follows, past `·` separators, up to the next `·` or `|`.
pub open spec fn jira_row(line: Seq<char>) -> Option<TicketModel> {
    let t = trim(strip_lead(trim(line), '#'));
    let m = first_ws_from(t, 0);
    let tok = t.take(m);
    if !ticket_id_like(tok, "SCRUM-"@) {
        None
    } else {
        let after = trim(strip_lead(ltrim(t.skip(m)), '·'));
        Some(
            TicketModel {
                provider: Provider::Jira,
                id: tok,
                title: trim(after.take(first_of_from(after, '·', '|', 0))),
                status: Seq::empty(),
            },
        )
    }
}

/// The tickets `row` yields for each of the lines `ls`, in order.
pub open spec fn notion_rows(ls: Seq<Seq<char>>) -> Seq<TicketModel>
    decreases ls.len(),
{
    if ls.len() == 0 {
        Seq::empty()
    } else {
        notion_rows(ls.drop_last()) + match notion_row(ls.last()) {
            Some(t) => seq![t],
            None => Seq::empty(),
        }
    }
}

/// The JIRA tickets of the lines `ls`, in order.
pub open spec fn jira_rows(ls: Seq<Seq<char>>) -> Seq<TicketModel>
    decreases ls.len(),
{
    if ls.len() == 0 {
        Seq::empty()
    } else {
        jira_rows(ls.drop_last()) + match jira_row(ls.last()) {
            Some(t) => seq![t],
            None => Seq::empty(),
        }
    }
}

fn first_status_chars(cells: &Vec<Vec<char>>) -> (r: Vec<char>)
    ensures
        r@ == first_status_from(views(cells@), 2),
{
    let mut k: usize = 2;
    while k < cells.len()
        invariant
            2 <= k,
            first_status_from(views(cells@), 2) == first_status_from(views(cells@), k as int),
        decreases cells@.len() - k,
    {
        assert(views(cells@)[k as int] == cells@[k as int]@);
        if status_like_chars(cells[k].as_slice()) {
            return cells[k].clone();
        }
        k += 1;
    }
    let e: Vec<char> = Vec::new();
    assert(e@ =~= Seq::<char>::empty());
    e
}

fn empty_string() -> (r: String)
    ensures
        r@ == Seq::<char>::empty(),
{
    String::new()
}

fn notion_line(line: &[char]) -> (r: Option<Ticket>)
    ensures
        match r {
            Some(t) => notion_row(line@) == Some(t@) && t.meta@.len() == 0,
            None => notion_row(line@) is None,
        },
{
    let cells = match split_row_chars(line) {
        Some(c) => c,
        None => return None,
    };
    if is_separator_cells(&cells) || cells.len() == 0 {
        return None;
    }
    assert(views(cells@)[0] == cells@[0]@);
    let cad = chars_of("CAD-");
    if !ticket_id_like_chars(cells[0].as_slice(), cad.as_slice()) {
        return None;
    }
    let title = cell_or_empty(&cells, 1);
    let status = first_status_chars(&cells);
    Some(
        Ticket {
            provider: Provider::Notion,
            id: string_of(cells[0].as_slice()),
            title: string_of(title.as_slice()),
            status: string_of(status.as_slice()),
            meta: empty_string(),
        },
    )
}

fn first_ws_chars(s: &[char]) -> (m: usize)
    ensures
        m as int == first_ws_from(s@, 0),
        m <= s@.len(),
{
    let mut k: usize = 0;
    while k < s.len() && !char_is_ws(s[k])
        invariant
            k <= s@.len(),
            first_ws_from(s@, 0) == first_ws_from(s@, k as int),
        decreases s@.len() - k,
    {
        k += 1;
    }
    k
}

fn first_of_chars(s: &[char], a: char, b: char) -> (m: usize)
    ensures
        m as int == first_of_from(s@, a, b, 0),
        m <= s@.len(),
{
    let mut k: usize = 0;
    while k < s.len() && s[k] != a && s[k] != b
        invariant
            k <= s@.len(),
            first_of_from(s@, a, b, 0) == first_of_from(s@, a, b, k as int),
        decreases s@.len() - k,
    {
        k += 1;
    }
    k
}

fn jira_line(line: &[char]) -> (r: Option<Ticket>)
    ensures
        match r {
            Some(t) => jira_row(line@) == Some(t@) && t.meta@.len() == 0,
            None => jira_row(line@) is None,
        },
{
    let t0 = trimmed(line);
    let t1 = strip_lead_chars(t0.as_slice(), '#');
    let t = trimmed(t1.as_slice());
    let m = first_ws_chars(t.as_slice());
    let tok = slice_of(t.as_slice(), 0, m);
    assert(tok@ =~= t@.take(m as int));
    let scrum = chars_of("SCRUM-");
    if !ticket_id_like_chars(tok.as_slice(), scrum.as_slice()) {
        return None;
    }
    let tail = slice_of(t.as_slice(), m, t.len());
    assert(tail@ =~= t@.skip(m as int));
    let a = ltrim_index(tail.as_slice());
    let lt = slice_of(tail.as_slice(), a, tail.len());
    let st = strip_lead_chars(lt.as_slice(), '·');
    let after = trimmed(st.as_slice());
    let e = first_of_chars(after.as_slice(), '·', '|');
    let head = slice_of(after.as_slice(), 0, e);
    assert(head@ =~= after@.take(e as int));
    let title = trimmed(head.as_slice());
    Some(
        Ticket {
            provider: Provider::Jira,
            id: string_of(tok.as_slice()),
            title: string_of(title.as_slice()),
            status: empty_string(),
            meta: empty_string(),
        },
    )
}

/// Parse the NOTION ticket table: a row whose first cell is a `CAD-XX` id.
pub fn notion_tickets(raw: &str) -> (r: Vec<Ticket>)
    ensures
        ticket_views(r@) == notion_rows(lines_of(raw@)),
        metas_empty(r@),
{
    let cs = chars_of(raw);
    let ls = lines(cs.as_slice());
    let mut out: Vec<Ticket> = Vec::new();
    let mut i: usize = 0;
    while i < ls.len()
        invariant
            i <= ls@.len(),
            views(ls@) == lines_of(raw@),
            ticket_views(out@) == notion_rows(views(ls@).take(i as int)),
            metas_empty(out@),
        decreases ls@.len() - i,
    {
        let ghost before = out@;
        assert(views(ls@).take(i + 1).drop_last() =~= views(ls@).take(i as int));
        assert(views(ls@).take(i + 1).last() == ls@[i as int]@);
        match notion_line(ls[i].as_slice()) {
            Some(t) => {
                out.push(t);
                assert(ticket_views(out@) =~= ticket_views(before) + seq![t@]);
            },
            None => {
                assert(ticket_views(out@) =~= ticket_views(before) + Seq::<TicketModel>::empty());
            },
        }
        i += 1;
    }
    assert(views(ls@).take(i as int) =~= views(ls@));
    out
}

/// Parse JIRA `SCRUM-XX` references — either a `### SCRUM-XX · title` heading or
/// a plain line that starts with the id.
pub fn jira_tickets(raw: &str) -> (r: Vec<Ticket>)
    ensures
        ticket_views(r@) == jira_rows(lines_of(raw@)),
        metas_empty(r@),
{
    let cs = chars_of(raw);
    let ls = lines(cs.as_slice());
    let mut out: Vec<Ticket> = Vec::new();
    let mut i: usize = 0;
    while i < ls.len()
        invariant
            i <= ls@.len(),
            views(ls@) == lines_of(raw@),
            ticket_views(out@) == jira_rows(views(ls@).take(i as int)),
            metas_empty(out@),
        decreases ls@.len() - i,
    {
        let ghost before = out@;
        assert(views(ls@).take(i + 1).drop_last() =~= views(ls@).take(i as int));
        assert(views(ls@).take(i + 1).last() == ls@[i as int]@);
        match jira_line(ls[i].as_slice()) {
            Some(t) => {
                out.push(t);
                assert(ticket_views(out@) =~= ticket_views(before) + seq![t@]);
            },
            None => {
                assert(ticket_views(out@) =~= ticket_views(before) + Seq::<TicketModel>::empty());
            },
        }
        i += 1;
    }
    assert(views(ls@).take(i as int) =~= views(ls@));
    out
}


/// `a` sorts strictly before `b` by code point, lexicographically (a proper
/// prefix first) — the order of `str`'s `<`.
pub open spec fn seq_lt(a: Seq<char>, b: Seq<char>) -> bool
    decreases a.len(),
{
    if a.len() == 0 {
        b.len() > 0
    } else if b.len() == 0 {
        false
    } else if a[0] != b[0] {
        (a[0] as u32) < (b[0] as u32)
    } else {
        seq_lt(a.drop_first(), b.drop_first())
    }
}

fn chars_lt(a: &[char], b: &[char]) -> (r: bool)
    ensures
        r == seq_lt(a@, b@),
{
    let mut i: usize = 0;
    assert(a@.skip(0) =~= a@);
    assert(b@.skip(0) =~= b@);
    while i < a.len() && i < b.len() && a[i] == b[i]
        invariant
            i <= a@.len(),
            i <= b@.len(),
            seq_lt(a@, b@) == seq_lt(a@.skip(i as int), b@.skip(i as int)),
        decreases a@.len() - i,
    {
        assert(a@.skip(i as int).drop_first() =~= a@.skip(i + 1));
        assert(b@.skip(i as int).drop_first() =~= b@.skip(i + 1));
        i += 1;
    }
    if i == a.len() {
        i < b.len()
    } else if i == b.len() {
        false
    } else {
        (a[i] as u32) < (b[i] as u32)
    }
}

/// The status-bucket weight of a ticket's status cell.
pub open spec fn ticket_weight(t: TicketModel) -> u8 {
    status_of(t.status, lowercase(t.status)).weight()
}

/// `a` sorts strictly after `b`: by status weight (Doing, Todo, Blocked,
/// Done), then by id.
pub open spec fn sorts_after(a: TicketModel, b: TicketModel) -> bool {
    ticket_weight(a) > ticket_weight(b) || (ticket_weight(a) == ticket_weight(b) && seq_lt(
        b.id,
        a.id,
    ))
}

/// Where `x` goes in the sorted `s` (searching from `k`): before the first
/// element that sorts after it, so equal keys keep their arrival order.
pub open spec fn insert_pos_from(s: Seq<TicketModel>, x: TicketModel, k: int) -> int
    decreases s.len() - k,
{
    if k < 0 || k >= s.len() {
        s.len() as int
    } else if sorts_after(s[k], x) {
        k
    } else {
        insert_pos_from(s, x, k + 1)
    }
}

/// Stable sort of tickets by status weight then id (insertion order for ties).
pub open spec fn sort_tickets(s: Seq<TicketModel>) -> Seq<TicketModel>
    decreases s.len(),
{
    if s.len() == 0 {
        s
    } else {
        let sorted = sort_tickets(s.drop_last());
        sorted.insert(insert_pos_from(sorted, s.last(), 0), s.last())
    }
}

/// `insert_pos_from` lands between `k` and the end.
pub proof fn lemma_insert_pos_bounds(s: Seq<TicketModel>, x: TicketModel, k: int)
    requires
        0 <= k <= s.len(),
    ensures
        k <= insert_pos_from(s, x, k) <= s.len(),
    decreases s.len() - k,
{
    if k < s.len() && !sorts_after(s[k], x) {
        lemma_insert_pos_bounds(s, x, k + 1);
    }
}

/// `seq_lt` never holds of a sequence and itself.
proof fn lemma_seq_lt_irreflexive(a: Seq<char>)
    ensures
        !seq_lt(a, a),
    decreases a.len(),
{
    if a.len() > 0 {
        lemma_seq_lt_irreflexive(a.drop_first());
    }
}

/// `seq_lt` is transitive.
proof fn lemma_seq_lt_transitive(a: Seq<char>, b: Seq<char>, c: Seq<char>)
    requires
        seq_lt(a, b),
        seq_lt(b, c),
    ensures
        seq_lt(a, c),
    decreases a.len(),
{
    if a.len() > 0 && b.len() > 0 && c.len() > 0 && a[0] == b[0] && b[0] == c[0] {
        lemma_seq_lt_transitive(a.drop_first(), b.drop_first(), c.drop_first());
    }
}

/// `sorts_after` is a strict order: irreflexive and transitive.
proof fn lemma_sorts_after_strict(a: TicketModel, b: TicketModel, c: TicketModel)
    ensures
        !sorts_after(a, a),
        sorts_after(a, b) && sorts_after(b, c) ==> sorts_after(a, c),
{
    lemma_seq_lt_irreflexive(a.id);
    if sorts_after(a, b) && sorts_after(b, c) && ticket_weight(a) == ticket_weight(b)
        && ticket_weight(b) == ticket_weight(c) {
        lemma_seq_lt_transitive(c.id, b.id, a.id);
    }
}

/// Before `insert_pos_from(s, x, k)` (from `k` on) nothing sorts after `x`;
/// at that position, if inside `s`, the element sorts after `x`.
proof fn lemma_insert_pos_split(s: Seq<TicketModel>, x: TicketModel, k: int)
    requires
        0 <= k <= s.len(),
    ensures
        forall|j: int| k <= j < insert_pos_from(s, x, k) ==> !sorts_after(#[trigger] s[j], x),
        insert_pos_from(s, x, k) < s.len() ==> sorts_after(s[insert_pos_from(s, x, k)], x),
    decreases s.len() - k,
{
    if k < s.len() && !sorts_after(s[k], x) {
        lemma_insert_pos_split(s, x, k + 1);
    }
}

/// No ticket of `s` sorts after a ticket listed later.
pub open spec fn tickets_sorted(s: Seq<TicketModel>) -> bool {
    forall|i: int, j: int| 0 <= i < j < s.len() ==> !sorts_after(#[trigger] s[i], #[trigger] s[j])
}

/// Sorting tickets keeps every ticket (as often as it came) and leaves them
/// ordered by status bucket (Doing, Todo, Blocked, Done) and then by id.
pub proof fn law_sort_tickets(s: Seq<TicketModel>)
    ensures
        tickets_sorted(sort_tickets(s)),
        sort_tickets(s).to_multiset() == s.to_multiset(),
    decreases s.len(),
{
    broadcast use vstd::seq_lib::to_multiset_build, vstd::seq_lib::to_multiset_insert;

    if s.len() > 0 {
        let p = sort_tickets(s.drop_last());
        let x = s.last();
        law_sort_tickets(s.drop_last());
        lemma_insert_pos_bounds(p, x, 0);
        lemma_insert_pos_split(p, x, 0);
        let pos = insert_pos_from(p, x, 0);
        let r = p.insert(pos, x);
        assert(r == sort_tickets(s));
        assert forall|i: int, j: int| 0 <= i < j < r.len() implies !sorts_after(
            #[trigger] r[i],
            #[trigger] r[j],
        ) by {
            if i == pos {
                assert(r[j] == p[j - 1]);
                lemma_sorts_after_strict(p[pos], x, p[j - 1]);
                lemma_sorts_after_strict(x, p[pos], x);
                if j - 1 > pos {
                    assert(!sorts_after(p[pos], p[j - 1]));
                }
            } else if j == pos {
                assert(r[i] == p[i]);
            } else {
                let pi = if i < pos { i } else { i - 1 };
                let pj = if j < pos { j } else { j - 1 };
                assert(r[i] == p[pi] && r[j] == p[pj]);
                assert(!sorts_after(p[pi], p[pj]));
            }
        }
        assert(s =~= s.drop_last().push(x));
    }
}

/// The place of a status bucket in the ticket list: Doing first, then
/// Todo, Blocked and Done.
pub open spec fn bucket_rank(s: TaskStatus) -> int {
    match s {
        TaskStatus::Doing => 0,
        TaskStatus::Todo => 1,
        TaskStatus::Blocked => 2,
        TaskStatus::Done => 3,
    }
}

/// The bucket rank of a ticket's status cell.
pub open spec fn ticket_rank(t: TicketModel) -> int {
    bucket_rank(status_of(t.status, lowercase(t.status)))
}

/// `a` comes no later than `b` in code-point order (`str`'s `<=`): `a` is a
/// prefix of `b`, or where they first differ `a` has the smaller character.
pub open spec fn id_le(a: Seq<char>, b: Seq<char>) -> bool {
    ||| (a.len() <= b.len() && b.take(a.len() as int) == a)
    ||| exists|k: int|
        0 <= k < a.len() && k < b.len() && a.take(k) == b.take(k) && #[trigger] a[k] != b[k] && (
        a[k] as u32) <= (b[k] as u32)
}

proof fn lemma_not_lt_is_le(a: Seq<char>, b: Seq<char>)
    requires
        !seq_lt(b, a),
    ensures
        id_le(a, b),
    decreases a.len(),
{
    if a.len() == 0 {
        assert(b.take(0) =~= a);
    } else if b.len() == 0 {
    } else if a[0] != b[0] {
        assert(a.take(0) =~= b.take(0));
    } else {
        let a1 = a.drop_first();
        let b1 = b.drop_first();
        lemma_not_lt_is_le(a1, b1);
        if a1.len() <= b1.len() && b1.take(a1.len() as int) == a1 {
            assert(a =~= seq![a[0]] + a1);
            assert(b.take(a.len() as int) =~= seq![b[0]] + b1.take(a1.len() as int));
        } else {
            let k = choose|k: int|
                0 <= k < a1.len() && k < b1.len() && a1.take(k) == b1.take(k) && #[trigger] a1[k]
                    != b1[k] && (a1[k] as u32) <= (b1[k] as u32);
            assert(a.take(k + 1) =~= seq![a[0]] + a1.take(k));
            assert(b.take(k + 1) =~= seq![b[0]] + b1.take(k));
            assert(a[k + 1] == a1[k] && b[k + 1] == b1[k]);
        }
    }
}

/// The merged ticket list runs by status bucket (Doing, Todo, Blocked,
/// Done) and, within a bucket, by id in code-point order: for any two
/// tickets, the earlier one has a lower bucket, or the same bucket and an id
/// that is not greater.
pub proof fn law_tickets_by_bucket_then_id(s: Seq<TicketModel>)
    ensures
        forall|i: int, j: int|
            0 <= i < j < sort_tickets(s).len() ==> ticket_rank(#[trigger] sort_tickets(s)[i]) < ticket_rank(
                #[trigger] sort_tickets(s)[j],
            ) || (ticket_rank(sort_tickets(s)[i]) == ticket_rank(sort_tickets(s)[j]) && id_le(
                sort_tickets(s)[i].id,
                sort_tickets(s)[j].id,
            )),
{
    law_sort_tickets(s);
    let r = sort_tickets(s);
    assert forall|i: int, j: int| 0 <= i < j < r.len() implies ticket_rank(#[trigger] r[i]) < ticket_rank(
        #[trigger] r[j],
    ) || (ticket_rank(r[i]) == ticket_rank(r[j]) && id_le(r[i].id, r[j].id)) by {
        assert(!sorts_after(r[i], r[j]));
        if ticket_weight(r[i]) == ticket_weight(r[j]) {
            lemma_not_lt_is_le(r[i].id, r[j].id);
        }
    }
}

fn weight_of(t: &Ticket) -> (w: u8)
    ensures
        w == ticket_weight(t@),
{
    let c = chars_of(t.status.as_str());
    let low = lowered(c.as_slice());
    status_from_lowered(c.as_slice(), low.as_slice()).order()
}

fn sort_by_status(v: Vec<Ticket>) -> (r: Vec<Ticket>)
    ensures
        ticket_views(r@) == sort_tickets(ticket_views(v@)),
        metas_empty(v@) ==> metas_empty(r@),
{
    let ghost orig = v@;
    let mut v = v;
    let n = v.len();
    let mut out: Vec<Ticket> = Vec::new();
    let mut ws: Vec<u8> = Vec::new();
    let mut ids: Vec<Vec<char>> = Vec::new();
    let mut i: usize = 0;
    assert(ticket_views(orig).take(0) =~= Seq::<TicketModel>::empty());
    while i < n
        invariant
            n == orig.len(),
            i <= n,
            v@ == orig.skip(i as int),
            ticket_views(out@) == sort_tickets(ticket_views(orig).take(i as int)),
            ws@.len() == out@.len(),
            ids@.len() == out@.len(),
            forall|k: int| 0 <= k < out@.len() ==> #[trigger] ws@[k] == ticket_weight(out@[k]@),
            forall|k: int| 0 <= k < out@.len() ==> #[trigger] ids@[k]@ == out@[k]@.id,
            metas_empty(orig) ==> metas_empty(out@),
        decreases n - i,
    {
        assert(v@[0] == orig[i as int]);
        let x = v.remove(0);
        assert(v@ =~= orig.skip(i + 1));
        let wx = weight_of(&x);
        let idx = chars_of(x.id.as_str());
        let ghost sv = ticket_views(out@);
        let mut k: usize = 0;
        while k < out.len() && !(ws[k] > wx || (ws[k] == wx && chars_lt(idx.as_slice(), ids[k].as_slice())))
            invariant
                k <= out@.len(),
                sv == ticket_views(out@),
                ws@.len() == out@.len(),
                ids@.len() == out@.len(),
                forall|j: int| 0 <= j < out@.len() ==> #[trigger] ws@[j] == ticket_weight(out@[j]@),
                forall|j: int| 0 <= j < out@.len() ==> #[trigger] ids@[j]@ == out@[j]@.id,
                wx == ticket_weight(x@),
                idx@ == x@.id,
                insert_pos_from(sv, x@, 0) == insert_pos_from(sv, x@, k as int),
            decreases out@.len() - k,
        {
            assert(sv[k as int] == out@[k as int]@);
            k += 1;
        }
        proof {
            if k < out@.len() {
                assert(sv[k as int] == out@[k as int]@);
            }
            assert(ticket_views(orig).take(i + 1).drop_last() =~= ticket_views(orig).take(i as int));
            assert(ticket_views(orig).take(i + 1).last() == x@);
        }
        let ghost before = out@;
        let ghost wb = ws@;
        let ghost ib = ids@;
        out.insert(k, x);
        ws.insert(k, wx);
        ids.insert(k, idx);
        proof {
            assert(ticket_views(out@) =~= sv.insert(k as int, x@));
            assert forall|j: int| 0 <= j < out@.len() implies #[trigger] ws@[j] == ticket_weight(
                out@[j]@,
            ) by {
                if j < k {
                    assert(ws@[j] == wb[j] && out@[j] == before[j]);
                } else if j > k {
                    assert(ws@[j] == wb[j - 1] && out@[j] == before[j - 1]);
                }
            }
            assert forall|j: int| 0 <= j < out@.len() implies #[trigger] ids@[j]@ == out@[j]@.id by {
                if j < k {
                    assert(ids@[j] == ib[j] && out@[j] == before[j]);
                } else if j > k {
                    assert(ids@[j] == ib[j - 1] && out@[j] == before[j - 1]);
                }
            }
            if metas_empty(orig) {
                assert(x == orig[i as int]);
                assert forall|j: int| 0 <= j < out@.len() implies (#[trigger] out@[j]).meta@.len() == 0 by {
                    if j < k {
                        assert(out@[j] == before[j]);
                    } else if j > k {
                        assert(out@[j] == before[j - 1]);
                    }
                }
            }
        }
        i += 1;
    }
    assert(ticket_views(orig).take(n as int) =~= ticket_views(orig));
    out
}

/// Merge ticket rows from NOTION.md (markdown table) and JIRA.md (`SCRUM-XX`
/// lines / `### SCRUM-XX` headings). Provider-tagged; sorted by status bucket
/// (Doing < Todo < Done) then id. Ticket IDs are word-bounded so `CAD-2` never
/// shadows `CAD-25`.
pub fn tickets_merged(notion_raw: &str, jira_raw: &str) -> (r: Vec<Ticket>)
    ensures
        ticket_views(r@) == sort_tickets(
            notion_rows(lines_of(notion_raw@)) + jira_rows(lines_of(jira_raw@)),
        ),
        metas_empty(r@),
{
    let mut out = notion_tickets(notion_raw);
    let mut j = jira_tickets(jira_raw);
    let ghost a = out@;
    let ghost b = j@;
    out.append(&mut j);
    assert(ticket_views(out@) =~= ticket_views(a) + ticket_views(b));
    assert(metas_empty(out@)) by {
        assert forall|k: int| 0 <= k < out@.len() implies (#[trigger] out@[k]).meta@.len() == 0 by {
            if k < a.len() {
                assert(out@[k] == a[k]);
            } else {
                assert(out@[k] == b[k - a.len()]);
            }
        }
    }
    sort_by_status(out)
}

/// A ticket carries an id of its tracker's form: `CAD-` and digits for
/// Notion, `SCRUM-` and digits for Jira.
pub open spec fn tracker_id(t: TicketModel) -> bool {
    ||| (t.provider == Provider::Notion && ticket_id_like(t.id, "CAD-"@))
    ||| (t.provider == Provider::Jira && ticket_id_like(t.id, "SCRUM-"@))
}

proof fn lemma_notion_rows_ids(ls: Seq<Seq<char>>)
    ensures
        forall|k: int| 0 <= k < notion_rows(ls).len() ==> tracker_id(#[trigger] notion_rows(ls)[k]),
    decreases ls.len(),
{
    if ls.len() > 0 {
        lemma_notion_rows_ids(ls.drop_last());
        let p = notion_rows(ls.drop_last());
        assert forall|k: int| 0 <= k < notion_rows(ls).len() implies tracker_id(
            #[trigger] notion_rows(ls)[k],
        ) by {
            if k < p.len() {
                assert(notion_rows(ls)[k] == p[k]);
            }
        }
    }
}

proof fn lemma_jira_rows_ids(ls: Seq<Seq<char>>)
    ensures
        forall|k: int| 0 <= k < jira_rows(ls).len() ==> tracker_id(#[trigger] jira_rows(ls)[k]),
    decreases ls.len(),
{
    if ls.len() > 0 {
        lemma_jira_rows_ids(ls.drop_last());
        let p = jira_rows(ls.drop_last());
        assert forall|k: int| 0 <= k < jira_rows(ls).len() implies tracker_id(
            #[trigger] jira_rows(ls)[k],
        ) by {
            if k < p.len() {
                assert(jira_rows(ls)[k] == p[k]);
            }
        }
    }
}

/// Every merged ticket comes from its tracker with an id of that tracker's
/// form, word-bounded: `CAD-` or `SCRUM-` followed only by digits and dots.
pub proof fn law_merged_ticket_ids(notion_raw: Seq<char>, jira_raw: Seq<char>)
    ensures
        forall|k: int|
            0 <= k < sort_tickets(notion_rows(lines_of(notion_raw)) + jira_rows(lines_of(jira_raw))).len()
                ==> tracker_id(
                #[trigger] sort_tickets(notion_rows(lines_of(notion_raw)) + jira_rows(lines_of(jira_raw)))[k],
            ),
{
    broadcast use vstd::seq_lib::to_multiset_contains;

    let a = notion_rows(lines_of(notion_raw));
    let b = jira_rows(lines_of(jira_raw));
    let s = a + b;
    let r = sort_tickets(s);
    law_sort_tickets(s);
    lemma_notion_rows_ids(lines_of(notion_raw));
    lemma_jira_rows_ids(lines_of(jira_raw));
    assert forall|k: int| 0 <= k < r.len() implies tracker_id(#[trigger] r[k]) by {
        let x = r[k];
        assert(r.contains(x));
        assert(r.to_multiset().count(x) > 0);
        assert(s.contains(x));
        let j = choose|j: int| 0 <= j < s.len() && s[j] == x;
        if j < a.len() {
            assert(s[j] == a[j]);
        } else {
            assert(s[j] == b[j - a.len()]);
        }
    }
}

/// A ticket whose status falls in `status`'s bucket passes `filter`: `All`
/// passes everything, the others their own bucket only.
pub open spec fn filter_passes(status: TaskStatus, filter: TicketFilter) -> bool {
    match filter {
        TicketFilter::All => true,
        TicketFilter::Doing => status == TaskStatus::Doing,
        TicketFilter::Todo => status == TaskStatus::Todo,
        TicketFilter::Done => status == TaskStatus::Done,
    }
}

/// Whether a ticket shows under the Tickets panel's status filter chip.
pub fn ticket_matches_filter(t: &Ticket, filter: TicketFilter) -> (b: bool)
    ensures
        b == filter_passes(status_of(t.status@, lowercase(t.status@)), filter),
{
    let status = status_from_cell(t.status.as_str());
    match filter {
        TicketFilter::All => true,
        TicketFilter::Doing => status == TaskStatus::Doing,
        TicketFilter::Todo => status == TaskStatus::Todo,
        TicketFilter::Done => status == TaskStatus::Done,
    }
}

/// A ticket shows in the Tickets panel under `filter` and the lowercased
/// search text `q`: it passes the status filter and, unless `q` is empty,
/// its lowercased id or title contains `q`.
pub open spec fn ticket_shown(t: TicketModel, filter: TicketFilter, q: Seq<char>) -> bool {
    &&& filter_passes(status_of(t.status, lowercase(t.status)), filter)
    &&& (q.len() == 0 || contains_seq(lowercase(t.id), q) || contains_seq(lowercase(t.title), q))
}

/// The positions, in order, of the tickets the panel lists for `filter` and
/// the search text `query` (matched case-insensitively on id and title).
pub fn visible_tickets(tickets: &[Ticket], filter: TicketFilter, query: &str) -> (r: Vec<usize>)
    ensures
        forall|k: int| 0 <= k < r@.len() ==> (#[trigger] r@[k]) < tickets@.len(),
        forall|k: int, l: int| 0 <= k < l < r@.len() ==> #[trigger] r@[k] < #[trigger] r@[l],
        forall|i: int|
            0 <= i < tickets@.len() ==> (r@.contains(i as usize) <==> ticket_shown(
                #[trigger] tickets@[i]@,
                filter,
                lowercase(query@),
            )),
{
    let ql = to_lowercase(query);
    let q = chars_of(ql.as_str());
    let mut r: Vec<usize> = Vec::new();
    let mut i: usize = 0;
    while i < tickets.len()
        invariant
            i <= tickets@.len(),
            q@ == lowercase(query@),
            forall|k: int| 0 <= k < r@.len() ==> (#[trigger] r@[k]) < i,
            forall|k: int, l: int| 0 <= k < l < r@.len() ==> #[trigger] r@[k] < #[trigger] r@[l],
            forall|j: int|
                0 <= j < i ==> (r@.contains(j as usize) <==> ticket_shown(
                    #[trigger] tickets@[j]@,
                    filter,
                    q@,
                )),
        decreases tickets@.len() - i,
    {
        let t = &tickets[i];
        let mut shown = ticket_matches_filter(t, filter);
        if shown && q.len() > 0 {
            let id = chars_of(to_lowercase(t.id.as_str()).as_str());
            let title = chars_of(to_lowercase(t.title.as_str()).as_str());
            shown = contains_exec(id.as_slice(), q.as_slice()) || contains_exec(title.as_slice(), q.as_slice());
        }
        let ghost before = r@;
        if shown {
            r.push(i);
        }
        assert forall|j: int| 0 <= j <= i implies (r@.contains(j as usize) <==> ticket_shown(
            #[trigger] tickets@[j]@,
            filter,
            q@,
        )) by {
            if j < i {
                if r@.contains(j as usize) && !before.contains(j as usize) {
                    let w = choose|w: int| 0 <= w < r@.len() && r@[w] == j as usize;
                    assert(w == before.len());
                }
                if before.contains(j as usize) {
                    let w = choose|w: int| 0 <= w < before.len() && before[w] == j as usize;
                    assert(r@[w] == j as usize);
                }
            } else {
                if shown {
                    assert(r@[before.len() as int] == i);
                } else {
                    assert(r@ == before);
                }
            }
        }
        i += 1;
    }
    r
}

/// The provider tag shown before a ticket row: `N` for Notion, `J` for Jira.
pub fn provider_tag(p: Provider) -> (r: &'static str)
    ensures
        r@ == (match p {
            Provider::Notion => "N"@,
            Provider::Jira => "J"@,
        }),
{
    match p {
        Provider::Notion => "N",
        Provider::Jira => "J",
    }
}

/// How many of `tasks` are in bucket `s`.
pub open spec fn count_in(tasks: Seq<TaskModel>, s: TaskStatus) -> nat
    decreases tasks.len(),
{
    if tasks.len() == 0 {
        0
    } else {
        count_in(tasks.drop_last(), s) + if tasks.last().status == s {
            1nat
        } else {
            0nat
        }
    }
}

/// The number of tasks in bucket `s` (one segment of the sprint progress bar).
pub fn status_count(tasks: &[SprintTask], s: TaskStatus) -> (n: usize)
    ensures
        n == count_in(task_views(tasks@), s),
{
    let mut n: usize = 0;
    let mut i: usize = 0;
    while i < tasks.len()
        invariant
            i <= tasks@.len(),
            n == count_in(task_views(tasks@).take(i as int), s),
            n <= i,
        decreases tasks@.len() - i,
    {
        assert(task_views(tasks@).take(i + 1).drop_last() =~= task_views(tasks@).take(i as int));
        if tasks[i].status == s {
            n += 1;
        }
        i += 1;
    }
    assert(task_views(tasks@).take(i as int) =~= task_views(tasks@));
    n
}

/// The sprint still has work: some task is Doing or Todo.
pub fn sprint_active(tasks: &[SprintTask]) -> (b: bool)
    ensures
        b == exists|k: int|
            0 <= k < tasks@.len() && ((#[trigger] tasks@[k]).status == TaskStatus::Doing
                || tasks@[k].status == TaskStatus::Todo),
{
    let mut i: usize = 0;
    while i < tasks.len()
        invariant
            i <= tasks@.len(),
            forall|k: int|
                0 <= k < i ==> (#[trigger] tasks@[k]).status != TaskStatus::Doing && tasks@[k].status
                    != TaskStatus::Todo,
        decreases tasks@.len() - i,
    {
        if tasks[i].status == TaskStatus::Doing || tasks[i].status == TaskStatus::Todo {
            return true;
        }
        i += 1;
    }
    false
}

/// The buckets partition the tasks: the four counts add up to the number of
/// tasks.
pub proof fn law_status_counts_partition(tasks: Seq<TaskModel>)
    ensures
        count_in(tasks, TaskStatus::Done) + count_in(tasks, TaskStatus::Doing) + count_in(
            tasks,
            TaskStatus::Blocked,
        ) + count_in(tasks, TaskStatus::Todo) == tasks.len(),
    decreases tasks.len(),
{
    if tasks.len() > 0 {
        law_status_counts_partition(tasks.drop_last());
    }
}

/// The file name of a vault-relative path when it sits where discipline files
/// live: at the vault root or directly in `discipline/`.
pub open spec fn sacred_name(path: Seq<char>) -> Option<Seq<char>> {
    let cs = path_components(path);
    match file_name_of(path) {
        Some(n) => if cs.len() == 1 || (cs.len() == 2 && cs[0] == "discipline"@) {
            Some(n)
        } else {
            None
        },
        None => None,
    }
}

/// The file name to look up among the discipline files, if `rel_path` is in
/// a discipline location (the vault root or `discipline/`); a sacred file
/// name elsewhere is an ordinary note.
pub fn sacred_file_name(rel_path: &str) -> (r: Option<String>)
    ensures
        match r {
            Some(n) => sacred_name(rel_path@) == Some(n@),
            None => sacred_name(rel_path@) is None,
        },
{
    let cs = chars_of(rel_path);
    let comps = components_of(cs.as_slice());
    let n = comps.len();
    if n == 0 || n > 2 {
        return None;
    }
    let l = &comps[n - 1];
    assert(views(comps@)[n - 1] == comps@[n - 1]@);
    let is_root = l.len() == 1 && l[0] == '/';
    let is_dot = l.len() == 1 && l[0] == '.';
    let is_dotdot = l.len() == 2 && l[0] == '.' && l[1] == '.';
    proof {
        let lv = l@;
        if lv.len() == 1 && lv[0] == '/' {
            assert(lv =~= seq!['/']);
        }
        if lv.len() == 1 && lv[0] == '.' {
            assert(lv =~= seq!['.']);
        }
        if lv.len() == 2 && lv[0] == '.' && lv[1] == '.' {
            assert(lv =~= seq!['.', '.']);
        }
    }
    if is_root || is_dot || is_dotdot {
        return None;
    }
    if n == 2 {
        let d = chars_of("discipline");
        assert(views(comps@)[0] == comps@[0]@);
        if !same_chars(comps[0].as_slice(), d.as_slice()) {
            return None;
        }
    }
    Some(string_of(l.as_slice()))
}

} // verus!
