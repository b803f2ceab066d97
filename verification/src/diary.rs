//! The DIARY view: dated chunks become days with their labels and a short
//! snippet of the first line of text.
use vstd::prelude::*;
use crate::discipline::{chips, label_chips};
use crate::text::{
    chars_of, has_prefix, has_prefix_exec, is_digit, is_ws, lines, lines_of, lines_scan, ltrim,
    ltrim_index, rtrim, slice_of, strip_cr, string_of, trim, trimmed, views,
};

verus! {

/// One DIARY entry, rendered as a card under its day.
#[derive(Clone, Debug, PartialEq, Eq)]
pub struct DiaryEntry {
    pub time: Option<String>,
    pub labels: Vec<String>,
    pub snippet: String,
}

/// A day of DIARY entries (`## YYYY-MM-DD — title`), newest-first in file order.
#[derive(Clone, Debug, PartialEq, Eq)]
pub struct DiaryDay {
    pub date: String,
    pub entries: Vec<DiaryEntry>,
}

/// A DIARY chunk as the entry splitter hands it over: the heading text and
/// the chunk's body (which still holds its `## ` heading line).
#[derive(Clone, Debug, PartialEq, Eq)]
pub struct DiaryChunk {
    pub heading: String,
    pub body: String,
}

/// What a diary entry holds.
pub struct DiaryEntryModel {
    pub time: Option<Seq<char>>,
    pub labels: Seq<Seq<char>>,
    pub snippet: Seq<char>,
}

/// What a diary day holds.
pub struct DiaryDayModel {
    pub date: Seq<char>,
    pub entries: Seq<DiaryEntryModel>,
}

/// The characters of an optional string.
pub open spec fn opt_view(o: Option<String>) -> Option<Seq<char>> {
    match o {
        Some(s) => Some(s@),
        None => None,
    }
}

/// The characters of each string of a sequence.
pub open spec fn strings_view(v: Seq<String>) -> Seq<Seq<char>> {
    v.map_values(|s: String| s@)
}

impl View for DiaryEntry {
    type V = DiaryEntryModel;

    open spec fn view(&self) -> DiaryEntryModel {
        DiaryEntryModel {
            time: opt_view(self.time),
            labels: strings_view(self.labels@),
            snippet: self.snippet@,
        }
    }
}

impl View for DiaryDay {
    type V = DiaryDayModel;

    open spec fn view(&self) -> DiaryDayModel {
        DiaryDayModel { date: self.date@, entries: self.entries@.map_values(|e: DiaryEntry| e@) }
    }
}

/// The models of a sequence of days.
pub open spec fn day_views(v: Seq<DiaryDay>) -> Seq<DiaryDayModel> {
    v.map_values(|d: DiaryDay| d@)
}

/// The (heading, body) characters of a sequence of chunks.
pub open spec fn chunk_views(v: Seq<DiaryChunk>) -> Seq<(Seq<char>, Seq<char>)> {
    v.map_values(|c: DiaryChunk| (c.heading@, c.body@))
}

/// `s` begins with an ISO date `YYYY-MM-DD` (ASCII digits and dashes).
pub open spec fn date_shape(s: Seq<char>) -> bool {
    &&& s.len() >= 10
    &&& is_digit(s[0]) && is_digit(s[1]) && is_digit(s[2]) && is_digit(s[3])
    &&& s[4] == '-'
    &&& is_digit(s[5]) && is_digit(s[6])
    &&& s[7] == '-'
    &&& is_digit(s[8]) && is_digit(s[9])
}

/// The ISO date at the start of `s`, if it starts with one.
pub open spec fn leading_date_of(s: Seq<char>) -> Option<Seq<char>> {
    if date_shape(s) {
        Some(s.take(10))
    } else {
        None
    }
}

/// The first line of `ls` that is not blank, trimmed; empty if none.
pub open spec fn first_filled(ls: Seq<Seq<char>>) -> Seq<char>
    decreases ls.len(),
{
    if ls.len() == 0 {
        Seq::empty()
    } else if trim(ls[0]).len() > 0 {
        trim(ls[0])
    } else {
        first_filled(ls.drop_first())
    }
}

/// The snippet of `body`: its first non-blank line, trimmed; when longer
/// than 80 characters, its first 79 followed by `…`.
pub open spec fn snippet_of(body: Seq<char>) -> Seq<char> {
    let f = first_filled(lines_of(body));
    if f.len() <= 80 {
        f
    } else {
        f.take(79).push('…')
    }
}

/// A `## ` heading line (leading whitespace allowed).
pub open spec fn is_heading_line(l: Seq<char>) -> bool {
    has_prefix(ltrim(l), "## "@)
}

/// The lines of `ls` that are not `## ` headings, in order.
pub open spec fn kept_lines(ls: Seq<Seq<char>>) -> Seq<Seq<char>>
    decreases ls.len(),
{
    if ls.len() == 0 {
        Seq::empty()
    } else {
        let p = kept_lines(ls.drop_last());
        if is_heading_line(ls.last()) {
            p
        } else {
            p.push(ls.last())
        }
    }
}

/// The lines of `ls` joined with `\n` between them.
pub open spec fn joined(ls: Seq<Seq<char>>) -> Seq<char>
    decreases ls.len(),
{
    if ls.len() == 0 {
        Seq::empty()
    } else if ls.len() == 1 {
        ls[0]
    } else {
        joined(ls.drop_last()) + seq!['\n'] + ls.last()
    }
}

/// A chunk body without its heading lines.
pub open spec fn body_text(body: Seq<char>) -> Seq<char> {
    joined(kept_lines(lines_of(body)))
}

/// The entry card of a chunk body: no time, its labels, and the snippet of
/// its text without headings.
pub open spec fn entry_of(body: Seq<char>) -> DiaryEntryModel {
    DiaryEntryModel { time: None, labels: chips(body), snippet: snippet_of(body_text(body)) }
}

/// The days of a sequence of (heading, body) chunks: one day per chunk whose
/// heading starts with a date, in chunk order; other chunks are skipped.
pub open spec fn diary_from(cs: Seq<(Seq<char>, Seq<char>)>) -> Seq<DiaryDayModel>
    decreases cs.len(),
{
    if cs.len() == 0 {
        Seq::empty()
    } else {
        let p = diary_from(cs.drop_last());
        match leading_date_of(cs.last().0) {
            Some(d) => p.push(DiaryDayModel { date: d, entries: seq![entry_of(cs.last().1)] }),
            None => p,
        }
    }
}

fn d(c: char) -> (r: bool)
    ensures
        r == is_digit(c),
{
    '0' <= c && c <= '9'
}

fn date_shape_chars(s: &[char]) -> (b: bool)
    ensures
        b == date_shape(s@),
{
    if s.len() < 10 {
        return false;
    }
    d(s[0]) && d(s[1]) && d(s[2]) && d(s[3]) && s[4] == '-' && d(s[5]) && d(s[6]) && s[7] == '-'
        && d(s[8]) && d(s[9])
}

/// `2026-06-27` if `s` starts with an ISO date, else `None`. The heading may
/// continue with ` — title`; only the date prefix is captured.
pub fn leading_date(s: &str) -> (r: Option<String>)
    ensures
        opt_view(r) == leading_date_of(s@),
{
    let cs = chars_of(s);
    if date_shape_chars(cs.as_slice()) {
        let head = slice_of(cs.as_slice(), 0, 10);
        assert(head@ =~= s@.take(10));
        Some(string_of(head.as_slice()))
    } else {
        None
    }
}

fn first_filled_exec(ls: &Vec<Vec<char>>) -> (r: Vec<char>)
    ensures
        r@ == first_filled(views(ls@)),
{
    let ghost s = views(ls@);
    assert(s.skip(0) =~= s);
    let mut i: usize = 0;
    while i < ls.len()
        invariant
            i <= ls@.len(),
            s == views(ls@),
            first_filled(s) == first_filled(s.skip(i as int)),
        decreases ls@.len() - i,
    {
        let t = trimmed(ls[i].as_slice());
        assert(s.skip(i as int)[0] == ls@[i as int]@);
        if t.len() > 0 {
            return t;
        }
        assert(s.skip(i as int).drop_first() =~= s.skip(i + 1));
        i += 1;
    }
    assert(s.skip(i as int).len() == 0);
    let r: Vec<char> = Vec::new();
    assert(r@ =~= first_filled(s.skip(i as int)));
    r
}

fn snippet_chars(body: &[char]) -> (r: Vec<char>)
    ensures
        r@ == snippet_of(body@),
{
    let ls = lines(body);
    let first = first_filled_exec(&ls);
    if first.len() <= 80 {
        first
    } else {
        let mut kept = slice_of(first.as_slice(), 0, 79);
        assert(kept@ =~= first@.take(79));
        kept.push('…');
        kept
    }
}

/// First 80 chars of the first non-empty line, ellipsized if truncated.
pub fn snippet_80(body: &str) -> (r: String)
    ensures
        r@ == snippet_of(body@),
{
    let cs = chars_of(body);
    let s = snippet_chars(cs.as_slice());
    string_of(s.as_slice())
}

fn heading_line(l: &[char]) -> (b: bool)
    ensures
        b == is_heading_line(l@),
{
    let a = ltrim_index(l);
    let rest = slice_of(l, a, l.len());
    let pat = chars_of("## ");
    has_prefix_exec(rest.as_slice(), pat.as_slice())
}

fn body_text_chars(body: &[char]) -> (r: Vec<char>)
    ensures
        r@ == body_text(body@),
{
    let ls = lines(body);
    let mut kept: Vec<Vec<char>> = Vec::new();
    let mut i: usize = 0;
    while i < ls.len()
        invariant
            i <= ls@.len(),
            views(ls@) == lines_of(body@),
            views(kept@) == kept_lines(lines_of(body@).take(i as int)),
        decreases ls@.len() - i,
    {
        let ghost pre = lines_of(body@).take(i + 1);
        assert(pre.drop_last() =~= lines_of(body@).take(i as int));
        assert(pre.last() == ls@[i as int]@);
        if !heading_line(ls[i].as_slice()) {
            let ghost before = kept@;
            kept.push(ls[i].clone());
            assert(views(kept@) =~= views(before).push(ls@[i as int]@));
        }
        i += 1;
    }
    assert(lines_of(body@).take(i as int) =~= lines_of(body@));
    let mut out: Vec<char> = Vec::new();
    let mut j: usize = 0;
    while j < kept.len()
        invariant
            j <= kept@.len(),
            out@ == joined(views(kept@).take(j as int)),
        decreases kept@.len() - j,
    {
        let ghost pre = views(kept@).take(j + 1);
        assert(pre.drop_last() =~= views(kept@).take(j as int));
        if j > 0 {
            out.push('\n');
        }
        let line = &kept[j];
        let mut k: usize = 0;
        let ghost base = out@;
        while k < line.len()
            invariant
                k <= line@.len(),
                out@ == base + line@.take(k as int),
            decreases line@.len() - k,
        {
            out.push(line[k]);
            k += 1;
            assert(out@ =~= base + line@.take(k as int));
        }
        assert(line@.take(k as int) =~= line@);
        proof {
            if j == 0 {
                assert(out@ =~= pre[0]);
            } else {
                assert(out@ =~= joined(pre.drop_last()) + seq!['\n'] + pre.last());
            }
        }
        j += 1;
    }
    assert(views(kept@).take(j as int) =~= views(kept@));
    out
}

/// The entry card of one chunk body.
fn entry_of_body(body: &str) -> (r: DiaryEntry)
    ensures
        r@ == entry_of(body@),
{
    let labels = label_chips(body);
    let cs = chars_of(body);
    let text = body_text_chars(cs.as_slice());
    let snippet = snippet_chars(text.as_slice());
    let r = DiaryEntry { time: None, labels, snippet: string_of(snippet.as_slice()) };
    assert(r@.labels =~= chips(body@));
    r
}

/// Group DIARY chunks by date: one day per chunk whose heading starts with
/// an ISO date, in file order (newest first), each holding the chunk's
/// labels and the snippet of its text without the heading line.
pub fn diary_days(chunks: &[DiaryChunk]) -> (r: Vec<DiaryDay>)
    ensures
        day_views(r@) =~~= diary_from(chunk_views(chunks@)),
{
    let mut days: Vec<DiaryDay> = Vec::new();
    let mut i: usize = 0;
    while i < chunks.len()
        invariant
            i <= chunks@.len(),
            day_views(days@) =~~= diary_from(chunk_views(chunks@).take(i as int)),
        decreases chunks@.len() - i,
    {
        let ghost pre = chunk_views(chunks@).take(i + 1);
        assert(pre.drop_last() =~= chunk_views(chunks@).take(i as int));
        assert(pre.last() == (chunks@[i as int].heading@, chunks@[i as int].body@));
        let c = &chunks[i];
        match leading_date(c.heading.as_str()) {
            Some(date) => {
                let e = entry_of_body(c.body.as_str());
                let mut es: Vec<DiaryEntry> = Vec::new();
                es.push(e);
                let day = DiaryDay { date, entries: es };
                let ghost before = days@;
                days.push(day);
                assert(day@.entries =~~= seq![entry_of(c.body@)]);
                assert(day_views(days@) =~~= day_views(before).push(day@));
            },
            None => {},
        }
        i += 1;
    }
    assert(chunk_views(chunks@).take(i as int) =~= chunk_views(chunks@));
    days
}

/// A diary snippet never exceeds 80 characters; a cut one ends with `…`
/// after the first 79 characters of the line it was cut from.
pub proof fn law_snippet_fits(body: Seq<char>)
    ensures
        snippet_of(body).len() <= 80,
        first_filled(lines_of(body)).len() > 80 ==> snippet_of(body).len() == 80 && snippet_of(
            body,
        ).last() == '…' && snippet_of(body).take(79) == first_filled(lines_of(body)).take(79),
{
    let f = first_filled(lines_of(body));
    if f.len() > 80 {
        assert(snippet_of(body).take(79) =~= f.take(79));
    }
}

/// How many of the first `k` chunks have a heading that starts with a date.
pub open spec fn dated_before(cs: Seq<(Seq<char>, Seq<char>)>, k: int) -> nat
    decreases k,
{
    if k <= 0 || k > cs.len() {
        0
    } else {
        dated_before(cs, k - 1) + if date_shape(cs[k - 1].0) {
            1nat
        } else {
            0nat
        }
    }
}

proof fn lemma_dated_before_prefix(cs: Seq<(Seq<char>, Seq<char>)>, j: int)
    requires
        cs.len() > 0,
        0 <= j <= cs.len() - 1,
    ensures
        dated_before(cs.drop_last(), j) == dated_before(cs, j),
    decreases j,
{
    if j > 0 {
        lemma_dated_before_prefix(cs, j - 1);
    }
}

/// The diary has one day per dated chunk, in chunk order: the day of chunk
/// `j` carries the ten-character date its heading starts with and a single
/// entry with no time, the bracket labels of the chunk's whole body, heading
/// line included, and a snippet that never comes from a `## ` heading line:
/// the first body line that is neither a heading nor blank, trimmed and cut
/// to 80 characters, or nothing when there is no such line.
pub proof fn law_diary_days_follow_chunks(cs: Seq<(Seq<char>, Seq<char>)>)
    ensures
        diary_from(cs).len() == dated_before(cs, cs.len() as int),
        forall|j: int|
            0 <= j < cs.len() && #[trigger] date_shape(cs[j].0) ==> {
                let d = diary_from(cs)[dated_before(cs, j) as int];
                &&& d.date == cs[j].0.take(10)
                &&& d.entries.len() == 1
                &&& d.entries[0].time is None
                &&& d.entries[0].labels == chips(cs[j].1)
                &&& (forall|n: int|
                    0 <= n < lines_of(cs[j].1).len() ==> is_heading_line(#[trigger] lines_of(cs[j].1)[n])
                        || blank(lines_of(cs[j].1)[n])) ==> d.entries[0].snippet.len() == 0
                &&& forall|m: int|
                    0 <= m < lines_of(cs[j].1).len() && !is_heading_line(#[trigger] lines_of(cs[j].1)[m])
                        && !blank(lines_of(cs[j].1)[m]) && (forall|n: int|
                        0 <= n < m ==> is_heading_line(#[trigger] lines_of(cs[j].1)[n]) || blank(
                            lines_of(cs[j].1)[n],
                        )) ==> cut_to_80(trim(lines_of(cs[j].1)[m]), d.entries[0].snippet)
            },
    decreases cs.len(),
{
    if cs.len() > 0 {
        let p = cs.drop_last();
        law_diary_days_follow_chunks(p);
        let n = (cs.len() - 1) as int;
        lemma_dated_before_prefix(cs, n);
        assert forall|j: int| 0 <= j < cs.len() && #[trigger] date_shape(cs[j].0) implies {
            let d = diary_from(cs)[dated_before(cs, j) as int];
            &&& d.date == cs[j].0.take(10)
            &&& d.entries.len() == 1
            &&& d.entries[0].time is None
            &&& d.entries[0].labels == chips(cs[j].1)
            &&& (forall|n: int|
                0 <= n < lines_of(cs[j].1).len() ==> is_heading_line(#[trigger] lines_of(cs[j].1)[n])
                    || blank(lines_of(cs[j].1)[n])) ==> d.entries[0].snippet.len() == 0
            &&& forall|m: int|
                0 <= m < lines_of(cs[j].1).len() && !is_heading_line(#[trigger] lines_of(cs[j].1)[m])
                    && !blank(lines_of(cs[j].1)[m]) && (forall|n: int|
                    0 <= n < m ==> is_heading_line(#[trigger] lines_of(cs[j].1)[n]) || blank(
                        lines_of(cs[j].1)[n],
                    )) ==> cut_to_80(trim(lines_of(cs[j].1)[m]), d.entries[0].snippet)
        } by {
            lemma_entry_snippet(cs[j].1);
            if j < n {
                lemma_dated_before_prefix(cs, j);
                lemma_dated_before_mono(cs, j + 1, n);
                assert(p[j] == cs[j]);
                assert(date_shape(p[j].0));
            }
        }
    }
}

/// No character of `s` is a newline.
pub open spec fn no_newline(s: Seq<char>) -> bool {
    forall|i: int| 0 <= i < s.len() ==> #[trigger] s[i] != '\n'
}

proof fn lemma_scan_tail(x: Seq<char>, y: Seq<char>)
    requires
        no_newline(y),
    ensures
        lines_scan(x + y) == (lines_scan(x).0, lines_scan(x).1 + y),
    decreases y.len(),
{
    if y.len() == 0 {
        assert(x + y =~= x);
        assert(lines_scan(x).1 + y =~= lines_scan(x).1);
    } else {
        let y0 = y.drop_last();
        assert((x + y).drop_last() =~= x + y0);
        assert(y[y.len() - 1] != '\n');
        lemma_scan_tail(x, y0);
        assert((lines_scan(x).1 + y0).push(y.last()) =~= lines_scan(x).1 + y);
    }
}

proof fn lemma_scan_lines(s: Seq<char>)
    ensures
        no_newline(lines_scan(s).1),
        forall|k: int| 0 <= k < lines_scan(s).0.len() ==> no_newline(#[trigger] lines_scan(s).0[k]),
    decreases s.len(),
{
    if s.len() > 0 {
        lemma_scan_lines(s.drop_last());
        let p = lines_scan(s.drop_last());
        if s.last() == '\n' {
            assert(no_newline(strip_cr(p.1)));
            assert forall|k: int| 0 <= k < lines_scan(s).0.len() implies no_newline(#[trigger] lines_scan(s).0[k]) by {
                if k < p.0.len() {
                    assert(lines_scan(s).0[k] == p.0[k]);
                }
            }
        } else {
            assert(no_newline(p.1.push(s.last())));
        }
    }
}

proof fn lemma_scan_joined(ls: Seq<Seq<char>>)
    requires
        ls.len() >= 1,
        forall|k: int| 0 <= k < ls.len() ==> no_newline(#[trigger] ls[k]),
    ensures
        lines_scan(joined(ls)).0.len() == ls.len() - 1,
        forall|k: int| 0 <= k < ls.len() - 1 ==> #[trigger] lines_scan(joined(ls)).0[k] == strip_cr(ls[k]),
        lines_scan(joined(ls)).1 == ls.last(),
    decreases ls.len(),
{
    if ls.len() == 1 {
        assert(no_newline(ls[0]));
        lemma_scan_tail(Seq::empty(), ls[0]);
        assert(Seq::<char>::empty() + ls[0] =~= ls[0]);
        assert(Seq::<char>::empty() + ls[0] =~= ls[0]);
    } else {
        let init = ls.drop_last();
        assert forall|k: int| 0 <= k < init.len() implies no_newline(#[trigger] init[k]) by {
            assert(init[k] == ls[k]);
        }
        lemma_scan_joined(init);
        let j = joined(init);
        let jn = j + seq!['\n'];
        assert(jn.drop_last() =~= j);
        assert(jn.last() == '\n');
        assert(no_newline(ls[ls.len() - 1]));
        lemma_scan_tail(jn, ls.last());
        assert(joined(ls) == jn + ls.last());
        assert(Seq::<char>::empty() + ls.last() =~= ls.last());
        assert forall|k: int| 0 <= k < ls.len() - 1 implies #[trigger] lines_scan(joined(ls)).0[k] == strip_cr(ls[k]) by {
            if k < ls.len() - 2 {
                assert(init[k] == ls[k]);
            }
        }
    }
}

proof fn lemma_trim_drop_ws(s: Seq<char>)
    requires
        s.len() > 0,
        is_ws(s.last()),
    ensures
        trim(s.drop_last()) == trim(s),
    decreases s.len(),
{
    if is_ws(s[0]) {
        if s.len() == 1 {
            assert(s.drop_last() =~= Seq::<char>::empty());
            assert(s.drop_first() =~= Seq::<char>::empty());
        } else {
            let t = s.drop_first();
            assert(t.last() == s.last());
            lemma_trim_drop_ws(t);
            assert(s.drop_last()[0] == s[0]);
            assert(s.drop_last().drop_first() =~= t.drop_last());
        }
    } else {
        assert(s.len() > 1);
        assert(s.drop_last()[0] == s[0]);
    }
}

proof fn lemma_trim_strip_cr(l: Seq<char>)
    ensures
        trim(strip_cr(l)) == trim(l),
{
    if l.len() > 0 && l.last() == '\r' {
        assert(is_ws(l.last()));
        lemma_trim_drop_ws(l);
    }
}

proof fn lemma_kept_lines_cons(x: Seq<char>, r: Seq<Seq<char>>)
    ensures
        kept_lines(seq![x] + r) == if is_heading_line(x) {
            kept_lines(r)
        } else {
            seq![x] + kept_lines(r)
        },
    decreases r.len(),
{
    if r.len() == 0 {
        let e = Seq::<Seq<char>>::empty();
        assert(seq![x] + r =~= seq![x]);
        assert(seq![x].drop_last() =~= e);
        assert(kept_lines(r) == e);
        assert(kept_lines(e) == e);
        assert(seq![x].last() == x);
        assert(kept_lines(seq![x]) == if is_heading_line(x) { e } else { e.push(x) });
        assert(e.push(x) =~= seq![x] + e);
    } else {
        let r0 = r.drop_last();
        let xr = seq![x] + r;
        assert(xr.drop_last() =~= seq![x] + r0);
        assert(xr.last() == r.last());
        lemma_kept_lines_cons(x, r0);
        assert(kept_lines(xr) == if is_heading_line(r.last()) {
            kept_lines(seq![x] + r0)
        } else {
            kept_lines(seq![x] + r0).push(r.last())
        });
        assert(kept_lines(r) == if is_heading_line(r.last()) {
            kept_lines(r0)
        } else {
            kept_lines(r0).push(r.last())
        });
        if !is_heading_line(x) && !is_heading_line(r.last()) {
            assert((seq![x] + kept_lines(r0)).push(r.last()) =~= seq![x] + kept_lines(r0).push(r.last()));
        }
    }
}

proof fn lemma_kept_lines_no_newline(ls: Seq<Seq<char>>)
    requires
        forall|k: int| 0 <= k < ls.len() ==> no_newline(#[trigger] ls[k]),
    ensures
        forall|k: int| 0 <= k < kept_lines(ls).len() ==> no_newline(#[trigger] kept_lines(ls)[k]),
    decreases ls.len(),
{
    if ls.len() > 0 {
        let init = ls.drop_last();
        assert forall|k: int| 0 <= k < init.len() implies no_newline(#[trigger] init[k]) by {
            assert(init[k] == ls[k]);
        }
        lemma_kept_lines_no_newline(init);
        let p = kept_lines(init);
        assert(no_newline(ls[ls.len() - 1]));
        assert forall|k: int| 0 <= k < kept_lines(ls).len() implies no_newline(#[trigger] kept_lines(ls)[k]) by {
            if k < p.len() {
                assert(kept_lines(ls)[k] == p[k]);
            }
        }
    }
}

/// `l` is blank once trimmed.
pub open spec fn blank(l: Seq<char>) -> bool {
    trim(l).len() == 0
}

proof fn lemma_first_filled_same_trims(a: Seq<Seq<char>>, b: Seq<Seq<char>>)
    requires
        b.len() <= a.len(),
        forall|k: int| 0 <= k < b.len() ==> trim(#[trigger] b[k]) == trim(a[k]),
        forall|k: int| b.len() <= k < a.len() ==> blank(#[trigger] a[k]),
    ensures
        first_filled(b) == first_filled(a),
    decreases a.len(),
{
    if a.len() > 0 {
        if b.len() > 0 {
            assert(trim(b[0]) == trim(a[0]));
            assert forall|k: int| 0 <= k < b.drop_first().len() implies trim(#[trigger] b.drop_first()[k]) == trim(a.drop_first()[k]) by {
                assert(trim(b[k + 1]) == trim(a[k + 1]));
            }
        } else {
            assert(blank(a[0]));
        }
        assert forall|k: int| b.drop_first().len() <= k < a.drop_first().len() implies blank(#[trigger] a.drop_first()[k]) by {
            assert(blank(a[k + 1]));
        }
        if b.len() > 0 {
            lemma_first_filled_same_trims(a.drop_first(), b.drop_first());
        } else {
            lemma_first_filled_same_trims(a.drop_first(), b);
        }
    }
}

proof fn lemma_first_text_line(ls: Seq<Seq<char>>, m: int)
    requires
        0 <= m < ls.len(),
        !is_heading_line(ls[m]),
        !blank(ls[m]),
        forall|n: int| 0 <= n < m ==> is_heading_line(#[trigger] ls[n]) || blank(ls[n]),
    ensures
        first_filled(kept_lines(ls)) == trim(ls[m]),
    decreases m,
{
    let x = ls[0];
    let rest = ls.drop_first();
    assert(ls =~= seq![x] + rest);
    lemma_kept_lines_cons(x, rest);
    if m > 0 {
        assert(is_heading_line(ls[0]) || blank(ls[0]));
        assert(rest[m - 1] == ls[m]);
        assert forall|n: int| 0 <= n < m - 1 implies is_heading_line(#[trigger] rest[n]) || blank(rest[n]) by {
            assert(rest[n] == ls[n + 1]);
        }
        lemma_first_text_line(rest, m - 1);
        if !is_heading_line(x) {
            assert((seq![x] + kept_lines(rest)).drop_first() =~= kept_lines(rest));
        }
    }
}

proof fn lemma_no_text_line(ls: Seq<Seq<char>>)
    requires
        forall|n: int| 0 <= n < ls.len() ==> is_heading_line(#[trigger] ls[n]) || blank(ls[n]),
    ensures
        first_filled(kept_lines(ls)) == Seq::<char>::empty(),
    decreases ls.len(),
{
    if ls.len() == 0 {
        assert(kept_lines(ls) == Seq::<Seq<char>>::empty());
    } else {
        let x = ls[0];
        let rest = ls.drop_first();
        assert(ls =~= seq![x] + rest);
        lemma_kept_lines_cons(x, rest);
        assert(is_heading_line(ls[0]) || blank(ls[0]));
        assert forall|n: int| 0 <= n < rest.len() implies is_heading_line(#[trigger] rest[n]) || blank(rest[n]) by {
            assert(rest[n] == ls[n + 1]);
        }
        lemma_no_text_line(rest);
        if !is_heading_line(x) {
            assert((seq![x] + kept_lines(rest)).drop_first() =~= kept_lines(rest));
        }
    }
}

proof fn lemma_first_filled_joined(ks: Seq<Seq<char>>)
    requires
        forall|k: int| 0 <= k < ks.len() ==> no_newline(#[trigger] ks[k]),
    ensures
        first_filled(lines_of(joined(ks))) == first_filled(ks),
{
    if ks.len() == 0 {
        assert(lines_scan(joined(ks)) == (Seq::<Seq<char>>::empty(), Seq::<char>::empty()));
        assert(lines_of(joined(ks)) == Seq::<Seq<char>>::empty());
    } else {
        lemma_scan_joined(ks);
        let sc = lines_scan(joined(ks));
        let l = lines_of(joined(ks));
        assert forall|k: int| 0 <= k < l.len() implies trim(#[trigger] l[k]) == trim(ks[k]) by {
            if k < ks.len() - 1 {
                assert(l[k] == sc.0[k]);
                lemma_trim_strip_cr(ks[k]);
            }
        }
        if sc.1.len() == 0 {
            assert(ks.last() =~= Seq::<char>::empty());
            assert(ltrim(ks.last()) == ks.last());
            assert(rtrim(ks.last()) == ks.last());
            assert(blank(ks[ks.len() - 1]));
        }
        lemma_first_filled_same_trims(ks, l);
    }
}

proof fn lemma_entry_snippet(body: Seq<char>)
    ensures
        (forall|n: int|
            0 <= n < lines_of(body).len() ==> is_heading_line(#[trigger] lines_of(body)[n]) || blank(
                lines_of(body)[n],
            )) ==> entry_of(body).snippet.len() == 0,
        forall|m: int|
            0 <= m < lines_of(body).len() && !is_heading_line(#[trigger] lines_of(body)[m]) && !blank(
                lines_of(body)[m],
            ) && (forall|n: int|
                0 <= n < m ==> is_heading_line(#[trigger] lines_of(body)[n]) || blank(lines_of(body)[n]))
                ==> cut_to_80(trim(lines_of(body)[m]), entry_of(body).snippet),
{
    let bl = lines_of(body);
    lemma_scan_lines(body);
    let sc = lines_scan(body);
    assert forall|k: int| 0 <= k < bl.len() implies no_newline(#[trigger] bl[k]) by {
        if k < sc.0.len() {
            assert(bl[k] == sc.0[k]);
        }
    }
    lemma_kept_lines_no_newline(bl);
    lemma_first_filled_joined(kept_lines(bl));
    if forall|n: int| 0 <= n < bl.len() ==> is_heading_line(#[trigger] bl[n]) || blank(bl[n]) {
        lemma_no_text_line(bl);
    }
    assert forall|m: int|
        0 <= m < bl.len() && !is_heading_line(#[trigger] bl[m]) && !blank(bl[m]) && (forall|n: int|
            0 <= n < m ==> is_heading_line(#[trigger] bl[n]) || blank(bl[n])) implies cut_to_80(
        trim(bl[m]),
        entry_of(body).snippet,
    ) by {
        lemma_first_text_line(bl, m);
    }
}

/// `s` is the line `f` cut to 80 characters: `f` itself when it fits, else
/// its first 79 characters and `…`.
pub open spec fn cut_to_80(f: Seq<char>, s: Seq<char>) -> bool {
    &&& f.len() <= 80 ==> s == f
    &&& f.len() > 80 ==> s == f.take(79).push('…')
}

proof fn lemma_dated_before_mono(cs: Seq<(Seq<char>, Seq<char>)>, a: int, b: int)
    requires
        0 <= a <= b <= cs.len(),
    ensures
        dated_before(cs, a) <= dated_before(cs, b),
    decreases b - a,
{
    if a < b {
        lemma_dated_before_mono(cs, a, b - 1);
    }
}

} // verus!
