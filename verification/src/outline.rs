//! The heading outline of a note shown in the right rail.
use vstd::prelude::*;
use crate::editor::run_len;
use crate::text::{chars_of, has_prefix, has_prefix_exec, lines, lines_of, ltrim, ltrim_index, slice_of, string_of, trim, trimmed, views};

verus! {

/// One outline entry: heading depth (1–6) and its text.
#[derive(Clone, Debug, PartialEq, Eq)]
pub struct Heading {
    pub depth: usize,
    pub text: String,
}

/// What a heading holds.
pub struct HeadingModel {
    pub depth: nat,
    pub text: Seq<char>,
}

impl View for Heading {
    type V = HeadingModel;

    open spec fn view(&self) -> HeadingModel {
        HeadingModel { depth: self.depth as nat, text: self.text@ }
    }
}

/// The models of a sequence of headings.
pub open spec fn heading_views(v: Seq<Heading>) -> Seq<HeadingModel> {
    v.map_values(|h: Heading| h@)
}

/// The heading a line (already without leading whitespace) denotes: one to
/// six `#`, then a space; the text is the trimmed rest.
pub open spec fn heading_of(t: Seq<char>) -> Option<HeadingModel> {
    let n = run_len(t, '#');
    if 1 <= n <= 6 && has_prefix(t.skip(n as int), seq![' ']) {
        Some(HeadingModel { depth: n, text: trim(t.skip(n as int)) })
    } else {
        None
    }
}

/// A line opening or closing a code fence for the outline.
pub open spec fn toggles_fence(t: Seq<char>) -> bool {
    has_prefix(t, seq!['`', '`', '`']) || has_prefix(t, seq!['~', '~', '~'])
}

/// The outline scan over lines `ls` from line `k`, after the headings
/// `out`, inside a code fence or not.
pub open spec fn outline_from(ls: Seq<Seq<char>>, k: int, out: Seq<HeadingModel>, in_fence: bool) -> Seq<
    HeadingModel,
>
    decreases ls.len() - k,
{
    if k < 0 || k >= ls.len() {
        out
    } else {
        let t = ltrim(ls[k]);
        if toggles_fence(t) {
            outline_from(ls, k + 1, out, !in_fence)
        } else if in_fence {
            outline_from(ls, k + 1, out, in_fence)
        } else {
            match heading_of(t) {
                Some(h) => outline_from(ls, k + 1, out.push(h), in_fence),
                None => outline_from(ls, k + 1, out, in_fence),
            }
        }
    }
}

/// The ATX headings of a note, skipping fenced code.
pub open spec fn outline_model(content: Seq<char>) -> Seq<HeadingModel> {
    outline_from(lines_of(content), 0, Seq::empty(), false)
}

fn heading_line(t: &[char]) -> (r: Option<Heading>)
    ensures
        match r {
            Some(h) => heading_of(t@) == Some(h@),
            None => heading_of(t@) is None,
        },
{
    let mut k: usize = 0;
    assert(t@.skip(0) =~= t@);
    while k < t.len() && t[k] == '#'
        invariant
            k <= t@.len(),
            run_len(t@, '#') == k + run_len(t@.skip(k as int), '#'),
        decreases t@.len() - k,
    {
        assert(t@.skip(k as int).drop_first() =~= t@.skip(k + 1));
        k += 1;
    }
    assert(t@.skip(0) =~= t@);
    assert(run_len(t@.skip(k as int), '#') == 0);
    if k < 1 || k > 6 || k >= t.len() || t[k] != ' ' {
        proof {
            if k < t@.len() && k >= 1 && k <= 6 {
                assert(t@.skip(k as int).take(1)[0] == t@[k as int]);
            }
        }
        return None;
    }
    let rest = slice_of(t, k, t.len());
    assert(rest@ =~= t@.skip(k as int));
    assert(t@.skip(k as int).take(1) =~= seq![' ']);
    let text = trimmed(rest.as_slice());
    Some(Heading { depth: k, text: string_of(text.as_slice()) })
}

/// Parse ATX headings (`#`..`######`) from note body, skipping fenced code so a
/// `# comment` inside a ``` block isn't mistaken for a heading.
pub fn outline(content: &str) -> (r: Vec<Heading>)
    ensures
        heading_views(r@) == outline_model(content@),
{
    let cs = chars_of(content);
    let ls = lines(cs.as_slice());
    let ticks = vec!['`', '`', '`'];
    let tildes = vec!['~', '~', '~'];
    let mut out: Vec<Heading> = Vec::new();
    let mut in_fence = false;
    let mut i: usize = 0;
    assert(heading_views(out@) =~= Seq::<HeadingModel>::empty());
    while i < ls.len()
        invariant
            i <= ls@.len(),
            views(ls@) == lines_of(content@),
            ticks@ == seq!['`', '`', '`'],
            tildes@ == seq!['~', '~', '~'],
            outline_model(content@) == outline_from(views(ls@), i as int, heading_views(out@), in_fence),
        decreases ls@.len() - i,
    {
        assert(views(ls@)[i as int] == ls@[i as int]@);
        let line = &ls[i];
        let a = ltrim_index(line.as_slice());
        let t = slice_of(line.as_slice(), a, line.len());
        if has_prefix_exec(t.as_slice(), ticks.as_slice()) || has_prefix_exec(t.as_slice(), tildes.as_slice()) {
            in_fence = !in_fence;
        } else if !in_fence {
            match heading_line(t.as_slice()) {
                Some(h) => {
                    let ghost before = out@;
                    out.push(h);
                    assert(heading_views(out@) =~= heading_views(before).push(h@));
                },
                None => {},
            }
        }
        i += 1;
    }
    out
}

proof fn lemma_outline_depths(ls: Seq<Seq<char>>, k: int, out: Seq<HeadingModel>, in_fence: bool)
    requires
        forall|j: int| 0 <= j < out.len() ==> 1 <= #[trigger] out[j].depth <= 6,
    ensures
        forall|j: int|
            0 <= j < outline_from(ls, k, out, in_fence).len() ==> 1 <= #[trigger] outline_from(
                ls,
                k,
                out,
                in_fence,
            )[j].depth <= 6,
    decreases ls.len() - k,
{
    if k < 0 || k >= ls.len() {
    } else {
        let t = ltrim(ls[k]);
        if toggles_fence(t) {
            assert(outline_from(ls, k, out, in_fence) == outline_from(ls, k + 1, out, !in_fence));
            lemma_outline_depths(ls, k + 1, out, !in_fence);
        } else if in_fence {
            assert(outline_from(ls, k, out, in_fence) == outline_from(ls, k + 1, out, in_fence));
            lemma_outline_depths(ls, k + 1, out, in_fence);
        } else {
            match heading_of(t) {
                Some(h) => {
                    assert forall|j: int| 0 <= j < out.push(h).len() implies 1 <= #[trigger] out.push(
                        h,
                    )[j].depth <= 6 by {
                        if j < out.len() {
                            assert(out.push(h)[j] == out[j]);
                        }
                    }
                    assert(outline_from(ls, k, out, in_fence) == outline_from(ls, k + 1, out.push(h), in_fence));
                    lemma_outline_depths(ls, k + 1, out.push(h), in_fence);
                },
                None => {
                    assert(outline_from(ls, k, out, in_fence) == outline_from(ls, k + 1, out, in_fence));
                    lemma_outline_depths(ls, k + 1, out, in_fence);
                },
            }
        }
    }
}

/// Every outline entry of a note has a heading depth between 1 and 6.
pub proof fn law_outline_depths(content: Seq<char>)
    ensures
        forall|j: int|
            0 <= j < outline_model(content).len() ==> 1 <= #[trigger] outline_model(content)[j].depth <= 6,
{
    lemma_outline_depths(lines_of(content), 0, Seq::empty(), false);
}

} // verus!
