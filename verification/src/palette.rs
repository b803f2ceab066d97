//! Command palette: the fixed command set and the fuzzy ranking of
//! commands and notes against a query.
use vstd::prelude::*;
use fuzzy_matcher::skim::SkimMatcherV2;
use fuzzy_matcher::FuzzyMatcher;
use crate::text::{chars_of, trim, trimmed};

verus! {

/// A thing the palette can run. Notes carry their id; commands a static action.
#[derive(Clone)]
pub enum PaletteItem {
    Command { label: &'static str, action: Cmd },
    Note { id: String, title: String },
}

/// The actions a palette command runs.
#[derive(Clone, Copy, Debug, PartialEq, Eq, Structural)]
pub enum Cmd {
    NewNote,
    Settings,
    Import,
    ToggleTheme,
    ToggleRail,
    SwitchVault,
    QuickCapture,
    Tickets,
    Timeline,
}

/// The text a palette item is matched against: a command's label, a note's title.
pub open spec fn hay(it: PaletteItem) -> Seq<char> {
    match it {
        PaletteItem::Command { label, .. } => label@,
        PaletteItem::Note { title, .. } => title@,
    }
}

impl PaletteItem {
    /// The text this item is matched against.
    pub fn haystack(&self) -> (r: &str)
        ensures
            r@ == hay(*self),
    {
        match self {
            PaletteItem::Command { label, .. } => label,
            PaletteItem::Note { title, .. } => title.as_str(),
        }
    }
}

/// The label and action of the `k`-th fixed command.
pub open spec fn command_at(k: int) -> (Seq<char>, Cmd) {
    if k == 0 {
        ("➕ Nova nota"@, Cmd::NewNote)
    } else if k == 1 {
        ("⚙ Configurações"@, Cmd::Settings)
    } else if k == 2 {
        ("📥 Importar"@, Cmd::Import)
    } else if k == 3 {
        ("◐ Alternar tema"@, Cmd::ToggleTheme)
    } else if k == 4 {
        ("⊞ Alternar painel direito"@, Cmd::ToggleRail)
    } else if k == 5 {
        ("📂 Trocar vault"@, Cmd::SwitchVault)
    } else if k == 6 {
        ("✎ Captura rápida"@, Cmd::QuickCapture)
    } else if k == 7 {
        ("◧ Tickets"@, Cmd::Tickets)
    } else {
        ("◷ Timeline"@, Cmd::Timeline)
    }
}

fn command(label: &'static str, action: Cmd) -> (r: PaletteItem)
    ensures
        r matches PaletteItem::Command { label: l, action: a } && l@ == label@ && a == action,
{
    PaletteItem::Command { label, action }
}

/// The fixed command set, always available.
pub fn commands() -> (r: Vec<PaletteItem>)
    ensures
        r@.len() == 9,
        forall|k: int|
            0 <= k < 9 ==> (#[trigger] r@[k] matches PaletteItem::Command { label, action }
                && label@ == command_at(k).0 && action == command_at(k).1),
{
    let mut r: Vec<PaletteItem> = Vec::new();
    r.push(command("➕ Nova nota", Cmd::NewNote));
    r.push(command("⚙ Configurações", Cmd::Settings));
    r.push(command("📥 Importar", Cmd::Import));
    r.push(command("◐ Alternar tema", Cmd::ToggleTheme));
    r.push(command("⊞ Alternar painel direito", Cmd::ToggleRail));
    r.push(command("📂 Trocar vault", Cmd::SwitchVault));
    r.push(command("✎ Captura rápida", Cmd::QuickCapture));
    r.push(command("◧ Tickets", Cmd::Tickets));
    r.push(command("◷ Timeline", Cmd::Timeline));
    r
}

/// The score `SkimMatcherV2::default()` gives `choice` for `pattern`
/// (`None`: no match), as its `fuzzy_match` computes it.
pub uninterp spec fn skim_score(choice: Seq<char>, pattern: Seq<char>) -> Option<i64>;

/// `SkimMatcherV2::default().fuzzy_match(choice, pattern)`. The contract names
/// the result only: the matcher's scoring is not restated here.
#[verifier::external_body]
fn fuzzy_score(choice: &str, pattern: &str) -> (r: Option<i64>)
    ensures
        r == skim_score(choice@, pattern@),
{
    SkimMatcherV2::default().fuzzy_match(choice, pattern)
}

/// At most this many results are listed.
pub const RANK_LIMIT: usize = 50;

/// Item `a` comes before item `b`: a higher score, or an equal score and an
/// earlier position (the sort keeps the item order among equal scores).
pub open spec fn outranks(scores: Seq<Option<i64>>, a: int, b: int) -> bool {
    ||| scores[a]->0 > scores[b]->0
    ||| (scores[a]->0 == scores[b]->0 && a < b)
}

/// `r` lists, best first, the positions of the scored (`Some`) items of
/// `scores`, stopping after `cap` of them: every listed position is scored,
/// listed ones come in strict rank order, and a scored position left out
/// means the list is full and everything in it ranks above that position.
pub open spec fn is_ranking(r: Seq<usize>, scores: Seq<Option<i64>>, cap: int) -> bool {
    &&& r.len() <= cap
    &&& forall|k: int| 0 <= k < r.len() ==> (#[trigger] r[k]) < scores.len() && scores[r[k] as int] is Some
    &&& forall|k: int, l: int| 0 <= k < l < r.len() ==> outranks(scores, #[trigger] r[k] as int, #[trigger] r[l] as int)
    &&& forall|i: int|
        0 <= i < scores.len() && (#[trigger] scores[i]) is Some && !r.contains(i as usize) ==> r.len() == cap
            && forall|k: int| 0 <= k < r.len() ==> outranks(scores, #[trigger] r[k] as int, i)
}

fn outranks_exec(scores: &[Option<i64>], a: usize, b: usize) -> (r: bool)
    requires
        a < scores@.len(),
        b < scores@.len(),
        scores@[a as int] is Some,
        scores@[b as int] is Some,
    ensures
        r == outranks(scores@, a as int, b as int),
{
    let sa = match scores[a] {
        Some(s) => s,
        None => 0,
    };
    let sb = match scores[b] {
        Some(s) => s,
        None => 0,
    };
    sa > sb || (sa == sb && a < b)
}

fn listed(v: &Vec<usize>, x: usize) -> (r: bool)
    ensures
        r == v@.contains(x),
{
    let mut k: usize = 0;
    while k < v.len()
        invariant
            k <= v@.len(),
            forall|j: int| 0 <= j < k ==> v@[j] != x,
        decreases v@.len() - k,
    {
        if v[k] == x {
            return true;
        }
        k += 1;
    }
    false
}

/// The best scored position not yet listed in `out`, if any.
fn best_unlisted(scores: &[Option<i64>], out: &Vec<usize>) -> (r: Option<usize>)
    ensures
        match r {
            Some(b) => b < scores@.len() && scores@[b as int] is Some && !out@.contains(b) && forall|
                j: int,
            |
                0 <= j < scores@.len() && (#[trigger] scores@[j]) is Some && !out@.contains(j as usize)
                    && j != b ==> outranks(scores@, b as int, j),
            None => forall|j: int|
                0 <= j < scores@.len() && (#[trigger] scores@[j]) is Some ==> out@.contains(j as usize),
        },
{
    let mut best: Option<usize> = None;
    let mut j: usize = 0;
    while j < scores.len()
        invariant
            j <= scores@.len(),
            match best {
                Some(b) => b < j && scores@[b as int] is Some && !out@.contains(b) && forall|i: int|
                    0 <= i < j && (#[trigger] scores@[i]) is Some && !out@.contains(i as usize) && i
                        != b ==> outranks(scores@, b as int, i),
                None => forall|i: int|
                    0 <= i < j && (#[trigger] scores@[i]) is Some ==> out@.contains(i as usize),
            },
        decreases scores@.len() - j,
    {
        if scores[j].is_some() && !listed(out, j) {
            match best {
                None => {
                    best = Some(j);
                },
                Some(b) => {
                    if outranks_exec(scores, j, b) {
                        best = Some(j);
                    }
                },
            }
        }
        j += 1;
    }
    best
}

/// Positions of the scored items, best score first (equal scores keep their
/// order), at most `RANK_LIMIT` of them.
pub fn order_by_score(scores: &[Option<i64>]) -> (r: Vec<usize>)
    ensures
        is_ranking(r@, scores@, RANK_LIMIT as int),
{
    let mut out: Vec<usize> = Vec::new();
    while out.len() < RANK_LIMIT
        invariant
            out@.len() <= RANK_LIMIT,
            forall|k: int|
                0 <= k < out@.len() ==> (#[trigger] out@[k]) < scores@.len() && scores@[out@[k] as int] is Some,
            forall|k: int, l: int|
                0 <= k < l < out@.len() ==> outranks(scores@, #[trigger] out@[k] as int, #[trigger] out@[l] as int),
            forall|i: int|
                0 <= i < scores@.len() && (#[trigger] scores@[i]) is Some && !out@.contains(i as usize)
                    ==> forall|k: int| 0 <= k < out@.len() ==> outranks(scores@, #[trigger] out@[k] as int, i),
        decreases RANK_LIMIT - out@.len(),
    {
        match best_unlisted(scores, &out) {
            None => {
                return out;
            },
            Some(b) => {
                let ghost before = out@;
                out.push(b);
                assert forall|i: int|
                    0 <= i < scores@.len() && (#[trigger] scores@[i]) is Some && !out@.contains(
                        i as usize,
                    ) implies forall|k: int|
                    0 <= k < out@.len() ==> outranks(scores@, #[trigger] out@[k] as int, i) by {
                    assert(!before.contains(i as usize)) by {
                        if before.contains(i as usize) {
                            let w = choose|w: int| 0 <= w < before.len() && before[w] == i as usize;
                            assert(out@[w] == i as usize);
                        }
                    }
                    assert(i != b) by {
                        assert(out@[before.len() as int] == b);
                    }
                    assert forall|k: int| 0 <= k < out@.len() implies outranks(
                        scores@,
                        #[trigger] out@[k] as int,
                        i,
                    ) by {
                        if k < before.len() {
                            assert(out@[k] == before[k]);
                        }
                    }
                }
            },
        }
    }
    out
}

proof fn lemma_rank_prefix(r1: Seq<usize>, r2: Seq<usize>, scores: Seq<Option<i64>>, cap: int, k: int)
    requires
        is_ranking(r1, scores, cap),
        is_ranking(r2, scores, cap),
        0 <= k < r1.len(),
        k < r2.len(),
    ensures
        forall|j: int| 0 <= j <= k ==> r1[j] == r2[j],
    decreases k,
{
    if k > 0 {
        lemma_rank_prefix(r1, r2, scores, cap, k - 1);
    }
    let a = r1[k];
    let b = r2[k];
    if a != b {
        // `b` ranks above `a` in r2, and `a` above `b` in r1.
        assert(outranks(scores, b as int, a as int)) by {
            assert(scores[a as int] is Some);
            if r2.contains(a) {
                let p = choose|p: int| 0 <= p < r2.len() && r2[p] == a;
                if p < k {
                    assert(r1[p] == r2[p]);
                    assert(outranks(scores, r1[p] as int, r1[k] as int));
                }
            }
        }
        assert(outranks(scores, a as int, b as int)) by {
            assert(scores[b as int] is Some);
            if r1.contains(b) {
                let p = choose|p: int| 0 <= p < r1.len() && r1[p] == b;
                if p < k {
                    assert(r1[p] == r2[p]);
                    assert(outranks(scores, r2[p] as int, r2[k] as int));
                }
            }
        }
    }
}

proof fn lemma_rank_len(r1: Seq<usize>, r2: Seq<usize>, scores: Seq<Option<i64>>, cap: int)
    requires
        is_ranking(r1, scores, cap),
        is_ranking(r2, scores, cap),
    ensures
        r2.len() <= r1.len(),
{
    if r1.len() < r2.len() {
        let n = r1.len() as int;
        let x = r2[n];
        assert(scores[x as int] is Some);
        if r1.contains(x) {
            let p = choose|p: int| 0 <= p < r1.len() && r1[p] == x;
            lemma_rank_prefix(r1, r2, scores, cap, p);
            assert(outranks(scores, r2[p] as int, r2[n] as int));
        }
    }
}

/// The ranking contract pins the result: two lists that both rank the same
/// scores (under the same cap) are the same list.
pub proof fn law_ranking_is_unique(r1: Seq<usize>, r2: Seq<usize>, scores: Seq<Option<i64>>, cap: int)
    requires
        is_ranking(r1, scores, cap),
        is_ranking(r2, scores, cap),
    ensures
        r1 == r2,
{
    lemma_rank_len(r1, r2, scores, cap);
    lemma_rank_len(r2, r1, scores, cap);
    if r1.len() > 0 {
        lemma_rank_prefix(r1, r2, scores, cap, r1.len() - 1);
    }
    assert(r1 =~= r2);
}

/// The matcher's score of each item's text for `query`.
pub open spec fn item_scores(items: Seq<PaletteItem>, query: Seq<char>) -> Seq<Option<i64>> {
    items.map_values(|it: PaletteItem| skim_score(hay(it), query))
}

/// The first `min(n, RANK_LIMIT)` positions, in order.
pub open spec fn first_positions(n: int) -> Seq<usize> {
    let m = if n < RANK_LIMIT { n } else { RANK_LIMIT as int };
    Seq::new(m as nat, |i: int| i as usize)
}

/// Rank items against `query` with a fuzzy matcher; empty query keeps order.
/// Returns indices into `items`, best first.
pub fn rank(items: &[PaletteItem], query: &str) -> (r: Vec<usize>)
    ensures
        trim(query@).len() == 0 ==> r@ == first_positions(items@.len() as int),
        trim(query@).len() > 0 ==> is_ranking(r@, item_scores(items@, query@), RANK_LIMIT as int),
{
    let q = chars_of(query);
    let t = trimmed(q.as_slice());
    if t.len() == 0 {
        let mut r: Vec<usize> = Vec::new();
        let mut i: usize = 0;
        while i < items.len() && i < RANK_LIMIT
            invariant
                i <= items@.len(),
                i <= RANK_LIMIT,
                r@ == Seq::new(i as nat, |k: int| k as usize),
            decreases items@.len() - i,
        {
            r.push(i);
            i += 1;
            assert(r@ =~= Seq::new(i as nat, |k: int| k as usize));
        }
        assert(r@ =~= first_positions(items@.len() as int));
        return r;
    }
    let mut scores: Vec<Option<i64>> = Vec::new();
    let mut i: usize = 0;
    while i < items.len()
        invariant
            i <= items@.len(),
            scores@ == item_scores(items@, query@).take(i as int),
        decreases items@.len() - i,
    {
        let s = fuzzy_score(items[i].haystack(), query);
        scores.push(s);
        i += 1;
        assert(scores@ =~= item_scores(items@, query@).take(i as int));
    }
    assert(scores@ =~= item_scores(items@, query@));
    order_by_score(scores.as_slice())
}

} // verus!
