//! Pure parts of the MCP tools: parameter defaults, the stale-index
//! cleanup of `vault_ask`, and the wikilink labels of its passages.
use vstd::prelude::*;
use crate::text::{chars_of, same_chars, string_of, string_views};

verus! {

/// Default number of search hits.
pub fn default_limit() -> (r: usize)
    ensures
        r == 50,
{
    50
}

/// Default number of passages retrieved for a question.
pub fn default_top_k() -> (r: usize)
    ensures
        r == 5,
{
    5
}

fn listed_in(v: &[String], x: &[char]) -> (b: bool)
    ensures
        b == string_views(v@).contains(x@),
{
    let mut i: usize = 0;
    while i < v.len()
        invariant
            i <= v@.len(),
            forall|k: int| 0 <= k < i ==> v@[k]@ != x@,
        decreases v@.len() - i,
    {
        let c = chars_of(v[i].as_str());
        if same_chars(c.as_slice(), x) {
            assert(string_views(v@)[i as int] == x@);
            return true;
        }
        i += 1;
    }
    assert forall|k: int| 0 <= k < string_views(v@).len() implies string_views(v@)[k] != x@ by {
        assert(string_views(v@)[k] == v@[k]@);
    }
    false
}

/// The note ids still in the embedding index whose notes are gone: each id
/// of `indexed` that `alive` lacks, listed once.
pub fn stale_note_ids(indexed: &[String], alive: &[String]) -> (r: Vec<String>)
    ensures
        string_views(r@).no_duplicates(),
        forall|id: Seq<char>|
            string_views(r@).contains(id) <==> (string_views(indexed@).contains(id)
                && !string_views(alive@).contains(id)),
{
    let mut r: Vec<String> = Vec::new();
    let mut i: usize = 0;
    while i < indexed.len()
        invariant
            i <= indexed@.len(),
            string_views(r@).no_duplicates(),
            forall|id: Seq<char>|
                string_views(r@).contains(id) <==> (string_views(indexed@).take(i as int).contains(id)
                    && !string_views(alive@).contains(id)),
        decreases indexed@.len() - i,
    {
        let c = chars_of(indexed[i].as_str());
        let ghost pre = string_views(indexed@).take(i as int);
        let ghost nxt = string_views(indexed@).take(i + 1);
        assert(nxt =~= pre.push(c@));
        if !listed_in(alive, c.as_slice()) && !listed_in(r.as_slice(), c.as_slice()) {
            let ghost before = string_views(r@);
            r.push(string_of(c.as_slice()));
            assert(string_views(r@) =~= before.push(c@));
            assert forall|a: int, b: int| 0 <= a < b < string_views(r@).len() implies string_views(r@)[a]
                != string_views(r@)[b] by {
                if b == before.len() {
                    assert(before.contains(before[a]));
                }
            }
            assert forall|id: Seq<char>| string_views(r@).contains(id) <==> (nxt.contains(id)
                && !string_views(alive@).contains(id)) by {
                if string_views(r@).contains(id) && id != c@ {
                    let w = choose|w: int| 0 <= w < string_views(r@).len() && string_views(r@)[w] == id;
                    assert(before[w] == id);
                }
                if nxt.contains(id) && id != c@ {
                    let w = choose|w: int| 0 <= w < nxt.len() && nxt[w] == id;
                    assert(pre[w] == id);
                }
                if before.contains(id) {
                    let w = choose|w: int| 0 <= w < before.len() && before[w] == id;
                    assert(string_views(r@)[w] == id);
                }
                if pre.contains(id) {
                    let w = choose|w: int| 0 <= w < pre.len() && pre[w] == id;
                    assert(nxt[w] == id);
                }
                if id == c@ {
                    assert(string_views(r@)[before.len() as int] == id);
                    assert(nxt[i as int] == id);
                }
            }
        } else {
            assert forall|id: Seq<char>| string_views(r@).contains(id) <==> (nxt.contains(id)
                && !string_views(alive@).contains(id)) by {
                if nxt.contains(id) && id != c@ {
                    let w = choose|w: int| 0 <= w < nxt.len() && nxt[w] == id;
                    assert(pre[w] == id);
                }
                if pre.contains(id) {
                    let w = choose|w: int| 0 <= w < pre.len() && pre[w] == id;
                    assert(nxt[w] == id);
                }
                if id == c@ {
                    assert(nxt[i as int] == id);
                }
            }
        }
        i += 1;
    }
    assert(string_views(indexed@).take(i as int) =~= string_views(indexed@));
    r
}

/// The title of the first note (id, title) of `notes` whose id is `id`.
pub open spec fn title_of(notes: Seq<(Seq<char>, Seq<char>)>, id: Seq<char>) -> Option<Seq<char>>
    decreases notes.len(),
{
    if notes.len() == 0 {
        None
    } else if notes[0].0 == id {
        Some(notes[0].1)
    } else {
        title_of(notes.drop_first(), id)
    }
}

/// The (id, title) characters of a list of notes.
pub open spec fn note_views(v: Seq<(String, String)>) -> Seq<(Seq<char>, Seq<char>)> {
    v.map_values(|n: (String, String)| (n.0@, n.1@))
}

fn label_for(notes: &[(String, String)], note_id: &str) -> (r: Vec<char>)
    ensures
        r@ == (match title_of(note_views(notes@), note_id@) {
            Some(t) => t,
            None => note_id@,
        }),
{
    let idc = chars_of(note_id);
    let mut i: usize = 0;
    assert(note_views(notes@).skip(0) =~= note_views(notes@));
    while i < notes.len()
        invariant
            i <= notes@.len(),
            idc@ == note_id@,
            title_of(note_views(notes@), note_id@) == title_of(note_views(notes@).skip(i as int), note_id@),
        decreases notes@.len() - i,
    {
        let c = chars_of(notes[i].0.as_str());
        assert(note_views(notes@).skip(i as int)[0] == (notes@[i as int].0@, notes@[i as int].1@));
        if same_chars(c.as_slice(), idc.as_slice()) {
            return chars_of(notes[i].1.as_str());
        }
        assert(note_views(notes@).skip(i as int).drop_first() =~= note_views(notes@).skip(i + 1));
        i += 1;
    }
    idc
}

/// The wikilink label of a retrieved passage: `[[title]]` of the note it
/// came from, or `[[note_id]]` when no note of the vault has that id.
pub fn passage_wikilink(notes: &[(String, String)], note_id: &str) -> (r: String)
    ensures
        r@ == "[["@ + (match title_of(note_views(notes@), note_id@) {
            Some(t) => t,
            None => note_id@,
        }) + "]]"@,
{
    let mut label = label_for(notes, note_id);
    let mut out = chars_of("[[");
    let mut tail = chars_of("]]");
    let ghost l = label@;
    out.append(&mut label);
    out.append(&mut tail);
    assert(out@ =~= "[["@ + l + "]]"@);
    string_of(out.as_slice())
}

} // verus!
