//! Full-text search over wave text: the index interface, and the
//! access-control filtering and snippet choice applied to its results.

use vstd::prelude::*;
use crate::text::{chars_of, string_of, str_eq, string_views};

verus! {

/// How many characters of a document body stand in for a missing snippet.
pub const SNIPPET_FALLBACK_CHARS: usize = 140;

/// A search result.
#[derive(Debug, Clone)]
pub struct SearchHit {
    pub wave: String,
    pub title: String,
    pub snippet: String,
}

/// A document as the index returned it, best match first.
#[derive(Debug, Clone)]
pub struct IndexedDoc {
    pub wave: String,
    pub title: String,
    pub body: String,
    /// The highlighted snippet, where the index produced one.
    pub snippet: Option<String>,
}

/// A full-text index over wave titles and bodies. Re-indexing a wave
/// replaces its previous document.
pub trait SearchIndex {
    fn upsert(&mut self, wave: &str, title: &str, body: &str) -> Result<(), String>;

    fn query(&self, q: &str, allowed: &Vec<String>, limit: usize) -> Result<Vec<SearchHit>, String>;
}

/// A hit as plain values: (wave, title, snippet).
pub open spec fn hit_view(h: SearchHit) -> (Seq<char>, Seq<char>, Seq<char>) {
    (h.wave@, h.title@, h.snippet@)
}

/// The snippet shown for a document: the index's highlighted snippet when
/// it is non-empty, else the first characters of the body.
pub open spec fn snippet_of(d: IndexedDoc) -> Seq<char> {
    match d.snippet {
        Some(s) if s@.len() > 0 => s@,
        _ => if d.body@.len() <= SNIPPET_FALLBACK_CHARS {
            d.body@
        } else {
            d.body@.take(SNIPPET_FALLBACK_CHARS as int)
        },
    }
}

pub open spec fn doc_hit(d: IndexedDoc) -> (Seq<char>, Seq<char>, Seq<char>) {
    (d.wave@, d.title@, snippet_of(d))
}

/// The hits of the documents whose wave is in `allowed`, in order.
pub open spec fn allowed_hits(docs: Seq<IndexedDoc>, allowed: Seq<Seq<char>>) -> Seq<(Seq<char>, Seq<char>, Seq<char>)>
    decreases docs.len(),
{
    if docs.len() == 0 {
        Seq::empty()
    } else {
        let r = allowed_hits(docs.drop_last(), allowed);
        if allowed.contains(docs.last().wave@) {
            r.push(doc_hit(docs.last()))
        } else {
            r
        }
    }
}

proof fn lemma_allowed_hits_prefix(docs: Seq<IndexedDoc>, allowed: Seq<Seq<char>>, i: int)
    requires
        0 <= i <= docs.len(),
    ensures
        allowed_hits(docs.take(i), allowed).len() <= allowed_hits(docs, allowed).len(),
        allowed_hits(docs.take(i), allowed) == allowed_hits(docs, allowed).take(
            allowed_hits(docs.take(i), allowed).len() as int,
        ),
    decreases docs.len(),
{
    if i == docs.len() {
        assert(docs.take(i) =~= docs);
        assert(allowed_hits(docs, allowed).take(allowed_hits(docs, allowed).len() as int) =~= allowed_hits(
            docs,
            allowed,
        ));
    } else {
        let d = docs.drop_last();
        assert(docs.take(i) =~= d.take(i));
        lemma_allowed_hits_prefix(d, allowed, i);
        let a = allowed_hits(d.take(i), allowed);
        let b = allowed_hits(d, allowed);
        assert(b.take(a.len() as int) == a);
        if allowed.contains(docs.last().wave@) {
            assert(b.push(doc_hit(docs.last())).take(a.len() as int) =~= b.take(a.len() as int));
        }
    }
}

fn contains_string(v: &Vec<String>, s: &str) -> (b: bool)
    ensures
        b == string_views(v@).contains(s@),
{
    let mut i: usize = 0;
    while i < v.len()
        invariant
            i <= v.len(),
            forall|j: int| 0 <= j < i ==> v@[j]@ != s@,
        decreases v.len() - i,
    {
        if str_eq(v[i].as_str(), s) {
            assert(string_views(v@)[i as int] == s@);
            return true;
        }
        i += 1;
    }
    assert forall|j: int| 0 <= j < string_views(v@).len() implies string_views(v@)[j] != s@ by {
        assert(string_views(v@)[j] == v@[j]@);
    }
    false
}

fn snippet_for(d: &IndexedDoc) -> (s: String)
    ensures
        s@ == snippet_of(*d),
{
    match &d.snippet {
        Some(s) => {
            if !s.as_str().is_empty() {
                return s.as_str().to_owned();
            }
        },
        None => {},
    }
    let cs = chars_of(d.body.as_str());
    if cs.len() <= SNIPPET_FALLBACK_CHARS {
        string_of(cs.as_slice())
    } else {
        let r = string_of(&cs.as_slice()[0..SNIPPET_FALLBACK_CHARS]);
        assert(cs@.subrange(0, SNIPPET_FALLBACK_CHARS as int) =~= d.body@.take(SNIPPET_FALLBACK_CHARS as int));
        r
    }
}

/// The page of results for a query: the index's documents, best first,
/// restricted to the caller's waves, at most `limit` of them.
pub fn collect_hits(docs: &Vec<IndexedDoc>, allowed: &Vec<String>, limit: usize) -> (hits: Vec<SearchHit>)
    ensures
        hits@.map_values(|h: SearchHit| hit_view(h)) == if allowed_hits(docs@, string_views(allowed@)).len()
            <= limit {
            allowed_hits(docs@, string_views(allowed@))
        } else {
            allowed_hits(docs@, string_views(allowed@)).take(limit as int)
        },
{
    let ghost al = string_views(allowed@);
    let mut hits: Vec<SearchHit> = Vec::new();
    let mut i: usize = 0;
    assert(docs@.take(0) =~= Seq::<IndexedDoc>::empty());
    while i < docs.len()
        invariant
            i <= docs.len(),
            al == string_views(allowed@),
            hits@.map_values(|h: SearchHit| hit_view(h)) == allowed_hits(docs@.take(i as int), al),
            hits.len() <= limit,
        ensures
            hits@.map_values(|h: SearchHit| hit_view(h)) == allowed_hits(docs@.take(i as int), al),
            i <= docs.len(),
            hits.len() <= limit,
            i < docs.len() ==> hits.len() == limit,
        decreases docs.len() - i,
    {
        if hits.len() >= limit {
            break;
        }
        let d = &docs[i];
        assert(docs@.take(i + 1).drop_last() =~= docs@.take(i as int));
        assert(docs@.take(i + 1).last() == *d);
        if contains_string(allowed, d.wave.as_str()) {
            let h = SearchHit { wave: d.wave.as_str().to_owned(), title: d.title.as_str().to_owned(), snippet: snippet_for(d) };
            let ghost before = hits@;
            hits.push(h);
            assert(hits@.map_values(|h: SearchHit| hit_view(h)) =~= before.map_values(|h: SearchHit| hit_view(h)).push(
                hit_view(h),
            ));
        }
        i += 1;
    }
    proof {
        lemma_allowed_hits_prefix(docs@, al, i as int);
        if i == docs.len() {
            assert(docs@.take(i as int) =~= docs@);
        }
    }
    hits
}

/// The snippet of a hit is the index's highlighted snippet whenever the
/// index produced a non-empty one; only otherwise is it the start of the
/// body, at most `SNIPPET_FALLBACK_CHARS` characters of it.
pub proof fn law_highlighted_snippet_wins(d: IndexedDoc)
    ensures
        match d.snippet {
            Some(s) => s@.len() > 0 ==> doc_hit(d) == (d.wave@, d.title@, s@),
            None => true,
        },
        (d.snippet is None || d.snippet->0@.len() == 0) ==> doc_hit(d) == (d.wave@, d.title@, d.body@.take(
            if d.body@.len() <= SNIPPET_FALLBACK_CHARS { d.body@.len() as int } else { SNIPPET_FALLBACK_CHARS as int },
        )),
{
    if d.body@.len() <= SNIPPET_FALLBACK_CHARS {
        assert(d.body@.take(d.body@.len() as int) =~= d.body@);
    }
}

} // verus!
