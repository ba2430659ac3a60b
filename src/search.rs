use vstd::prelude::*;
use vstd::string::*;
use vstd::utf8::encode_utf8;

verus! {

/// The searchable projection of a note: its id and text fields.
#[derive(Debug, Clone, PartialEq, Eq)]
pub struct SearchDocument {
    pub id: i64,
    pub title: String,
    pub subtitle: String,
    pub content: String,
}

/// Number of results of a search that asks for no particular number.
pub const DEFAULT_SEARCH_LIMIT: usize = 20;

/// Most results a search may return.
pub const MAX_SEARCH_LIMIT: usize = 100;

/// The number of results a search returns at most: the number asked for,
/// kept within `1 ..= 100`, or 20 when none is asked for.
pub fn search_limit(requested: Option<usize>) -> (r: usize)
    ensures
        requested is None ==> r == DEFAULT_SEARCH_LIMIT,
        requested matches Some(n) ==> r == if n < 1 {
            1
        } else if n > MAX_SEARCH_LIMIT {
            MAX_SEARCH_LIMIT
        } else {
            n
        },
{
    match requested {
        None => DEFAULT_SEARCH_LIMIT,
        Some(n) => {
            if n < 1 {
                1
            } else if n > MAX_SEARCH_LIMIT {
                MAX_SEARCH_LIMIT
            } else {
                n
            }
        },
    }
}

/// An ASCII upper-case letter turned to lower case; every other byte kept.
pub open spec fn fold_byte(b: u8) -> u8 {
    if 65 <= b <= 90 {
        (b + 32) as u8
    } else {
        b
    }
}

/// `pat` occurs in `text` at byte `i`, ignoring ASCII case.
pub open spec fn folded_match_at(text: Seq<u8>, pat: Seq<u8>, i: int) -> bool {
    forall|j: int| 0 <= j < pat.len() ==> fold_byte(#[trigger] text[i + j]) == fold_byte(pat[j])
}

/// `pat` occurs somewhere in `text`, ignoring ASCII case.
pub open spec fn contains_folded(text: Seq<u8>, pat: Seq<u8>) -> bool {
    exists|i: int| 0 <= i && i + pat.len() <= text.len() && #[trigger] folded_match_at(text, pat, i)
}

/// The title, subtitle or content of `d` contains `query`, ignoring ASCII case.
pub open spec fn document_matches(query: Seq<char>, d: SearchDocument) -> bool {
    let q = encode_utf8(query);
    contains_folded(encode_utf8(d.title@), q) || contains_folded(encode_utf8(d.subtitle@), q) || contains_folded(
        encode_utf8(d.content@),
        q,
    )
}

/// The ids of the first `limit` documents of `docs` that match `query`, in order.
pub open spec fn fallback_hits(query: Seq<char>, docs: Seq<SearchDocument>, limit: nat) -> Seq<i64>
    decreases docs.len(),
{
    if docs.len() == 0 || limit == 0 {
        Seq::empty()
    } else if document_matches(query, docs[0]) {
        seq![docs[0].id] + fallback_hits(query, docs.drop_first(), (limit - 1) as nat)
    } else {
        fallback_hits(query, docs.drop_first(), limit)
    }
}

/// `id` is the id of one of `docs`.
pub open spec fn has_document(docs: Seq<SearchDocument>, id: i64) -> bool {
    exists|k: int| 0 <= k < docs.len() && (#[trigger] docs[k]).id == id
}

/// The ids of `hits` that still name a document of `docs`, in the order of `hits`.
pub open spec fn present_hits(hits: Seq<i64>, docs: Seq<SearchDocument>) -> Seq<i64>
    decreases hits.len(),
{
    if hits.len() == 0 {
        Seq::empty()
    } else {
        present_hits(hits.drop_last(), docs) + if has_document(docs, hits.last()) {
            seq![hits.last()]
        } else {
            Seq::empty()
        }
    }
}

fn fold(b: u8) -> (r: u8)
    ensures
        r == fold_byte(b),
{
    if 65 <= b && b <= 90 {
        b + 32
    } else {
        b
    }
}

/// Whether `pat` occurs in `text`, ignoring ASCII case.
pub fn contains_ignoring_case(text: &[u8], pat: &[u8]) -> (r: bool)
    ensures
        r == contains_folded(text@, pat@),
{
    if pat.len() > text.len() {
        return false;
    }
    let n = text.len();
    let last = n - pat.len();
    let mut i: usize = 0;
    while i <= last
        invariant
            n == text@.len(),
            last + pat@.len() == text@.len(),
            forall|s: int| 0 <= s < i ==> !#[trigger] folded_match_at(text@, pat@, s),
        decreases last + 1 - i,
    {
        let mut j: usize = 0;
        while j < pat.len() && fold(text[i + j]) == fold(pat[j])
            invariant
                i <= last,
                n == text@.len(),
                last + pat@.len() == text@.len(),
                j <= pat@.len(),
                forall|t: int| 0 <= t < j ==> fold_byte(#[trigger] text@[i + t]) == fold_byte(pat@[t]),
            decreases pat@.len() - j,
        {
            j = j + 1;
        }
        if j == pat.len() {
            assert(folded_match_at(text@, pat@, i as int));
            return true;
        }
        assert(fold_byte(text@[i + j as int]) != fold_byte(pat@[j as int]));
        i = i + 1;
    }
    false
}

/// Whether the title, subtitle or content of `d` contains `query`, ignoring ASCII case.
pub fn matches_document(query: &str, d: &SearchDocument) -> (r: bool)
    ensures
        r == document_matches(query@, *d),
{
    let q = query.as_bytes();
    contains_ignoring_case(d.title.as_str().as_bytes(), q) || contains_ignoring_case(d.subtitle.as_str().as_bytes(), q)
        || contains_ignoring_case(d.content.as_str().as_bytes(), q)
}

/// The substring fallback of a search: the ids of the first `limit`
/// documents, in the order given, whose text contains `query` ignoring ASCII case.
pub fn substring_scan(query: &str, docs: &Vec<SearchDocument>, limit: usize) -> (r: Vec<i64>)
    ensures
        r@ == fallback_hits(query@, docs@, limit as nat),
{
    let mut out: Vec<i64> = Vec::new();
    let mut i: usize = 0;
    assert(docs@.skip(0) == docs@);
    assert(out@ + fallback_hits(query@, docs@, limit as nat) =~= fallback_hits(query@, docs@, limit as nat));
    while i < docs.len() && out.len() < limit
        invariant
            i <= docs@.len(),
            out@.len() <= limit,
            out@ + fallback_hits(query@, docs@.skip(i as int), (limit - out@.len()) as nat) == fallback_hits(query@, docs@, limit as nat),
        decreases docs@.len() - i,
    {
        let ghost rest = docs@.skip(i as int);
        assert(rest.drop_first() == docs@.skip(i + 1));
        assert(rest[0] == docs@[i as int]);
        if matches_document(query, &docs[i]) {
            out.push(docs[i].id);
            assert(out@ + fallback_hits(query@, docs@.skip(i + 1), (limit - out@.len()) as nat) =~= fallback_hits(query@, docs@, limit as nat));
        }
        i = i + 1;
    }
    assert(out@ + fallback_hits(query@, docs@.skip(i as int), (limit - out@.len()) as nat) =~= out@);
    out
}

fn find_document(docs: &Vec<SearchDocument>, id: i64) -> (r: bool)
    ensures
        r == has_document(docs@, id),
{
    let mut k: usize = 0;
    while k < docs.len()
        invariant
            k <= docs@.len(),
            forall|m: int| 0 <= m < k ==> (#[trigger] docs@[m]).id != id,
        decreases docs@.len() - k,
    {
        if docs[k].id == id {
            return true;
        }
        k = k + 1;
    }
    false
}

/// What a search returns, given the ranked index hits and the documents of
/// all notes: the hits that name a note, or the substring fallback when the
/// index found nothing.
pub open spec fn search_outcome(query: Seq<char>, hits: Seq<i64>, docs: Seq<SearchDocument>, limit: nat) -> Seq<i64> {
    if hits.len() > 0 {
        present_hits(hits, docs)
    } else {
        fallback_hits(query, docs, limit)
    }
}

/// The result of a search, given the ids that the full-text index ranked
/// (best first) and the documents of all notes, most recently modified first:
/// the ranked ids that still name a note; only when the index found nothing,
/// the substring fallback over the notes.
pub fn search_results(query: &str, hit_ids: &Vec<i64>, docs: &Vec<SearchDocument>, limit: usize) -> (r: Vec<i64>)
    ensures
        r@ == search_outcome(query@, hit_ids@, docs@, limit as nat),
{
    if hit_ids.len() == 0 {
        return substring_scan(query, docs, limit);
    }
    let mut out: Vec<i64> = Vec::new();
    let mut i: usize = 0;
    while i < hit_ids.len()
        invariant
            i <= hit_ids@.len(),
            out@ == present_hits(hit_ids@.take(i as int), docs@),
        decreases hit_ids@.len() - i,
    {
        assert(hit_ids@.take(i + 1).drop_last() == hit_ids@.take(i as int));
        if find_document(docs, hit_ids[i]) {
            out.push(hit_ids[i]);
        }
        i = i + 1;
        assert(out@ =~= present_hits(hit_ids@.take(i as int), docs@));
    }
    assert(hit_ids@.take(i as int) == hit_ids@);
    out
}

proof fn lemma_present_hits_member(hits: Seq<i64>, docs: Seq<SearchDocument>, id: i64)
    ensures
        present_hits(hits, docs).contains(id) <==> (hits.contains(id) && has_document(docs, id)),
    decreases hits.len(),
{
    if hits.len() > 0 {
        let init = hits.drop_last();
        lemma_present_hits_member(init, docs, id);
        let tail: Seq<i64> = if has_document(docs, hits.last()) {
            seq![hits.last()]
        } else {
            Seq::empty()
        };
        let p = present_hits(init, docs);
        assert(present_hits(hits, docs) == p + tail);
        if (p + tail).contains(id) {
            let k = choose|k: int| 0 <= k < (p + tail).len() && (p + tail)[k] == id;
            if k < p.len() {
                assert(p[k] == id);
                let j = choose|j: int| 0 <= j < init.len() && init[j] == id;
                assert(hits[j] == id);
            } else {
                assert(hits[hits.len() - 1] == id);
            }
        }
        if hits.contains(id) && has_document(docs, id) {
            let j = choose|j: int| 0 <= j < hits.len() && hits[j] == id;
            if j < hits.len() - 1 {
                assert(init[j] == id);
                let k = choose|k: int| 0 <= k < p.len() && p[k] == id;
                assert((p + tail)[k] == id);
            } else {
                assert((p + tail)[p.len() as int] == id);
            }
        }
    }
}

proof fn lemma_fallback_hits_member(query: Seq<char>, docs: Seq<SearchDocument>, limit: nat, id: i64)
    requires
        fallback_hits(query, docs, limit).contains(id),
    ensures
        exists|k: int| 0 <= k < docs.len() && (#[trigger] docs[k]).id == id && document_matches(query, docs[k]),
    decreases docs.len(),
{
    let r = fallback_hits(query, docs, limit);
    let rest = docs.drop_first();
    if document_matches(query, docs[0]) {
        let t = fallback_hits(query, rest, (limit - 1) as nat);
        let k = choose|k: int| 0 <= k < r.len() && r[k] == id;
        if k > 0 {
            assert(t[k - 1] == id);
            lemma_fallback_hits_member(query, rest, (limit - 1) as nat, id);
            let m = choose|m: int| 0 <= m < rest.len() && (#[trigger] rest[m]).id == id && document_matches(query, rest[m]);
            assert(docs[m + 1] == rest[m]);
        } else {
            assert(docs[0].id == id);
        }
    } else {
        lemma_fallback_hits_member(query, rest, limit, id);
        let m = choose|m: int| 0 <= m < rest.len() && (#[trigger] rest[m]).id == id && document_matches(query, rest[m]);
        assert(docs[m + 1] == rest[m]);
    }
}

/// A search never returns the id of a note that no longer exists, whatever
/// the index returned.
pub proof fn lemma_search_skips_missing(query: Seq<char>, hits: Seq<i64>, docs: Seq<SearchDocument>, limit: nat, id: i64)
    requires
        !has_document(docs, id),
    ensures
        !search_outcome(query, hits, docs, limit).contains(id),
{
    lemma_present_hits_member(hits, docs, id);
    if fallback_hits(query, docs, limit).contains(id) {
        lemma_fallback_hits_member(query, docs, limit, id);
    }
}

proof fn lemma_fallback_unique(query: Seq<char>, docs: Seq<SearchDocument>, limit: nat, k: int)
    requires
        0 <= k < docs.len(),
        limit >= 1,
        document_matches(query, docs[k]),
        forall|m: int| 0 <= m < docs.len() && m != k ==> !document_matches(query, #[trigger] docs[m]),
    ensures
        fallback_hits(query, docs, limit) == seq![docs[k].id],
    decreases docs.len(),
{
    let rest = docs.drop_first();
    if k == 0 {
        lemma_fallback_none(query, rest, (limit - 1) as nat);
        assert(seq![docs[0].id] + Seq::<i64>::empty() == seq![docs[0].id]);
    } else {
        assert forall|m: int| 0 <= m < rest.len() && m != k - 1 implies !document_matches(query, #[trigger] rest[m]) by {
            assert(rest[m] == docs[m + 1]);
        }
        lemma_fallback_unique(query, rest, limit, k - 1);
    }
}

proof fn lemma_fallback_none(query: Seq<char>, docs: Seq<SearchDocument>, limit: nat)
    requires
        forall|m: int| 0 <= m < docs.len() ==> !document_matches(query, #[trigger] docs[m]),
    ensures
        fallback_hits(query, docs, limit) == Seq::<i64>::empty(),
    decreases docs.len(),
{
    if docs.len() > 0 && limit > 0 {
        let rest = docs.drop_first();
        assert forall|m: int| 0 <= m < rest.len() implies !document_matches(query, #[trigger] rest[m]) by {
            assert(rest[m] == docs[m + 1]);
        }
        lemma_fallback_none(query, rest, limit);
    }
}

/// A note whose text alone contains the query is found: through the index
/// when the index ranks it, and otherwise, when the index finds nothing, as
/// the single result of the substring fallback.
pub proof fn lemma_search_finds_unique_match(query: Seq<char>, hits: Seq<i64>, docs: Seq<SearchDocument>, limit: nat, k: int)
    requires
        0 <= k < docs.len(),
        limit >= 1,
        document_matches(query, docs[k]),
        forall|m: int| 0 <= m < docs.len() && m != k ==> !document_matches(query, #[trigger] docs[m]),
    ensures
        hits.contains(docs[k].id) ==> search_outcome(query, hits, docs, limit).contains(docs[k].id),
        hits.len() == 0 ==> search_outcome(query, hits, docs, limit) == seq![docs[k].id],
{
    lemma_present_hits_member(hits, docs, docs[k].id);
    assert(has_document(docs, docs[k].id));
    if hits.len() == 0 {
        lemma_fallback_unique(query, docs, limit, k);
    }
}

} // verus!
