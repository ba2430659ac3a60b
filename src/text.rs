use vstd::prelude::*;
use vstd::string::*;
use crate::edge::StoreError;

verus! {

/// What `str::trim` leaves of the text `s`.
pub uninterp spec fn trimmed(s: Seq<char>) -> Seq<char>;

/// Relies on `str::trim`: the text without its leading and trailing whitespace.
#[verifier::external_body]
fn trim_text<'a>(s: &'a str) -> (r: &'a str)
    ensures
        r@ == trimmed(s@),
        s@.len() == 0 ==> r@.len() == 0,
{
    s.trim()
}

/// `s` with every double quote turned into a space.
pub open spec fn quotes_blanked(s: Seq<char>) -> Seq<char> {
    s.map_values(|c: char| if c == '"' { ' ' } else { c })
}

/// Relies on `str::replace`: each `"` of `s` replaced by a space, nothing else changed.
#[verifier::external_body]
fn blank_quotes(s: &str) -> (r: String)
    ensures
        r@ == quotes_blanked(s@),
{
    s.replace('"', " ")
}

/// Accepts an already trimmed title when it is not empty.
pub fn check_title(title: &str) -> (r: Result<String, StoreError>)
    ensures
        r is Err <==> title@.len() == 0,
        r matches Err(e) ==> e is Validation,
        r matches Ok(t) ==> t@ == title@,
{
    if title.is_empty() {
        Err(StoreError::Validation(String::from_str("title cannot be empty")))
    } else {
        Ok(String::from_str(title))
    }
}

/// The stored form of a note title: trimmed, and rejected when nothing is left.
pub fn validate_title(title: &str) -> (r: Result<String, StoreError>)
    ensures
        r is Err <==> trimmed(title@).len() == 0,
        r matches Err(e) ==> e is Validation,
        r matches Ok(t) ==> t@ == trimmed(title@),
{
    check_title(trim_text(title))
}

/// The text fields of a note.
#[derive(Debug, Clone, PartialEq, Eq)]
pub struct NoteText {
    pub title: String,
    pub subtitle: String,
    pub content: String,
}

/// The text of an optional field, empty when absent.
pub open spec fn text_or_empty(s: Option<String>) -> Seq<char> {
    match s {
        Some(t) => t@,
        None => Seq::empty(),
    }
}

fn unwrap_text(s: Option<String>) -> (r: String)
    ensures
        r@ == text_or_empty(s),
{
    match s {
        Some(t) => t,
        None => String::new(),
    }
}

/// The text of a new note: the title trimmed and required, subtitle and
/// content empty where not given.
pub fn prepare_note_text(title: &str, subtitle: Option<String>, content: Option<String>) -> (r: Result<NoteText, StoreError>)
    ensures
        r is Err <==> trimmed(title@).len() == 0,
        r matches Err(e) ==> e is Validation,
        r matches Ok(n) ==> n.title@ == trimmed(title@) && n.subtitle@ == text_or_empty(subtitle)
            && n.content@ == text_or_empty(content),
{
    let title = validate_title(title)?;
    Ok(NoteText { title, subtitle: unwrap_text(subtitle), content: unwrap_text(content) })
}

/// The text of a search, trimmed; `None` when nothing is left to search for.
pub fn search_query(raw: &str) -> (r: Option<String>)
    ensures
        r is None <==> trimmed(raw@).len() == 0,
        r matches Some(q) ==> q@ == trimmed(raw@),
{
    let q = trim_text(raw);
    if q.is_empty() {
        None
    } else {
        Some(String::from_str(q))
    }
}

/// The fallback form of a query that does not parse: the whole text as one
/// phrase, its double quotes blanked out.
pub fn phrase_query(query: &str) -> (r: String)
    ensures
        r@ == seq!['"'] + quotes_blanked(query@) + seq!['"'],
{
    let inner = blank_quotes(query);
    let mut r = String::from_str("\"");
    r.append(inner.as_str());
    r.append("\"");
    proof {
        reveal_strlit("\"");
    }
    assert(r@ =~= seq!['"'] + quotes_blanked(query@) + seq!['"']);
    r
}

} // verus!
