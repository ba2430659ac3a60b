use vstd::prelude::*;

verus! {

/// Failure classes of the graph store: a rejected request, a missing
/// target, or a fault of an underlying engine.
#[derive(Debug, Clone, PartialEq, Eq)]
pub enum StoreError {
    Validation(String),
    NotFound(String),
    Internal(String),
}

/// An undirected link between two notes, stored as `(smaller id, larger id)`.
#[derive(Debug, Clone, Copy, PartialEq, Eq, Structural)]
pub struct Link {
    pub source_id: i64,
    pub target_id: i64,
}

/// `l` has the note `id` at one of its ends.
pub open spec fn touches(l: Link, id: int) -> bool {
    l.source_id == id || l.target_id == id
}

/// The canonical form of the unordered pair `{a, b}`, or `None` for a self-loop.
pub open spec fn canonical_edge(a: int, b: int) -> Option<(int, int)> {
    if a == b {
        None
    } else if a < b {
        Some((a, b))
    } else {
        Some((b, a))
    }
}

/// Orders an unordered pair of note ids as `(smaller, larger)`; a self-loop
/// is rejected.
pub fn normalize_edge(a: i64, b: i64) -> (r: Result<(i64, i64), StoreError>)
    ensures
        a == b <==> r is Err,
        a == b ==> r matches Err(StoreError::Validation(_)),
        r matches Ok(e) ==> canonical_edge(a as int, b as int) == Some((e.0 as int, e.1 as int)),
{
    if a == b {
        return Err(StoreError::Validation(String::from_str("a note cannot link to itself")));
    }
    if a < b {
        Ok((a, b))
    } else {
        Ok((b, a))
    }
}

} // verus!

verus! {

/// Normalizing is blind to the order of the pair: both orders give the same
/// edge, and a note paired with itself gives none.
pub proof fn lemma_normalize_symmetric(a: int, b: int)
    ensures
        canonical_edge(a, b) == canonical_edge(b, a),
        canonical_edge(a, a) is None,
        a != b ==> canonical_edge(a, b) is Some,
{
}

/// Failure classes as the request layer reports them.
#[derive(Debug, Clone, PartialEq, Eq)]
pub enum ApiError {
    BadRequest(String),
    NotFound(String),
    Internal(String),
}

/// Classifies a store failure for the request layer: a rejected request is
/// the caller's to correct, a missing target is reported as such, anything
/// else is an internal fault.
pub fn map_store_error(err: StoreError) -> (r: ApiError)
    ensures
        err matches StoreError::Validation(m) ==> r == ApiError::BadRequest(m),
        err matches StoreError::NotFound(m) ==> r == ApiError::NotFound(m),
        err matches StoreError::Internal(m) ==> r == ApiError::Internal(m),
{
    match err {
        StoreError::Validation(m) => ApiError::BadRequest(m),
        StoreError::NotFound(m) => ApiError::NotFound(m),
        StoreError::Internal(m) => ApiError::Internal(m),
    }
}

fn id_listed(ids: &Vec<i64>, x: i64) -> (r: bool)
    ensures
        r == ids@.contains(x),
{
    let mut i: usize = 0;
    while i < ids.len()
        invariant
            i <= ids@.len(),
            forall|k: int| 0 <= k < i ==> ids@[k] != x,
        decreases ids@.len() - i,
    {
        if ids[i] == x {
            return true;
        }
        i = i + 1;
    }
    false
}

/// The link to store for a request to join notes `a` and `b`, given the ids
/// of all notes: a self-link or a link to a missing note is rejected.
pub fn new_link(a: i64, b: i64, note_ids: &Vec<i64>) -> (r: Result<Link, StoreError>)
    ensures
        r is Ok <==> (a != b && note_ids@.contains(a) && note_ids@.contains(b)),
        r matches Err(e) ==> e is Validation,
        r matches Ok(l) ==> canonical_edge(a as int, b as int) == Some((l.source_id as int, l.target_id as int)),
{
    let (source_id, target_id) = match normalize_edge(a, b) {
        Ok(e) => e,
        Err(e) => {
            return Err(e);
        },
    };
    if !id_listed(note_ids, source_id) || !id_listed(note_ids, target_id) {
        return Err(StoreError::Validation(String::from_str("both notes must exist before linking")));
    }
    Ok(Link { source_id, target_id })
}

} // verus!
