use vstd::prelude::*;
use crate::edge::{normalize_edge, touches, Link, StoreError};

verus! {

/// The stored form of the link between the distinct notes `a` and `b`.
pub open spec fn canonical_link(a: i64, b: i64) -> Link {
    if a < b {
        Link { source_id: a, target_id: b }
    } else {
        Link { source_id: b, target_id: a }
    }
}

/// `l` joins `note_id` to one of the first `upto` entries of `related` that
/// is another note and exists.
pub open spec fn wanted_among(note_id: i64, related: Seq<i64>, existing: Set<i64>, upto: int, l: Link) -> bool {
    exists|k: int|
        0 <= k < upto && related[k] != note_id && existing.contains(related[k]) && l == canonical_link(
            note_id,
            #[trigger] related[k],
        )
}

/// The links that a note should have after declaring `related` as its
/// related notes: one to each listed note that exists, other than itself.
pub open spec fn desired_links(note_id: i64, related: Seq<i64>, existing: Set<i64>) -> Set<Link> {
    Set::new(|l: Link| wanted_among(note_id, related, existing, related.len() as int, l))
}

/// The links of `links` that touch `note_id`.
pub open spec fn current_links(links: Set<Link>, note_id: i64) -> Set<Link> {
    links.filter(|l: Link| touches(l, note_id as int))
}

/// The link set after reconciling the links of `note_id` with `related`:
/// its links outside the desired set removed, the missing desired ones added.
pub open spec fn synced_links(links: Set<Link>, note_id: i64, related: Seq<i64>, existing: Set<i64>) -> Set<Link> {
    let desired = desired_links(note_id, related, existing);
    let current = current_links(links, note_id);
    links.difference(current.difference(desired)).union(desired.difference(current))
}

/// The changes that reconcile a note's links with a declared list of related notes.
#[derive(Debug, Clone, PartialEq, Eq)]
pub struct LinkPlan {
    pub remove: Vec<Link>,
    pub add: Vec<Link>,
}

proof fn lemma_push_contains<A>(s: Seq<A>, x: A)
    ensures
        forall|m: A| #[trigger] s.push(x).contains(m) <==> (s.contains(m) || m == x),
{
    assert forall|m: A| #[trigger] s.push(x).contains(m) <==> (s.contains(m) || m == x) by {
        if s.contains(m) {
            let k = choose|k: int| 0 <= k < s.len() && s[k] == m;
            assert(s.push(x)[k] == m);
        }
        if m == x {
            assert(s.push(x)[s.len() as int] == x);
        }
        if s.push(x).contains(m) {
            let k = choose|k: int| 0 <= k < s.len() + 1 && s.push(x)[k] == m;
            if k < s.len() {
                assert(s[k] == m);
            }
        }
    }
}

fn contains_id(ids: &Vec<i64>, x: i64) -> (r: bool)
    ensures
        r == ids@.contains(x),
{
    let mut i: usize = 0;
    while i < ids.len()
        invariant
            i <= ids@.len(),
            forall|k: int| 0 <= k < i ==> ids@[k] != x,
        decreases ids@.len() - i,
    {
        if ids[i] == x {
            return true;
        }
        i = i + 1;
    }
    false
}

fn contains_link(links: &Vec<Link>, l: Link) -> (r: bool)
    ensures
        r == links@.contains(l),
{
    let mut i: usize = 0;
    while i < links.len()
        invariant
            i <= links@.len(),
            forall|k: int| 0 <= k < i ==> links@[k] != l,
        decreases links@.len() - i,
    {
        if links[i] == l {
            return true;
        }
        i = i + 1;
    }
    false
}

/// Plans the reconciliation of the links of `note_id` with `related_ids`,
/// given the ids of all notes and all links: remove each link of the note
/// that is not desired, add each desired link that is missing.
pub fn plan_related_links(note_id: i64, related_ids: &Vec<i64>, note_ids: &Vec<i64>, links: &Vec<Link>) -> (plan: LinkPlan)
    ensures
        ({
            let desired = desired_links(note_id, related_ids@, note_ids@.to_set());
            let current = current_links(links@.to_set(), note_id);
            &&& plan.remove@.to_set() == current.difference(desired)
            &&& plan.add@.to_set() == desired.difference(current)
            &&& plan.remove@.no_duplicates()
            &&& plan.add@.no_duplicates()
        }),
{
    let ghost existing = note_ids@.to_set();
    let mut desired: Vec<Link> = Vec::new();
    let mut i: usize = 0;
    while i < related_ids.len()
        invariant
            i <= related_ids@.len(),
            existing == note_ids@.to_set(),
            desired@.no_duplicates(),
            forall|l: Link| #[trigger] desired@.contains(l) <==> wanted_among(note_id, related_ids@, existing, i as int, l),
        decreases related_ids@.len() - i,
    {
        let r = related_ids[i];
        let ghost before = desired@;
        if r != note_id && contains_id(note_ids, r) {
            if let Ok(e) = normalize_edge(note_id, r) {
                let l = Link { source_id: e.0, target_id: e.1 };
                assert(l == canonical_link(note_id, r));
                if !contains_link(&desired, l) {
                    desired.push(l);
                }
                proof {
                    lemma_push_contains(before, l);
                }
                assert(desired@.contains(l));
            }
        }
        assert(desired@ == before || desired@ == before.push(canonical_link(note_id, r)));
        assert(r != note_id && existing.contains(r) ==> desired@.contains(canonical_link(note_id, r)));
        proof {
            lemma_push_contains(before, canonical_link(note_id, r));
            assert forall|l: Link| #[trigger] desired@.contains(l) <==> wanted_among(note_id, related_ids@, existing, i + 1, l) by {
                if wanted_among(note_id, related_ids@, existing, i + 1, l) {
                    let k = choose|k: int|
                        0 <= k < i + 1 && related_ids@[k] != note_id && existing.contains(related_ids@[k])
                            && l == canonical_link(note_id, #[trigger] related_ids@[k]);
                    if k < i {
                        assert(wanted_among(note_id, related_ids@, existing, i as int, l));
                    }
                }
                if wanted_among(note_id, related_ids@, existing, i as int, l) {
                    let k = choose|k: int|
                        0 <= k < i && related_ids@[k] != note_id && existing.contains(related_ids@[k])
                            && l == canonical_link(note_id, #[trigger] related_ids@[k]);
                    assert(wanted_among(note_id, related_ids@, existing, i + 1, l));
                }
                if r != note_id && existing.contains(r) && l == canonical_link(note_id, r) {
                    assert(wanted_among(note_id, related_ids@, existing, i + 1, l));
                }
            }
        }
        i = i + 1;
    }
    assert(desired@.to_set() =~= desired_links(note_id, related_ids@, existing));

    let mut current: Vec<Link> = Vec::new();
    let mut j: usize = 0;
    while j < links.len()
        invariant
            j <= links@.len(),
            current@.no_duplicates(),
            forall|l: Link| #[trigger] current@.contains(l) <==> (links@.take(j as int).contains(l) && touches(l, note_id as int)),
        decreases links@.len() - j,
    {
        let l = links[j];
        let ghost before = current@;
        if (l.source_id == note_id || l.target_id == note_id) && !contains_link(&current, l) {
            current.push(l);
        }
        proof {
            assert(links@.take(j + 1) == links@.take(j as int).push(l));
            lemma_push_contains(links@.take(j as int), l);
            lemma_push_contains(before, l);
        }
        j = j + 1;
    }
    assert(links@.take(j as int) == links@);
    assert(current@.to_set() =~= current_links(links@.to_set(), note_id));

    let mut remove: Vec<Link> = Vec::new();
    let mut a: usize = 0;
    while a < current.len()
        invariant
            a <= current@.len(),
            current@.no_duplicates(),
            remove@.no_duplicates(),
            forall|l: Link| #[trigger] remove@.contains(l) <==> (current@.take(a as int).contains(l) && !desired@.contains(l)),
        decreases current@.len() - a,
    {
        let l = current[a];
        let ghost before = remove@;
        if !contains_link(&desired, l) {
            proof {
                if before.contains(l) {
                    let k = choose|k: int| 0 <= k < a && #[trigger] current@.take(a as int)[k] == l;
                    assert(current@[k] == current@[a as int]);
                }
            }
            remove.push(l);
        }
        proof {
            assert(current@.take(a + 1) == current@.take(a as int).push(l));
            lemma_push_contains(current@.take(a as int), l);
            lemma_push_contains(before, l);
        }
        a = a + 1;
    }
    assert(current@.take(a as int) == current@);

    let mut add: Vec<Link> = Vec::new();
    let mut b: usize = 0;
    while b < desired.len()
        invariant
            b <= desired@.len(),
            desired@.no_duplicates(),
            add@.no_duplicates(),
            forall|l: Link| #[trigger] add@.contains(l) <==> (desired@.take(b as int).contains(l) && !current@.contains(l)),
        decreases desired@.len() - b,
    {
        let l = desired[b];
        let ghost before = add@;
        if !contains_link(&current, l) {
            proof {
                if before.contains(l) {
                    let k = choose|k: int| 0 <= k < b && #[trigger] desired@.take(b as int)[k] == l;
                    assert(desired@[k] == desired@[b as int]);
                }
            }
            add.push(l);
        }
        proof {
            assert(desired@.take(b + 1) == desired@.take(b as int).push(l));
            lemma_push_contains(desired@.take(b as int), l);
            lemma_push_contains(before, l);
        }
        b = b + 1;
    }
    assert(desired@.take(b as int) == desired@);
    let plan = LinkPlan { remove, add };
    assert(plan.remove@.to_set() =~= current_links(links@.to_set(), note_id).difference(desired_links(note_id, related_ids@, existing)));
    assert(plan.add@.to_set() =~= desired_links(note_id, related_ids@, existing).difference(current_links(links@.to_set(), note_id)));
    plan
}

} // verus!

verus! {

proof fn lemma_desired_touch_note(note_id: i64, related: Seq<i64>, existing: Set<i64>, l: Link)
    requires
        desired_links(note_id, related, existing).contains(l),
    ensures
        touches(l, note_id as int),
{
    let k = choose|k: int|
        0 <= k < related.len() && related[k] != note_id && existing.contains(related[k]) && l == canonical_link(
            note_id,
            #[trigger] related[k],
        );
}

/// Reconciling a note's links with a related list leaves the note linked to
/// exactly the desired notes and every other link as it was; reconciling
/// again with the same list changes nothing.
pub proof fn lemma_sync_related_links_idempotent(links: Set<Link>, note_id: i64, related: Seq<i64>, existing: Set<i64>)
    ensures
        current_links(synced_links(links, note_id, related, existing), note_id) == desired_links(note_id, related, existing),
        forall|l: Link|
            !touches(l, note_id as int) ==> (#[trigger] synced_links(links, note_id, related, existing).contains(l)
                <==> links.contains(l)),
        synced_links(synced_links(links, note_id, related, existing), note_id, related, existing) == synced_links(
            links,
            note_id,
            related,
            existing,
        ),
{
    let desired = desired_links(note_id, related, existing);
    let once = synced_links(links, note_id, related, existing);
    assert forall|l: Link| desired.contains(l) implies touches(l, note_id as int) by {
        lemma_desired_touch_note(note_id, related, existing, l);
    }
    assert(current_links(once, note_id) =~= desired);
    assert(synced_links(once, note_id, related, existing) =~= once);
}

/// The links of a note just created with id `note_id` and the declared
/// related notes `related_ids`, given the ids of all notes (the new one
/// included): one link to each other listed note, duplicates dropped. A
/// listed note that does not exist is rejected.
pub fn new_note_links(note_id: i64, related_ids: &Vec<i64>, note_ids: &Vec<i64>) -> (r: Result<Vec<Link>, StoreError>)
    ensures
        r is Err <==> exists|k: int|
            0 <= k < related_ids@.len() && #[trigger] related_ids@[k] != note_id && !note_ids@.contains(related_ids@[k]),
        r matches Err(e) ==> e is Validation,
        r matches Ok(v) ==> v@.to_set() == desired_links(note_id, related_ids@, note_ids@.to_set()) && v@.no_duplicates(),
{
    let mut i: usize = 0;
    while i < related_ids.len()
        invariant
            i <= related_ids@.len(),
            forall|k: int| 0 <= k < i ==> #[trigger] related_ids@[k] == note_id || note_ids@.contains(related_ids@[k]),
        decreases related_ids@.len() - i,
    {
        let r = related_ids[i];
        if r != note_id && !contains_id(note_ids, r) {
            return Err(StoreError::Validation(String::from_str("both notes must exist before linking")));
        }
        i = i + 1;
    }
    let no_links: Vec<Link> = Vec::new();
    let plan = plan_related_links(note_id, related_ids, note_ids, &no_links);
    assert(current_links(no_links@.to_set(), note_id) =~= Set::<Link>::empty());
    assert(desired_links(note_id, related_ids@, note_ids@.to_set()).difference(Set::<Link>::empty()) =~= desired_links(
        note_id,
        related_ids@,
        note_ids@.to_set(),
    ));
    Ok(plan.add)
}

} // verus!
