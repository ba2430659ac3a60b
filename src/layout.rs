use vstd::prelude::*;
use crate::edge::{touches, Link};

verus! {

/// A point of the canvas in polar form: on ring `ring`, at the angle
/// `2π * slot / slots`. The distance from the origin is `ring` times the
/// ring spacing of the scheme that produced it.
#[derive(Debug, Clone, Copy, PartialEq, Eq, Structural)]
pub struct Placement {
    pub ring: usize,
    pub slot: usize,
    pub slots: usize,
}

/// Ring spacing of the spawn circle for new notes without a position.
pub const SPAWN_RING_SPACING: u64 = 140;

/// Number of slots on each ring of the spawn circle.
pub const SPAWN_SLOTS: usize = 8;

/// Ring spacing of the automatic radial layout.
pub const LAYOUT_RING_SPACING: u64 = 180;

/// Where the note created after `count` others spawns.
pub open spec fn spawn_spec(count: nat) -> Placement {
    Placement { ring: (count / 8 + 1) as usize, slot: (count % 8) as usize, slots: 8 }
}

/// The default spawn position of a new note, given the number of notes that
/// exist before it: ring `count / 8 + 1`, slot `count % 8` of eight.
pub fn default_spawn_position(count: usize) -> (p: Placement)
    ensures
        p == spawn_spec(count as nat),
{
    Placement { ring: count / SPAWN_SLOTS + 1, slot: count % SPAWN_SLOTS, slots: SPAWN_SLOTS }
}

/// How many notes ring `r` of the radial layout holds.
pub open spec fn ring_capacity(r: nat) -> nat {
    if r == 0 {
        1
    } else {
        6 * r
    }
}

/// Rank (in degree order) of the first note placed on ring `r`.
pub open spec fn ring_start(r: nat) -> nat
    decreases r,
{
    if r == 0 {
        0
    } else {
        ring_start((r - 1) as nat) + ring_capacity((r - 1) as nat)
    }
}

/// `p` is the layout position of the note of rank `k`: the rings are filled
/// outward, each slot of a ring in turn.
pub open spec fn placement_of_rank(k: nat, p: Placement) -> bool {
    &&& p.slots as nat == ring_capacity(p.ring as nat)
    &&& p.slot < p.slots
    &&& k == ring_start(p.ring as nat) + p.slot
}

proof fn lemma_ring_start_grows(r1: nat, r2: nat)
    requires
        r1 < r2,
    ensures
        ring_start(r1) + ring_capacity(r1) <= ring_start(r2),
    decreases r2,
{
    if r1 + 1 < r2 {
        lemma_ring_start_grows(r1, (r2 - 1) as nat);
    }
}

proof fn lemma_ring_start_bounds_capacity(r: nat)
    requires
        r >= 3,
    ensures
        6 * r <= ring_start(r),
    decreases r,
{
    reveal_with_fuel(ring_start, 4);
    if r > 3 {
        lemma_ring_start_bounds_capacity((r - 1) as nat);
    }
}

/// Each rank has one layout position only.
pub proof fn lemma_placement_unique(k: nat, p: Placement, q: Placement)
    requires
        placement_of_rank(k, p),
        placement_of_rank(k, q),
    ensures
        p == q,
{
    if p.ring < q.ring {
        lemma_ring_start_grows(p.ring as nat, q.ring as nat);
    } else if q.ring < p.ring {
        lemma_ring_start_grows(q.ring as nat, p.ring as nat);
    }
}

/// Notes of different rank get different positions, and only the note of
/// rank zero (the one of highest degree) stands on ring zero, at the origin.
pub proof fn lemma_placements_distinct(k1: nat, p1: Placement, k2: nat, p2: Placement)
    requires
        placement_of_rank(k1, p1),
        placement_of_rank(k2, p2),
    ensures
        k1 != k2 ==> (p1.ring, p1.slot) != (p2.ring, p2.slot),
        p1.ring == 0 <==> k1 == 0,
{
    if p1.ring > 0 {
        lemma_ring_start_grows(0, p1.ring as nat);
    }
}

/// The layout positions of the notes of rank `0 .. n`.
pub fn ring_placements(n: usize) -> (r: Vec<Placement>)
    ensures
        r@.len() == n,
        forall|k: int| 0 <= k < n ==> placement_of_rank(k as nat, #[trigger] r@[k]),
{
    let mut out: Vec<Placement> = Vec::new();
    let mut ring: usize = 0;
    while out.len() < n
        invariant
            out@.len() <= n,
            out@.len() < n ==> out@.len() == ring_start(ring as nat),
            ring >= 3 ==> 6 * ring <= ring_start(ring as nat),
            forall|k: int| 0 <= k < out@.len() ==> placement_of_rank(k as nat, #[trigger] out@[k]),
        decreases n - out@.len(),
    {
        let slots: usize = if ring == 0 {
            1
        } else {
            6 * ring
        };
        let mut slot: usize = 0;
        while slot < slots && out.len() < n
            invariant
                out@.len() <= n,
                slot <= slots,
                slots as nat == ring_capacity(ring as nat),
                out@.len() == ring_start(ring as nat) + slot,
                forall|k: int| 0 <= k < out@.len() ==> placement_of_rank(k as nat, #[trigger] out@[k]),
            decreases slots - slot,
        {
            out.push(Placement { ring, slot, slots });
            slot = slot + 1;
        }
        proof {
            if ring >= 2 {
                lemma_ring_start_bounds_capacity((ring + 1) as nat);
            }
            reveal_with_fuel(ring_start, 4);
        }
        ring = ring + 1;
    }
    out
}

} // verus!

verus! {

/// Number of links in `links` that touch the note `id`.
pub open spec fn degree(id: int, links: Seq<Link>) -> nat
    decreases links.len(),
{
    if links.len() == 0 {
        0
    } else {
        degree(id, links.drop_last()) + if touches(links.last(), id) {
            1nat
        } else {
            0nat
        }
    }
}

/// Counts the links that touch the note `id`.
pub fn note_degree(id: i64, links: &Vec<Link>) -> (r: usize)
    ensures
        r == degree(id as int, links@),
{
    let mut count: usize = 0;
    let mut i: usize = 0;
    while i < links.len()
        invariant
            i <= links@.len(),
            count <= i,
            count == degree(id as int, links@.take(i as int)),
        decreases links@.len() - i,
    {
        assert(links@.take(i as int + 1).drop_last() == links@.take(i as int));
        let l = links[i];
        if l.source_id == id || l.target_id == id {
            count = count + 1;
        }
        i = i + 1;
    }
    assert(links@.take(i as int) == links@);
    count
}

proof fn lemma_degree_bounded(id: int, links: Seq<Link>)
    ensures
        degree(id, links) <= links.len(),
    decreases links.len(),
{
    if links.len() > 0 {
        lemma_degree_bounded(id, links.drop_last());
    }
}

/// In degree order the note at index `a` comes before the one at index `b`:
/// it has the higher degree, or the same degree and the lower index.
pub open spec fn ranks_before(degrees: Seq<usize>, a: int, b: int) -> bool {
    degrees[a] > degrees[b] || (degrees[a] == degrees[b] && a < b)
}

/// `order` lists every index of `degrees` once, by degree descending, and
/// indices of equal degree in their input order (a stable sort).
pub open spec fn is_degree_order(degrees: Seq<usize>, order: Seq<usize>) -> bool {
    &&& order.len() == degrees.len()
    &&& forall|k: int| 0 <= k < order.len() ==> #[trigger] order[k] < degrees.len()
    &&& forall|a: int, b: int|
        0 <= a < b < order.len() ==> ranks_before(degrees, #[trigger] order[a] as int, #[trigger] order[b] as int)
}

/// Sorts the indices of `degrees` by degree, highest first, keeping the
/// input order among equal degrees.
pub fn degree_order(degrees: &Vec<usize>) -> (order: Vec<usize>)
    ensures
        is_degree_order(degrees@, order@),
{
    let mut order: Vec<usize> = Vec::new();
    let mut i: usize = 0;
    while i < degrees.len()
        invariant
            i <= degrees@.len(),
            order@.len() == i,
            forall|k: int| 0 <= k < order@.len() ==> #[trigger] order@[k] < i,
            forall|a: int, b: int|
                0 <= a < b < order@.len() ==> ranks_before(degrees@, #[trigger] order@[a] as int, #[trigger] order@[b] as int),
        decreases degrees@.len() - i,
    {
        let d = degrees[i];
        let mut p: usize = 0;
        while p < order.len() && degrees[order[p]] >= d
            invariant
                p <= order@.len(),
                i < degrees@.len(),
                forall|k: int| 0 <= k < order@.len() ==> #[trigger] order@[k] < i,
                forall|q: int| 0 <= q < p ==> degrees@[#[trigger] order@[q] as int] >= d,
            decreases order@.len() - p,
        {
            p = p + 1;
        }
        let ghost old_order = order@;
        proof {
            assert forall|q: int| p <= q < old_order.len() implies degrees@[#[trigger] old_order[q] as int] < d by {
                if q > p {
                    assert(ranks_before(degrees@, old_order[p as int] as int, old_order[q] as int));
                }
            }
        }
        order.insert(p, i);
        proof {
            let s = order@;
            assert(forall|k: int| 0 <= k < p ==> s[k] == old_order[k]);
            assert(forall|k: int| p < k < s.len() ==> s[k] == old_order[k - 1]);
            assert forall|a: int, b: int| 0 <= a < b < s.len() implies ranks_before(degrees@, #[trigger] s[a] as int, #[trigger] s[b] as int) by {
                if b < p {
                } else if b == p {
                    assert(degrees@[old_order[a] as int] >= d);
                } else if a < p {
                    assert(ranks_before(degrees@, old_order[a] as int, old_order[b - 1] as int));
                } else if a == p {
                    assert(degrees@[old_order[b - 1] as int] < d);
                } else {
                    assert(ranks_before(degrees@, old_order[a - 1] as int, old_order[b - 1] as int));
                }
            }
        }
        i = i + 1;
    }
    order
}

} // verus!

verus! {

/// The layout position given to one note.
#[derive(Debug, Clone, Copy, PartialEq, Eq, Structural)]
pub struct NotePlacement {
    pub id: i64,
    pub placement: Placement,
}

/// The degree of each note of `ids`, in the order of `ids`.
pub open spec fn degrees_of(ids: Seq<i64>, links: Seq<Link>) -> Seq<usize> {
    ids.map_values(|id: i64| degree(id as int, links) as usize)
}

/// `plan` is the radial layout of the notes `ids` under `links`: the notes
/// ranked by degree (a stable sort, highest first) and the note of rank `k`
/// at the `k`-th position of the rings.
pub open spec fn is_layout_plan(ids: Seq<i64>, links: Seq<Link>, plan: Seq<NotePlacement>) -> bool {
    exists|order: Seq<usize>|
        {
            &&& is_degree_order(degrees_of(ids, links), order)
            &&& plan.len() == ids.len()
            &&& forall|k: int|
                0 <= k < plan.len() ==> (#[trigger] plan[k]).id == ids[order[k] as int]
                    && placement_of_rank(k as nat, plan[k].placement)
        }
}

/// Computes the radial layout of the notes `ids`: the note of highest degree
/// at the origin, then rings of `6r` notes each, filled outward in degree order.
pub fn auto_layout_plan(ids: &Vec<i64>, links: &Vec<Link>) -> (plan: Vec<NotePlacement>)
    ensures
        is_layout_plan(ids@, links@, plan@),
{
    let mut degrees: Vec<usize> = Vec::new();
    let mut i: usize = 0;
    while i < ids.len()
        invariant
            i <= ids@.len(),
            degrees@ == degrees_of(ids@, links@).take(i as int),
        decreases ids@.len() - i,
    {
        let d = note_degree(ids[i], links);
        degrees.push(d);
        i = i + 1;
        assert(degrees@ =~= degrees_of(ids@, links@).take(i as int));
    }
    assert(degrees@ =~= degrees_of(ids@, links@));
    let order = degree_order(&degrees);
    let slots = ring_placements(ids.len());
    let mut plan: Vec<NotePlacement> = Vec::new();
    let mut k: usize = 0;
    while k < ids.len()
        invariant
            k <= ids@.len(),
            is_degree_order(degrees@, order@),
            degrees@.len() == ids@.len(),
            slots@.len() == ids@.len(),
            forall|j: int| 0 <= j < ids@.len() ==> placement_of_rank(j as nat, #[trigger] slots@[j]),
            plan@.len() == k,
            forall|j: int|
                0 <= j < k ==> (#[trigger] plan@[j]).id == ids@[order@[j] as int]
                    && plan@[j].placement == slots@[j],
        decreases ids@.len() - k,
    {
        plan.push(NotePlacement { id: ids[order[k]], placement: slots[k] });
        k = k + 1;
    }
    assert forall|j: int| 0 <= j < plan@.len() implies placement_of_rank(j as nat, #[trigger] plan@[j].placement) by {
        assert(placement_of_rank(j as nat, slots@[j]));
    }
    plan
}

/// In a radial layout no two notes share a position, and ring zero holds
/// exactly one note, which has the highest degree of all.
pub proof fn lemma_layout_positions(ids: Seq<i64>, links: Seq<Link>, plan: Seq<NotePlacement>, a: int, b: int)
    requires
        is_layout_plan(ids, links, plan),
        links.len() <= usize::MAX,
        0 <= a < b < plan.len(),
    ensures
        (plan[a].placement.ring, plan[a].placement.slot) != (plan[b].placement.ring, plan[b].placement.slot),
        plan[a].placement.ring == 0 <==> a == 0,
        plan[b].placement.ring != 0,
        degree(plan[0].id as int, links) >= degree(plan[b].id as int, links),
{
    let order = choose|order: Seq<usize>|
        {
            &&& is_degree_order(degrees_of(ids, links), order)
            &&& plan.len() == ids.len()
            &&& forall|k: int|
                0 <= k < plan.len() ==> (#[trigger] plan[k]).id == ids[order[k] as int]
                    && placement_of_rank(k as nat, plan[k].placement)
        };
    let _ = plan[a];
    let _ = plan[b];
    let _ = plan[0];
    lemma_placements_distinct(a as nat, plan[a].placement, b as nat, plan[b].placement);
    lemma_placements_distinct(b as nat, plan[b].placement, a as nat, plan[a].placement);
    let degs = degrees_of(ids, links);
    assert(order[0] < degs.len() && order[b] < degs.len());
    assert(ranks_before(degs, order[0] as int, order[b] as int));
    lemma_degree_bounded(ids[order[0] as int] as int, links);
    lemma_degree_bounded(ids[order[b] as int] as int, links);
}

} // verus!
