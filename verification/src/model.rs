use crate::coord::Coord;
use crate::plan::{
    in_border, in_margin, in_region, kept_region, lemma_border_in_kept_box, lemma_kept_box_region,
};
use vstd::prelude::*;

verus! {

/// A mathematical model of the spatial store: each physically present region,
/// keyed by its region coordinate, maps to the set of chunk coordinates
/// actually present in it. A store is well formed when every stored chunk
/// lies in the region that holds it.
pub open spec fn well_formed_store(s: Map<Coord, Set<Coord>>) -> bool {
    forall|r: Coord, c: Coord|
        s.dom().contains(r) && #[trigger] s[r].contains(c) ==> in_region(c, r)
}

/// The store after one run of the bounded-area deletion with border
/// `tl`..`br`: every region outside the kept bounding box is removed
/// wholesale, and each remaining region loses exactly its present margin
/// chunks.
pub open spec fn store_after(s: Map<Coord, Set<Coord>>, tl: Coord, br: Coord) -> Map<
    Coord,
    Set<Coord>,
> {
    Map::new(
        |r: Coord| s.dom().contains(r) && kept_region(r, tl, br),
        |r: Coord| s[r].filter(|c: Coord| !(in_region(c, r) && in_margin(c, tl, br))),
    )
}

/// Idempotence: running the deletion twice with the same border leaves the
/// store exactly as one run does — the second run deletes nothing further.
pub proof fn lemma_delete_idempotent(s: Map<Coord, Set<Coord>>, tl: Coord, br: Coord)
    ensures
        store_after(store_after(s, tl, br), tl, br) == store_after(s, tl, br),
{
    let once = store_after(s, tl, br);
    let twice = store_after(once, tl, br);
    assert forall|r: Coord| #[trigger] twice.dom().contains(r) implies twice[r] =~= once[r] by {
    }
    assert(twice =~~= once);
}

/// Full coverage with no double deletion, at the store level: after one run,
/// a chunk is stored if and only if it was stored before and lies inside the
/// border. Every stored chunk outside the border is deleted — wholesale with
/// its region, or individually from a kept region — and no chunk inside the
/// border is ever touched.
pub proof fn lemma_full_coverage(
    s: Map<Coord, Set<Coord>>,
    tl: Coord,
    br: Coord,
    r: Coord,
    c: Coord,
)
    requires
        well_formed_store(s),
    ensures
        (store_after(s, tl, br).dom().contains(r) && store_after(s, tl, br)[r].contains(c)) <==> (
        s.dom().contains(r) && s[r].contains(c) && in_border(c, tl, br)),
{
    if s.dom().contains(r) && s[r].contains(c) {
        assert(in_region(c, r));
        lemma_kept_box_region(c, r, tl, br);
        if in_border(c, tl, br) {
            lemma_border_in_kept_box(c, tl, br);
        }
    }
}

} // verus!
