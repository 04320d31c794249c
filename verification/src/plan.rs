use crate::coord::{lemma_region_idx_bounds, region_idx, Coord};
use vstd::prelude::*;
use vstd::seq_lib::group_filter_ensures;
use vstd::seq_lib::lemma_seq_contains_after_push;

verus! {

/// The chunk `c` lies inside the keep border (all four sides inclusive).
pub open spec fn in_border(c: Coord, tl: Coord, br: Coord) -> bool {
    tl.x <= c.x <= br.x && tl.z <= c.z <= br.z
}

/// The region with coordinate `r` is the one containing chunk `c`.
pub open spec fn in_region(c: Coord, r: Coord) -> bool {
    region_idx(c.x as int) == r.x as int && region_idx(c.z as int) == r.z as int
}

/// Region `r` lies in the bounding box of regions that intersect the border:
/// these are the candidate regions to retain.
pub open spec fn kept_region(r: Coord, tl: Coord, br: Coord) -> bool {
    region_idx(tl.x as int) <= r.x as int <= region_idx(br.x as int)
        && region_idx(tl.z as int) <= r.z as int <= region_idx(br.z as int)
}

/// Chunk `c` lies in the rectangle of chunk coordinates covered by the kept
/// regions (the full 32-wide spans of the regions of `tl` and `br`).
pub open spec fn in_kept_box(c: Coord, tl: Coord, br: Coord) -> bool {
    32 * region_idx(tl.x as int) <= c.x as int && (c.x as int) < 32 * (region_idx(br.x as int) + 1)
        && 32 * region_idx(tl.z as int) <= c.z as int && (c.z as int) < 32 * (region_idx(
        br.z as int,
    ) + 1)
}

/// Chunk `c` must be removed individually: it lies in a kept region but
/// outside the border.
pub open spec fn in_margin(c: Coord, tl: Coord, br: Coord) -> bool {
    in_kept_box(c, tl, br) && !in_border(c, tl, br)
}

/// Every chunk of the 32x32 square of region `r` lies inside the border, so
/// the region needs no trimming at all.
pub open spec fn region_fully_in_border(r: Coord, tl: Coord, br: Coord) -> bool {
    tl.x as int <= 32 * (r.x as int) && 32 * (r.x as int + 1) <= br.x as int + 1
        && tl.z as int <= 32 * (r.z as int) && 32 * (r.z as int + 1) <= br.z as int + 1
}

/// The border is well-formed (`tl` is the most negative corner, `br` the most
/// positive) and sits far enough from the top of the coordinate type that the
/// exclusive end of its bottom-right region fits in an `i64`.
pub open spec fn valid_border(tl: Coord, br: Coord) -> bool {
    tl.x <= br.x && tl.z <= br.z && br.x as int + 32 <= i64::MAX as int && br.z as int + 32
        <= i64::MAX as int
}

/// The west margin strip: chunks of the kept box strictly west of the border.
/// It spans the full height of the kept box, so it alone covers the two
/// western corner blocks.
pub open spec fn in_west_strip(c: Coord, tl: Coord, br: Coord) -> bool {
    in_kept_box(c, tl, br) && c.x < tl.x
}

/// The east margin strip: chunks of the kept box strictly east of the border,
/// spanning the full height of the kept box.
pub open spec fn in_east_strip(c: Coord, tl: Coord, br: Coord) -> bool {
    in_kept_box(c, tl, br) && c.x > br.x
}

/// The north margin strip: chunks of the kept box strictly north of the
/// border, restricted to the border's own x-span so that it never overlaps
/// the west or east strips.
pub open spec fn in_north_strip(c: Coord, tl: Coord, br: Coord) -> bool {
    in_kept_box(c, tl, br) && tl.x <= c.x <= br.x && c.z < tl.z
}

/// The south margin strip: chunks of the kept box strictly south of the
/// border, restricted to the border's own x-span.
pub open spec fn in_south_strip(c: Coord, tl: Coord, br: Coord) -> bool {
    in_kept_box(c, tl, br) && tl.x <= c.x <= br.x && c.z > br.z
}

/// The four margin strips are pairwise disjoint and together cover exactly
/// the chunks of the kept box that lie outside the border: no chunk is listed
/// twice, no chunk inside the border is listed, and every out-of-border chunk
/// of the kept box is listed.
pub proof fn lemma_strips_partition_margin(c: Coord, tl: Coord, br: Coord)
    requires
        tl.x <= br.x,
        tl.z <= br.z,
    ensures
        in_margin(c, tl, br) <==> (in_west_strip(c, tl, br) || in_north_strip(c, tl, br)
            || in_east_strip(c, tl, br) || in_south_strip(c, tl, br)),
        !(in_west_strip(c, tl, br) && in_north_strip(c, tl, br)),
        !(in_west_strip(c, tl, br) && in_east_strip(c, tl, br)),
        !(in_west_strip(c, tl, br) && in_south_strip(c, tl, br)),
        !(in_north_strip(c, tl, br) && in_east_strip(c, tl, br)),
        !(in_north_strip(c, tl, br) && in_south_strip(c, tl, br)),
        !(in_east_strip(c, tl, br) && in_south_strip(c, tl, br)),
{
}

/// A chunk of the kept box belongs to a kept region, and a chunk of a kept
/// region lies in the kept box: the two descriptions of the retained area
/// agree at the two granularities.
pub proof fn lemma_kept_box_region(c: Coord, r: Coord, tl: Coord, br: Coord)
    requires
        in_region(c, r),
    ensures
        in_kept_box(c, tl, br) <==> kept_region(r, tl, br),
{
    lemma_region_idx_bounds(c.x as int);
    lemma_region_idx_bounds(c.z as int);
}

/// The border lies inside the kept box: a chunk inside the border is never a
/// margin chunk.
pub proof fn lemma_border_in_kept_box(c: Coord, tl: Coord, br: Coord)
    requires
        in_border(c, tl, br),
    ensures
        in_kept_box(c, tl, br),
{
    lemma_region_idx_bounds(tl.x as int);
    lemma_region_idx_bounds(tl.z as int);
    lemma_region_idx_bounds(br.x as int);
    lemma_region_idx_bounds(br.z as int);
}

/// Every chunk of a region outside the kept bounding box lies outside the
/// border: deleting such a region wholesale never touches a retained chunk.
pub proof fn lemma_deleted_region_outside_border(c: Coord, r: Coord, tl: Coord, br: Coord)
    requires
        in_region(c, r),
        !kept_region(r, tl, br),
    ensures
        !in_border(c, tl, br),
{
    lemma_kept_box_region(c, r, tl, br);
    if in_border(c, tl, br) {
        lemma_border_in_kept_box(c, tl, br);
    }
}

/// Every chunk of a region that lies fully inside the border is inside the
/// border: such a region is never opened and never trimmed.
pub proof fn lemma_interior_region_untouched(c: Coord, r: Coord, tl: Coord, br: Coord)
    requires
        in_region(c, r),
        region_fully_in_border(r, tl, br),
    ensures
        in_border(c, tl, br),
{
    lemma_region_idx_bounds(c.x as int);
    lemma_region_idx_bounds(c.z as int);
}

/// The region of every margin chunk is listed by the per-region plan: it is
/// kept and not entirely inside the border. Trimming exactly the listed
/// regions therefore reaches every chunk that must be removed individually.
pub proof fn lemma_margin_chunk_region_is_boundary(c: Coord, r: Coord, tl: Coord, br: Coord)
    requires
        in_region(c, r),
        in_margin(c, tl, br),
    ensures
        kept_region(r, tl, br),
        !region_fully_in_border(r, tl, br),
{
    lemma_kept_box_region(c, r, tl, br);
    if region_fully_in_border(r, tl, br) {
        lemma_interior_region_untouched(c, r, tl, br);
    }
}

/// The subsequence of `all` (the physically present regions) that must be
/// deleted wholesale: the regions outside the kept bounding box.
pub open spec fn deleted_regions_of(all: Seq<Coord>, tl: Coord, br: Coord) -> Seq<Coord> {
    all.filter(|r: Coord| !kept_region(r, tl, br))
}

/// An element of a filtered sequence is an element of the original sequence
/// and satisfies the filter's predicate.
proof fn lemma_filter_element<A>(s: Seq<A>, pred: spec_fn(A) -> bool, x: A)
    requires
        s.filter(pred).contains(x),
    ensures
        s.contains(x),
        pred(x),
    decreases s.len(),
{
    reveal(Seq::filter);
    broadcast use lemma_seq_contains_after_push;

    if s.len() > 0 {
        let dl = s.drop_last();
        if pred(s.last()) && x == s.last() {
            assert(s[s.len() - 1] == x);
        } else {
            lemma_filter_element(dl, pred, x);
            let i = choose|i: int| 0 <= i < dl.len() && dl[i] == x;
            assert(s[i] == x);
        }
    }
}

/// Which stored regions to delete wholesale: those of `all_regions` that lie
/// outside the bounding box of regions intersecting the border. Order and
/// multiplicity of the remaining entries are preserved.
#[verifier::loop_isolation(false)]
pub fn regions_to_delete(all_regions: &Vec<Coord>, tl: Coord, br: Coord) -> (out: Vec<Coord>)
    ensures
        out@ == deleted_regions_of(all_regions@, tl, br),
        forall|r: Coord| #[trigger]
            out@.contains(r) <==> all_regions@.contains(r) && !kept_region(r, tl, br),
{
    broadcast use group_filter_ensures;

    let tlr = tl.chunk_to_region();
    let brr = br.chunk_to_region();
    let ghost pred = |r: Coord| !kept_region(r, tl, br);
    let mut out: Vec<Coord> = Vec::new();
    let mut i: usize = 0;
    while i < all_regions.len()
        invariant
            i <= all_regions@.len(),
            tlr.x as int == region_idx(tl.x as int),
            tlr.z as int == region_idx(tl.z as int),
            brr.x as int == region_idx(br.x as int),
            brr.z as int == region_idx(br.z as int),
            out@ == all_regions@.take(i as int).filter(pred),
        decreases all_regions@.len() - i,
    {
        let r = all_regions[i];
        let kept = tlr.x <= r.x && r.x <= brr.x && tlr.z <= r.z && r.z <= brr.z;
        if !kept {
            out.push(r);
        }
        proof {
            let prefix = all_regions@.take(i as int);
            assert(all_regions@.take(i as int + 1) =~= prefix.push(r));
            prefix.lemma_filter_push(r, pred);
        }
        i += 1;
    }
    proof {
        assert(all_regions@.take(all_regions@.len() as int) =~= all_regions@);
        assert forall|r: Coord| #[trigger] out@.contains(r) implies all_regions@.contains(r)
            && !kept_region(r, tl, br) by {
            lemma_filter_element(all_regions@, pred, r);
        }
    }
    out
}

/// Chunk `c` lies in the half-open rectangle `[x0, x1) x [z0, z1)`.
pub open spec fn in_rect(c: Coord, x0: int, x1: int, z0: int, z1: int) -> bool {
    x0 <= c.x as int && (c.x as int) < x1 && z0 <= c.z as int && (c.z as int) < z1
}

/// The sequence lists no coordinate twice.
pub open spec fn distinct_coords(s: Seq<Coord>) -> bool {
    forall|i: int, j: int| 0 <= i < j < s.len() ==> s[i] != s[j]
}

/// Pushing an element that is not yet present keeps a sequence duplicate-free.
proof fn lemma_push_distinct(s: Seq<Coord>, c: Coord)
    requires
        distinct_coords(s),
        !s.contains(c),
    ensures
        distinct_coords(s.push(c)),
{
    let t = s.push(c);
    assert forall|i: int, j: int| 0 <= i < j < t.len() implies t[i] != t[j] by {
        if j == s.len() {
            assert(t[i] == s[i]);
            if s[i] == c {
                assert(s.contains(c));
            }
        }
    }
}

/// Appends every chunk coordinate of the rectangle `[x0, x1) x [z0, z1)`,
/// column by column, to a duplicate-free vector that holds none of them yet.
#[verifier::loop_isolation(false)]
fn push_rect(out: &mut Vec<Coord>, x0: i64, x1: i64, z0: i64, z1: i64)
    requires
        x0 <= x1,
        z0 <= z1,
        distinct_coords(old(out)@),
        forall|c: Coord| #[trigger]
            old(out)@.contains(c) ==> !in_rect(c, x0 as int, x1 as int, z0 as int, z1 as int),
    ensures
        forall|c: Coord| #[trigger]
            final(out)@.contains(c) <==> old(out)@.contains(c) || in_rect(
                c,
                x0 as int,
                x1 as int,
                z0 as int,
                z1 as int,
            ),
        distinct_coords(final(out)@),
{
    broadcast use lemma_seq_contains_after_push;

    let mut x = x0;
    while x < x1
        invariant
            x0 <= x <= x1,
            distinct_coords(out@),
            forall|c: Coord| #[trigger]
                out@.contains(c) <==> old(out)@.contains(c) || (in_rect(
                    c,
                    x0 as int,
                    x1 as int,
                    z0 as int,
                    z1 as int,
                ) && (c.x as int) < x as int),
        decreases x1 as int - x as int,
    {
        let mut z = z0;
        while z < z1
            invariant
                z0 <= z <= z1,
                distinct_coords(out@),
                forall|c: Coord| #[trigger]
                    out@.contains(c) <==> old(out)@.contains(c) || (in_rect(
                        c,
                        x0 as int,
                        x1 as int,
                        z0 as int,
                        z1 as int,
                    ) && ((c.x as int) < x as int || (c.x == x && (c.z as int) < z as int))),
            decreases z1 as int - z as int,
        {
            let c = Coord { x, z };
            proof {
                let ghost prev = out@;
                assert(!prev.contains(c));
                lemma_push_distinct(prev, c);
            }
            out.push(c);
            z += 1;
        }
        x += 1;
    }
}

/// All margin chunks of the border, enumerated as four disjoint strips (west,
/// east, north, south). The result lists exactly once each chunk coordinate
/// that lies in the kept box but outside the border; chunks inside the border
/// are never listed.
pub fn boundary_chunks(tl: Coord, br: Coord) -> (out: Vec<Coord>)
    requires
        valid_border(tl, br),
    ensures
        forall|c: Coord| #[trigger] out@.contains(c) <==> in_margin(c, tl, br),
        distinct_coords(out@),
{
    let tlr = tl.chunk_to_region();
    let brr = br.chunk_to_region();
    proof {
        crate::coord::lemma_region_edge_in_range(tl.x as int);
        crate::coord::lemma_region_edge_in_range(tl.z as int);
        crate::coord::lemma_region_edge_in_range(br.x as int);
        crate::coord::lemma_region_edge_in_range(br.z as int);
        lemma_region_idx_bounds(br.x as int);
        lemma_region_idx_bounds(br.z as int);
    }
    let x0 = tlr.x * 32;
    let z0 = tlr.z * 32;
    let x1 = (brr.x + 1) * 32;
    let z1 = (brr.z + 1) * 32;
    let mut out: Vec<Coord> = Vec::new();
    push_rect(&mut out, x0, tl.x, z0, z1);
    push_rect(&mut out, br.x + 1, x1, z0, z1);
    push_rect(&mut out, tl.x, br.x + 1, z0, tl.z);
    push_rect(&mut out, tl.x, br.x + 1, br.z + 1, z1);
    proof {
        assert forall|c: Coord| #[trigger] out@.contains(c) <==> in_margin(c, tl, br) by {
            lemma_strips_partition_margin(c, tl, br);
            assert(in_west_strip(c, tl, br) <==> in_rect(
                c,
                x0 as int,
                tl.x as int,
                z0 as int,
                z1 as int,
            ));
            assert(in_east_strip(c, tl, br) <==> in_rect(
                c,
                br.x as int + 1,
                x1 as int,
                z0 as int,
                z1 as int,
            ));
            assert(in_north_strip(c, tl, br) <==> in_rect(
                c,
                tl.x as int,
                br.x as int + 1,
                z0 as int,
                tl.z as int,
            ));
            assert(in_south_strip(c, tl, br) <==> in_rect(
                c,
                tl.x as int,
                br.x as int + 1,
                br.z as int + 1,
                z1 as int,
            ));
        }
    }
    out
}

/// Which kept regions may need per-chunk trimming: the regions of the kept
/// bounding box that are not entirely inside the border. A region entirely
/// inside the border is excluded, so it is never opened; a region outside the
/// bounding box is excluded, since it is deleted wholesale instead. Each
/// region coordinate is listed once.
#[verifier::loop_isolation(false)]
pub fn boundary_regions(tl: Coord, br: Coord) -> (out: Vec<Coord>)
    requires
        valid_border(tl, br),
    ensures
        forall|r: Coord| #[trigger]
            out@.contains(r) <==> kept_region(r, tl, br) && !region_fully_in_border(r, tl, br),
        distinct_coords(out@),
{
    broadcast use lemma_seq_contains_after_push;

    let tlr = tl.chunk_to_region();
    let brr = br.chunk_to_region();
    proof {
        crate::coord::lemma_region_edge_in_range(tl.x as int);
        crate::coord::lemma_region_edge_in_range(tl.z as int);
        crate::coord::lemma_region_edge_in_range(br.x as int);
        crate::coord::lemma_region_edge_in_range(br.z as int);
        lemma_region_idx_bounds(br.x as int);
        lemma_region_idx_bounds(br.z as int);
        crate::coord::lemma_region_idx_monotone(tl.x as int, br.x as int);
        crate::coord::lemma_region_idx_monotone(tl.z as int, br.z as int);
    }
    let mut out: Vec<Coord> = Vec::new();
    let mut rx = tlr.x;
    while rx <= brr.x
        invariant
            tlr.x <= rx,
            rx as int <= brr.x as int + 1,
            distinct_coords(out@),
            forall|r: Coord| #[trigger]
                out@.contains(r) <==> (kept_region(r, tl, br) && !region_fully_in_border(r, tl, br)
                    && (r.x as int) < rx as int),
        decreases brr.x as int + 1 - rx as int,
    {
        let mut rz = tlr.z;
        while rz <= brr.z
            invariant
                tlr.x <= rx <= brr.x,
                tlr.z <= rz,
                rz as int <= brr.z as int + 1,
                distinct_coords(out@),
                forall|r: Coord| #[trigger]
                    out@.contains(r) <==> (kept_region(r, tl, br) && !region_fully_in_border(
                        r,
                        tl,
                        br,
                    ) && ((r.x as int) < rx as int || (r.x == rx && (r.z as int) < rz as int))),
            decreases brr.z as int + 1 - rz as int,
        {
            let fully = tl.x <= rx * 32 && (rx + 1) * 32 - 1 <= br.x && tl.z <= rz * 32 && (rz + 1)
                * 32 - 1 <= br.z;
            if !fully {
                let r = Coord { x: rx, z: rz };
                proof {
                    assert(!out@.contains(r));
                    lemma_push_distinct(out@, r);
                }
                out.push(r);
            }
            rz += 1;
        }
        rx += 1;
    }
    out
}

/// The chunks to remove from one opened region: those of the enumerated
/// present chunks that belong to `region` and lie in the margin, inside the
/// kept box but outside the border. A chunk inside the border is never
/// listed, and neither is a chunk that is not present. Order and multiplicity
/// of `present` are preserved.
pub open spec fn chunks_to_remove_of(
    present: Seq<Coord>,
    region: Coord,
    tl: Coord,
    br: Coord,
) -> Seq<Coord> {
    present.filter(|c: Coord| in_region(c, region) && in_margin(c, tl, br))
}

/// Filters the chunks present in an opened region down to the ones the
/// deletion must remove: the intersection of the present chunks with the
/// margin chunks of `region`.
#[verifier::loop_isolation(false)]
pub fn chunks_to_remove_in_region(
    region: Coord,
    present: &Vec<Coord>,
    tl: Coord,
    br: Coord,
) -> (out: Vec<Coord>)
    ensures
        out@ == chunks_to_remove_of(present@, region, tl, br),
        forall|c: Coord| #[trigger]
            out@.contains(c) <==> present@.contains(c) && in_region(c, region) && in_margin(
                c,
                tl,
                br,
            ),
{
    broadcast use group_filter_ensures;

    let tlr = tl.chunk_to_region();
    let brr = br.chunk_to_region();
    let ghost pred = |c: Coord| in_region(c, region) && in_margin(c, tl, br);
    let mut out: Vec<Coord> = Vec::new();
    let mut i: usize = 0;
    while i < present.len()
        invariant
            i <= present@.len(),
            out@ == present@.take(i as int).filter(pred),
        decreases present@.len() - i,
    {
        let c = present[i];
        let rc = c.chunk_to_region();
        let in_this_region = rc.x == region.x && rc.z == region.z;
        let kept = tlr.x <= rc.x && rc.x <= brr.x && tlr.z <= rc.z && rc.z <= brr.z;
        let inside = tl.x <= c.x && c.x <= br.x && tl.z <= c.z && c.z <= br.z;
        let remove = in_this_region && kept && !inside;
        proof {
            lemma_kept_box_region(c, rc, tl, br);
            assert(pred(c) == remove);
        }
        if remove {
            out.push(c);
        }
        proof {
            let prefix = present@.take(i as int);
            assert(present@.take(i as int + 1) =~= prefix.push(c));
            prefix.lemma_filter_push(c, pred);
        }
        i += 1;
    }
    proof {
        assert(present@.take(present@.len() as int) =~= present@);
        assert forall|c: Coord| #[trigger] out@.contains(c) implies present@.contains(c)
            && in_region(c, region) && in_margin(c, tl, br) by {
            lemma_filter_element(present@, pred, c);
        }
    }
    out
}

} // verus!
