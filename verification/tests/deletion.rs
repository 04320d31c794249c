use std::collections::{BTreeMap, BTreeSet};

use border_trim::plan::{
    boundary_chunks, boundary_regions, chunks_to_remove_in_region, regions_to_delete,
};
use border_trim::Coord;

fn c(x: i64, z: i64) -> Coord {
    Coord { x, z }
}

/// An in-memory stand-in for the persistent store: region coordinate to the
/// set of chunks present in that region.
type Store = BTreeMap<Coord, BTreeSet<Coord>>;

/// Drives the storage interface with the library's plans, as the surrounding
/// tool does: delete whole regions outside the kept bounding box, then trim
/// the margin chunks of each boundary region that physically exists.
fn run_deletion(store: &mut Store, tl: Coord, br: Coord) {
    let all_regions: Vec<Coord> = store.keys().copied().collect();
    for r in regions_to_delete(&all_regions, tl, br) {
        store.remove(&r);
    }
    for r in boundary_regions(tl, br) {
        // A boundary region coordinate with no physical region is skipped
        // silently, exactly as the tool skips an absent region file.
        let present: Vec<Coord> = match store.get(&r) {
            Some(chunks) => chunks.iter().copied().collect(),
            None => continue,
        };
        let doomed = chunks_to_remove_in_region(r, &present, tl, br);
        let chunks = store.get_mut(&r).unwrap();
        for d in doomed {
            assert!(chunks.remove(&d), "chunk listed for removal was not present");
        }
    }
}

/// A region square fully populated with its 1024 chunks.
fn full_region(r: Coord) -> BTreeSet<Coord> {
    let mut out = BTreeSet::new();
    for x in (r.x * 32)..((r.x + 1) * 32) {
        for z in (r.z * 32)..((r.z + 1) * 32) {
            out.insert(c(x, z));
        }
    }
    out
}

fn in_border(p: Coord, tl: Coord, br: Coord) -> bool {
    tl.x <= p.x && p.x <= br.x && tl.z <= p.z && p.z <= br.z
}

#[test]
fn region_conversion_boundary_cases() {
    assert_eq!(c(-1, -1).chunk_to_region(), c(-1, -1));
    assert_eq!(c(-32, -32).chunk_to_region(), c(-1, -1));
    assert_eq!(c(0, 0).chunk_to_region(), c(0, 0));
    assert_eq!(c(31, 31).chunk_to_region(), c(0, 0));
    assert_eq!(c(32, 0).chunk_to_region(), c(1, 0));
    assert_eq!(c(-33, 63).chunk_to_region(), c(-2, 1));
    assert_eq!(c(i64::MIN, i64::MAX).chunk_to_region(), c(i64::MIN / 32, i64::MAX / 32));
}

#[test]
fn one_full_region_kept_neighbour_deleted() {
    // Border tl=(0,0), br=(31,31): exactly region (0,0), aligned to its edges.
    let tl = c(0, 0);
    let br = c(31, 31);
    let all = vec![c(0, 0), c(1, 0)];
    assert_eq!(regions_to_delete(&all, tl, br), vec![c(1, 0)]);
    // The single kept region is fully inside the border: nothing to open,
    // no margin chunk to strip.
    assert_eq!(boundary_regions(tl, br), Vec::<Coord>::new());
    assert_eq!(boundary_chunks(tl, br), Vec::<Coord>::new());

    let mut store = Store::new();
    store.insert(c(0, 0), full_region(c(0, 0)));
    store.insert(c(1, 0), full_region(c(1, 0)));
    run_deletion(&mut store, tl, br);
    assert_eq!(store.len(), 1);
    assert_eq!(store[&c(0, 0)], full_region(c(0, 0)));
}

#[test]
fn margin_border_inside_one_region() {
    // Border tl=(5,5), br=(10,10): only region (0,0) is a candidate; the
    // margin is everything in its square outside the 6x6 block [5,10]x[5,10].
    let tl = c(5, 5);
    let br = c(10, 10);
    assert_eq!(boundary_regions(tl, br), vec![c(0, 0)]);

    let chunks = boundary_chunks(tl, br);
    let as_set: BTreeSet<Coord> = chunks.iter().copied().collect();
    assert_eq!(chunks.len(), as_set.len(), "a strip chunk was emitted twice");
    assert_eq!(chunks.len(), 1024 - 36);
    let mut expected = full_region(c(0, 0));
    for x in 5..=10 {
        for z in 5..=10 {
            expected.remove(&c(x, z));
        }
    }
    assert_eq!(as_set, expected);
}

#[test]
fn strips_cover_multi_region_box_without_duplicates() {
    // Border spanning a 2x2 block of regions with margins on all four sides.
    let tl = c(5, 7);
    let br = c(40, 50);
    let chunks = boundary_chunks(tl, br);
    let as_set: BTreeSet<Coord> = chunks.iter().copied().collect();
    assert_eq!(chunks.len(), as_set.len(), "a strip chunk was emitted twice");
    assert_eq!(chunks.len(), 64 * 64 - 36 * 44);
    for p in &as_set {
        assert!(0 <= p.x && p.x < 64 && 0 <= p.z && p.z < 64);
        assert!(!in_border(*p, tl, br));
    }
    for x in 0..64 {
        for z in 0..64 {
            let p = c(x, z);
            assert_eq!(as_set.contains(&p), !in_border(p, tl, br));
        }
    }
}

#[test]
fn negative_coordinates_margin() {
    // Border [-16,15]^2 sits across four regions: (-1,-1) through (0,0).
    let tl = c(-16, -16);
    let br = c(15, 15);
    let chunks = boundary_chunks(tl, br);
    let as_set: BTreeSet<Coord> = chunks.iter().copied().collect();
    assert_eq!(chunks.len(), as_set.len());
    assert_eq!(chunks.len(), 64 * 64 - 32 * 32);
    for p in &as_set {
        assert!(-32 <= p.x && p.x < 32 && -32 <= p.z && p.z < 32);
        assert!(!in_border(*p, tl, br));
    }
    let mut brs = boundary_regions(tl, br);
    brs.sort();
    assert_eq!(brs, vec![c(-1, -1), c(-1, 0), c(0, -1), c(0, 0)]);
}

#[test]
fn wholesale_versus_partial_classification() {
    let tl = c(-16, -16);
    let br = c(15, 15);
    let all = vec![c(-2, 0), c(-1, 0), c(0, 0), c(1, 1), c(5, -3)];
    // Regions outside the kept bounding box go wholesale, in enumeration order.
    assert_eq!(regions_to_delete(&all, tl, br), vec![c(-2, 0), c(1, 1), c(5, -3)]);
    // A region fully inside the border is never listed for opening.
    let tl2 = c(-32, -32);
    let br2 = c(63, 63);
    let brs = boundary_regions(tl2, br2);
    assert!(!brs.contains(&c(0, 0)));
    assert!(brs.is_empty());
}

#[test]
fn chunk_filter_in_one_region() {
    let tl = c(5, 5);
    let br = c(10, 10);
    // Present chunks: one inside the border, one in the margin, one belonging
    // to another region, one in the margin again.
    let present = vec![c(7, 7), c(0, 0), c(33, 2), c(31, 31)];
    let doomed = chunks_to_remove_in_region(c(0, 0), &present, tl, br);
    assert_eq!(doomed, vec![c(0, 0), c(31, 31)]);
    // The same enumeration handed over for another region keeps only its own.
    let doomed_other = chunks_to_remove_in_region(c(1, 0), &present, tl, br);
    assert_eq!(doomed_other, Vec::<Coord>::new());
}

#[test]
fn deletion_is_idempotent() {
    let tl = c(-5, 3);
    let br = c(36, 40);
    let mut store = Store::new();
    for r in [c(-1, 0), c(0, 0), c(1, 0), c(0, 1), c(2, 2), c(-3, -1)] {
        store.insert(r, full_region(r));
    }
    let mut once = store.clone();
    run_deletion(&mut once, tl, br);
    let mut twice = once.clone();
    run_deletion(&mut twice, tl, br);
    assert_eq!(once, twice);
}

#[test]
fn full_coverage_no_chunk_inside_border_touched() {
    let tl = c(-5, 3);
    let br = c(36, 40);
    let mut store = Store::new();
    for r in [c(-1, 0), c(0, 0), c(1, 0), c(0, 1), c(1, 1), c(-1, 1), c(4, 4)] {
        store.insert(r, full_region(r));
    }
    let before = store.clone();
    run_deletion(&mut store, tl, br);
    // Exactly the chunks inside the border survive, each under its region.
    for (r, chunks) in &before {
        for p in chunks {
            let survives = store.get(r).map_or(false, |s| s.contains(p));
            assert_eq!(survives, in_border(*p, tl, br));
        }
    }
    // Nothing new appears.
    for (r, chunks) in &store {
        assert!(before.contains_key(r));
        for p in chunks {
            assert!(before[r].contains(p));
        }
    }
}

#[test]
fn absent_boundary_region_is_tolerated() {
    // Border straddles regions (0,0) and (1,0); only (0,0) physically exists.
    let tl = c(5, 5);
    let br = c(40, 10);
    let brs = boundary_regions(tl, br);
    assert!(brs.contains(&c(1, 0)));
    let mut store = Store::new();
    store.insert(c(0, 0), full_region(c(0, 0)));
    run_deletion(&mut store, tl, br);
    assert_eq!(store.len(), 1);
    for p in &store[&c(0, 0)] {
        assert!(in_border(*p, tl, br));
    }
}

#[test]
fn sparse_region_missing_chunks_are_no_ops() {
    // A boundary region holding only a few chunks: absent chunks are not
    // errors, present margin chunks are removed, present border chunks stay.
    let tl = c(5, 5);
    let br = c(10, 10);
    let mut store = Store::new();
    let mut sparse = BTreeSet::new();
    sparse.insert(c(6, 6));
    sparse.insert(c(0, 31));
    sparse.insert(c(20, 20));
    store.insert(c(0, 0), sparse);
    run_deletion(&mut store, tl, br);
    let left = &store[&c(0, 0)];
    assert_eq!(left.len(), 1);
    assert!(left.contains(&c(6, 6)));
}
