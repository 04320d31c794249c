use vstd::arithmetic::div_mod::{lemma_fundamental_div_mod, lemma_fundamental_div_mod_converse};
use vstd::prelude::*;

verus! {

/// A planar position: either a chunk coordinate or a region coordinate,
/// depending on context. Ordered lexicographically by `x` then `z`.
#[derive(Clone, Copy, Debug, PartialEq, Eq, PartialOrd, Ord, Structural)]
pub struct Coord {
    pub x: i64,
    pub z: i64,
}

/// The index of the length-32 block that `n` falls in: floor division of `n`
/// by 32 (integer division in specs rounds toward negative infinity for a
/// positive divisor).
pub open spec fn region_idx(n: int) -> int {
    n / 32
}

/// Each coordinate lies inside the half-open 32-wide span of its block:
/// `32 * region_idx(n) <= n < 32 * (region_idx(n) + 1)`.
pub proof fn lemma_region_idx_bounds(n: int)
    ensures
        32 * region_idx(n) <= n,
        n < 32 * (region_idx(n) + 1),
{
    lemma_fundamental_div_mod(n, 32);
    vstd::arithmetic::div_mod::lemma_mod_division_less_than_divisor(n, 32);
}

/// `region_idx` is monotone: a larger coordinate never falls in a smaller block.
pub proof fn lemma_region_idx_monotone(a: int, b: int)
    requires
        a <= b,
    ensures
        region_idx(a) <= region_idx(b),
{
    lemma_region_idx_bounds(a);
    lemma_region_idx_bounds(b);
    assert(region_idx(a) <= region_idx(b)) by (nonlinear_arith)
        requires
            32 * region_idx(a) <= a,
            b < 32 * (region_idx(b) + 1),
            a <= b,
    {
    }
}

/// For a coordinate that fits in an `i64`, the western edge of its block,
/// `32 * region_idx(n)`, fits in an `i64` as well.
pub proof fn lemma_region_edge_in_range(n: int)
    requires
        i64::MIN <= n <= i64::MAX,
    ensures
        i64::MIN as int <= 32 * region_idx(n),
        32 * region_idx(n) <= n,
{
    lemma_region_idx_bounds(n);
    lemma_region_idx_monotone(i64::MIN as int, n);
    lemma_fundamental_div_mod_converse(i64::MIN as int, 32, -0x0400_0000_0000_0000, 0);
}

/// Floor division of an `i64` by 32, computed through unsigned division so
/// that negative inputs round toward negative infinity.
fn floor_div_32(n: i64) -> (r: i64)
    ensures
        r as int == region_idx(n as int),
{
    if n >= 0 {
        let q: u64 = (n as u64) / 32;
        proof {
            lemma_region_idx_bounds(n as int);
        }
        q as i64
    } else {
        let m: i64 = -(n + 1);
        let q: i64 = ((m as u64) / 32) as i64;
        proof {
            lemma_fundamental_div_mod(m as int, 32);
            vstd::arithmetic::div_mod::lemma_mod_division_less_than_divisor(m as int, 32);
            let rem = (m as int) % 32;
            assert(n as int == (-(q as int) - 1) * 32 + (31 - rem)) by (nonlinear_arith)
                requires
                    m as int == 32 * (q as int) + rem,
                    n as int == -(m as int) - 1,
            {
            }
            lemma_fundamental_div_mod_converse(n as int, 32, -(q as int) - 1, 31 - rem);
        }
        -(q + 1)
    }
}

impl Coord {
    /// The region coordinate of the region containing this chunk coordinate:
    /// floor division of each component by the region edge length, 32.
    pub fn chunk_to_region(self) -> (r: Coord)
        ensures
            r.x as int == region_idx(self.x as int),
            r.z as int == region_idx(self.z as int),
    {
        Coord { x: floor_div_32(self.x), z: floor_div_32(self.z) }
    }
}

} // verus!
