use vstd::prelude::*;

use crate::manager::ChunkManager;

verus! {

/// Largest squared distance between two chunk coordinates that fit in `i32`
/// (each axis differs by less than 2^32, so the sum stays below 2^65).
pub const MAX_DISTANCE_SQ: u128 = 0x2_0000_0000_0000_0000;

/// Squared distance between two chunk coordinates, in chunk units.
pub open spec fn dist_sq(a: (i32, i32), b: (i32, i32)) -> int {
    (a.0 - b.0) * (a.0 - b.0) + (a.1 - b.1) * (a.1 - b.1)
}

/// Squared distance between two chunk coordinates, computed without overflow.
pub fn distance_sq(a: (i32, i32), b: (i32, i32)) -> (r: u128)
    ensures
        r == dist_sq(a, b),
        r < MAX_DISTANCE_SQ,
{
    let dx: i128 = a.0 as i128 - b.0 as i128;
    let dz: i128 = a.1 as i128 - b.1 as i128;
    proof {
        assert(0 <= dx * dx < 0x1_0000_0000_0000_0000) by (nonlinear_arith)
            requires
                -0x1_0000_0000 < dx < 0x1_0000_0000,
        ;
        assert(0 <= dz * dz < 0x1_0000_0000_0000_0000) by (nonlinear_arith)
            requires
                -0x1_0000_0000 < dz < 0x1_0000_0000,
        ;
    }
    (dx * dx + dz * dz) as u128
}

/// One row of the level-of-detail table.
///
/// `max_distance` is the reach of the band in hundredths of a chunk, before
/// the table's distance multiplier (itself in hundredths) is applied.
#[derive(Clone, Copy, Debug, PartialEq, Eq, Structural)]
pub struct LodBand {
    pub max_distance: u32,
    pub subdivisions: u32,
}

/// Whether a chunk at squared distance `distance_sq` (chunk units) lies within
/// the band once its reach is scaled by `multiplier`.
///
/// The reach in chunks is `max_distance * multiplier / 10000`; comparing
/// squares keeps the test exact on integers.
pub open spec fn band_reaches(distance_sq: int, band: LodBand, multiplier: u32) -> bool {
    let reach = band.max_distance * multiplier;
    distance_sq * 100_000_000 <= reach * reach
}

/// Index of the band chosen for `distance_sq`, searching from index `i`:
/// the first band that reaches the distance, or the last band when none does.
pub open spec fn band_index_from(levels: Seq<LodBand>, distance_sq: int, multiplier: u32, i: int) -> int
    decreases levels.len() - i,
{
    if i >= levels.len() - 1 {
        levels.len() - 1
    } else if band_reaches(distance_sq, levels[i], multiplier) {
        i
    } else {
        band_index_from(levels, distance_sq, multiplier, i + 1)
    }
}

/// Subdivision count that the table assigns to a chunk at squared distance
/// `distance_sq`.
pub open spec fn lod_for(levels: Seq<LodBand>, quality: u32, multiplier: u32, distance_sq: int) -> int {
    levels[band_index_from(levels, distance_sq, multiplier, 0)].subdivisions * quality
}

/// A usable table: at least one band, and no band's scaled subdivision count
/// overflows `u32`.
pub open spec fn lod_table_wf(levels: Seq<LodBand>, quality: u32) -> bool {
    &&& levels.len() >= 1
    &&& forall|i: int| 0 <= i < levels.len() ==> #[trigger] levels[i].subdivisions * quality <= u32::MAX
}

/// Subdivisions never increase from one band to the next.
pub open spec fn lod_table_descending(levels: Seq<LodBand>) -> bool {
    forall|i: int, j: int|
        0 <= i <= j < levels.len() ==> #[trigger] levels[i].subdivisions >= #[trigger] levels[j].subdivisions
}

/// Subdivision count for a chunk at squared distance `distance_sq` (chunk units)
/// from the viewpoint: the first band of the table that reaches it, else the
/// last band, scaled by the quality multiplier.
pub fn get_lod_subdivisions(distance_sq: u128, chunk_manager: &ChunkManager) -> (r: u32)
    requires
        distance_sq < MAX_DISTANCE_SQ,
        lod_table_wf(chunk_manager.lod_levels@, chunk_manager.lod_quality_multiplier),
    ensures
        r == chunk_manager.lod_of(distance_sq as int),
{
    let levels = &chunk_manager.lod_levels;
    let quality = chunk_manager.lod_quality_multiplier;
    let multiplier = chunk_manager.lod_distance_multiplier;
    let n = levels.len();
    let mut i: usize = 0;
    while i + 1 < n
        invariant
            n == levels@.len(),
            n >= 1,
            levels@ == chunk_manager.lod_levels@,
            quality == chunk_manager.lod_quality_multiplier,
            multiplier == chunk_manager.lod_distance_multiplier,
            0 <= i < n,
            distance_sq < MAX_DISTANCE_SQ,
            lod_table_wf(levels@, quality),
            band_index_from(levels@, distance_sq as int, multiplier, 0)
                == band_index_from(levels@, distance_sq as int, multiplier, i as int),
        decreases n - i,
    {
        let band = levels[i];
        let max_distance = band.max_distance as u128;
        let mult = multiplier as u128;
        proof {
            assert(max_distance * mult <= 0xffff_ffff * 0xffff_ffff) by (nonlinear_arith)
                requires
                    max_distance <= 0xffff_ffff,
                    mult <= 0xffff_ffff,
            ;
        }
        let reach: u128 = max_distance * mult;
        proof {
            assert(reach * reach <= u128::MAX) by (nonlinear_arith)
                requires
                    reach <= 0xffff_ffff * 0xffff_ffff,
            ;
        }
        if distance_sq * 100_000_000 <= reach * reach {
            assert(band_reaches(distance_sq as int, levels@[i as int], multiplier));
            assert(band_index_from(levels@, distance_sq as int, multiplier, i as int) == i);
            assert(levels@[i as int].subdivisions * quality <= u32::MAX);
            return band.subdivisions * quality;
        }
        i += 1;
    }
    assert(levels@[n - 1].subdivisions * quality <= u32::MAX);
    levels[n - 1].subdivisions * quality
}

/// The band search from `i` ends at a band no earlier than `i`.
proof fn lemma_band_index_bounds(levels: Seq<LodBand>, d: int, multiplier: u32, i: int)
    requires
        levels.len() >= 1,
        0 <= i < levels.len(),
    ensures
        i <= band_index_from(levels, d, multiplier, i) < levels.len(),
    decreases levels.len() - i,
{
    if i < levels.len() - 1 && !band_reaches(d, levels[i], multiplier) {
        lemma_band_index_bounds(levels, d, multiplier, i + 1);
    }
}

/// A farther chunk never lands in an earlier band.
proof fn lemma_band_index_monotonic(levels: Seq<LodBand>, d1: int, d2: int, multiplier: u32, i: int)
    requires
        levels.len() >= 1,
        0 <= i < levels.len(),
        0 <= d1 <= d2,
    ensures
        band_index_from(levels, d1, multiplier, i) <= band_index_from(levels, d2, multiplier, i),
    decreases levels.len() - i,
{
    if i < levels.len() - 1 {
        if band_reaches(d2, levels[i], multiplier) {
            assert(d1 * 100_000_000 <= d2 * 100_000_000) by (nonlinear_arith)
                requires
                    d1 <= d2,
            ;
        } else if band_reaches(d1, levels[i], multiplier) {
            lemma_band_index_bounds(levels, d2, multiplier, i + 1);
        } else {
            lemma_band_index_monotonic(levels, d1, d2, multiplier, i + 1);
        }
    }
}

/// Level of detail never rises with distance: with a table whose
/// subdivision counts do not increase from band to band, a chunk nearer to
/// the viewpoint gets at least as many subdivisions as a farther one.
pub proof fn lod_monotonic(levels: Seq<LodBand>, quality: u32, multiplier: u32, d1: int, d2: int)
    requires
        lod_table_wf(levels, quality),
        lod_table_descending(levels),
        0 <= d1 < d2,
    ensures
        lod_for(levels, quality, multiplier, d1) >= lod_for(levels, quality, multiplier, d2),
{
    lemma_band_index_monotonic(levels, d1, d2, multiplier, 0);
    lemma_band_index_bounds(levels, d1, multiplier, 0);
    lemma_band_index_bounds(levels, d2, multiplier, 0);
    let i1 = band_index_from(levels, d1, multiplier, 0);
    let i2 = band_index_from(levels, d2, multiplier, 0);
    let s1 = levels[i1].subdivisions;
    let s2 = levels[i2].subdivisions;
    assert(s1 >= s2);
    assert(s1 * quality >= s2 * quality) by (nonlinear_arith)
        requires
            s1 >= s2,
            quality >= 0,
    ;
}

} // verus!
