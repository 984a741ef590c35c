use vstd::prelude::*;

use bevy::platform::collections::HashSet;

use crate::chunk::{
    beyond_margin, chunk_map, coord, distinct_coords, in_range, lemma_chunk_map_dom, lemma_chunk_map_index,
    lemma_chunk_map_len, lemma_chunk_map_push, lemma_chunk_map_update, lemma_square_bound, Chunk,
};
use crate::coord_set::{coord_set_contains, coord_set_insert, coord_set_new, coord_set_remove, coords_in};
use crate::lod::{dist_sq, distance_sq, get_lod_subdivisions, lod_for, lod_table_wf, LodBand};
use crate::order::{farthest_first, insert_nearest_first, nearer, nearest_first};

verus! {

/// `r` is what a despawn pass removes from `spawned` for a viewpoint in chunk
/// `cam`: chunks beyond the despawn radius, farthest first, at most
/// `2 * max_chunks_per_frame` of them, and no chunk beyond the radius is left
/// while a nearer one is taken or while room is left.
pub open spec fn despawn_choice(
    spawned: Map<(i32, i32), Chunk>,
    cam: (i32, i32),
    render_distance: u32,
    max_chunks_per_frame: int,
    r: Seq<(i32, i32)>,
) -> bool {
    &&& farthest_first(r, cam)
    &&& r.len() <= 2 * max_chunks_per_frame
    &&& forall|c: (i32, i32)| #[trigger] r.contains(c) ==> spawned.dom().contains(c) && beyond_margin(c, cam, render_distance)
    &&& forall|c: (i32, i32)|
        spawned.dom().contains(c) && beyond_margin(c, cam, render_distance) && !r.contains(c) ==> r.len() == 2
            * max_chunks_per_frame && forall|j: int| 0 <= j < r.len() ==> nearer(cam, c, #[trigger] r[j])
}

/// The work one frame hands out: chunks to create, chunks to rebuild at a
/// new level of detail, and coordinates of chunks to remove.
pub struct TickWork {
    pub spawned: Vec<Chunk>,
    pub rebuilt: Vec<Chunk>,
    pub despawned: Vec<(i32, i32)>,
}

/// How much chunk work one frame may hand out.
pub struct WorldGenerationSettings {
    pub max_chunks_per_frame: usize,
}

impl Default for WorldGenerationSettings {
    fn default() -> (r: Self)
        ensures
            r.max_chunks_per_frame == 100,
    {
        WorldGenerationSettings { max_chunks_per_frame: 100 }
    }
}

/// The chunk registry: what is spawned, what waits, and the settings that
/// decide both.
pub struct ChunkManager {
    /// Coordinates of the spawned chunks.
    pub spawned_chunks: HashSet<(i32, i32)>,
    /// The spawned chunks themselves.
    pub chunks: Vec<Chunk>,
    pub last_camera_chunk: Option<(i32, i32)>,
    pub to_spawn: Vec<(i32, i32)>,
    pub lod_to_update: Vec<(i32, i32)>,
    pub render_distance: u32,
    pub lod_levels: Vec<LodBand>,
    pub lod_quality_multiplier: u32,
    /// Scales every band's reach, in hundredths.
    pub lod_distance_multiplier: u32,
}

impl ChunkManager {
    /// Subdivision count that this manager's table gives a chunk at squared
    /// distance `distance_sq`.
    pub open spec fn lod_of(&self, distance_sq: int) -> int {
        lod_for(self.lod_levels@, self.lod_quality_multiplier, self.lod_distance_multiplier, distance_sq)
    }

    /// The spawned chunks, keyed by their coordinates.
    pub open spec fn spawned(&self) -> Map<(i32, i32), Chunk> {
        chunk_map(self.chunks@)
    }

    /// Each spawned coordinate appears once, the coordinate set holds exactly
    /// the coordinates of the spawned chunks, and the level-of-detail table is
    /// usable.
    pub open spec fn wf(&self) -> bool {
        &&& distinct_coords(self.chunks@)
        &&& coords_in(self.spawned_chunks) == self.spawned().dom()
        &&& lod_table_wf(self.lod_levels@, self.lod_quality_multiplier)
    }

    /// The settings and the spawned chunks are those of `other`.
    pub open spec fn same_world(&self, other: &ChunkManager) -> bool {
        &&& self.chunks@ == other.chunks@
        &&& self.spawned_chunks == other.spawned_chunks
        &&& self.same_settings(other)
    }

    /// The render distance and the level-of-detail table are those of `other`.
    pub open spec fn same_settings(&self, other: &ChunkManager) -> bool {
        &&& self.render_distance == other.render_distance
        &&& self.lod_levels@ == other.lod_levels@
        &&& self.lod_quality_multiplier == other.lod_quality_multiplier
        &&& self.lod_distance_multiplier == other.lod_distance_multiplier
    }

    /// An empty registry with the given settings.
    pub fn new(render_distance: u32, lod_levels: Vec<LodBand>, lod_quality_multiplier: u32, lod_distance_multiplier: u32) -> (r: Self)
        requires
            lod_table_wf(lod_levels@, lod_quality_multiplier),
        ensures
            r.wf(),
            r.chunks@.len() == 0,
            r.to_spawn@.len() == 0,
            r.lod_to_update@.len() == 0,
            r.last_camera_chunk.is_none(),
            r.render_distance == render_distance,
            r.lod_levels@ == lod_levels@,
            r.lod_quality_multiplier == lod_quality_multiplier,
            r.lod_distance_multiplier == lod_distance_multiplier,
    {
        ChunkManager {
            spawned_chunks: coord_set_new(),
            chunks: Vec::new(),
            last_camera_chunk: None,
            to_spawn: Vec::new(),
            lod_to_update: Vec::new(),
            render_distance,
            lod_levels,
            lod_quality_multiplier,
            lod_distance_multiplier,
        }
    }

    /// Number of spawned chunks.
    pub fn spawned_count(&self) -> (r: usize)
        requires
            self.wf(),
        ensures
            r == self.spawned().dom().len(),
    {
        proof {
            lemma_chunk_map_len(self.chunks@);
        }
        self.chunks.len()
    }

    /// Position in `chunks` of the chunk at `c`, if one is spawned there.
    pub fn find_chunk(&self, c: (i32, i32)) -> (r: Option<usize>)
        ensures
            match r {
                Some(i) => i < self.chunks@.len() && coord(self.chunks@[i as int]) == c,
                None => !self.spawned().dom().contains(c),
            },
    {
        let n = self.chunks.len();
        let mut i: usize = 0;
        while i < n
            invariant
                n == self.chunks@.len(),
                i <= n,
                forall|k: int| 0 <= k < i ==> coord(#[trigger] self.chunks@[k]) != c,
            decreases n - i,
        {
            let ch = &self.chunks[i];
            if ch.x == c.0 && ch.z == c.1 {
                return Some(i);
            }
            i += 1;
        }
        proof {
            lemma_chunk_map_dom(self.chunks@, c);
        }
        None
    }

    /// Whether a chunk is spawned at `c`.
    pub fn is_spawned(&self, c: (i32, i32)) -> (r: bool)
        requires
            self.wf(),
        ensures
            r == self.spawned().dom().contains(c),
    {
        coord_set_contains(&self.spawned_chunks, c)
    }

    /// Rebuilds the spawn queue for a viewpoint in chunk `cam`: every
    /// coordinate within the render distance where no chunk is spawned,
    /// nearest first.
    pub fn queue_spawns(&mut self, cam: (i32, i32))
        requires
            old(self).wf(),
        ensures
            final(self).wf(),
            final(self).same_world(old(self)),
            final(self).lod_to_update@ == old(self).lod_to_update@,
            final(self).last_camera_chunk == old(self).last_camera_chunk,
            nearest_first(final(self).to_spawn@, cam),
            forall|c: (i32, i32)| #[trigger] final(self).to_spawn@.contains(c) <==> (in_range(c, cam, old(self).render_distance)
                && !old(self).spawned().dom().contains(c)),
    {
        let rd = self.render_distance;
        let rd_wide = rd as u128;
        proof {
            assert(rd_wide * rd_wide <= 0xffff_ffff * 0xffff_ffff) by (nonlinear_arith)
                requires
                    rd_wide <= 0xffff_ffff,
            ;
        }
        let rd_sq: u128 = rd_wide * rd_wide;
        let lo_x: i64 = if cam.0 as i64 - (rd as i64) < i32::MIN as i64 { i32::MIN as i64 } else { cam.0 as i64 - rd as i64 };
        let hi_x: i64 = if cam.0 as i64 + (rd as i64) > i32::MAX as i64 { i32::MAX as i64 } else { cam.0 as i64 + rd as i64 };
        let lo_z: i64 = if cam.1 as i64 - (rd as i64) < i32::MIN as i64 { i32::MIN as i64 } else { cam.1 as i64 - rd as i64 };
        let hi_z: i64 = if cam.1 as i64 + (rd as i64) > i32::MAX as i64 { i32::MAX as i64 } else { cam.1 as i64 + rd as i64 };
        proof {
            assert forall|c: (i32, i32)| in_range(c, cam, rd) implies lo_x <= c.0 <= hi_x && lo_z <= c.1 <= hi_z by {
                lemma_square_bound(c.0 - cam.0, c.1 - cam.1, rd as int);
                lemma_square_bound(c.1 - cam.1, c.0 - cam.0, rd as int);
            }
        }
        let mut queue: Vec<(i32, i32)> = Vec::new();
        let mut x: i64 = lo_x;
        while x <= hi_x
            invariant
                self.wf(),
                rd == self.render_distance,
                rd_sq == rd * rd,
                i32::MIN <= lo_x <= x <= hi_x + 1,
                hi_x <= i32::MAX,
                i32::MIN <= lo_z <= hi_z,
                hi_z <= i32::MAX,
                forall|c: (i32, i32)| in_range(c, cam, rd) ==> lo_x <= c.0 <= hi_x && lo_z <= c.1 <= hi_z,
                nearest_first(queue@, cam),
                forall|c: (i32, i32)| #[trigger] queue@.contains(c) <==> (in_range(c, cam, rd)
                    && !self.spawned().dom().contains(c) && c.0 < x),
            decreases hi_x + 1 - x,
        {
            let mut z: i64 = lo_z;
            while z <= hi_z
                invariant
                    self.wf(),
                    rd == self.render_distance,
                    rd_sq == rd * rd,
                    i32::MIN <= lo_x <= x <= hi_x,
                    hi_x <= i32::MAX,
                    i32::MIN <= lo_z <= z <= hi_z + 1,
                    hi_z <= i32::MAX,
                    forall|c: (i32, i32)| in_range(c, cam, rd) ==> lo_x <= c.0 <= hi_x && lo_z <= c.1 <= hi_z,
                    nearest_first(queue@, cam),
                    forall|c: (i32, i32)| #[trigger] queue@.contains(c) <==> (in_range(c, cam, rd)
                        && !self.spawned().dom().contains(c) && (c.0 < x || (c.0 == x && c.1 < z))),
                decreases hi_z + 1 - z,
            {
                let c: (i32, i32) = (x as i32, z as i32);
                if distance_sq(c, cam) <= rd_sq && !self.is_spawned(c) {
                    insert_nearest_first(&mut queue, cam, c);
                }
                z += 1;
            }
            x += 1;
        }
        self.to_spawn = queue;
    }

    /// The chunk that spawning at `c`, for a viewpoint in chunk `cam`, creates:
    /// at the level of detail for its distance, with its build in flight.
    pub open spec fn new_chunk(&self, c: (i32, i32), cam: (i32, i32)) -> Chunk {
        Chunk { x: c.0, z: c.1, current_lod: self.lod_of(dist_sq(c, cam)) as u32, building: true }
    }

    /// Draining `queue` with room for `budget` more chunks, starting from the
    /// spawned chunks `spawned`: each coordinate taken from the front is
    /// spawned if it is still in range and free, else dropped; the drain
    /// stops when the budget is spent or the queue is empty. Gives the rest of
    /// the queue, the spawned chunks after the drain, and the new chunks in
    /// the order they were made.
    pub open spec fn spawn_drain(
        &self,
        queue: Seq<(i32, i32)>,
        spawned: Map<(i32, i32), Chunk>,
        cam: (i32, i32),
        budget: int,
    ) -> (Seq<(i32, i32)>, Map<(i32, i32), Chunk>, Seq<Chunk>)
        decreases queue.len(),
    {
        if budget <= 0 || queue.len() == 0 {
            (queue, spawned, seq![])
        } else {
            let c = queue[0];
            if in_range(c, cam, self.render_distance) && !spawned.dom().contains(c) {
                let ch = self.new_chunk(c, cam);
                let r = self.spawn_drain(queue.drop_first(), spawned.insert(c, ch), cam, budget - 1);
                (r.0, r.1, seq![ch] + r.2)
            } else {
                self.spawn_drain(queue.drop_first(), spawned, cam, budget)
            }
        }
    }

    /// Takes coordinates from the front of the spawn queue and spawns each one
    /// that is still in range of `cam` and free, until `max_chunks_per_frame`
    /// chunks have been spawned or the queue is empty. Returns the new chunks,
    /// each hidden until its mesh build completes.
    pub fn drain_spawn_queue(&mut self, cam: (i32, i32), max_chunks_per_frame: usize) -> (r: Vec<Chunk>)
        requires
            old(self).wf(),
        ensures
            final(self).wf(),
            final(self).same_settings(old(self)),
            final(self).lod_to_update@ == old(self).lod_to_update@,
            final(self).last_camera_chunk == old(self).last_camera_chunk,
            (final(self).to_spawn@, final(self).spawned(), r@) == old(self).spawn_drain(
                old(self).to_spawn@,
                old(self).spawned(),
                cam,
                max_chunks_per_frame as int,
            ),
            r@.len() <= max_chunks_per_frame,
    {
        let ghost q0 = self.to_spawn@;
        let ghost m0 = self.spawned();
        let ghost s0 = *self;
        let n = self.to_spawn.len();
        let mut i: usize = 0;
        let mut out: Vec<Chunk> = Vec::new();
        let rd = self.render_distance;
        let rd_wide = rd as u128;
        proof {
            assert(rd_wide * rd_wide <= 0xffff_ffff * 0xffff_ffff) by (nonlinear_arith)
                requires
                    rd_wide <= 0xffff_ffff,
            ;
        }
        let rd_sq: u128 = rd_wide * rd_wide;
        proof {
            assert(q0.subrange(0, n as int) =~= q0);
            let r = s0.spawn_drain(q0, m0, cam, max_chunks_per_frame as int);
            assert(out@ + r.2 =~= r.2);
        }
        while out.len() < max_chunks_per_frame && i < n
            invariant
                self.wf(),
                self.same_settings(&s0),
                self.to_spawn@ == q0,
                self.lod_to_update@ == s0.lod_to_update@,
                self.last_camera_chunk == s0.last_camera_chunk,
                n == q0.len(),
                i <= n,
                rd == s0.render_distance,
                rd_sq == rd * rd,
                out@.len() <= max_chunks_per_frame,
                s0.spawn_drain(q0, m0, cam, max_chunks_per_frame as int) == ({
                    let r = s0.spawn_drain(q0.subrange(i as int, n as int), self.spawned(), cam, max_chunks_per_frame - out@.len());
                    (r.0, r.1, out@ + r.2)
                }),
            decreases n - i,
        {
            let c = self.to_spawn[i];
            let ghost rest = q0.subrange(i as int, n as int);
            assert(rest.drop_first() =~= q0.subrange(i + 1, n as int));
            let d = distance_sq(c, cam);
            if d <= rd_sq && !self.is_spawned(c) {
                let lod = get_lod_subdivisions(d, self);
                let ch = Chunk { x: c.0, z: c.1, current_lod: lod, building: true };
                let ghost before = self.chunks@;
                proof {
                    lemma_chunk_map_push(before, ch);
                    assert forall|k: int| 0 <= k < before.len() implies coord(#[trigger] before[k]) != c by {
                        lemma_chunk_map_dom(before, c);
                    }
                }
                self.chunks.push(ch);
                coord_set_insert(&mut self.spawned_chunks, c);
                let ghost out_before = out@;
                out.push(ch);
                proof {
                    assert(distinct_coords(self.chunks@)) by {
                        assert forall|a: int, b: int| 0 <= a < b < self.chunks@.len() implies coord(
                            #[trigger] self.chunks@[a],
                        ) != coord(#[trigger] self.chunks@[b]) by {
                            if b == before.len() {
                                assert(self.chunks@[a] == before[a]);
                            } else {
                                assert(self.chunks@[a] == before[a]);
                                assert(self.chunks@[b] == before[b]);
                            }
                        }
                    }
                    let r = s0.spawn_drain(q0.subrange(i + 1, n as int), self.spawned(), cam, max_chunks_per_frame - out@.len());
                    assert(out_before + (seq![ch] + r.2) =~= out@ + r.2);
                }
            }
            i += 1;
        }
        proof {
            let r = s0.spawn_drain(q0.subrange(i as int, n as int), self.spawned(), cam, max_chunks_per_frame - out@.len());
            assert(out@ + r.2 =~= out@);
            assert(r.0 == q0.subrange(i as int, n as int));
        }
        let rest = self.to_spawn.split_off(i);
        self.to_spawn = rest;
        out
    }

    /// The spawned chunk at `c` has no build in flight and a level of detail
    /// other than the one its distance from `cam` calls for.
    pub open spec fn needs_lod_update(&self, spawned: Map<(i32, i32), Chunk>, c: (i32, i32), cam: (i32, i32)) -> bool {
        &&& spawned.dom().contains(c)
        &&& !spawned[c].building
        &&& spawned[c].current_lod != self.lod_of(dist_sq(c, cam))
    }

    /// Rebuilds the level-of-detail queue for a viewpoint in chunk `cam`:
    /// every spawned chunk without a build in flight whose level of detail is
    /// not the one its distance calls for, nearest first.
    pub fn queue_lod_updates(&mut self, cam: (i32, i32))
        requires
            old(self).wf(),
        ensures
            final(self).wf(),
            final(self).same_world(old(self)),
            final(self).to_spawn@ == old(self).to_spawn@,
            final(self).last_camera_chunk == old(self).last_camera_chunk,
            nearest_first(final(self).lod_to_update@, cam),
            forall|c: (i32, i32)| #[trigger] final(self).lod_to_update@.contains(c) <==> old(self).needs_lod_update(
                old(self).spawned(),
                c,
                cam,
            ),
    {
        let n = self.chunks.len();
        let mut queue: Vec<(i32, i32)> = Vec::new();
        let mut i: usize = 0;
        while i < n
            invariant
                self.wf(),
                n == self.chunks@.len(),
                i <= n,
                nearest_first(queue@, cam),
                forall|c: (i32, i32)| #[trigger] queue@.contains(c) <==> exists|k: int|
                    0 <= k < i && coord(#[trigger] self.chunks@[k]) == c && self.needs_lod_update(self.spawned(), c, cam),
            decreases n - i,
        {
            let ch = self.chunks[i];
            let c: (i32, i32) = (ch.x, ch.z);
            proof {
                lemma_chunk_map_index(self.chunks@, i as int);
            }
            let ghost q_before = queue@;
            if !ch.building {
                let desired = get_lod_subdivisions(distance_sq(c, cam), self);
                if desired != ch.current_lod {
                    insert_nearest_first(&mut queue, cam, c);
                }
            }
            proof {
                assert forall|d: (i32, i32)| #[trigger] queue@.contains(d) <==> exists|k: int|
                    0 <= k < i + 1 && coord(#[trigger] self.chunks@[k]) == d && self.needs_lod_update(self.spawned(), d, cam) by {
                    if exists|k: int| 0 <= k < i + 1 && coord(#[trigger] self.chunks@[k]) == d && self.needs_lod_update(self.spawned(), d, cam) {
                        let k = choose|k: int| 0 <= k < i + 1 && coord(#[trigger] self.chunks@[k]) == d && self.needs_lod_update(self.spawned(), d, cam);
                        if k < i {
                            assert(q_before.contains(d));
                        }
                    }
                    if q_before.contains(d) {
                        let k = choose|k: int| 0 <= k < i && coord(#[trigger] self.chunks@[k]) == d && self.needs_lod_update(self.spawned(), d, cam);
                        assert(0 <= k < i + 1);
                    }
                }
            }
            i += 1;
        }
        proof {
            assert forall|c: (i32, i32)| #[trigger] queue@.contains(c) <==> self.needs_lod_update(self.spawned(), c, cam) by {
                if self.needs_lod_update(self.spawned(), c, cam) {
                    lemma_chunk_map_dom(self.chunks@, c);
                    let k = choose|k: int| 0 <= k < self.chunks@.len() && coord(#[trigger] self.chunks@[k]) == c;
                    assert(0 <= k < i);
                }
            }
        }
        self.lod_to_update = queue;
    }

    /// The chunk at `c` after its level of detail is brought to the one its
    /// distance from `cam` calls for, with a rebuild in flight.
    pub open spec fn relod_chunk(&self, ch: Chunk, cam: (i32, i32)) -> Chunk {
        Chunk { current_lod: self.lod_of(dist_sq(coord(ch), cam)) as u32, building: true, ..ch }
    }

    /// Draining the level-of-detail `queue` with room for `budget` more
    /// rebuilds, starting from the spawned chunks `spawned`: each coordinate
    /// taken from the front is rebuilt if it still needs it, else dropped;
    /// the drain stops when the budget is spent or the queue is empty. Gives
    /// the rest of the queue, the spawned chunks after the drain, and the
    /// rebuilt chunks in order.
    pub open spec fn lod_drain(
        &self,
        queue: Seq<(i32, i32)>,
        spawned: Map<(i32, i32), Chunk>,
        cam: (i32, i32),
        budget: int,
    ) -> (Seq<(i32, i32)>, Map<(i32, i32), Chunk>, Seq<Chunk>)
        decreases queue.len(),
    {
        if budget <= 0 || queue.len() == 0 {
            (queue, spawned, seq![])
        } else {
            let c = queue[0];
            if self.needs_lod_update(spawned, c, cam) {
                let ch = self.relod_chunk(spawned[c], cam);
                let r = self.lod_drain(queue.drop_first(), spawned.insert(c, ch), cam, budget - 1);
                (r.0, r.1, seq![ch] + r.2)
            } else {
                self.lod_drain(queue.drop_first(), spawned, cam, budget)
            }
        }
    }

    /// Takes coordinates from the front of the level-of-detail queue and
    /// starts a rebuild for each chunk that still needs one, until
    /// `max_chunks_per_frame` rebuilds have started or the queue is empty.
    /// Returns the rebuilt chunks with their new level of detail; each keeps
    /// its old mesh on screen until the rebuild completes.
    pub fn drain_lod_queue(&mut self, cam: (i32, i32), max_chunks_per_frame: usize) -> (r: Vec<Chunk>)
        requires
            old(self).wf(),
        ensures
            final(self).wf(),
            final(self).same_settings(old(self)),
            final(self).to_spawn@ == old(self).to_spawn@,
            final(self).last_camera_chunk == old(self).last_camera_chunk,
            (final(self).lod_to_update@, final(self).spawned(), r@) == old(self).lod_drain(
                old(self).lod_to_update@,
                old(self).spawned(),
                cam,
                max_chunks_per_frame as int,
            ),
            r@.len() <= max_chunks_per_frame,
    {
        let ghost q0 = self.lod_to_update@;
        let ghost m0 = self.spawned();
        let ghost s0 = *self;
        let n = self.lod_to_update.len();
        let mut i: usize = 0;
        let mut out: Vec<Chunk> = Vec::new();
        proof {
            assert(q0.subrange(0, n as int) =~= q0);
            let r = s0.lod_drain(q0, m0, cam, max_chunks_per_frame as int);
            assert(out@ + r.2 =~= r.2);
        }
        while out.len() < max_chunks_per_frame && i < n
            invariant
                self.wf(),
                self.same_settings(&s0),
                self.lod_to_update@ == q0,
                self.to_spawn@ == s0.to_spawn@,
                self.last_camera_chunk == s0.last_camera_chunk,
                n == q0.len(),
                i <= n,
                out@.len() <= max_chunks_per_frame,
                s0.lod_drain(q0, m0, cam, max_chunks_per_frame as int) == ({
                    let r = s0.lod_drain(q0.subrange(i as int, n as int), self.spawned(), cam, max_chunks_per_frame - out@.len());
                    (r.0, r.1, out@ + r.2)
                }),
            decreases n - i,
        {
            let c = self.lod_to_update[i];
            let ghost rest = q0.subrange(i as int, n as int);
            assert(rest.drop_first() =~= q0.subrange(i + 1, n as int));
            match self.find_chunk(c) {
                Some(k) => {
                    let ch = self.chunks[k];
                    proof {
                        lemma_chunk_map_index(self.chunks@, k as int);
                    }
                    if !ch.building {
                        let desired = get_lod_subdivisions(distance_sq(c, cam), self);
                        if desired != ch.current_lod {
                            let new_ch = Chunk { current_lod: desired, building: true, ..ch };
                            let ghost before = self.chunks@;
                            proof {
                                lemma_chunk_map_update(before, k as int, new_ch);
                            }
                            self.chunks.set(k, new_ch);
                            let ghost out_before = out@;
                            out.push(new_ch);
                            proof {
                                assert(self.spawned().dom() =~= chunk_map(before).dom());
                                assert(distinct_coords(self.chunks@)) by {
                                    assert forall|a: int, b: int| 0 <= a < b < self.chunks@.len() implies coord(
                                        #[trigger] self.chunks@[a],
                                    ) != coord(#[trigger] self.chunks@[b]) by {
                                        assert(coord(self.chunks@[a]) == coord(before[a]));
                                        assert(coord(self.chunks@[b]) == coord(before[b]));
                                    }
                                }
                                let r = s0.lod_drain(q0.subrange(i + 1, n as int), self.spawned(), cam, max_chunks_per_frame - out@.len());
                                assert(out_before + (seq![new_ch] + r.2) =~= out@ + r.2);
                            }
                        }
                    }
                },
                None => {},
            }
            i += 1;
        }
        proof {
            let r = s0.lod_drain(q0.subrange(i as int, n as int), self.spawned(), cam, max_chunks_per_frame - out@.len());
            assert(out@ + r.2 =~= out@);
        }
        let rest = self.lod_to_update.split_off(i);
        self.lod_to_update = rest;
        out
    }

    /// Despawns, for a viewpoint in chunk `cam`, the spawned chunks beyond the
    /// render distance plus one chunk of margin: the farthest first, at most
    /// `2 * max_chunks_per_frame` of them. Returns their coordinates in the
    /// order they were removed.
    pub fn despawn_out_of_bounds_chunks(&mut self, cam: (i32, i32), max_chunks_per_frame: usize) -> (r: Vec<(i32, i32)>)
        requires
            old(self).wf(),
        ensures
            final(self).wf(),
            final(self).same_settings(old(self)),
            final(self).to_spawn@ == old(self).to_spawn@,
            final(self).lod_to_update@ == old(self).lod_to_update@,
            final(self).last_camera_chunk == old(self).last_camera_chunk,
            despawn_choice(old(self).spawned(), cam, old(self).render_distance, max_chunks_per_frame as int, r@),
            final(self).spawned() == old(self).spawned().remove_keys(r@.to_set()),
    {
        let rd = self.render_distance as u128 + 1;
        proof {
            assert(rd * rd <= 0x1_0000_0000 * 0x1_0000_0000) by (nonlinear_arith)
                requires
                    rd <= 0x1_0000_0000,
            ;
        }
        let margin_sq: u128 = rd * rd;
        let n = self.chunks.len();
        let mut far: Vec<(i32, i32)> = Vec::new();
        let mut i: usize = 0;
        while i < n
            invariant
                self.wf(),
                n == self.chunks@.len(),
                i <= n,
                margin_sq == (self.render_distance + 1) * (self.render_distance + 1),
                nearest_first(far@, cam),
                forall|c: (i32, i32)| #[trigger] far@.contains(c) <==> exists|k: int|
                    0 <= k < i && coord(#[trigger] self.chunks@[k]) == c && beyond_margin(c, cam, self.render_distance),
            decreases n - i,
        {
            let ch = self.chunks[i];
            let c: (i32, i32) = (ch.x, ch.z);
            let ghost f_before = far@;
            if distance_sq(c, cam) > margin_sq {
                insert_nearest_first(&mut far, cam, c);
            }
            proof {
                assert forall|d: (i32, i32)| #[trigger] far@.contains(d) <==> exists|k: int|
                    0 <= k < i + 1 && coord(#[trigger] self.chunks@[k]) == d && beyond_margin(d, cam, self.render_distance) by {
                    if exists|k: int| 0 <= k < i + 1 && coord(#[trigger] self.chunks@[k]) == d && beyond_margin(d, cam, self.render_distance) {
                        let k = choose|k: int| 0 <= k < i + 1 && coord(#[trigger] self.chunks@[k]) == d && beyond_margin(d, cam, self.render_distance);
                        if k < i {
                            assert(f_before.contains(d));
                        }
                    }
                    if f_before.contains(d) {
                        let k = choose|k: int| 0 <= k < i && coord(#[trigger] self.chunks@[k]) == d && beyond_margin(d, cam, self.render_distance);
                        assert(0 <= k < i + 1);
                    }
                }
            }
            i += 1;
        }
        proof {
            assert forall|c: (i32, i32)| #[trigger] far@.contains(c) <==> (self.spawned().dom().contains(c) && beyond_margin(c, cam, self.render_distance)) by {
                lemma_chunk_map_dom(self.chunks@, c);
                if self.spawned().dom().contains(c) && beyond_margin(c, cam, self.render_distance) {
                    let k = choose|k: int| 0 <= k < self.chunks@.len() && coord(#[trigger] self.chunks@[k]) == c;
                    assert(0 <= k < i);
                }
            }
        }
        // Take the farthest ones, from the end of the nearest-first list.
        let fl = far.len();
        let mut out: Vec<(i32, i32)> = Vec::new();
        let mut j: usize = fl;
        while j > 0 && (out.len() as u128) < 2 * (max_chunks_per_frame as u128)
            invariant
                fl == far@.len(),
                j <= fl,
                out@.len() == fl - j,
                out@.len() <= 2 * max_chunks_per_frame,
                forall|t: int| 0 <= t < out@.len() ==> #[trigger] out@[t] == far@[fl - 1 - t],
            decreases j,
        {
            out.push(far[j - 1]);
            j -= 1;
        }
        proof {
            assert(farthest_first(out@, cam)) by {
                assert forall|a: int, b: int| 0 <= a < b < out@.len() implies nearer(cam, #[trigger] out@[b], #[trigger] out@[a]) by {
                    assert(out@[a] == far@[fl - 1 - a]);
                    assert(out@[b] == far@[fl - 1 - b]);
                }
            }
            assert forall|c: (i32, i32)| #[trigger] out@.contains(c) implies far@.contains(c) by {
                if out@.contains(c) {
                    let t = choose|t: int| 0 <= t < out@.len() && out@[t] == c;
                    assert(far@[fl - 1 - t] == c);
                }
            }
            assert forall|c: (i32, i32)| far@.contains(c) && !out@.contains(c) implies out@.len() == 2 * max_chunks_per_frame
                && forall|t: int| 0 <= t < out@.len() ==> nearer(cam, c, #[trigger] out@[t]) by {
                let k = choose|k: int| 0 <= k < far@.len() && far@[k] == c;
                if k >= j {
                    assert(out@[fl - 1 - k] == c);
                }
                assert forall|t: int| 0 <= t < out@.len() implies nearer(cam, c, #[trigger] out@[t]) by {
                    assert(out@[t] == far@[fl - 1 - t]);
                }
            }
        }
        // Keep every chunk whose coordinates were not taken.
        let ghost s = self.chunks@;
        let ghost removed = out@.to_set();
        let mut kept: Vec<Chunk> = Vec::new();
        let mut i: usize = 0;
        proof {
            assert(s.take(0) =~= Seq::<Chunk>::empty());
            assert(chunk_map(Seq::<Chunk>::empty()) =~= chunk_map(s.take(0)).remove_keys(removed));
        }
        while i < n
            invariant
                s == self.chunks@,
                distinct_coords(s),
                n == s.len(),
                i <= n,
                removed == out@.to_set(),
                distinct_coords(kept@),
                chunk_map(kept@) == chunk_map(s.take(i as int)).remove_keys(removed),
            decreases n - i,
        {
            let ch = self.chunks[i];
            let c: (i32, i32) = (ch.x, ch.z);
            assert(s.take(i + 1).drop_last() =~= s.take(i as int));
            assert(s.take(i + 1).last() == ch);
            proof {
                assert(distinct_coords(s.take(i as int))) by {
                    assert forall|a: int, b: int| 0 <= a < b < s.take(i as int).len() implies coord(#[trigger] s.take(i as int)[a]) != coord(
                        #[trigger] s.take(i as int)[b],
                    ) by {
                        assert(s.take(i as int)[a] == s[a] && s.take(i as int)[b] == s[b]);
                    }
                }
            }
            if !contains_coord(&out, c) {
                proof {
                    lemma_chunk_map_dom(s.take(i as int), c);
                    if chunk_map(s.take(i as int)).dom().contains(c) {
                        let k = choose|k: int| 0 <= k < s.take(i as int).len() && coord(#[trigger] s.take(i as int)[k]) == c;
                        assert(coord(s[k]) != coord(s[i as int]));
                    }
                    lemma_chunk_map_dom(kept@, c);
                    lemma_chunk_map_push(kept@, ch);
                    assert(!removed.contains(c));
                    assert(chunk_map(kept@.push(ch)) =~= chunk_map(s.take(i + 1)).remove_keys(removed));
                }
                let ghost kept_before = kept@;
                kept.push(ch);
                proof {
                    assert(distinct_coords(kept@)) by {
                        assert forall|a: int, b: int| 0 <= a < b < kept@.len() implies coord(#[trigger] kept@[a]) != coord(#[trigger] kept@[b]) by {
                            assert(kept@[a] == kept_before[a]);
                            if b < kept_before.len() {
                                assert(kept@[b] == kept_before[b]);
                            } else {
                                assert(coord(kept_before[a]) != c);
                            }
                        }
                    }
                }
            } else {
                proof {
                    assert(removed.contains(c));
                    assert(chunk_map(kept@) =~= chunk_map(s.take(i + 1)).remove_keys(removed));
                }
            }
            i += 1;
        }
        proof {
            assert(s.take(n as int) =~= s);
        }
        self.chunks = kept;
        let ghost set0 = coords_in(self.spawned_chunks);
        let ghost mid = *self;
        let mut t: usize = 0;
        while t < out.len()
            invariant
                self.chunks@ == mid.chunks@,
                self.same_settings(&mid),
                self.to_spawn@ == mid.to_spawn@,
                self.lod_to_update@ == mid.lod_to_update@,
                self.last_camera_chunk == mid.last_camera_chunk,
                t <= out@.len(),
                forall|c: (i32, i32)| #[trigger] coords_in(self.spawned_chunks).contains(c) <==> (set0.contains(c)
                    && !out@.subrange(0, t as int).contains(c)),
            decreases out@.len() - t,
        {
            let ghost before = coords_in(self.spawned_chunks);
            coord_set_remove(&mut self.spawned_chunks, out[t]);
            proof {
                assert forall|c: (i32, i32)| #[trigger] coords_in(self.spawned_chunks).contains(c) <==> (set0.contains(c)
                    && !out@.subrange(0, t + 1).contains(c)) by {
                    if out@.subrange(0, t as int).contains(c) {
                        let k = choose|k: int| 0 <= k < t && #[trigger] out@.subrange(0, t as int)[k] == c;
                        assert(out@.subrange(0, t + 1)[k] == c);
                    }
                    if out@.subrange(0, t + 1).contains(c) && c != out@[t as int] {
                        let k = choose|k: int| 0 <= k < t + 1 && #[trigger] out@.subrange(0, t + 1)[k] == c;
                        assert(out@.subrange(0, t as int)[k] == c);
                    }
                    if c == out@[t as int] {
                        assert(out@.subrange(0, t + 1)[t as int] == c);
                    }
                }
            }
            t += 1;
        }
        proof {
            assert(out@.subrange(0, out@.len() as int) =~= out@);
            assert(coords_in(self.spawned_chunks) =~= self.spawned().dom());
        }
        out
    }

    /// Records that the mesh build of the chunk at `c` has completed. Returns
    /// false, and changes nothing, when no chunk is spawned there any more:
    /// the build's result is then discarded.
    pub fn complete_build(&mut self, c: (i32, i32)) -> (r: bool)
        requires
            old(self).wf(),
        ensures
            final(self).wf(),
            final(self).same_settings(old(self)),
            final(self).to_spawn@ == old(self).to_spawn@,
            final(self).lod_to_update@ == old(self).lod_to_update@,
            final(self).last_camera_chunk == old(self).last_camera_chunk,
            r == old(self).spawned().dom().contains(c),
            r ==> final(self).spawned() == old(self).spawned().insert(c, Chunk { building: false, ..old(self).spawned()[c] }),
            !r ==> final(self).spawned() == old(self).spawned(),
    {
        match self.find_chunk(c) {
            Some(k) => {
                let ch = self.chunks[k];
                let done = Chunk { building: false, ..ch };
                let ghost before = self.chunks@;
                proof {
                    lemma_chunk_map_index(before, k as int);
                    lemma_chunk_map_update(before, k as int, done);
                }
                self.chunks.set(k, done);
                proof {
                    assert(self.spawned().dom() =~= chunk_map(before).dom());
                    assert(distinct_coords(self.chunks@)) by {
                        assert forall|a: int, b: int| 0 <= a < b < self.chunks@.len() implies coord(
                            #[trigger] self.chunks@[a],
                        ) != coord(#[trigger] self.chunks@[b]) by {
                            assert(coord(self.chunks@[a]) == coord(before[a]));
                            assert(coord(self.chunks@[b]) == coord(before[b]));
                        }
                    }
                }
                true
            },
            None => false,
        }
    }

    /// Whether the queues must be rebuilt: the viewpoint entered another
    /// chunk since the last scan, or the settings changed.
    pub open spec fn rescan_due(&self, cam: (i32, i32), settings_changed: bool) -> bool {
        self.last_camera_chunk != Some(cam) || settings_changed
    }

    /// Decides `rescan_due`.
    pub fn needs_rescan(&self, cam: (i32, i32), settings_changed: bool) -> (r: bool)
        ensures
            r == self.rescan_due(cam, settings_changed),
    {
        match self.last_camera_chunk {
            Some(last) => settings_changed || last.0 != cam.0 || last.1 != cam.1,
            None => true,
        }
    }

    /// `q` is the spawn queue that a scan for a viewpoint in chunk `cam`
    /// builds from this registry: every coordinate in range where no chunk
    /// is spawned, nearest first.
    pub open spec fn spawn_queue_for(&self, cam: (i32, i32), q: Seq<(i32, i32)>) -> bool {
        &&& nearest_first(q, cam)
        &&& forall|c: (i32, i32)| #[trigger] q.contains(c) <==> (in_range(c, cam, self.render_distance)
            && !self.spawned().dom().contains(c))
    }

    /// `q` is the level-of-detail queue that a scan for a viewpoint in chunk
    /// `cam` builds over the spawned chunks `spawned`: every chunk that needs
    /// a rebuild, nearest first.
    pub open spec fn lod_queue_for(&self, spawned: Map<(i32, i32), Chunk>, cam: (i32, i32), q: Seq<(i32, i32)>) -> bool {
        &&& nearest_first(q, cam)
        &&& forall|c: (i32, i32)| #[trigger] q.contains(c) <==> self.needs_lod_update(spawned, c, cam)
    }

    /// The spawning part of a frame: when `rescan` is set, rebuilds the spawn
    /// queue for `cam` and records `cam` as the chunk of the last scan; then
    /// spawns from the queue's front, at most `max_chunks_per_frame` chunks.
    /// Returns the new chunks.
    pub fn generate_chunks(&mut self, cam: (i32, i32), rescan: bool, max_chunks_per_frame: usize) -> (r: Vec<Chunk>)
        requires
            old(self).wf(),
        ensures
            final(self).wf(),
            final(self).same_settings(old(self)),
            final(self).lod_to_update@ == old(self).lod_to_update@,
            rescan ==> final(self).last_camera_chunk == Some(cam),
            !rescan ==> final(self).last_camera_chunk == old(self).last_camera_chunk,
            r@.len() <= max_chunks_per_frame,
            rescan ==> exists|q: Seq<(i32, i32)>|
                #[trigger] old(self).spawn_queue_for(cam, q) && (final(self).to_spawn@, final(self).spawned(), r@)
                    == old(self).spawn_drain(q, old(self).spawned(), cam, max_chunks_per_frame as int),
            !rescan ==> (final(self).to_spawn@, final(self).spawned(), r@) == old(self).spawn_drain(
                old(self).to_spawn@,
                old(self).spawned(),
                cam,
                max_chunks_per_frame as int,
            ),
    {
        let ghost s0 = *self;
        if rescan {
            self.queue_spawns(cam);
            self.last_camera_chunk = Some(cam);
        }
        let ghost scanned = *self;
        let r = self.drain_spawn_queue(cam, max_chunks_per_frame);
        proof {
            lemma_spawn_drain_settings(&scanned, &s0, scanned.to_spawn@, s0.spawned(), cam, max_chunks_per_frame as int);
            if rescan {
                assert(s0.spawn_queue_for(cam, scanned.to_spawn@));
            }
        }
        r
    }

    /// The level-of-detail part of a frame: rebuilds the level-of-detail queue
    /// for `cam` when `rescan` is set, then starts rebuilds from its front, at
    /// most `max_chunks_per_frame` of them. Returns the rebuilt chunks.
    pub fn update_chunk_lod(&mut self, cam: (i32, i32), rescan: bool, max_chunks_per_frame: usize) -> (r: Vec<Chunk>)
        requires
            old(self).wf(),
        ensures
            final(self).wf(),
            final(self).same_settings(old(self)),
            final(self).to_spawn@ == old(self).to_spawn@,
            final(self).last_camera_chunk == old(self).last_camera_chunk,
            r@.len() <= max_chunks_per_frame,
            rescan ==> exists|q: Seq<(i32, i32)>|
                #[trigger] old(self).lod_queue_for(old(self).spawned(), cam, q) && (final(self).lod_to_update@, final(self).spawned(), r@)
                    == old(self).lod_drain(q, old(self).spawned(), cam, max_chunks_per_frame as int),
            !rescan ==> (final(self).lod_to_update@, final(self).spawned(), r@) == old(self).lod_drain(
                old(self).lod_to_update@,
                old(self).spawned(),
                cam,
                max_chunks_per_frame as int,
            ),
    {
        let ghost s0 = *self;
        if rescan {
            self.queue_lod_updates(cam);
        }
        let ghost scanned = *self;
        let r = self.drain_lod_queue(cam, max_chunks_per_frame);
        proof {
            lemma_lod_drain_settings(&scanned, &s0, scanned.lod_to_update@, s0.spawned(), cam, max_chunks_per_frame as int);
            if rescan {
                assert(s0.lod_queue_for(s0.spawned(), cam, scanned.lod_to_update@));
            }
        }
        r
    }

    /// `after` and `r` are what a frame leaves and hands out when it drains
    /// the spawn queue `to_spawn`, then the level-of-detail queue
    /// `lod_to_update`, starting from this registry, and then removes chunks
    /// beyond the despawn radius.
    pub open spec fn tick_outcome(
        &self,
        after: ChunkManager,
        r: TickWork,
        cam: (i32, i32),
        max_chunks_per_frame: int,
        to_spawn: Seq<(i32, i32)>,
        lod_to_update: Seq<(i32, i32)>,
    ) -> bool {
        let s = self.spawn_drain(to_spawn, self.spawned(), cam, max_chunks_per_frame);
        let l = self.lod_drain(lod_to_update, s.1, cam, max_chunks_per_frame);
        &&& r.spawned@ == s.2
        &&& after.to_spawn@ == s.0
        &&& r.rebuilt@ == l.2
        &&& after.lod_to_update@ == l.0
        &&& despawn_choice(l.1, cam, self.render_distance, max_chunks_per_frame, r.despawned@)
        &&& after.spawned() == l.1.remove_keys(r.despawned@.to_set())
    }

    /// One frame of chunk management for a viewpoint in chunk `cam`.
    ///
    /// When a rescan is due, the spawn queue is rebuilt and up to
    /// `max_chunks_per_frame` chunks are spawned from it; then the
    /// level-of-detail queue is rebuilt over the chunks now spawned and up to
    /// `max_chunks_per_frame` rebuilds are started from it; last, up to
    /// `2 * max_chunks_per_frame` chunks beyond the despawn radius are
    /// removed, farthest first. Without a rescan the queues are drained as
    /// they stand.
    pub fn tick(&mut self, cam: (i32, i32), settings_changed: bool, max_chunks_per_frame: usize) -> (r: TickWork)
        requires
            old(self).wf(),
        ensures
            final(self).wf(),
            final(self).same_settings(old(self)),
            final(self).last_camera_chunk == Some(cam),
            r.spawned@.len() <= max_chunks_per_frame,
            r.rebuilt@.len() <= max_chunks_per_frame,
            r.despawned@.len() <= 2 * max_chunks_per_frame,
            old(self).rescan_due(cam, settings_changed) ==> exists|to_spawn: Seq<(i32, i32)>, lod_to_update: Seq<(i32, i32)>|
                #[trigger] old(self).tick_outcome(*final(self), r, cam, max_chunks_per_frame as int, to_spawn, lod_to_update)
                    && old(self).spawn_queue_for(cam, to_spawn) && old(self).lod_queue_for(
                    old(self).spawn_drain(to_spawn, old(self).spawned(), cam, max_chunks_per_frame as int).1,
                    cam,
                    lod_to_update,
                ),
            !old(self).rescan_due(cam, settings_changed) ==> old(self).tick_outcome(
                *final(self),
                r,
                cam,
                max_chunks_per_frame as int,
                old(self).to_spawn@,
                old(self).lod_to_update@,
            ),
    {
        let ghost s0 = *self;
        let rescan = self.needs_rescan(cam, settings_changed);
        let ghost s1 = *self;
        let spawned = self.generate_chunks(cam, rescan, max_chunks_per_frame);
        let ghost s2 = *self;
        let rebuilt = self.update_chunk_lod(cam, rescan, max_chunks_per_frame);
        let ghost s3 = *self;
        let despawned = self.despawn_out_of_bounds_chunks(cam, max_chunks_per_frame);
        let r = TickWork { spawned, rebuilt, despawned };
        proof {
            let m = max_chunks_per_frame as int;
            let sq = if rescan {
                choose|q: Seq<(i32, i32)>| #[trigger] s1.spawn_queue_for(cam, q) && (s2.to_spawn@, s2.spawned(), spawned@)
                    == s1.spawn_drain(q, s1.spawned(), cam, m)
            } else {
                s0.to_spawn@
            };
            lemma_spawn_drain_settings(&s1, &s0, sq, s0.spawned(), cam, m);
            let lq = if rescan {
                choose|q: Seq<(i32, i32)>| #[trigger] s2.lod_queue_for(s2.spawned(), cam, q) && (s3.lod_to_update@, s3.spawned(), rebuilt@)
                    == s2.lod_drain(q, s2.spawned(), cam, m)
            } else {
                s0.lod_to_update@
            };
            lemma_lod_drain_settings(&s2, &s0, lq, s2.spawned(), cam, m);
            assert(s0.tick_outcome(*self, r, cam, m, sq, lq));
            if rescan {
                assert(s0.spawn_queue_for(cam, sq));
                assert(s0.lod_queue_for(s2.spawned(), cam, lq));
            }
        }
        r
    }

    /// Coordinates of the chunks whose mesh build is in flight, nearest to
    /// `cam` first: the order in which finished builds are collected.
    pub fn pending_builds(&self, cam: (i32, i32)) -> (r: Vec<(i32, i32)>)
        requires
            self.wf(),
        ensures
            nearest_first(r@, cam),
            forall|c: (i32, i32)| #[trigger] r@.contains(c) <==> (self.spawned().dom().contains(c) && self.spawned()[c].building),
    {
        let n = self.chunks.len();
        let mut out: Vec<(i32, i32)> = Vec::new();
        let mut i: usize = 0;
        while i < n
            invariant
                self.wf(),
                n == self.chunks@.len(),
                i <= n,
                nearest_first(out@, cam),
                forall|c: (i32, i32)| #[trigger] out@.contains(c) <==> exists|k: int|
                    0 <= k < i && coord(#[trigger] self.chunks@[k]) == c && self.spawned()[c].building,
            decreases n - i,
        {
            let ch = self.chunks[i];
            let c: (i32, i32) = (ch.x, ch.z);
            proof {
                lemma_chunk_map_index(self.chunks@, i as int);
            }
            let ghost before = out@;
            if ch.building {
                insert_nearest_first(&mut out, cam, c);
            }
            proof {
                assert forall|d: (i32, i32)| #[trigger] out@.contains(d) <==> exists|k: int|
                    0 <= k < i + 1 && coord(#[trigger] self.chunks@[k]) == d && self.spawned()[d].building by {
                    if exists|k: int| 0 <= k < i + 1 && coord(#[trigger] self.chunks@[k]) == d && self.spawned()[d].building {
                        let k = choose|k: int| 0 <= k < i + 1 && coord(#[trigger] self.chunks@[k]) == d && self.spawned()[d].building;
                        if k < i {
                            assert(before.contains(d));
                        }
                    }
                    if before.contains(d) {
                        let k = choose|k: int| 0 <= k < i && coord(#[trigger] self.chunks@[k]) == d && self.spawned()[d].building;
                        assert(0 <= k < i + 1);
                    }
                }
            }
            i += 1;
        }
        proof {
            assert forall|c: (i32, i32)| #[trigger] out@.contains(c) <==> (self.spawned().dom().contains(c) && self.spawned()[c].building) by {
                lemma_chunk_map_dom(self.chunks@, c);
                if self.spawned().dom().contains(c) && self.spawned()[c].building {
                    let k = choose|k: int| 0 <= k < self.chunks@.len() && coord(#[trigger] self.chunks@[k]) == c;
                    assert(0 <= k < i);
                }
                if out@.contains(c) {
                    let k = choose|k: int| 0 <= k < i && coord(#[trigger] self.chunks@[k]) == c && self.spawned()[c].building;
                    assert(coord(self.chunks@[k]) == c);
                }
            }
        }
        out
    }
}

/// The ready entries of `order` from index `i` on, in order, at most
/// `budget` of them; `ready[k]` tells whether the build of `order[k]` has
/// finished, and a missing flag counts as not finished.
pub open spec fn ready_from(order: Seq<(i32, i32)>, ready: Seq<bool>, i: int, budget: int) -> Seq<(i32, i32)>
    decreases order.len() - i,
{
    if budget <= 0 || i >= order.len() || i < 0 {
        seq![]
    } else if i < ready.len() && ready[i] {
        seq![order[i]] + ready_from(order, ready, i + 1, budget - 1)
    } else {
        ready_from(order, ready, i + 1, budget)
    }
}

/// The finished builds to collect this frame: walking `order` (the pending
/// builds, nearest first), the first `max_chunks_per_frame` whose flag in
/// `ready` is set.
pub fn builds_to_collect(order: &Vec<(i32, i32)>, ready: &Vec<bool>, max_chunks_per_frame: usize) -> (r: Vec<(i32, i32)>)
    ensures
        r@ == ready_from(order@, ready@, 0, max_chunks_per_frame as int),
        r@.len() <= max_chunks_per_frame,
{
    let n = order.len();
    let mut out: Vec<(i32, i32)> = Vec::new();
    let mut i: usize = 0;
    proof {
        assert(out@ + ready_from(order@, ready@, 0, max_chunks_per_frame as int) =~= ready_from(
            order@,
            ready@,
            0,
            max_chunks_per_frame as int,
        ));
    }
    while out.len() < max_chunks_per_frame && i < n
        invariant
            n == order@.len(),
            i <= n,
            out@.len() <= max_chunks_per_frame,
            ready_from(order@, ready@, 0, max_chunks_per_frame as int) == out@ + ready_from(
                order@,
                ready@,
                i as int,
                max_chunks_per_frame - out@.len(),
            ),
        decreases n - i,
    {
        if i < ready.len() && ready[i] {
            let ghost before = out@;
            out.push(order[i]);
            proof {
                let rest = ready_from(order@, ready@, i + 1, max_chunks_per_frame - out@.len());
                assert(before + (seq![order@[i as int]] + rest) =~= out@ + rest);
            }
        }
        i += 1;
    }
    proof {
        let rest = ready_from(order@, ready@, i as int, max_chunks_per_frame - out@.len());
        assert(rest =~= Seq::<(i32, i32)>::empty());
        assert(out@ + rest =~= out@);
    }
    out
}

/// Whether `c` occurs in `v`.
fn contains_coord(v: &Vec<(i32, i32)>, c: (i32, i32)) -> (r: bool)
    ensures
        r == v@.contains(c),
{
    let n = v.len();
    let mut i: usize = 0;
    while i < n
        invariant
            n == v@.len(),
            i <= n,
            forall|k: int| 0 <= k < i ==> #[trigger] v@[k] != c,
        decreases n - i,
    {
        if v[i].0 == c.0 && v[i].1 == c.1 {
            assert(v@[i as int] == c);
            return true;
        }
        i += 1;
    }
    false
}

/// A spawn drain depends on the registry only through its settings.
proof fn lemma_spawn_drain_settings(
    a: &ChunkManager,
    b: &ChunkManager,
    queue: Seq<(i32, i32)>,
    spawned: Map<(i32, i32), Chunk>,
    cam: (i32, i32),
    budget: int,
)
    requires
        a.same_settings(b),
    ensures
        a.spawn_drain(queue, spawned, cam, budget) == b.spawn_drain(queue, spawned, cam, budget),
    decreases queue.len(),
{
    if budget > 0 && queue.len() > 0 {
        let c = queue[0];
        assert(a.new_chunk(c, cam) == b.new_chunk(c, cam));
        lemma_spawn_drain_settings(a, b, queue.drop_first(), spawned.insert(c, a.new_chunk(c, cam)), cam, budget - 1);
        lemma_spawn_drain_settings(a, b, queue.drop_first(), spawned, cam, budget);
    }
}

/// A level-of-detail drain depends on the registry only through its settings.
proof fn lemma_lod_drain_settings(
    a: &ChunkManager,
    b: &ChunkManager,
    queue: Seq<(i32, i32)>,
    spawned: Map<(i32, i32), Chunk>,
    cam: (i32, i32),
    budget: int,
)
    requires
        a.same_settings(b),
    ensures
        a.lod_drain(queue, spawned, cam, budget) == b.lod_drain(queue, spawned, cam, budget),
    decreases queue.len(),
{
    if budget > 0 && queue.len() > 0 {
        let c = queue[0];
        if spawned.dom().contains(c) {
            assert(a.relod_chunk(spawned[c], cam) == b.relod_chunk(spawned[c], cam));
            lemma_lod_drain_settings(a, b, queue.drop_first(), spawned.insert(c, a.relod_chunk(spawned[c], cam)), cam, budget - 1);
        }
        lemma_lod_drain_settings(a, b, queue.drop_first(), spawned, cam, budget);
    }
}

} // verus!
