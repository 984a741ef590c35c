use vstd::prelude::*;

use crate::lod::dist_sq;

verus! {

/// A spawned terrain chunk.
#[derive(Clone, Copy, Debug, PartialEq, Eq, Structural)]
pub struct Chunk {
    pub x: i32,
    pub z: i32,
    pub current_lod: u32,
    /// A mesh build for this chunk is in flight.
    pub building: bool,
}

/// Grid coordinates of a chunk.
pub open spec fn coord(ch: Chunk) -> (i32, i32) {
    (ch.x, ch.z)
}

/// The chunks of `s`, keyed by their coordinates.
pub open spec fn chunk_map(s: Seq<Chunk>) -> Map<(i32, i32), Chunk>
    decreases s.len(),
{
    if s.len() == 0 {
        Map::empty()
    } else {
        chunk_map(s.drop_last()).insert(coord(s.last()), s.last())
    }
}

/// No two chunks of `s` share coordinates.
pub open spec fn distinct_coords(s: Seq<Chunk>) -> bool {
    forall|i: int, j: int| 0 <= i < j < s.len() ==> coord(#[trigger] s[i]) != coord(#[trigger] s[j])
}

/// A chunk at coordinates `c` lies within `render_distance` of `cam`
/// (a circle, by squared distance).
pub open spec fn in_range(c: (i32, i32), cam: (i32, i32), render_distance: u32) -> bool {
    dist_sq(c, cam) <= render_distance * render_distance
}

/// A chunk at coordinates `c` lies beyond the despawn radius, one chunk
/// outside `render_distance`.
pub open spec fn beyond_margin(c: (i32, i32), cam: (i32, i32), render_distance: u32) -> bool {
    dist_sq(c, cam) > (render_distance + 1) * (render_distance + 1)
}

/// A coordinate is a key of the map exactly when some chunk of `s` has it.
pub(crate) proof fn lemma_chunk_map_dom(s: Seq<Chunk>, c: (i32, i32))
    ensures
        chunk_map(s).dom().contains(c) <==> exists|i: int| 0 <= i < s.len() && coord(#[trigger] s[i]) == c,
    decreases s.len(),
{
    if s.len() > 0 {
        lemma_chunk_map_dom(s.drop_last(), c);
        if chunk_map(s).dom().contains(c) {
            if coord(s.last()) == c {
                assert(coord(s[s.len() - 1]) == c);
            } else {
                let i = choose|i: int| 0 <= i < s.drop_last().len() && coord(#[trigger] s.drop_last()[i]) == c;
                assert(coord(s[i]) == c);
            }
        }
        if exists|i: int| 0 <= i < s.len() && coord(#[trigger] s[i]) == c {
            let i = choose|i: int| 0 <= i < s.len() && coord(#[trigger] s[i]) == c;
            if i < s.len() - 1 {
                assert(coord(s.drop_last()[i]) == c);
            }
        }
    }
}

/// With distinct coordinates, the map gives back each chunk of `s`.
pub(crate) proof fn lemma_chunk_map_index(s: Seq<Chunk>, i: int)
    requires
        distinct_coords(s),
        0 <= i < s.len(),
    ensures
        chunk_map(s).dom().contains(coord(s[i])),
        chunk_map(s)[coord(s[i])] == s[i],
    decreases s.len(),
{
    if i < s.len() - 1 {
        assert(coord(s[i]) != coord(s[s.len() - 1]));
        assert(s.drop_last()[i] == s[i]);
        lemma_chunk_map_index(s.drop_last(), i);
    }
}

/// Replacing a chunk by one at the same coordinates replaces its map entry.
pub(crate) proof fn lemma_chunk_map_update(s: Seq<Chunk>, i: int, v: Chunk)
    requires
        distinct_coords(s),
        0 <= i < s.len(),
        coord(v) == coord(s[i]),
    ensures
        chunk_map(s.update(i, v)) == chunk_map(s).insert(coord(v), v),
    decreases s.len(),
{
    let t = s.update(i, v);
    if i == s.len() - 1 {
        assert(t.drop_last() =~= s.drop_last());
        assert(chunk_map(t) =~= chunk_map(s).insert(coord(v), v));
    } else {
        assert(t.drop_last() =~= s.drop_last().update(i, v));
        lemma_chunk_map_update(s.drop_last(), i, v);
        assert(coord(s[s.len() - 1]) != coord(s[i]));
        assert(chunk_map(t) =~= chunk_map(s).insert(coord(v), v));
    }
}

/// With distinct coordinates, the map has one key per chunk.
pub(crate) proof fn lemma_chunk_map_len(s: Seq<Chunk>)
    requires
        distinct_coords(s),
    ensures
        chunk_map(s).dom().finite(),
        chunk_map(s).dom().len() == s.len(),
    decreases s.len(),
{
    if s.len() > 0 {
        let d = s.drop_last();
        assert(distinct_coords(d)) by {
            assert forall|i: int, j: int| 0 <= i < j < d.len() implies coord(#[trigger] d[i]) != coord(#[trigger] d[j]) by {
                assert(d[i] == s[i] && d[j] == s[j]);
            }
        }
        lemma_chunk_map_len(d);
        lemma_chunk_map_dom(d, coord(s.last()));
        if chunk_map(d).dom().contains(coord(s.last())) {
            let i = choose|i: int| 0 <= i < d.len() && coord(#[trigger] d[i]) == coord(s.last());
            assert(coord(s[i]) != coord(s[s.len() - 1]));
        }
    }
}

/// Appending a chunk adds its map entry.
pub(crate) proof fn lemma_chunk_map_push(s: Seq<Chunk>, v: Chunk)
    ensures
        chunk_map(s.push(v)) == chunk_map(s).insert(coord(v), v),
{
    assert(s.push(v).drop_last() =~= s);
}

/// Despawning waits for one chunk of margin beyond the render distance: a
/// chunk within range of the viewpoint stays out of the despawn radius when
/// the viewpoint's chunk moves by one step along an axis (or not at all).
pub proof fn hysteresis(c: (i32, i32), cam: (i32, i32), next_cam: (i32, i32), render_distance: u32)
    requires
        in_range(c, cam, render_distance),
        dist_sq(cam, next_cam) <= 1,
    ensures
        !beyond_margin(c, next_cam, render_distance),
{
    let r = render_distance as int;
    let a = c.0 - cam.0;
    let b = c.1 - cam.1;
    let e = cam.0 - next_cam.0;
    let f = cam.1 - next_cam.1;
    lemma_square_bound(a, b, r);
    lemma_square_bound(b, a, r);
    lemma_unit_step(e, f);
    assert((a + e) * (a + e) + (b + f) * (b + f) <= (r + 1) * (r + 1)) by (nonlinear_arith)
        requires
            a * a + b * b <= r * r,
            -r <= a <= r,
            -r <= b <= r,
            (e == 0 && f == 0) || (e * e == 1 && f == 0) || (e == 0 && f * f == 1),
            -1 <= e <= 1,
            -1 <= f <= 1,
    ;
}

/// An integer step of length at most one moves along one axis at most.
proof fn lemma_unit_step(e: int, f: int)
    requires
        e * e + f * f <= 1,
    ensures
        -1 <= e <= 1,
        -1 <= f <= 1,
        (e == 0 && f == 0) || (e * e == 1 && f == 0) || (e == 0 && f * f == 1),
{
    assert(e * e >= 0 && f * f >= 0) by (nonlinear_arith);
    assert(-1 <= e <= 1) by (nonlinear_arith)
        requires
            e * e <= 1,
    ;
    assert(-1 <= f <= 1) by (nonlinear_arith)
        requires
            f * f <= 1,
    ;
    assert(e * e == if e == 0 { 0int } else { 1int }) by (nonlinear_arith)
        requires
            -1 <= e <= 1,
    ;
    assert(f * f == if f == 0 { 0int } else { 1int }) by (nonlinear_arith)
        requires
            -1 <= f <= 1,
    ;
}

/// A coordinate difference within a circle of radius `r` is within `r`.
pub(crate) proof fn lemma_square_bound(a: int, b: int, r: int)
    requires
        r >= 0,
        a * a + b * b <= r * r,
    ensures
        -r <= a <= r,
{
    assert(b * b >= 0) by (nonlinear_arith);
    assert(-r <= a <= r) by (nonlinear_arith)
        requires
            r >= 0,
            a * a <= r * r,
    ;
}

} // verus!
