use vstd::prelude::*;

use crate::lod::{dist_sq, distance_sq};

verus! {

/// `a` comes before `b` in nearest-first order around `cam`: by squared
/// distance, then by `x`, then by `z`, so that distinct coordinates are
/// never tied.
pub open spec fn nearer(cam: (i32, i32), a: (i32, i32), b: (i32, i32)) -> bool {
    let da = dist_sq(a, cam);
    let db = dist_sq(b, cam);
    da < db || (da == db && (a.0 < b.0 || (a.0 == b.0 && a.1 < b.1)))
}

/// Every coordinate of `s` is strictly nearer to `cam` than every later one.
pub open spec fn nearest_first(s: Seq<(i32, i32)>, cam: (i32, i32)) -> bool {
    forall|i: int, j: int| 0 <= i < j < s.len() ==> nearer(cam, #[trigger] s[i], #[trigger] s[j])
}

/// Every coordinate of `s` is strictly farther from `cam` than every later one.
pub open spec fn farthest_first(s: Seq<(i32, i32)>, cam: (i32, i32)) -> bool {
    forall|i: int, j: int| 0 <= i < j < s.len() ==> nearer(cam, #[trigger] s[j], #[trigger] s[i])
}

/// `nearer` is transitive.
proof fn lemma_nearer_transitive(cam: (i32, i32), a: (i32, i32), b: (i32, i32), c: (i32, i32))
    requires
        nearer(cam, a, b),
        nearer(cam, b, c),
    ensures
        nearer(cam, a, c),
{
}

/// `nearer` is a strict total order.
proof fn lemma_nearer_total(cam: (i32, i32), a: (i32, i32), b: (i32, i32))
    ensures
        a == b || nearer(cam, a, b) || nearer(cam, b, a),
        !(nearer(cam, a, b) && nearer(cam, b, a)),
        !nearer(cam, a, a),
{
}

/// Decides `nearer`.
pub fn is_nearer(cam: (i32, i32), a: (i32, i32), b: (i32, i32)) -> (r: bool)
    ensures
        r == nearer(cam, a, b),
{
    let da = distance_sq(a, cam);
    let db = distance_sq(b, cam);
    da < db || (da == db && (a.0 < b.0 || (a.0 == b.0 && a.1 < b.1)))
}

/// Adds `c` to a nearest-first list, at its place; a coordinate already
/// present is not added twice.
pub fn insert_nearest_first(v: &mut Vec<(i32, i32)>, cam: (i32, i32), c: (i32, i32))
    requires
        nearest_first(old(v)@, cam),
    ensures
        nearest_first(final(v)@, cam),
        forall|d: (i32, i32)| #[trigger] final(v)@.contains(d) <==> (old(v)@.contains(d) || d == c),
        final(v)@.len() <= old(v)@.len() + 1,
{
    let n = v.len();
    let mut p: usize = 0;
    let mut hi: usize = n;
    while p < hi
        invariant
            n == v@.len(),
            p <= hi <= n,
            nearest_first(v@, cam),
            forall|k: int| 0 <= k < p ==> nearer(cam, #[trigger] v@[k], c),
            forall|k: int| hi <= k < n ==> !nearer(cam, #[trigger] v@[k], c),
        decreases hi - p,
    {
        let mid = p + (hi - p) / 2;
        if is_nearer(cam, v[mid], c) {
            proof {
                assert forall|k: int| 0 <= k <= mid implies nearer(cam, #[trigger] v@[k], c) by {
                    if k < mid {
                        lemma_nearer_transitive(cam, v@[k], v@[mid as int], c);
                    }
                }
            }
            p = mid + 1;
        } else {
            proof {
                assert forall|k: int| mid <= k < n implies !nearer(cam, #[trigger] v@[k], c) by {
                    if k > mid && nearer(cam, v@[k], c) {
                        lemma_nearer_transitive(cam, v@[mid as int], v@[k], c);
                    }
                }
            }
            hi = mid;
        }
    }
    if p < n && v[p].0 == c.0 && v[p].1 == c.1 {
        assert(v@[p as int] == c);
        return;
    }
    proof {
        if p < n {
            lemma_nearer_total(cam, v@[p as int], c);
        }
    }
    let ghost before = v@;
    v.insert(p, c);
    proof {
        assert forall|i: int, j: int| 0 <= i < j < v@.len() implies nearer(cam, #[trigger] v@[i], #[trigger] v@[j]) by {
            if j < p {
            } else if j == p {
            } else if i < p {
                assert(v@[j] == before[j - 1]);
                if p < before.len() {
                    if j - 1 > p {
                        assert(nearer(cam, before[p as int], before[j - 1]));
                    }
                    lemma_nearer_transitive(cam, v@[i], c, before[p as int]);
                    if j - 1 > p {
                        lemma_nearer_transitive(cam, v@[i], before[p as int], before[j - 1]);
                    }
                }
            } else if i == p {
                assert(v@[j] == before[j - 1]);
                if j - 1 > p {
                    assert(nearer(cam, before[p as int], before[j - 1]));
                    lemma_nearer_transitive(cam, c, before[p as int], before[j - 1]);
                }
            } else {
                assert(v@[i] == before[i - 1]);
                assert(v@[j] == before[j - 1]);
            }
        }
        assert forall|d: (i32, i32)| #[trigger] v@.contains(d) <==> (before.contains(d) || d == c) by {
            if v@.contains(d) {
                let k = choose|k: int| 0 <= k < v@.len() && v@[k] == d;
                if k < p {
                    assert(before[k] == d);
                } else if k > p {
                    assert(before[k - 1] == d);
                }
            }
            if before.contains(d) {
                let k = choose|k: int| 0 <= k < before.len() && before[k] == d;
                if k < p {
                    assert(v@[k] == d);
                } else {
                    assert(v@[k + 1] == d);
                }
            }
            if d == c {
                assert(v@[p as int] == c);
            }
        }
    }
}

} // verus!
