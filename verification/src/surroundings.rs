//! The per-observer surroundings loader: which region keys should be loaded
//! or unloaded when the observer's anchor cell changes, with the level of
//! detail assigned by distance shell and loads emitted closest-first.

use vstd::prelude::*;
use crate::region::{Position, Region, spec_chebyshev, chebyshev, box_cells};

verus! {

/// Largest load radius an observer may use.
pub const MAX_LOAD_RADIUS: u64 = 4096;

/// Anchors stay well inside the coordinate space so that a radius around
/// them never leaves the grid.
pub open spec fn in_world(p: Position) -> bool {
    &&& -0x4000_0000 <= p.x <= 0x4000_0000
    &&& -0x4000_0000 <= p.y <= 0x4000_0000
    &&& -0x4000_0000 <= p.z <= 0x4000_0000
}

/// The level of detail assigned to a region at Chebyshev distance `d` from
/// an observer's anchor; larger means coarser, non-decreasing in `d`.
pub open spec fn spec_lod_index(d: int) -> u8 {
    if d <= 1 {
        0
    } else if d <= 4 {
        1
    } else if d <= 16 {
        2
    } else {
        3
    }
}

pub fn lod_index(d: u64) -> (l: u8)
    ensures
        l == spec_lod_index(d as int),
{
    if d <= 1 {
        0
    } else if d <= 4 {
        1
    } else if d <= 16 {
        2
    } else {
        3
    }
}

/// What an observer anchored at `anchor` with load radius `radius` wants of
/// cell `p`: the LOD it should be resident at, or nothing when out of range.
pub open spec fn desired_lod(anchor: Position, radius: u64, p: Position) -> Option<u8> {
    if spec_chebyshev(anchor, p) <= radius {
        Some(spec_lod_index(spec_chebyshev(anchor, p)))
    } else {
        None
    }
}

/// A load must be emitted for region `r` when the observer moves from
/// anchor `o` to anchor `n`: the new anchor wants `r.pos` at exactly
/// `r.lod`, and the old anchor did not.
pub open spec fn load_needed(o: Position, n: Position, radius: u64, r: Region) -> bool {
    desired_lod(n, radius, r.pos) == Some(r.lod) && desired_lod(o, radius, r.pos) != Some(r.lod)
}

/// An unload must be emitted for cell `p` when the observer moves from
/// anchor `o` to anchor `n`: the old anchor wanted `p`, the new one does not.
pub open spec fn unload_needed(o: Position, n: Position, radius: u64, p: Position) -> bool {
    desired_lod(o, radius, p) is Some && desired_lod(n, radius, p) is None
}

fn grid_corner(anchor: Position, radius: u64, sign_positive: bool) -> (c: Position)
    requires
        in_world(anchor),
        radius <= MAX_LOAD_RADIUS,
    ensures
        sign_positive ==> (c.x == anchor.x + radius && c.y == anchor.y + radius && c.z == anchor.z
            + radius),
        !sign_positive ==> (c.x == anchor.x - radius && c.y == anchor.y - radius && c.z == anchor.z
            - radius),
{
    let r = radius as i64;
    if sign_positive {
        Position {
            x: (anchor.x as i64 + r) as i32,
            y: (anchor.y as i64 + r) as i32,
            z: (anchor.z as i64 + r) as i32,
        }
    } else {
        Position {
            x: (anchor.x as i64 - r) as i32,
            y: (anchor.y as i64 - r) as i32,
            z: (anchor.z as i64 - r) as i32,
        }
    }
}

/// The loads and unloads an observer must emit when its anchor moves from
/// `o` to `n`: loads are exactly the cells the new anchor wants at a LOD the
/// old anchor did not provide, in distance order (closest first); unloads
/// are exactly the cells only the old anchor wanted. No cell appears in
/// both lists.
pub fn surroundings_diff(o: Position, n: Position, radius: u64) -> (res: (
    Vec<Region>,
    Vec<Position>,
))
    requires
        in_world(o),
        in_world(n),
        radius <= MAX_LOAD_RADIUS,
    ensures
        forall|r: Region| res.0@.contains(r) <==> load_needed(o, n, radius, r),
        forall|i: int, j: int|
            0 <= i <= j < res.0@.len() ==> spec_chebyshev(n, (#[trigger] res.0@[i]).pos)
                <= spec_chebyshev(n, (#[trigger] res.0@[j]).pos),
        forall|i: int, j: int| 0 <= i < j < res.0@.len() ==> res.0@[i] != res.0@[j],
        forall|p: Position| res.1@.contains(p) <==> unload_needed(o, n, radius, p),
        forall|i: int, j: int| 0 <= i < j < res.1@.len() ==> res.1@[i] != res.1@[j],
{
    let new_cube = box_cells(grid_corner(n, radius, false), grid_corner(n, radius, true));
    proof {
        assert forall|p: Position| new_cube@.contains(p) implies spec_chebyshev(n, p)
            <= radius by {}
        assert forall|p: Position| spec_chebyshev(n, p) <= radius implies new_cube@.contains(
            p,
        ) by {}
    }
    let mut loads: Vec<Region> = Vec::new();
    let cn = new_cube.len();
    let mut d: u64 = 0;
    while d <= radius
        invariant
            radius <= MAX_LOAD_RADIUS,
            0 <= d <= radius + 1,
            cn == new_cube@.len(),
            forall|p: Position| new_cube@.contains(p) <==> spec_chebyshev(n, p) <= radius,
            forall|i: int, j: int| 0 <= i < j < cn ==> new_cube@[i] != new_cube@[j],
            forall|r: Region|
                loads@.contains(r) <==> (load_needed(o, n, radius, r) && spec_chebyshev(n, r.pos)
                    < d),
            forall|i: int|
                0 <= i < loads@.len() ==> spec_chebyshev(n, (#[trigger] loads@[i]).pos) < d,
            forall|i: int, j: int|
                0 <= i <= j < loads@.len() ==> spec_chebyshev(n, (#[trigger] loads@[i]).pos)
                    <= spec_chebyshev(n, (#[trigger] loads@[j]).pos),
            forall|i: int, j: int| 0 <= i < j < loads@.len() ==> loads@[i] != loads@[j],
        decreases radius + 1 - d,
    {
        let l = lod_index(d);
        let mut k: usize = 0;
        while k < cn
            invariant
                radius <= MAX_LOAD_RADIUS,
                0 <= d <= radius,
                l == spec_lod_index(d as int),
                cn == new_cube@.len(),
                0 <= k <= cn,
                forall|p: Position| new_cube@.contains(p) <==> spec_chebyshev(n, p) <= radius,
                forall|i: int, j: int| 0 <= i < j < cn ==> new_cube@[i] != new_cube@[j],
                forall|r: Region|
                    loads@.contains(r) <==> (load_needed(o, n, radius, r) && (spec_chebyshev(
                        n,
                        r.pos,
                    ) < d || (spec_chebyshev(n, r.pos) == d && exists|i: int|
                        0 <= i < k && (#[trigger] new_cube@[i]) == r.pos))),
                forall|i: int|
                    0 <= i < loads@.len() ==> spec_chebyshev(n, (#[trigger] loads@[i]).pos) <= d,
                forall|i: int, j: int|
                    0 <= i <= j < loads@.len() ==> spec_chebyshev(n, (#[trigger] loads@[i]).pos)
                        <= spec_chebyshev(n, (#[trigger] loads@[j]).pos),
                forall|i: int, j: int| 0 <= i < j < loads@.len() ==> loads@[i] != loads@[j],
            decreases cn - k,
        {
            let p = new_cube[k];
            let dn = chebyshev(n, p);
            if dn == d {
                let dold = chebyshev(o, p);
                let wanted_before = dold <= radius && lod_index(dold) == l;
                if !wanted_before {
                    let r = Region { pos: p, lod: l };
                    proof {
                        assert(!loads@.contains(r));
                    }
                    let ghost before = loads@;
                    loads.push(r);
                    proof {
                        lemma_push_contains(before, loads@, r);
                        assert forall|r2: Region| loads@.contains(r2) implies (load_needed(
                            o,
                            n,
                            radius,
                            r2,
                        ) && (spec_chebyshev(n, r2.pos) < d || (spec_chebyshev(n, r2.pos) == d
                            && exists|i: int|
                            0 <= i < k + 1 && (#[trigger] new_cube@[i]) == r2.pos))) by {
                            if r2 == r {
                                assert(new_cube@[k as int] == r2.pos);
                            } else {
                                assert(before.contains(r2));
                                if spec_chebyshev(n, r2.pos) == d {
                                    let i = choose|i: int|
                                        0 <= i < k && (#[trigger] new_cube@[i]) == r2.pos;
                                    assert(new_cube@[i] == r2.pos);
                                }
                            }
                        }
                        assert forall|r2: Region| (load_needed(o, n, radius, r2) && (
                        spec_chebyshev(n, r2.pos) < d || (spec_chebyshev(n, r2.pos) == d && exists|
                            i: int,
                        | 0 <= i < k + 1 && (#[trigger] new_cube@[i]) == r2.pos))) implies loads@
                            .contains(r2) by {
                            if r2 != r {
                                assert(before.contains(r2)) by {
                                    if spec_chebyshev(n, r2.pos) == d {
                                        let i = choose|i: int|
                                            0 <= i < k + 1 && (#[trigger] new_cube@[i]) == r2.pos;
                                        if i == k {
                                            assert(r2.pos == p);
                                            assert(r2.lod == l);
                                            assert(false);
                                        }
                                    }
                                }
                            }
                        }
                        assert forall|i: int, j: int|
                            0 <= i < j < loads@.len() implies loads@[i] != loads@[j] by {
                            if j == loads@.len() - 1 {
                                assert(before.contains(before[i]));
                            }
                        }
                    }
                } else {
                    proof {
                        assert forall|r2: Region| (load_needed(o, n, radius, r2) && (
                        spec_chebyshev(n, r2.pos) < d || (spec_chebyshev(n, r2.pos) == d && exists|
                            i: int,
                        | 0 <= i < k + 1 && (#[trigger] new_cube@[i]) == r2.pos))) implies loads@
                            .contains(r2) by {
                            if spec_chebyshev(n, r2.pos) == d && !(exists|i: int|
                                0 <= i < k && (#[trigger] new_cube@[i]) == r2.pos) {
                                let i = choose|i: int|
                                    0 <= i < k + 1 && (#[trigger] new_cube@[i]) == r2.pos;
                                assert(i == k && r2.pos == p);
                                assert(r2.lod == spec_lod_index(d as int));
                                assert(false);
                            }
                        }
                    }
                }
            } else {
                proof {
                    assert forall|r2: Region| (load_needed(o, n, radius, r2) && (spec_chebyshev(
                        n,
                        r2.pos,
                    ) < d || (spec_chebyshev(n, r2.pos) == d && exists|i: int|
                        0 <= i < k + 1 && (#[trigger] new_cube@[i]) == r2.pos))) implies loads@
                        .contains(r2) by {
                        if spec_chebyshev(n, r2.pos) == d && !(exists|i: int|
                            0 <= i < k && (#[trigger] new_cube@[i]) == r2.pos) {
                            let i = choose|i: int|
                                0 <= i < k + 1 && (#[trigger] new_cube@[i]) == r2.pos;
                            assert(i == k && r2.pos == p);
                            assert(false);
                        }
                    }
                }
            }
            k = k + 1;
        }
        proof {
            assert forall|r2: Region| (load_needed(o, n, radius, r2) && spec_chebyshev(n, r2.pos)
                < d + 1) implies loads@.contains(r2) by {
                if spec_chebyshev(n, r2.pos) == d {
                    assert(new_cube@.contains(r2.pos));
                    let i = choose|i: int| 0 <= i < cn && (#[trigger] new_cube@[i]) == r2.pos;
                }
            }
        }
        d = d + 1;
    }
    let old_cube = box_cells(grid_corner(o, radius, false), grid_corner(o, radius, true));
    proof {
        assert forall|p: Position| old_cube@.contains(p) implies spec_chebyshev(o, p)
            <= radius by {}
        assert forall|p: Position| spec_chebyshev(o, p) <= radius implies old_cube@.contains(
            p,
        ) by {}
    }
    let mut unloads: Vec<Position> = Vec::new();
    let co = old_cube.len();
    let mut k: usize = 0;
    while k < co
        invariant
            co == old_cube@.len(),
            0 <= k <= co,
            forall|p: Position| old_cube@.contains(p) <==> spec_chebyshev(o, p) <= radius,
            forall|i: int, j: int| 0 <= i < j < co ==> old_cube@[i] != old_cube@[j],
            forall|p: Position|
                unloads@.contains(p) <==> (unload_needed(o, n, radius, p) && exists|i: int|
                    0 <= i < k && (#[trigger] old_cube@[i]) == p),
            forall|i: int, j: int| 0 <= i < j < unloads@.len() ==> unloads@[i] != unloads@[j],
        decreases co - k,
    {
        let p = old_cube[k];
        let keep = chebyshev(n, p) <= radius;
        if !keep {
            proof {
                assert(spec_chebyshev(o, p) <= radius) by {
                    assert(old_cube@.contains(old_cube@[k as int]));
                }
                assert(!unloads@.contains(p));
            }
            let ghost before = unloads@;
            unloads.push(p);
            proof {
                lemma_push_contains_pos(before, unloads@, p);
                assert forall|q: Position| (unload_needed(o, n, radius, q) && exists|i: int|
                    0 <= i < k + 1 && (#[trigger] old_cube@[i]) == q) implies unloads@.contains(
                    q,
                ) by {
                    if q != p {
                        let i = choose|i: int| 0 <= i < k + 1 && (#[trigger] old_cube@[i]) == q;
                        assert(i < k);
                    }
                }
                assert forall|q: Position| unloads@.contains(q) implies (unload_needed(
                    o,
                    n,
                    radius,
                    q,
                ) && exists|i: int| 0 <= i < k + 1 && (#[trigger] old_cube@[i]) == q) by {
                    if q == p {
                        assert(old_cube@[k as int] == q);
                    } else {
                        assert(before.contains(q));
                        let i = choose|i: int| 0 <= i < k && (#[trigger] old_cube@[i]) == q;
                        assert(old_cube@[i] == q);
                    }
                }
                assert forall|i: int, j: int|
                    0 <= i < j < unloads@.len() implies unloads@[i] != unloads@[j] by {
                    if j == unloads@.len() - 1 {
                        assert(before.contains(before[i]));
                    }
                }
            }
        } else {
            proof {
                assert forall|q: Position| (unload_needed(o, n, radius, q) && exists|i: int|
                    0 <= i < k + 1 && (#[trigger] old_cube@[i]) == q) implies unloads@.contains(
                    q,
                ) by {
                    let i = choose|i: int| 0 <= i < k + 1 && (#[trigger] old_cube@[i]) == q;
                    if i == k {
                        assert(q == p);
                        assert(false);
                    }
                }
            }
        }
        k = k + 1;
    }
    proof {
        assert forall|p: Position| unload_needed(o, n, radius, p) implies unloads@.contains(p) by {
            assert(old_cube@.contains(p));
            let i = choose|i: int| 0 <= i < co && (#[trigger] old_cube@[i]) == p;
        }
    }
    (loads, unloads)
}

proof fn lemma_push_contains(before: Seq<Region>, after: Seq<Region>, r: Region)
    requires
        after == before.push(r),
    ensures
        after.contains(r),
        forall|q: Region| before.contains(q) ==> after.contains(q),
        forall|q: Region| after.contains(q) ==> before.contains(q) || q == r,
{
    assert(after[after.len() - 1] == r);
    assert forall|q: Region| before.contains(q) implies after.contains(q) by {
        let i = choose|i: int| 0 <= i < before.len() && before[i] == q;
        assert(after[i] == q);
    }
    assert forall|q: Region| after.contains(q) implies before.contains(q) || q == r by {
        if q != r {
            let i = choose|i: int| 0 <= i < after.len() && after[i] == q;
            assert(before[i] == q);
        }
    }
}

proof fn lemma_push_contains_pos(before: Seq<Position>, after: Seq<Position>, p: Position)
    requires
        after == before.push(p),
    ensures
        after.contains(p),
        forall|q: Position| before.contains(q) ==> after.contains(q),
        forall|q: Position| after.contains(q) ==> before.contains(q) || q == p,
{
    assert(after[after.len() - 1] == p);
    assert forall|q: Position| before.contains(q) implies after.contains(q) by {
        let i = choose|i: int| 0 <= i < before.len() && before[i] == q;
        assert(after[i] == q);
    }
    assert forall|q: Position| after.contains(q) implies before.contains(q) || q == p by {
        if q != p {
            let i = choose|i: int| 0 <= i < after.len() && after[i] == q;
            assert(before[i] == q);
        }
    }
}

/// An observer's surroundings loader: remembers the last anchor cell and,
/// on each move, emits the loads and unloads that bring the resident window
/// up to date.
pub struct SurroundingsLoader {
    pub anchor: Position,
    pub radius: u64,
}

impl SurroundingsLoader {
    pub open spec fn wf(self) -> bool {
        in_world(self.anchor) && self.radius <= MAX_LOAD_RADIUS
    }

    pub fn new(anchor: Position, radius: u64) -> (s: Self)
        requires
            in_world(anchor),
            radius <= MAX_LOAD_RADIUS,
        ensures
            s.wf(),
            s.anchor == anchor,
            s.radius == radius,
    {
        SurroundingsLoader { anchor, radius }
    }

    /// Moves the observer to `new_anchor` and returns the loads (closest
    /// first) and unloads this demands.
    pub fn update(&mut self, new_anchor: Position) -> (res: (Vec<Region>, Vec<Position>))
        requires
            old(self).wf(),
            in_world(new_anchor),
        ensures
            final(self).wf(),
            final(self).anchor == new_anchor,
            final(self).radius == old(self).radius,
            forall|r: Region|
                res.0@.contains(r) <==> load_needed(
                    old(self).anchor,
                    new_anchor,
                    old(self).radius,
                    r,
                ),
            forall|i: int, j: int|
                0 <= i <= j < res.0@.len() ==> spec_chebyshev(new_anchor, (#[trigger] res.0@[i]).pos)
                    <= spec_chebyshev(new_anchor, (#[trigger] res.0@[j]).pos),
            forall|i: int, j: int| 0 <= i < j < res.0@.len() ==> res.0@[i] != res.0@[j],
            forall|p: Position|
                res.1@.contains(p) <==> unload_needed(
                    old(self).anchor,
                    new_anchor,
                    old(self).radius,
                    p,
                ),
            forall|i: int, j: int| 0 <= i < j < res.1@.len() ==> res.1@[i] != res.1@[j],
    {
        let res = surroundings_diff(self.anchor, new_anchor, self.radius);
        self.anchor = new_anchor;
        res
    }
}

} // verus!
