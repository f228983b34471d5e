//! Region keys: cell positions in the voxel grid, the level-of-detail index,
//! and the grid geometry (Chebyshev distance, axis-aligned boxes of cells).

use vstd::prelude::*;

verus! {

/// A cell position in the voxel grid.
#[derive(Clone, Copy, PartialEq, Eq, Structural, Debug, Hash)]
pub struct Position {
    pub x: i32,
    pub y: i32,
    pub z: i32,
}

/// A region key: a cell position together with the level of detail the
/// region is addressed at. Two keys with the same position but different
/// LOD are distinct regions.
#[derive(Clone, Copy, PartialEq, Eq, Structural, Debug, Hash)]
pub struct Region {
    pub pos: Position,
    pub lod: u8,
}

/// Absolute difference of two mathematical integers.
pub open spec fn abs_diff(a: int, b: int) -> int {
    if a >= b {
        a - b
    } else {
        b - a
    }
}

/// Chebyshev distance between two cell positions: the largest per-axis
/// absolute difference. This is the metric the shell iteration uses.
pub open spec fn spec_chebyshev(a: Position, b: Position) -> int {
    let dx = abs_diff(a.x as int, b.x as int);
    let dy = abs_diff(a.y as int, b.y as int);
    let dz = abs_diff(a.z as int, b.z as int);
    if dx >= dy && dx >= dz {
        dx
    } else if dy >= dz {
        dy
    } else {
        dz
    }
}

fn axis_distance(a: i32, b: i32) -> (d: u64)
    ensures
        d == abs_diff(a as int, b as int),
{
    let aw: i64 = a as i64;
    let bw: i64 = b as i64;
    if aw >= bw {
        (aw - bw) as u64
    } else {
        (bw - aw) as u64
    }
}

/// Chebyshev distance between two cell positions.
pub fn chebyshev(a: Position, b: Position) -> (d: u64)
    ensures
        d == spec_chebyshev(a, b),
{
    let dx = axis_distance(a.x, b.x);
    let dy = axis_distance(a.y, b.y);
    let dz = axis_distance(a.z, b.z);
    if dx >= dy && dx >= dz {
        dx
    } else if dy >= dz {
        dy
    } else {
        dz
    }
}

/// Whether `p` lies in the closed axis-aligned box spanned by `lo` and `hi`.
pub open spec fn in_box(lo: Position, hi: Position, p: Position) -> bool {
    &&& lo.x <= p.x <= hi.x
    &&& lo.y <= p.y <= hi.y
    &&& lo.z <= p.z <= hi.z
}

/// Every cell position in the closed box spanned by `lo` and `hi`,
/// each exactly once.
pub fn box_cells(lo: Position, hi: Position) -> (cells: Vec<Position>)
    ensures
        forall|p: Position| cells@.contains(p) <==> in_box(lo, hi, p),
        forall|i: int, j: int| 0 <= i < j < cells@.len() ==> cells@[i] != cells@[j],
{
    let mut cells: Vec<Position> = Vec::new();
    let hx: i64 = hi.x as i64;
    let hy: i64 = hi.y as i64;
    let hz: i64 = hi.z as i64;
    let mut x: i64 = lo.x as i64;
    while x <= hx
        invariant
            lo.x as int <= x,
            hx == hi.x as int,
            hy == hi.y as int,
            hz == hi.z as int,
            forall|p: Position|
                cells@.contains(p) <==> (p.x < x && in_box(lo, hi, p)),
            forall|i: int, j: int| 0 <= i < j < cells@.len() ==> cells@[i] != cells@[j],
        decreases hx + 1 - x,
    {
        let mut y: i64 = lo.y as i64;
        while y <= hy
            invariant
                lo.x as int <= x <= hx,
                lo.y as int <= y,
                hx == hi.x as int,
                hy == hi.y as int,
                hz == hi.z as int,
                forall|p: Position|
                    cells@.contains(p) <==> ((p.x < x || (p.x == x && p.y < y)) && in_box(
                        lo,
                        hi,
                        p,
                    )),
                forall|i: int, j: int| 0 <= i < j < cells@.len() ==> cells@[i] != cells@[j],
            decreases hy + 1 - y,
        {
            let mut z: i64 = lo.z as i64;
            while z <= hz
                invariant
                    lo.x as int <= x <= hx,
                    lo.y as int <= y <= hy,
                    lo.z as int <= z,
                    hx == hi.x as int,
                    hy == hi.y as int,
                    hz == hi.z as int,
                    forall|p: Position|
                        cells@.contains(p) <==> ((p.x < x || (p.x == x && p.y < y) || (p.x == x
                            && p.y == y && p.z < z)) && in_box(lo, hi, p)),
                    forall|i: int, j: int| 0 <= i < j < cells@.len() ==> cells@[i] != cells@[j],
                decreases hz + 1 - z,
            {
                let p = Position { x: x as i32, y: y as i32, z: z as i32 };
                proof {
                    assert(p.x as int == x && p.y as int == y && p.z as int == z);
                    assert(!cells@.contains(p));
                }
                let ghost before = cells@;
                cells.push(p);
                proof {
                    assert forall|q: Position| before.contains(q) implies cells@.contains(q) by {
                        let i = choose|i: int| 0 <= i < before.len() && before[i] == q;
                        assert(cells@[i] == q);
                    }
                    assert(cells@.contains(p)) by {
                        assert(cells@[cells@.len() - 1] == p);
                    }
                    assert forall|q: Position| cells@.contains(q) implies before.contains(q) || q
                        == p by {
                        if q != p {
                            let i = choose|i: int| 0 <= i < cells@.len() && cells@[i] == q;
                            assert(before[i] == q);
                        }
                    }
                    assert forall|i: int, j: int|
                        0 <= i < j < cells@.len() implies cells@[i] != cells@[j] by {
                        if j == cells@.len() - 1 {
                            assert(before.contains(before[i]));
                        }
                    }
                    assert forall|q: Position|
                        ((q.x < x || (q.x == x && q.y < y) || (q.x == x && q.y == y && q.z < z
                            + 1)) && in_box(lo, hi, q)) implies cells@.contains(q) by {
                        if q.x == x && q.y == y && q.z == z {
                            assert(q == p);
                        } else {
                            assert(before.contains(q));
                        }
                    }
                    assert forall|q: Position| cells@.contains(q) implies ((q.x < x || (q.x == x
                        && q.y < y) || (q.x == x && q.y == y && q.z < z + 1)) && in_box(
                        lo,
                        hi,
                        q,
                    )) by {
                        if q == p {
                            assert(in_box(lo, hi, p));
                        } else {
                            assert(before.contains(q));
                        }
                    }
                }
                z = z + 1;
            }
            y = y + 1;
        }
        x = x + 1;
    }
    cells
}

} // verus!
