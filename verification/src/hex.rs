//! Axial hex coordinates: the addressing scheme for hexagonal grid
//! cells, with the cube-formula distance and the six standard
//! neighbour directions.

use vstd::prelude::*;

verus! {

/// Largest coordinate magnitude the engine works with. Keeping
/// coordinates inside this bound lets neighbour computation add or
/// subtract one without overflowing an `i32`.
pub const COORD_LIMIT: i32 = 0x3FFF_FFFF;

/// An axial hex coordinate: a pair of signed integers identifying a
/// cell on an infinite logical plane. The derived third cube
/// coordinate `s = -q - r` appears only in distance math.
#[derive(Clone, Copy, PartialEq, Eq, Structural, Debug, Hash)]
pub struct Axial {
    pub q: i32,
    pub r: i32,
}

/// The grid's centre cell.
pub open spec fn origin_coord() -> Axial {
    Axial { q: 0, r: 0 }
}

pub open spec fn abs_of(x: int) -> int {
    if x < 0 {
        -x
    } else {
        x
    }
}

/// Hex-grid distance between two axial coordinates, by the standard
/// cube-coordinate formula: half the sum of the absolute cube deltas.
pub open spec fn hex_dist(a: Axial, b: Axial) -> int {
    (abs_of(a.q - b.q) + abs_of(a.r - b.r) + abs_of((a.q + a.r) - (b.q + b.r))) / 2
}

/// Whether a coordinate is within engine bounds.
pub open spec fn coord_ok(c: Axial) -> bool {
    &&& -COORD_LIMIT <= c.q <= COORD_LIMIT
    &&& -COORD_LIMIT <= c.r <= COORD_LIMIT
}

/// `b` is one of the six standard hex neighbours of `a`.
pub open spec fn is_adjacent(a: Axial, b: Axial) -> bool {
    let dq = b.q - a.q;
    let dr = b.r - a.r;
    ||| dq == 1 && dr == 0
    ||| dq == 1 && dr == -1
    ||| dq == 0 && dr == -1
    ||| dq == -1 && dr == 0
    ||| dq == -1 && dr == 1
    ||| dq == 0 && dr == 1
}

impl Axial {
    pub fn new(q: i32, r: i32) -> (c: Axial)
        ensures
            c.q == q,
            c.r == r,
    {
        Axial { q, r }
    }

    /// Runtime check for `coord_ok`, so that callers can guard calls
    /// whose contracts demand in-bounds coordinates.
    pub fn in_bounds(&self) -> (ok: bool)
        ensures
            ok == coord_ok(*self),
    {
        -COORD_LIMIT <= self.q && self.q <= COORD_LIMIT && -COORD_LIMIT <= self.r && self.r
            <= COORD_LIMIT
    }
}

/// Hex distance between two coordinates. This is the number of steps
/// of a shortest walk between the cells, so it never overestimates the
/// cost of a route whose steps each cost at least one point.
pub fn distance(a: Axial, b: Axial) -> (d: u64)
    ensures
        d == hex_dist(a, b),
{
    let dq: i64 = (a.q as i64) - (b.q as i64);
    let dr: i64 = (a.r as i64) - (b.r as i64);
    let ds: i64 = dq + dr;
    let mq: i64 = if dq < 0 {
        -dq
    } else {
        dq
    };
    let mr: i64 = if dr < 0 {
        -dr
    } else {
        dr
    };
    let ms: i64 = if ds < 0 {
        -ds
    } else {
        ds
    };
    ((mq + mr + ms) / 2) as u64
}

/// Distance is symmetric, and the distance from a coordinate to
/// itself is zero.
pub proof fn lemma_distance_symmetry(a: Axial, b: Axial)
    ensures
        hex_dist(a, b) == hex_dist(b, a),
        hex_dist(a, a) == 0,
{
}

/// Each axial component of a coordinate is bounded by its distance
/// from the centre, as is the derived third component.
pub proof fn lemma_dist_component_bound(c: Axial)
    ensures
        abs_of(c.q as int) <= hex_dist(origin_coord(), c),
        abs_of(c.r as int) <= hex_dist(origin_coord(), c),
        abs_of(c.q + c.r) <= hex_dist(origin_coord(), c),
{
}

/// Distance from the centre is exactly the largest of the three cube
/// component magnitudes, so a hexagon of radius `n` is cut out by the
/// three component bounds.
pub proof fn lemma_dist_origin_box(c: Axial, n: int)
    ensures
        hex_dist(origin_coord(), c) <= n <==> (abs_of(c.q as int) <= n && abs_of(c.r as int) <= n
            && abs_of(c.q + c.r) <= n),
{
}

/// One step to a neighbouring cell changes the distance to any fixed
/// coordinate by at most one.
pub proof fn lemma_step_dist(x: Axial, a: Axial, b: Axial)
    requires
        is_adjacent(a, b),
    ensures
        hex_dist(x, b) <= hex_dist(x, a) + 1,
{
}

/// The six neighbours of a coordinate, in a fixed order. The list is
/// exhaustive: every coordinate adjacent to `c` appears in it.
pub fn neighbors(c: Axial) -> (ns: Vec<Axial>)
    requires
        coord_ok(c),
    ensures
        ns@.len() == 6,
        forall|i: int| 0 <= i < 6 ==> is_adjacent(c, #[trigger] ns@[i]),
        forall|b: Axial| is_adjacent(c, b) ==> ns@.contains(b),
{
    let mut ns: Vec<Axial> = Vec::new();
    ns.push(Axial { q: c.q + 1, r: c.r });
    ns.push(Axial { q: c.q + 1, r: c.r - 1 });
    ns.push(Axial { q: c.q, r: c.r - 1 });
    ns.push(Axial { q: c.q - 1, r: c.r });
    ns.push(Axial { q: c.q - 1, r: c.r + 1 });
    ns.push(Axial { q: c.q, r: c.r + 1 });
    proof {
        assert forall|b: Axial| is_adjacent(c, b) implies ns@.contains(b) by {
            if b.q - c.q == 1 && b.r - c.r == 0 {
                assert(ns@[0] == b);
            } else if b.q - c.q == 1 && b.r - c.r == -1 {
                assert(ns@[1] == b);
            } else if b.q - c.q == 0 && b.r - c.r == -1 {
                assert(ns@[2] == b);
            } else if b.q - c.q == -1 && b.r - c.r == 0 {
                assert(ns@[3] == b);
            } else if b.q - c.q == -1 && b.r - c.r == 1 {
                assert(ns@[4] == b);
            } else {
                assert(ns@[5] == b);
            }
        }
    }
    ns
}

} // verus!
