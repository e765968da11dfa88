//! Grid storage: a mapping from axial coordinates to tiles plus an
//! opaque external handle per cell. A well-formed grid covers exactly
//! the hexagon of its configured radius, one entry per coordinate;
//! coordinates outside it are treated as impassable, never as free.

use vstd::prelude::*;

use crate::hex::{coord_ok, hex_dist, lemma_dist_component_bound, lemma_dist_origin_box,
    origin_coord, Axial};
use crate::terrain::{biome_cost, Biome, Tile};

verus! {

/// Largest grid radius the engine accepts.
pub const MAX_RADIUS: u32 = 1000;

/// Largest number of cells a well-formed grid can hold: the cell
/// count of a hexagon of radius `MAX_RADIUS` is below the square of
/// `2 * MAX_RADIUS + 1`.
pub const MAX_CELLS: usize = 4004001;

/// Map configuration: the grid radius and the movement budget a unit
/// gets per turn. Tile size concerns only the presentation layer and
/// so has no place here.
#[derive(Clone, Copy, PartialEq, Eq, Structural, Debug)]
pub struct MapSettings {
    pub map_radius: u32,
    pub budget: u32,
}

impl Default for MapSettings {
    /// The configuration the game opens with.
    fn default() -> (s: Self)
        ensures
            s.map_radius == 80,
            s.budget == 7,
            1 <= s.map_radius <= MAX_RADIUS,
    {
        MapSettings { map_radius: 80, budget: 7 }
    }
}

/// One grid entry: a coordinate, its tile, and the opaque handle under
/// which a collaborator (for example a renderer) knows this cell.
#[derive(Clone, Copy, PartialEq, Eq, Structural, Debug)]
pub struct Cell {
    pub coord: Axial,
    pub tile: Tile,
    pub handle: u64,
}

/// A sequence of cells holds an entry for the coordinate.
pub open spec fn cells_contain(cells: Seq<Cell>, c: Axial) -> bool {
    exists|i: int| 0 <= i < cells.len() && cells[i].coord == c
}

/// Strict lexicographic order of a coordinate against a cursor, the
/// order in which generation emits cells.
pub open spec fn lex_before(c: Axial, q: int, r: int) -> bool {
    c.q < q || (c.q == q && c.r < r)
}

/// The hex-grid map: tiles stored per axial coordinate, immutable
/// during any reachability or path computation.
pub struct Grid {
    pub radius: u32,
    pub cells: Vec<Cell>,
}

impl Grid {
    /// The coordinate lies within this grid's configured radius.
    pub open spec fn in_radius(self, c: Axial) -> bool {
        hex_dist(origin_coord(), c) <= self.radius
    }

    pub open spec fn has_coord_at(self, c: Axial, i: int) -> bool {
        0 <= i < self.cells@.len() && self.cells@[i].coord == c
    }

    /// The grid holds an entry for the coordinate.
    pub open spec fn spec_contains(self, c: Axial) -> bool {
        cells_contain(self.cells@, c)
    }

    pub open spec fn idx_of(self, c: Axial) -> int {
        choose|i: int| self.has_coord_at(c, i)
    }

    pub open spec fn tile_of(self, c: Axial) -> Tile {
        self.cells@[self.idx_of(c)].tile
    }

    pub open spec fn handle_of(self, c: Axial) -> u64 {
        self.cells@[self.idx_of(c)].handle
    }

    /// Cost of entering the tile at `c`: `None` when the coordinate is
    /// absent from the grid or its terrain is impassable.
    pub open spec fn cost_of(self, c: Axial) -> Option<u32> {
        if self.spec_contains(c) {
            biome_cost(self.tile_of(c).biome)
        } else {
            None
        }
    }

    pub open spec fn distinct_coords(self) -> bool {
        forall|i: int, j: int|
            0 <= i < j < self.cells@.len() ==> (#[trigger] self.cells@[i]).coord != (
            #[trigger] self.cells@[j]).coord
    }

    /// Well-formedness: bounded radius and size, one entry per
    /// coordinate, every entry inside the radius, and every coordinate
    /// inside the radius present.
    pub open spec fn wf(self) -> bool {
        &&& self.radius <= MAX_RADIUS
        &&& self.cells@.len() <= MAX_CELLS
        &&& self.distinct_coords()
        &&& forall|i: int|
            0 <= i < self.cells@.len() ==> self.in_radius((#[trigger] self.cells@[i]).coord)
        &&& forall|c: Axial| #[trigger] self.in_radius(c) ==> self.spec_contains(c)
    }

    /// Number of cells in the grid.
    pub fn cell_count(&self) -> (n: usize)
        ensures
            n == self.cells@.len(),
    {
        self.cells.len()
    }

    fn find_idx(&self, c: Axial) -> (res: Option<usize>)
        ensures
            match res {
                Some(i) => self.has_coord_at(c, i as int),
                None => !self.spec_contains(c),
            },
    {
        let n = self.cells.len();
        let mut i: usize = 0;
        while i < n
            invariant
                n == self.cells@.len(),
                i <= n,
                forall|j: int| 0 <= j < i ==> (#[trigger] self.cells@[j]).coord != c,
            decreases n - i,
        {
            if self.cells[i].coord == c {
                return Some(i);
            }
            i = i + 1;
        }
        None
    }

    /// Whether the grid holds an entry for the coordinate.
    pub fn contains_coord(&self, c: Axial) -> (b: bool)
        ensures
            b == self.spec_contains(c),
    {
        self.find_idx(c).is_some()
    }

    /// Cost of entering the tile at `c`; absent coordinates and
    /// impassable terrain both answer `None`.
    pub fn cost_at(&self, c: Axial) -> (k: Option<u32>)
        requires
            self.wf(),
        ensures
            k == self.cost_of(c),
    {
        match self.find_idx(c) {
            Some(i) => {
                proof {
                    self.lemma_idx_is(c, i as int);
                }
                self.cells[i].tile.cost()
            },
            None => None,
        }
    }

    /// The tile stored at `c`, if any.
    pub fn tile_at(&self, c: Axial) -> (t: Option<Tile>)
        requires
            self.wf(),
        ensures
            match t {
                Some(tile) => self.spec_contains(c) && tile == self.tile_of(c),
                None => !self.spec_contains(c),
            },
    {
        match self.find_idx(c) {
            Some(i) => {
                proof {
                    self.lemma_idx_is(c, i as int);
                }
                Some(self.cells[i].tile)
            },
            None => None,
        }
    }

    /// The opaque external handle of the cell at `c`, if any.
    pub fn handle_at(&self, c: Axial) -> (h: Option<u64>)
        requires
            self.wf(),
        ensures
            match h {
                Some(x) => self.spec_contains(c) && x == self.handle_of(c),
                None => !self.spec_contains(c),
            },
    {
        match self.find_idx(c) {
            Some(i) => {
                proof {
                    self.lemma_idx_is(c, i as int);
                }
                Some(self.cells[i].handle)
            },
            None => None,
        }
    }

    /// The spec-level index of a held coordinate is a real index.
    pub proof fn lemma_idx_of_valid(self, c: Axial)
        requires
            self.spec_contains(c),
        ensures
            self.has_coord_at(c, self.idx_of(c)),
    {
        let j = choose|j: int| 0 <= j < self.cells@.len() && self.cells@[j].coord == c;
        assert(self.has_coord_at(c, j));
    }

    /// With distinct coordinates, any index holding `c` is the index
    /// the spec-level lookup denotes.
    pub proof fn lemma_idx_is(self, c: Axial, i: int)
        requires
            self.distinct_coords(),
            self.has_coord_at(c, i),
        ensures
            self.idx_of(c) == i,
    {
        assert(self.spec_contains(c)) by {
            assert(0 <= i < self.cells@.len() && self.cells@[i].coord == c);
        }
        self.lemma_idx_of_valid(c);
        let j = self.idx_of(c);
        if i < j {
            assert(self.cells@[i].coord != self.cells@[j].coord);
        } else if j < i {
            assert(self.cells@[j].coord != self.cells@[i].coord);
        }
    }

    /// Every coordinate a well-formed grid holds is within engine
    /// bounds, because the radius is.
    pub proof fn lemma_contained_coord_ok(self, c: Axial)
        requires
            self.wf(),
            self.spec_contains(c),
        ensures
            coord_ok(c),
    {
        self.lemma_idx_of_valid(c);
        let i = self.idx_of(c);
        assert(self.in_radius(self.cells@[i].coord));
        lemma_dist_component_bound(c);
    }

    /// A defined entry cost is between one and six points.
    pub proof fn lemma_cost_range(self, c: Axial)
        ensures
            self.cost_of(c) matches Some(k) ==> 1 <= k <= 6,
    {
        if self.spec_contains(c) {
            crate::terrain::lemma_biome_cost_range(self.tile_of(c).biome);
        }
    }

    /// Replace the biome of the tile at `c`. Answers whether the
    /// coordinate was present; an absent coordinate leaves the grid
    /// untouched.
    pub fn set_biome(&mut self, c: Axial, b: Biome) -> (ok: bool)
        requires
            old(self).wf(),
        ensures
            final(self).wf(),
            ok == old(self).spec_contains(c),
            final(self).radius == old(self).radius,
            final(self).cells@.len() == old(self).cells@.len(),
            forall|d: Axial| final(self).spec_contains(d) == old(self).spec_contains(d),
            ok ==> final(self).tile_of(c).biome == b,
            forall|d: Axial| d != c ==> #[trigger] final(self).cost_of(d) == old(self).cost_of(d),
            forall|d: Axial|
                d != c && final(self).spec_contains(d) ==> #[trigger] final(self).tile_of(d) == old(
                self).tile_of(d),
            forall|d: Axial|
                final(self).spec_contains(d) ==> final(self).handle_of(d) == old(self).handle_of(
                d),
            !ok ==> *final(self) == *old(self),
    {
        match self.find_idx(c) {
            Some(i) => {
                let mut cell = self.cells[i];
                cell.tile = Tile { biome: b };
                self.cells.set(i, cell);
                proof {
                    let pre = *old(self);
                    assert(self.cells@.len() == pre.cells@.len());
                    assert forall|k: int| 0 <= k < self.cells@.len() implies (
                    #[trigger] self.cells@[k]).coord == pre.cells@[k].coord && self.cells@[k].handle
                        == pre.cells@[k].handle by {}
                    assert forall|a: int, j: int|
                        0 <= a < j < self.cells@.len() implies (#[trigger] self.cells@[a]).coord
                        != (#[trigger] self.cells@[j]).coord by {
                        assert(pre.cells@[a].coord != pre.cells@[j].coord);
                    }
                    assert forall|d: Axial| self.spec_contains(d) == pre.spec_contains(d) by {
                        if pre.spec_contains(d) {
                            pre.lemma_idx_of_valid(d);
                            let k = pre.idx_of(d);
                            assert(self.has_coord_at(d, k));
                            assert(self.spec_contains(d));
                        }
                        if self.spec_contains(d) {
                            self.lemma_idx_of_valid(d);
                            let k = self.idx_of(d);
                            assert(pre.has_coord_at(d, k));
                            assert(pre.spec_contains(d));
                        }
                    }
                    assert forall|k: int| 0 <= k < self.cells@.len() implies self.in_radius(
                        (#[trigger] self.cells@[k]).coord,
                    ) by {
                        assert(pre.in_radius(pre.cells@[k].coord));
                    }
                    assert forall|d: Axial| #[trigger] self.in_radius(d) implies
                        self.spec_contains(d) by {
                        assert(pre.in_radius(d));
                        assert(pre.spec_contains(d));
                        assert(self.spec_contains(d));
                    }
                    assert(self.has_coord_at(c, i as int));
                    self.lemma_idx_is(c, i as int);
                    assert forall|d: Axial| d != c implies #[trigger] self.cost_of(d)
                        == pre.cost_of(d) by {
                        if pre.spec_contains(d) {
                            pre.lemma_idx_of_valid(d);
                            let k = pre.idx_of(d);
                            assert(self.has_coord_at(d, k));
                            self.lemma_idx_is(d, k);
                            assert(pre.cells@[i as int].coord == c);
                            assert(k != i);
                            assert(self.cells@[k].tile == pre.cells@[k].tile);
                        } else {
                            assert(!self.spec_contains(d));
                        }
                    }
                    assert forall|d: Axial| d != c && self.spec_contains(d) implies self.tile_of(d)
                        == pre.tile_of(d) by {
                        pre.lemma_idx_of_valid(d);
                        let k = pre.idx_of(d);
                        assert(self.has_coord_at(d, k));
                        self.lemma_idx_is(d, k);
                        assert(pre.cells@[i as int].coord == c);
                        assert(k != i);
                    }
                    assert forall|d: Axial| self.spec_contains(d) implies self.handle_of(d)
                        == pre.handle_of(d) by {
                        pre.lemma_idx_of_valid(d);
                        let k = pre.idx_of(d);
                        assert(self.has_coord_at(d, k));
                        self.lemma_idx_is(d, k);
                    }
                }
                true
            },
            None => false,
        }
    }
}

/// Build the grid for the given radius: one cell for every coordinate
/// within `radius` of the centre, each filled with the given biome and
/// carrying a distinct handle (its creation index).
pub fn generate(radius: u32, fill: Biome) -> (g: Grid)
    requires
        1 <= radius <= MAX_RADIUS,
    ensures
        g.wf(),
        g.radius == radius,
        forall|c: Axial| #[trigger] g.spec_contains(c) <==> hex_dist(origin_coord(), c) <= radius,
        forall|c: Axial| #[trigger] g.spec_contains(c) ==> g.tile_of(c).biome == fill,
        forall|i: int| 0 <= i < g.cells@.len() ==> (#[trigger] g.cells@[i]).handle as int == i,
{
    let rad: i32 = radius as i32;
    let mut cells: Vec<Cell> = Vec::new();
    let mut q: i32 = -rad;
    while q <= rad
        invariant
            1 <= rad <= MAX_RADIUS,
            -rad <= q <= rad + 1,
            cells@.len() <= (q + rad) * (2 * rad + 1),
            forall|i: int, j: int|
                0 <= i < j < cells@.len() ==> (#[trigger] cells@[i]).coord != (
                #[trigger] cells@[j]).coord,
            forall|i: int|
                0 <= i < cells@.len() ==> {
                    let cl = #[trigger] cells@[i];
                    &&& hex_dist(origin_coord(), cl.coord) <= rad
                    &&& lex_before(cl.coord, q as int, -rad - 1)
                    &&& cl.handle as int == i
                    &&& cl.tile.biome == fill
                },
            forall|c: Axial|
                (hex_dist(origin_coord(), c) <= rad && c.q < q) <==> #[trigger] cells_contain(
                    cells@,
                    c,
                ),
        decreases rad + 1 - q,
    {
        let lo: i32 = if -rad > -q - rad {
            -rad
        } else {
            -q - rad
        };
        let hi: i32 = if rad < -q + rad {
            rad
        } else {
            -q + rad
        };
        proof {
            assert forall|c: Axial| hex_dist(origin_coord(), c) <= rad && c.q == q implies lo
                <= c.r <= hi by {
                lemma_dist_origin_box(c, rad as int);
            }
        }
        let mut r: i32 = lo;
        let ghost cells_at_row_start = cells@;
        while r <= hi
            invariant
                1 <= rad <= MAX_RADIUS,
                -rad <= q <= rad,
                lo == if -rad > -q - rad { -rad as int } else { -q - rad },
                hi == if rad < -q + rad { rad as int } else { -q + rad },
                lo <= r <= hi + 1,
                cells@.len() <= (q + rad) * (2 * rad + 1) + (r - lo),
                forall|i: int, j: int|
                    0 <= i < j < cells@.len() ==> (#[trigger] cells@[i]).coord != (
                    #[trigger] cells@[j]).coord,
                forall|i: int|
                    0 <= i < cells@.len() ==> {
                        let cl = #[trigger] cells@[i];
                        &&& hex_dist(origin_coord(), cl.coord) <= rad
                        &&& lex_before(cl.coord, q as int, r as int)
                        &&& cl.handle as int == i
                        &&& cl.tile.biome == fill
                    },
                forall|c: Axial|
                    (hex_dist(origin_coord(), c) <= rad && lex_before(c, q as int, r as int))
                        <==> #[trigger] cells_contain(cells@, c),
            decreases hi + 1 - r,
        {
            let coord = Axial { q, r };
            proof {
                lemma_dist_origin_box(coord, rad as int);
                assert(hex_dist(origin_coord(), coord) <= rad);
            }
            let handle: u64 = cells.len() as u64;
            let ghost pre = cells@;
            cells.push(Cell { coord, tile: Tile { biome: fill }, handle });
            proof {
                assert forall|a: int, j: int|
                    0 <= a < j < cells@.len() implies (#[trigger] cells@[a]).coord != (
                    #[trigger] cells@[j]).coord by {
                    if j == pre.len() {
                        assert(lex_before(pre[a].coord, q as int, r as int));
                    }
                }
                assert forall|c: Axial| (hex_dist(origin_coord(), c) <= rad && lex_before(
                    c,
                    q as int,
                    r + 1,
                )) implies #[trigger] cells_contain(cells@, c) by {
                    if c == coord {
                        assert(cells@[pre.len() as int].coord == c);
                    } else {
                        assert(lex_before(c, q as int, r as int));
                        assert(cells_contain(pre, c));
                        let i = choose|i: int| 0 <= i < pre.len() && pre[i].coord == c;
                        assert(cells@[i].coord == c);
                    }
                }
                assert forall|c: Axial| #[trigger] cells_contain(cells@, c) implies (hex_dist(
                    origin_coord(),
                    c,
                ) <= rad && lex_before(c, q as int, r + 1)) by {
                    let i = choose|i: int| 0 <= i < cells@.len() && cells@[i].coord == c;
                    if i < pre.len() {
                        assert(pre[i] == cells@[i]);
                        assert(lex_before(pre[i].coord, q as int, r as int));
                    } else {
                        assert(c == coord);
                    }
                }
            }
            r = r + 1;
        }
        proof {
            assert(cells@.len() <= (q + rad) * (2 * rad + 1) + (2 * rad + 1));
            assert((q + rad) * (2 * rad + 1) + (2 * rad + 1) == (q + 1 + rad) * (2 * rad + 1))
                by (nonlinear_arith);
            assert forall|c: Axial| (hex_dist(origin_coord(), c) <= rad && c.q < q + 1) implies
                #[trigger] cells_contain(cells@, c) by {
                lemma_dist_origin_box(c, rad as int);
                assert(lex_before(c, q as int, r as int));
            }
            assert forall|c: Axial| #[trigger] cells_contain(cells@, c) implies (hex_dist(
                origin_coord(),
                c,
            ) <= rad && c.q < q + 1) by {
                let i = choose|i: int| 0 <= i < cells@.len() && cells@[i].coord == c;
            }
            assert forall|i: int| 0 <= i < cells@.len() implies lex_before(
                (#[trigger] cells@[i]).coord,
                q + 1,
                -rad - 1,
            ) by {
                assert(lex_before(cells@[i].coord, q as int, r as int));
                lemma_dist_origin_box(cells@[i].coord, rad as int);
            }
        }
        q = q + 1;
    }
    let g = Grid { radius, cells };
    proof {
        assert((q + rad) * (2 * rad + 1) <= 4004001) by (nonlinear_arith)
            requires
                -rad <= q <= rad + 1,
                1 <= rad <= 1000,
        ;
        assert forall|c: Axial| hex_dist(origin_coord(), c) <= radius implies #[trigger] g
            .spec_contains(c) by {
            lemma_dist_origin_box(c, rad as int);
            assert(c.q < q);
            assert(cells_contain(g.cells@, c));
        }
        assert forall|c: Axial| #[trigger] g.spec_contains(c) implies hex_dist(origin_coord(), c)
            <= radius by {
            g.lemma_idx_of_valid(c);
            let i = g.idx_of(c);
            assert(hex_dist(origin_coord(), g.cells@[i].coord) <= rad);
        }
        assert forall|c: Axial| #[trigger] g.in_radius(c) implies g.spec_contains(c) by {
            assert(hex_dist(origin_coord(), c) <= radius);
        }
        assert forall|c: Axial| #[trigger] g.spec_contains(c) implies g.tile_of(c).biome
            == fill by {
            g.lemma_idx_of_valid(c);
            let i = g.idx_of(c);
            assert(g.cells@[i].tile.biome == fill);
        }
    }
    g
}

} // verus!
