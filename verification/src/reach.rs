//! Field of movement: which tiles can be entered from an origin
//! within a movement budget, and at what minimal cumulative cost.
//!
//! The specification layer defines walks over the grid and their
//! cumulative entry cost; the executable layer computes, by repeated
//! relaxation of a cost-bounded frontier, a table that is proved both
//! sound (every entry is witnessed by an in-budget walk) and complete
//! (every in-budget walk's endpoint is entered, at no more than that
//! walk's cost).

use vstd::prelude::*;

use crate::grid::Grid;
use crate::hex::{coord_ok, hex_dist, is_adjacent, neighbors, Axial};

verus! {

/// Every consecutive step of the walk enters an adjacent tile whose
/// entry cost is defined. The first coordinate is where the walk
/// starts; its own terrain never blocks the walk.
pub open spec fn valid_path(g: Grid, p: Seq<Axial>) -> bool {
    &&& p.len() >= 1
    &&& forall|i: int|
        1 <= i < p.len() ==> is_adjacent(p[i - 1], #[trigger] p[i]) && g.cost_of(p[i]) is Some
}

/// Entry cost of a tile as a mathematical integer; zero for tiles
/// that cannot be entered (such tiles never appear past the first
/// position of a valid walk).
pub open spec fn entry_cost(g: Grid, c: Axial) -> int {
    match g.cost_of(c) {
        Some(k) => k as int,
        None => 0,
    }
}

/// Cumulative cost of a walk: the sum of the entry costs of every
/// coordinate after the first. Staying put costs nothing.
pub open spec fn path_cost(g: Grid, p: Seq<Axial>) -> int
    decreases p.len(),
{
    if p.len() <= 1 {
        0
    } else {
        path_cost(g, p.drop_last()) + entry_cost(g, p.last())
    }
}

/// A walk from `o` to `c`.
pub open spec fn is_route(g: Grid, o: Axial, c: Axial, p: Seq<Axial>) -> bool {
    valid_path(g, p) && p.first() == o && p.last() == c
}

/// `c` is reachable from `o` within budget `b`: some walk from `o`
/// ends at `c` with cumulative cost at most `b`.
pub open spec fn reach_spec(g: Grid, o: Axial, b: int, c: Axial) -> bool {
    exists|p: Seq<Axial>| #[trigger] is_route(g, o, c, p) && path_cost(g, p) <= b
}

/// Dropping the last step of a valid walk of two or more coordinates
/// leaves a valid walk.
pub proof fn lemma_valid_path_prefix(g: Grid, p: Seq<Axial>)
    requires
        valid_path(g, p),
        p.len() >= 2,
    ensures
        valid_path(g, p.drop_last()),
        p.drop_last().first() == p.first(),
        path_cost(g, p.drop_last()) == path_cost(g, p) - entry_cost(g, p.last()),
{
    let pp = p.drop_last();
    assert forall|i: int| 1 <= i < pp.len() implies is_adjacent(pp[i - 1], #[trigger] pp[i])
        && g.cost_of(pp[i]) is Some by {
        assert(pp[i] == p[i]);
        assert(pp[i - 1] == p[i - 1]);
    }
}

/// Extending a valid walk by one legal step keeps it valid and adds
/// the entered tile's cost.
pub proof fn lemma_valid_path_push(g: Grid, p: Seq<Axial>, c: Axial)
    requires
        valid_path(g, p),
        is_adjacent(p.last(), c),
        g.cost_of(c) is Some,
    ensures
        valid_path(g, p.push(c)),
        p.push(c).first() == p.first(),
        p.push(c).last() == c,
        path_cost(g, p.push(c)) == path_cost(g, p) + entry_cost(g, c),
{
    let pe = p.push(c);
    assert forall|i: int| 1 <= i < pe.len() implies is_adjacent(pe[i - 1], #[trigger] pe[i])
        && g.cost_of(pe[i]) is Some by {
        if i < pe.len() - 1 {
            assert(pe[i] == p[i]);
            assert(pe[i - 1] == p[i - 1]);
        } else {
            assert(pe[i] == c);
            assert(pe[i - 1] == p.last());
        }
    }
    assert(pe.drop_last() =~= p);
}

/// A valid walk's cost is non-negative, and is at least the number of
/// steps taken, because every entry costs at least one point.
pub proof fn lemma_path_cost_min_len(g: Grid, p: Seq<Axial>)
    requires
        valid_path(g, p),
    ensures
        path_cost(g, p) >= p.len() - 1,
    decreases p.len(),
{
    if p.len() >= 2 {
        lemma_valid_path_prefix(g, p);
        lemma_path_cost_min_len(g, p.drop_last());
        assert(g.cost_of(p.last()) is Some);
        g.lemma_cost_range(p.last());
    }
}

/// Reachability is monotone in the budget: anything reachable within
/// a smaller budget stays reachable within a larger one.
pub proof fn lemma_reach_monotone(g: Grid, o: Axial, b1: int, b2: int, c: Axial)
    requires
        b1 <= b2,
        reach_spec(g, o, b1, c),
    ensures
        reach_spec(g, o, b2, c),
{
    let p = choose|p: Seq<Axial>| #[trigger] is_route(g, o, c, p) && path_cost(g, p) <= b1;
    assert(is_route(g, o, c, p) && path_cost(g, p) <= b2);
}

/// The origin is reachable from itself within any non-negative
/// budget, whatever its own terrain costs: a unit is never blocked
/// from staying home.
pub proof fn lemma_origin_always_reachable(g: Grid, o: Axial, b: int)
    requires
        b >= 0,
    ensures
        reach_spec(g, o, b, o),
{
    let p: Seq<Axial> = seq![o];
    assert(valid_path(g, p));
    assert(is_route(g, o, o, p) && path_cost(g, p) <= b);
}

/// One entry of a computed field: a reached coordinate, the cost at
/// which it was reached, and the coordinate it was entered from
/// (absent only for the origin).
#[derive(Clone, Copy, PartialEq, Eq, Structural, Debug)]
pub struct ReachNode {
    pub coord: Axial,
    pub cost: u32,
    pub parent: Option<Axial>,
}

/// The node list holds an entry for the coordinate.
pub open spec fn nodes_contain(s: Seq<ReachNode>, c: Axial) -> bool {
    exists|i: int| 0 <= i < s.len() && s[i].coord == c
}

pub open spec fn nodes_idx(s: Seq<ReachNode>, c: Axial) -> int {
    choose|i: int| 0 <= i < s.len() && s[i].coord == c
}

/// Recorded cost of the coordinate's entry.
pub open spec fn nodes_cost(s: Seq<ReachNode>, c: Axial) -> int {
    s[nodes_idx(s, c)].cost as int
}

/// Recorded predecessor of the coordinate's entry.
pub open spec fn nodes_parent(s: Seq<ReachNode>, c: Axial) -> Option<Axial> {
    s[nodes_idx(s, c)].parent
}

pub open spec fn nodes_distinct(s: Seq<ReachNode>) -> bool {
    forall|i: int, j: int|
        0 <= i < j < s.len() ==> (#[trigger] s[i]).coord != (#[trigger] s[j]).coord
}

pub proof fn lemma_nodes_idx_valid(s: Seq<ReachNode>, c: Axial)
    requires
        nodes_contain(s, c),
    ensures
        0 <= nodes_idx(s, c) < s.len(),
        s[nodes_idx(s, c)].coord == c,
{
    let j = choose|j: int| 0 <= j < s.len() && s[j].coord == c;
    assert(0 <= j < s.len() && s[j].coord == c);
}

pub proof fn lemma_nodes_idx_is(s: Seq<ReachNode>, c: Axial, i: int)
    requires
        nodes_distinct(s),
        0 <= i < s.len(),
        s[i].coord == c,
    ensures
        nodes_idx(s, c) == i,
        nodes_cost(s, c) == s[i].cost as int,
        nodes_parent(s, c) == s[i].parent,
{
    assert(nodes_contain(s, c));
    lemma_nodes_idx_valid(s, c);
    let j = nodes_idx(s, c);
    if i < j {
        assert(s[i].coord != s[j].coord);
    } else if j < i {
        assert(s[j].coord != s[i].coord);
    }
}

/// Soundness of one entry: its cost fits the budget, its coordinate
/// is the origin or a grid tile, and a non-origin entry records a
/// predecessor held by the table, adjacent, whose recorded cost plus
/// this tile's entry cost is within this entry's cost.
pub open spec fn node_sound(
    g: Grid,
    origin: Axial,
    budget: u32,
    s: Seq<ReachNode>,
    n: ReachNode,
) -> bool {
    &&& n.cost <= budget
    &&& coord_ok(n.coord)
    &&& n.coord == origin || g.spec_contains(n.coord)
    &&& n.coord != origin ==> match n.parent {
        Some(par) => {
            &&& nodes_contain(s, par)
            &&& is_adjacent(par, n.coord)
            &&& g.cost_of(n.coord) is Some
            &&& nodes_cost(s, par) + entry_cost(g, n.coord) <= n.cost
            &&& nodes_cost(s, par) < n.cost
        },
        None => false,
    }
}

/// Invariant of a field table: distinct coordinates, the origin first
/// at cost zero, and every entry sound.
pub open spec fn field_inv(g: Grid, origin: Axial, budget: u32, s: Seq<ReachNode>) -> bool {
    &&& nodes_distinct(s)
    &&& s.len() >= 1
    &&& s[0].coord == origin
    &&& s[0].cost == 0
    &&& s[0].parent is None
    &&& forall|i: int| 0 <= i < s.len() ==> node_sound(g, origin, budget, s, #[trigger] s[i])
}

/// Every coordinate of the first table appears in the second at no
/// greater cost.
pub open spec fn dominates(s2: Seq<ReachNode>, s1: Seq<ReachNode>) -> bool {
    forall|c: Axial|
        #[trigger] nodes_contain(s1, c) ==> nodes_contain(s2, c) && nodes_cost(s2, c)
            <= nodes_cost(s1, c)
}

/// Whatever an in-budget step from a node costing `d` at `c` could
/// reach at `b`, the table already holds at no greater cost.
pub open spec fn relaxed_nbr(
    g: Grid,
    budget: u32,
    c: Axial,
    d: int,
    b: Axial,
    s: Seq<ReachNode>,
) -> bool {
    (is_adjacent(c, b) && g.cost_of(b) is Some && d + entry_cost(g, b) <= budget)
        ==> nodes_contain(s, b) && nodes_cost(s, b) <= d + entry_cost(g, b)
}

pub open spec fn relaxed_from(g: Grid, budget: u32, c: Axial, d: int, s: Seq<ReachNode>) -> bool {
    forall|b: Axial| #[trigger] relaxed_nbr(g, budget, c, d, b, s)
}

/// Fixpoint: relaxing any entry of the table changes nothing.
pub open spec fn stable(g: Grid, budget: u32, s: Seq<ReachNode>) -> bool {
    forall|i: int|
        0 <= i < s.len() ==> relaxed_from(g, budget, (#[trigger] s[i]).coord, s[i].cost as int, s)
}

/// Completeness up to walks of `k` steps: the endpoint of any
/// in-budget walk of at most `k` steps is in the table, at no more
/// than that walk's cost.
pub open spec fn covers_to(g: Grid, origin: Axial, budget: u32, s: Seq<ReachNode>, k: int) -> bool {
    forall|p: Seq<Axial>|
        (#[trigger] valid_path(g, p) && p.first() == origin && path_cost(g, p) <= budget && p.len()
            <= k + 1) ==> nodes_contain(s, p.last()) && nodes_cost(s, p.last()) <= path_cost(g, p)
}

/// Completeness outright: the endpoint of any in-budget walk is in
/// the table, at no more than that walk's cost.
pub open spec fn field_full(g: Grid, origin: Axial, budget: u32, s: Seq<ReachNode>) -> bool {
    forall|p: Seq<Axial>|
        (#[trigger] valid_path(g, p) && p.first() == origin && path_cost(g, p) <= budget)
            ==> nodes_contain(s, p.last()) && nodes_cost(s, p.last()) <= path_cost(g, p)
}

/// A sound table entry is witnessed by a real walk of its recorded
/// cost or less.
pub proof fn lemma_field_sound(g: Grid, origin: Axial, budget: u32, s: Seq<ReachNode>, c: Axial)
    requires
        field_inv(g, origin, budget, s),
        nodes_contain(s, c),
    ensures
        0 <= nodes_cost(s, c) <= budget,
        reach_spec(g, origin, nodes_cost(s, c), c),
    decreases nodes_cost(s, c),
{
    lemma_nodes_idx_valid(s, c);
    let i = nodes_idx(s, c);
    let n = s[i];
    assert(node_sound(g, origin, budget, s, n));
    if c == origin {
        let p: Seq<Axial> = seq![origin];
        lemma_nodes_idx_is(s, origin, 0);
        assert(valid_path(g, p));
        assert(is_route(g, origin, c, p) && path_cost(g, p) <= nodes_cost(s, c));
    } else {
        let par = n.parent->Some_0;
        lemma_field_sound(g, origin, budget, s, par);
        let pp = choose|pp: Seq<Axial>|
            #[trigger] is_route(g, origin, par, pp) && path_cost(g, pp) <= nodes_cost(s, par);
        lemma_valid_path_push(g, pp, c);
        let p = pp.push(c);
        assert(is_route(g, origin, c, p) && path_cost(g, p) <= nodes_cost(s, c));
    }
}

/// Walks of zero steps are covered by the initial table.
pub proof fn lemma_covers_zero(g: Grid, origin: Axial, budget: u32, s: Seq<ReachNode>)
    requires
        field_inv(g, origin, budget, s),
    ensures
        covers_to(g, origin, budget, s, 0),
{
    assert forall|p: Seq<Axial>|
        (valid_path(g, p) && p.first() == origin && path_cost(g, p) <= budget && p.len()
            <= 1) implies nodes_contain(s, p.last()) && nodes_cost(s, p.last()) <= path_cost(
        g,
        p,
    ) by {
        assert(p.last() == p.first());
        assert(s[0].coord == origin);
        assert(nodes_contain(s, origin));
        lemma_nodes_idx_is(s, origin, 0);
    }
}

/// One full relaxation pass extends coverage by one step.
pub proof fn lemma_covers_step(
    g: Grid,
    origin: Axial,
    budget: u32,
    s1: Seq<ReachNode>,
    s2: Seq<ReachNode>,
    k: int,
)
    requires
        k >= 0,
        covers_to(g, origin, budget, s1, k),
        dominates(s2, s1),
        forall|i: int|
            0 <= i < s1.len() ==> relaxed_from(
                g,
                budget,
                (#[trigger] s1[i]).coord,
                s1[i].cost as int,
                s2,
            ),
        nodes_distinct(s1),
    ensures
        covers_to(g, origin, budget, s2, k + 1),
{
    assert forall|p: Seq<Axial>|
        (valid_path(g, p) && p.first() == origin && path_cost(g, p) <= budget && p.len() <= k
            + 2) implies nodes_contain(s2, p.last()) && nodes_cost(s2, p.last()) <= path_cost(
        g,
        p,
    ) by {
        if p.len() <= k + 1 {
            assert(nodes_contain(s1, p.last()) && nodes_cost(s1, p.last()) <= path_cost(g, p));
        } else {
            let pp = p.drop_last();
            lemma_valid_path_prefix(g, p);
            g.lemma_cost_range(p.last());
            assert(path_cost(g, pp) <= budget);
            assert(pp.len() == k + 1);
            assert(nodes_contain(s1, pp.last()) && nodes_cost(s1, pp.last()) <= path_cost(g, pp));
            lemma_nodes_idx_valid(s1, pp.last());
            let i = nodes_idx(s1, pp.last());
            lemma_nodes_idx_is(s1, pp.last(), i);
            assert(relaxed_from(g, budget, s1[i].coord, s1[i].cost as int, s2));
            assert(relaxed_nbr(g, budget, s1[i].coord, s1[i].cost as int, p.last(), s2));
            assert(is_adjacent(pp.last(), p.last())) by {
                assert(pp.last() == p[p.len() - 2]);
                assert(is_adjacent(p[p.len() - 2], p[p.len() - 1]));
            }
            assert(s1[i].cost as int + entry_cost(g, p.last()) <= path_cost(g, p));
        }
    }
}

/// Coverage up to the budget's own step count is full coverage,
/// because each step costs at least one point.
pub proof fn lemma_covers_full(g: Grid, origin: Axial, budget: u32, s: Seq<ReachNode>)
    requires
        covers_to(g, origin, budget, s, budget as int),
    ensures
        field_full(g, origin, budget, s),
{
    assert forall|p: Seq<Axial>|
        (valid_path(g, p) && p.first() == origin && path_cost(g, p)
            <= budget) implies nodes_contain(s, p.last()) && nodes_cost(s, p.last()) <= path_cost(
        g,
        p,
    ) by {
        lemma_path_cost_min_len(g, p);
        assert(p.len() <= budget + 1);
    }
}

/// At a fixpoint the table covers every in-budget walk, whatever its
/// length.
pub proof fn lemma_stable_path(
    g: Grid,
    origin: Axial,
    budget: u32,
    s: Seq<ReachNode>,
    p: Seq<Axial>,
)
    requires
        field_inv(g, origin, budget, s),
        stable(g, budget, s),
        valid_path(g, p),
        p.first() == origin,
        path_cost(g, p) <= budget,
    ensures
        nodes_contain(s, p.last()),
        nodes_cost(s, p.last()) <= path_cost(g, p),
    decreases p.len(),
{
    if p.len() <= 1 {
        assert(p.last() == p.first());
        assert(nodes_contain(s, origin));
        lemma_nodes_idx_is(s, origin, 0);
    } else {
        let pp = p.drop_last();
        lemma_valid_path_prefix(g, p);
        g.lemma_cost_range(p.last());
        lemma_path_cost_min_len(g, pp);
        assert(path_cost(g, pp) <= budget);
        lemma_stable_path(g, origin, budget, s, pp);
        lemma_nodes_idx_valid(s, pp.last());
        let i = nodes_idx(s, pp.last());
        lemma_nodes_idx_is(s, pp.last(), i);
        assert(relaxed_from(g, budget, s[i].coord, s[i].cost as int, s));
        assert(relaxed_nbr(g, budget, s[i].coord, s[i].cost as int, p.last(), s));
        assert(is_adjacent(pp.last(), p.last())) by {
            assert(pp.last() == p[p.len() - 2]);
            assert(is_adjacent(p[p.len() - 2], p[p.len() - 1]));
        }
        assert(s[i].cost as int + entry_cost(g, p.last()) <= path_cost(g, p));
    }
}

pub proof fn lemma_stable_full(g: Grid, origin: Axial, budget: u32, s: Seq<ReachNode>)
    requires
        field_inv(g, origin, budget, s),
        stable(g, budget, s),
    ensures
        field_full(g, origin, budget, s),
{
    assert forall|p: Seq<Axial>|
        (valid_path(g, p) && p.first() == origin && path_cost(g, p)
            <= budget) implies nodes_contain(s, p.last()) && nodes_cost(s, p.last()) <= path_cost(
        g,
        p,
    ) by {
        lemma_stable_path(g, origin, budget, s, p);
    }
}

/// Relaxation facts carry over to a dominating table.
pub proof fn lemma_relaxed_nbr_mono(
    g: Grid,
    budget: u32,
    c: Axial,
    d: int,
    b: Axial,
    s1: Seq<ReachNode>,
    s2: Seq<ReachNode>,
)
    requires
        relaxed_nbr(g, budget, c, d, b, s1),
        dominates(s2, s1),
    ensures
        relaxed_nbr(g, budget, c, d, b, s2),
{
    if is_adjacent(c, b) && g.cost_of(b) is Some && d + entry_cost(g, b) <= budget {
        assert(nodes_contain(s1, b));
    }
}

pub proof fn lemma_relaxed_from_mono(
    g: Grid,
    budget: u32,
    c: Axial,
    d: int,
    s1: Seq<ReachNode>,
    s2: Seq<ReachNode>,
)
    requires
        relaxed_from(g, budget, c, d, s1),
        dominates(s2, s1),
    ensures
        relaxed_from(g, budget, c, d, s2),
{
    assert forall|b: Axial| #[trigger] relaxed_nbr(g, budget, c, d, b, s2) by {
        assert(relaxed_nbr(g, budget, c, d, b, s1));
        lemma_relaxed_nbr_mono(g, budget, c, d, b, s1, s2);
    }
}

/// Appending a sound new entry keeps the table invariant, leaves all
/// recorded costs as they were, and dominates the old table.
pub proof fn lemma_push_preserves(
    g: Grid,
    origin: Axial,
    budget: u32,
    s: Seq<ReachNode>,
    n: ReachNode,
)
    requires
        field_inv(g, origin, budget, s),
        !nodes_contain(s, n.coord),
        n.cost <= budget,
        coord_ok(n.coord),
        g.spec_contains(n.coord),
        g.cost_of(n.coord) is Some,
        n.parent matches Some(par) && nodes_contain(s, par) && is_adjacent(par, n.coord)
            && nodes_cost(s, par) + entry_cost(g, n.coord) <= n.cost && nodes_cost(s, par)
            < n.cost,
    ensures
        field_inv(g, origin, budget, s.push(n)),
        forall|c: Axial|
            #[trigger] nodes_contain(s, c) ==> nodes_contain(s.push(n), c) && nodes_cost(
                s.push(n),
                c,
            ) == nodes_cost(s, c),
        dominates(s.push(n), s),
        nodes_contain(s.push(n), n.coord),
        nodes_cost(s.push(n), n.coord) == n.cost,
{
    let s2 = s.push(n);
    assert(s2[s.len() as int] == n);
    assert forall|i: int, j: int| 0 <= i < j < s2.len() implies (#[trigger] s2[i]).coord != (
    #[trigger] s2[j]).coord by {
        if j < s.len() {
            assert(s[i].coord != s[j].coord);
        } else {
            assert(s2[i] == s[i]);
            assert(nodes_contain(s, s[i].coord));
        }
    }
    assert forall|c: Axial| #[trigger] nodes_contain(s, c) implies nodes_contain(s2, c)
        && nodes_cost(s2, c) == nodes_cost(s, c) by {
        lemma_nodes_idx_valid(s, c);
        let i = nodes_idx(s, c);
        assert(s2[i] == s[i]);
        lemma_nodes_idx_is(s2, c, i);
    }
    lemma_nodes_idx_is(s2, n.coord, s.len() as int);
    assert(nodes_contain(s, origin)) by {
        assert(s[0].coord == origin);
    }
    assert forall|i: int| 0 <= i < s2.len() implies node_sound(g, origin, budget, s2, #[trigger] s2[i]) by {
        if i < s.len() {
            assert(s2[i] == s[i]);
            assert(node_sound(g, origin, budget, s, s[i]));
            if s[i].coord != origin {
                let par = s[i].parent->Some_0;
                assert(nodes_contain(s, par));
            }
        } else {
            assert(s2[i] == n);
            assert(n.coord != origin) by {
                assert(nodes_contain(s, origin));
            }
            let par = n.parent->Some_0;
            assert(nodes_contain(s, par));
        }
    }
}

/// An entry stays sound when the table keeps its coordinates and
/// recorded costs only drop.
proof fn lemma_node_sound_mono(
    g: Grid,
    origin: Axial,
    budget: u32,
    s1: Seq<ReachNode>,
    s2: Seq<ReachNode>,
    n: ReachNode,
)
    requires
        node_sound(g, origin, budget, s1, n),
        dominates(s2, s1),
    ensures
        node_sound(g, origin, budget, s2, n),
{
    if n.coord != origin {
        let par = n.parent->Some_0;
        assert(nodes_contain(s1, par));
    }
}

/// Lowering one entry's cost (with a sound new predecessor) keeps the
/// table invariant, keeps every other recorded cost, and dominates
/// the old table.
proof fn lemma_update_costs(
    g: Grid,
    origin: Axial,
    budget: u32,
    s: Seq<ReachNode>,
    bi: int,
    n: ReachNode,
)
    requires
        field_inv(g, origin, budget, s),
        0 <= bi < s.len(),
        n.coord == s[bi].coord,
        n.cost < s[bi].cost,
    ensures
        nodes_distinct(s.update(bi, n)),
        bi != 0,
        forall|c: Axial|
            #[trigger] nodes_contain(s, c) <==> nodes_contain(s.update(bi, n), c),
        forall|c: Axial|
            c != n.coord && #[trigger] nodes_contain(s, c) ==> nodes_cost(s.update(bi, n), c)
                == nodes_cost(s, c),
        nodes_cost(s.update(bi, n), n.coord) == n.cost,
        dominates(s.update(bi, n), s),
{
    let s2 = s.update(bi, n);
    assert(bi != 0) by {
        assert(s[0].cost == 0);
    }
    assert forall|i: int, j: int| 0 <= i < j < s2.len() implies (#[trigger] s2[i]).coord != (
    #[trigger] s2[j]).coord by {
        assert(s[i].coord != s[j].coord);
        assert(s2[i].coord == s[i].coord);
        assert(s2[j].coord == s[j].coord);
    }
    assert forall|c: Axial| #[trigger] nodes_contain(s, c) implies nodes_contain(s2, c) by {
        lemma_nodes_idx_valid(s, c);
        let i = nodes_idx(s, c);
        assert(s2[i].coord == c);
    }
    assert forall|c: Axial| #[trigger] nodes_contain(s2, c) implies nodes_contain(s, c) by {
        lemma_nodes_idx_valid(s2, c);
        let i = nodes_idx(s2, c);
        assert(s[i].coord == c);
    }
    assert forall|c: Axial| c != n.coord && #[trigger] nodes_contain(s, c) implies nodes_cost(
        s2,
        c,
    ) == nodes_cost(s, c) by {
        lemma_nodes_idx_valid(s, c);
        let i = nodes_idx(s, c);
        assert(i != bi);
        assert(s2[i] == s[i]);
        lemma_nodes_idx_is(s2, c, i);
    }
    lemma_nodes_idx_is(s, n.coord, bi);
    lemma_nodes_idx_is(s2, n.coord, bi);
    assert forall|c: Axial| #[trigger] nodes_contain(s, c) implies nodes_cost(s2, c) <= nodes_cost(
        s,
        c,
    ) by {
        if c != n.coord {
            assert(nodes_cost(s2, c) == nodes_cost(s, c));
        }
    }
}

/// Lowering one entry's cost (with a sound new predecessor) keeps the
/// table invariant, keeps every other recorded cost, and dominates
/// the old table.
#[verifier::rlimit(100)]
#[verifier::spinoff_prover]
pub proof fn lemma_update_preserves(
    g: Grid,
    origin: Axial,
    budget: u32,
    s: Seq<ReachNode>,
    bi: int,
    n: ReachNode,
)
    requires
        field_inv(g, origin, budget, s),
        0 <= bi < s.len(),
        n.coord == s[bi].coord,
        n.cost < s[bi].cost,
        n.cost <= budget,
        g.cost_of(n.coord) is Some,
        n.parent matches Some(par) && nodes_contain(s, par) && par != n.coord && is_adjacent(
            par,
            n.coord,
        ) && nodes_cost(s, par) + entry_cost(g, n.coord) <= n.cost && nodes_cost(s, par) < n.cost,
    ensures
        field_inv(g, origin, budget, s.update(bi, n)),
        forall|c: Axial|
            #[trigger] nodes_contain(s, c) <==> nodes_contain(s.update(bi, n), c),
        forall|c: Axial|
            c != n.coord && #[trigger] nodes_contain(s, c) ==> nodes_cost(s.update(bi, n), c)
                == nodes_cost(s, c),
        nodes_cost(s.update(bi, n), n.coord) == n.cost,
        dominates(s.update(bi, n), s),
{
    let s2 = s.update(bi, n);
    lemma_update_costs(g, origin, budget, s, bi, n);
    assert forall|i: int| 0 <= i < s2.len() implies node_sound(g, origin, budget, s2, #[trigger] s2[i]) by {
        if i == bi {
            let par = n.parent->Some_0;
            assert(nodes_contain(s, par));
            assert(nodes_cost(s2, par) == nodes_cost(s, par));
            assert(s2[i] == n);
            assert(node_sound(g, origin, budget, s, s[bi]));
        } else {
            assert(s2[i] == s[i]);
            assert(node_sound(g, origin, budget, s, s[i]));
            lemma_node_sound_mono(g, origin, budget, s, s2, s[i]);
        }
    }
    assert(s2[0] == s[0]);
}

fn node_find(nodes: &Vec<ReachNode>, c: Axial) -> (res: Option<usize>)
    ensures
        match res {
            Some(i) => 0 <= i < nodes@.len() && nodes@[i as int].coord == c,
            None => !nodes_contain(nodes@, c),
        },
{
    let n = nodes.len();
    let mut i: usize = 0;
    while i < n
        invariant
            n == nodes@.len(),
            i <= n,
            forall|j: int| 0 <= j < i ==> (#[trigger] nodes@[j]).coord != c,
        decreases n - i,
    {
        if nodes[i].coord == c {
            return Some(i);
        }
        i = i + 1;
    }
    None
}

/// One relaxation pass over the entries present when the pass starts.
/// Afterwards every one of those entries is fully relaxed against the
/// resulting table; if nothing changed, the table was already a
/// fixpoint.
fn relax_round(g: &Grid, origin: Axial, budget: u32, nodes: &mut Vec<ReachNode>) -> (changed: bool)
    requires
        g.wf(),
        field_inv(*g, origin, budget, old(nodes)@),
    ensures
        field_inv(*g, origin, budget, final(nodes)@),
        dominates(final(nodes)@, old(nodes)@),
        forall|i: int|
            0 <= i < old(nodes)@.len() ==> relaxed_from(
                *g,
                budget,
                (#[trigger] old(nodes)@[i]).coord,
                old(nodes)@[i].cost as int,
                final(nodes)@,
            ),
        !changed ==> final(nodes)@ == old(nodes)@,
{
    let snap_len = nodes.len();
    let mut changed = false;
    let mut k: usize = 0;
    while k < snap_len
        invariant
            g.wf(),
            field_inv(*g, origin, budget, nodes@),
            snap_len == old(nodes)@.len(),
            snap_len <= nodes@.len(),
            k <= snap_len,
            forall|i: int|
                0 <= i < snap_len ==> (#[trigger] nodes@[i]).coord == old(nodes)@[i].coord
                    && nodes@[i].cost <= old(nodes)@[i].cost,
            forall|i: int|
                0 <= i < k ==> relaxed_from(
                    *g,
                    budget,
                    (#[trigger] old(nodes)@[i]).coord,
                    old(nodes)@[i].cost as int,
                    nodes@,
                ),
            !changed ==> nodes@ == old(nodes)@,
        decreases snap_len - k,
    {
        let c = nodes[k].coord;
        let d = nodes[k].cost;
        proof {
            assert(node_sound(*g, origin, budget, nodes@, nodes@[k as int]));
        }
        let nbrs = neighbors(c);
        let mut j: usize = 0;
        while j < 6
            invariant
                g.wf(),
                field_inv(*g, origin, budget, nodes@),
                snap_len == old(nodes)@.len(),
                snap_len <= nodes@.len(),
                k < snap_len,
                j <= 6,
                d <= budget,
                c == old(nodes)@[k as int].coord,
                d as int <= old(nodes)@[k as int].cost,
                (#[trigger] nodes@[k as int]).coord == c,
                nodes@[k as int].cost <= d,
                nodes_contain(nodes@, c),
                coord_ok(c),
                nbrs@.len() == 6,
                forall|t: int| 0 <= t < 6 ==> is_adjacent(c, #[trigger] nbrs@[t]),
                forall|b: Axial| is_adjacent(c, b) ==> nbrs@.contains(b),
                forall|i: int|
                    0 <= i < snap_len ==> (#[trigger] nodes@[i]).coord == old(nodes)@[i].coord
                        && nodes@[i].cost <= old(nodes)@[i].cost,
                forall|i: int|
                    0 <= i < k ==> relaxed_from(
                        *g,
                        budget,
                        (#[trigger] old(nodes)@[i]).coord,
                        old(nodes)@[i].cost as int,
                        nodes@,
                    ),
                forall|t: int|
                    0 <= t < j ==> relaxed_nbr(
                        *g,
                        budget,
                        c,
                        d as int,
                        #[trigger] nbrs@[t],
                        nodes@,
                    ),
                !changed ==> nodes@ == old(nodes)@,
            decreases 6 - j,
        {
            let b = nbrs[j];
            let mut mutated = false;
            let ghost prev = nodes@;
            match g.cost_at(b) {
                Some(tc) => {
                    if tc <= budget - d {
                        let nd = d + tc;
                        proof {
                            g.lemma_cost_range(b);
                            g.lemma_contained_coord_ok(b);
                        }
                        match node_find(nodes, b) {
                            None => {
                                let node = ReachNode { coord: b, cost: nd, parent: Some(c) };
                                proof {
                                    lemma_nodes_idx_is(nodes@, c, k as int);
                                    assert(nodes_cost(nodes@, c) <= d);
                                    lemma_push_preserves(*g, origin, budget, nodes@, node);
                                }
                                nodes.push(node);
                                changed = true;
                                mutated = true;
                                proof {
                                    assert(nodes_cost(nodes@, b) == nd);
                                }
                            },
                            Some(bi) => {
                                if nodes[bi].cost > nd {
                                    let node = ReachNode { coord: b, cost: nd, parent: Some(c) };
                                    proof {
                                        lemma_nodes_idx_is(nodes@, c, k as int);
                                        assert(nodes_cost(nodes@, c) <= d);
                                        assert(c != b);
                                        assert(bi as int != k as int);
                                        lemma_update_preserves(
                                            *g,
                                            origin,
                                            budget,
                                            nodes@,
                                            bi as int,
                                            node,
                                        );
                                    }
                                    nodes.set(bi, node);
                                    changed = true;
                                    mutated = true;
                                    proof {
                                        assert(nodes@[bi as int].coord == b);
                                        assert(nodes_contain(nodes@, b));
                                        assert(nodes_cost(nodes@, b) == nd);
                                        assert(nodes@[k as int].coord == c);
                                    }
                                } else {
                                    proof {
                                        lemma_nodes_idx_is(nodes@, b, bi as int);
                                        assert(relaxed_nbr(*g, budget, c, d as int, b, nodes@));
                                    }
                                }
                            },
                        }
                    }
                },
                None => {},
            }
            proof {
                if mutated {
                    assert(dominates(nodes@, prev));
                    assert forall|i: int| 0 <= i < k implies relaxed_from(
                        *g,
                        budget,
                        (#[trigger] old(nodes)@[i]).coord,
                        old(nodes)@[i].cost as int,
                        nodes@,
                    ) by {
                        lemma_relaxed_from_mono(
                            *g,
                            budget,
                            old(nodes)@[i].coord,
                            old(nodes)@[i].cost as int,
                            prev,
                            nodes@,
                        );
                    }
                    assert forall|t: int| 0 <= t < j implies relaxed_nbr(
                        *g,
                        budget,
                        c,
                        d as int,
                        #[trigger] nbrs@[t],
                        nodes@,
                    ) by {
                        lemma_relaxed_nbr_mono(
                            *g,
                            budget,
                            c,
                            d as int,
                            nbrs@[t],
                            prev,
                            nodes@,
                        );
                    }
                    assert(nodes_contain(nodes@, c)) by {
                        assert(nodes_contain(prev, c));
                    }
                }
                assert(relaxed_nbr(*g, budget, c, d as int, nbrs@[j as int], nodes@)) by {
                    if is_adjacent(c, b) && g.cost_of(b) is Some && d + entry_cost(*g, b)
                        <= budget {
                        assert(nodes_contain(nodes@, b) && nodes_cost(nodes@, b) <= d
                            + entry_cost(*g, b));
                    }
                }
            }
            j = j + 1;
        }
        proof {
            assert(relaxed_from(*g, budget, c, d as int, nodes@)) by {
                assert forall|b: Axial| #[trigger] relaxed_nbr(
                    *g,
                    budget,
                    c,
                    d as int,
                    b,
                    nodes@,
                ) by {
                    if is_adjacent(c, b) && g.cost_of(b) is Some && d + entry_cost(*g, b)
                        <= budget {
                        assert(nbrs@.contains(b));
                        let t = choose|t: int| 0 <= t < nbrs@.len() && nbrs@[t] == b;
                        assert(relaxed_nbr(*g, budget, c, d as int, nbrs@[t], nodes@));
                    }
                }
            }
            assert(relaxed_from(
                *g,
                budget,
                old(nodes)@[k as int].coord,
                old(nodes)@[k as int].cost as int,
                nodes@,
            )) by {
                let oc = old(nodes)@[k as int].cost as int;
                assert forall|b: Axial| #[trigger] relaxed_nbr(
                    *g,
                    budget,
                    c,
                    oc,
                    b,
                    nodes@,
                ) by {
                    assert(relaxed_nbr(*g, budget, c, d as int, b, nodes@));
                }
            }
        }
        k = k + 1;
    }
    proof {
        assert(dominates(nodes@, old(nodes)@)) by {
            assert forall|c2: Axial| #[trigger] nodes_contain(old(nodes)@, c2) implies
                nodes_contain(nodes@, c2) && nodes_cost(nodes@, c2) <= nodes_cost(
                old(nodes)@,
                c2,
            ) by {
                lemma_nodes_idx_valid(old(nodes)@, c2);
                let i = nodes_idx(old(nodes)@, c2);
                assert(nodes@[i].coord == c2);
                lemma_nodes_idx_is(nodes@, c2, i);
            }
        }
    }
    changed
}

/// The computed field of movement from an origin within a budget: for
/// every coordinate reachable within the budget, the minimal
/// cumulative cost at which it can be entered, together with the
/// predecessor it was entered from.
pub struct ReachField {
    pub origin: Axial,
    pub budget: u32,
    pub nodes: Vec<ReachNode>,
}

impl ReachField {
    /// Soundness of the table against the grid it was computed from.
    pub open spec fn wf(self, g: Grid) -> bool {
        field_inv(g, self.origin, self.budget, self.nodes@)
    }

    /// Completeness of the table against the grid.
    pub open spec fn full(self, g: Grid) -> bool {
        field_full(g, self.origin, self.budget, self.nodes@)
    }

    /// The field holds the coordinate.
    pub open spec fn spec_contains(self, c: Axial) -> bool {
        nodes_contain(self.nodes@, c)
    }

    /// Recorded minimal cost of entering the coordinate.
    pub open spec fn cost_spec(self, c: Axial) -> int {
        nodes_cost(self.nodes@, c)
    }

    /// Whether the coordinate was found reachable.
    pub fn contains(&self, c: Axial) -> (b: bool)
        ensures
            b == self.spec_contains(c),
    {
        node_find(&self.nodes, c).is_some()
    }

    /// The minimal cost at which the coordinate can be entered, or
    /// `None` if it was not found reachable.
    pub fn cost_to(&self, c: Axial) -> (k: Option<u32>)
        requires
            nodes_distinct(self.nodes@),
        ensures
            match k {
                Some(x) => self.spec_contains(c) && x as int == self.cost_spec(c),
                None => !self.spec_contains(c),
            },
    {
        match node_find(&self.nodes, c) {
            Some(i) => {
                proof {
                    lemma_nodes_idx_is(self.nodes@, c, i as int);
                }
                Some(self.nodes[i].cost)
            },
            None => None,
        }
    }

    /// The predecessor recorded for a reachable coordinate: absent
    /// for the origin and for coordinates the field does not hold.
    pub fn parent_to(&self, c: Axial) -> (res: Option<Axial>)
        requires
            nodes_distinct(self.nodes@),
        ensures
            res == if self.spec_contains(c) {
                nodes_parent(self.nodes@, c)
            } else {
                None::<Axial>
            },
    {
        match node_find(&self.nodes, c) {
            Some(i) => {
                proof {
                    lemma_nodes_idx_is(self.nodes@, c, i as int);
                }
                self.nodes[i].parent
            },
            None => None,
        }
    }

    /// The handle belongs to a grid tile this field found reachable.
    #[verifier::opaque]
    pub open spec fn reachable_handle(self, g: Grid, h: u64) -> bool {
        exists|c: Axial|
            self.spec_contains(c) && g.spec_contains(c) && g.handle_of(c) == h
    }

    /// The reachable set as external handles: the handle of every
    /// reachable coordinate the grid holds, for the presentation
    /// layer to highlight. The origin appears only when it is itself
    /// a grid tile; coordinates outside the grid have no handle.
    pub fn handles(&self, g: &Grid) -> (hs: Vec<u64>)
        requires
            g.wf(),
            self.wf(*g),
        ensures
            forall|k: int|
                0 <= k < hs@.len() ==> self.reachable_handle(*g, #[trigger] hs@[k]),
            forall|c: Axial|
                self.spec_contains(c) && #[trigger] g.spec_contains(c) ==> hs@.contains(
                    g.handle_of(c),
                ),
    {
        let mut hs: Vec<u64> = Vec::new();
        let ghost mut ws: Seq<Axial> = Seq::empty();
        let n = self.nodes.len();
        let mut i: usize = 0;
        while i < n
            invariant
                g.wf(),
                self.wf(*g),
                n == self.nodes@.len(),
                i <= n,
                ws.len() == hs@.len(),
                forall|k: int| #![trigger ws[k]]
                    0 <= k < ws.len() ==> self.spec_contains(ws[k]) && g.spec_contains(ws[k])
                        && g.handle_of(ws[k]) == hs@[k],
                forall|t: int|
                    0 <= t < i && g.spec_contains((#[trigger] self.nodes@[t]).coord)
                        ==> hs@.contains(g.handle_of(self.nodes@[t].coord)),
            decreases n - i,
        {
            let c = self.nodes[i].coord;
            let ghost pre = hs@;
            match g.handle_at(c) {
                Some(h) => {
                    proof {
                        assert(nodes_contain(self.nodes@, c)) by {
                            assert(self.nodes@[i as int].coord == c);
                        }
                    }
                    hs.push(h);
                    proof {
                        ws = ws.push(c);
                        assert(ws.last() == c);
                        assert forall|t: int|
                            0 <= t < i + 1 && g.spec_contains(
                                (#[trigger] self.nodes@[t]).coord,
                            ) implies hs@.contains(g.handle_of(self.nodes@[t].coord)) by {
                            if t < i {
                                let x = g.handle_of(self.nodes@[t].coord);
                                assert(pre.contains(x));
                                let k = choose|k: int| 0 <= k < pre.len() && pre[k] == x;
                                assert(hs@[k] == x);
                            } else {
                                assert(hs@[hs@.len() - 1] == h);
                            }
                        }
                    }
                },
                None => {},
            }
            i = i + 1;
        }
        proof {
            assert forall|k: int|
                0 <= k < hs@.len() implies self.reachable_handle(*g, #[trigger] hs@[k]) by {
                reveal(ReachField::reachable_handle);
                assert(self.spec_contains(ws[k]) && g.spec_contains(ws[k]) && g.handle_of(ws[k])
                    == hs@[k]);
            }
            assert forall|c: Axial|
                self.spec_contains(c) && #[trigger] g.spec_contains(c) implies hs@.contains(
                g.handle_of(c),
            ) by {
                lemma_nodes_idx_valid(self.nodes@, c);
                let t = nodes_idx(self.nodes@, c);
                assert(self.nodes@[t].coord == c);
            }
        }
        hs
    }

    /// All reachable coordinates, in discovery order.
    pub fn coords(&self) -> (cs: Vec<Axial>)
        ensures
            cs@.len() == self.nodes@.len(),
            forall|i: int| 0 <= i < cs@.len() ==> cs@[i] == (#[trigger] self.nodes@[i]).coord,
    {
        let mut cs: Vec<Axial> = Vec::new();
        let n = self.nodes.len();
        let mut i: usize = 0;
        while i < n
            invariant
                n == self.nodes@.len(),
                i <= n,
                cs@.len() == i,
                forall|t: int| 0 <= t < i ==> cs@[t] == (#[trigger] self.nodes@[t]).coord,
            decreases n - i,
        {
            cs.push(self.nodes[i].coord);
            i = i + 1;
        }
        cs
    }
}

/// Compute the field of movement: a cost-bounded breadth expansion
/// from the origin. Sound and complete: a coordinate is in the result
/// exactly when some walk from the origin reaches it within the
/// budget, and its recorded cost is the minimum over all such walks.
pub fn compute(g: &Grid, origin: Axial, budget: u32) -> (f: ReachField)
    requires
        g.wf(),
        coord_ok(origin),
    ensures
        f.origin == origin,
        f.budget == budget,
        f.wf(*g),
        f.full(*g),
{
    let mut nodes: Vec<ReachNode> = Vec::new();
    nodes.push(ReachNode { coord: origin, cost: 0, parent: None });
    proof {
        assert(field_inv(*g, origin, budget, nodes@));
        lemma_covers_zero(*g, origin, budget, nodes@);
    }
    let mut round: u32 = 0;
    let mut finished = false;
    while round < budget && !finished
        invariant
            g.wf(),
            coord_ok(origin),
            field_inv(*g, origin, budget, nodes@),
            round <= budget,
            covers_to(*g, origin, budget, nodes@, round as int),
            finished ==> stable(*g, budget, nodes@),
        decreases 2 * (budget - round) + (if finished { 0int } else { 1 }),
    {
        let ghost before = nodes@;
        let changed = relax_round(g, origin, budget, &mut nodes);
        proof {
            lemma_covers_step(*g, origin, budget, before, nodes@, round as int);
        }
        if changed {
            round = round + 1;
        } else {
            proof {
                assert(nodes@ == before);
            }
            finished = true;
        }
    }
    proof {
        if finished {
            lemma_stable_full(*g, origin, budget, nodes@);
        } else {
            assert(round == budget);
            lemma_covers_full(*g, origin, budget, nodes@);
        }
    }
    ReachField { origin, budget, nodes }
}

/// The hex distance is an admissible estimate of travel cost: no
/// walk between two coordinates costs less than the distance between
/// them, because a walk of `k` steps spans at most distance `k` and
/// every step costs at least one point.
pub proof fn lemma_distance_admissible(g: Grid, p: Seq<Axial>)
    requires
        valid_path(g, p),
    ensures
        hex_dist(p.first(), p.last()) <= path_cost(g, p),
    decreases p.len(),
{
    if p.len() <= 1 {
        crate::hex::lemma_distance_symmetry(p.first(), p.last());
    } else {
        lemma_valid_path_prefix(g, p);
        lemma_distance_admissible(g, p.drop_last());
        crate::hex::lemma_step_dist(p.first(), p.drop_last().last(), p.last());
        g.lemma_cost_range(p.last());
        assert(p.drop_last().last() == p[p.len() - 2]);
        assert(is_adjacent(p[p.len() - 2], p[p.len() - 1]));
    }
}

/// Reachability monotonicity at the level of computed fields: of two
/// fields computed from the same origin over the same grid, the one
/// with the smaller budget holds a subset of the coordinates of the
/// other.
pub proof fn lemma_field_monotone(f1: ReachField, f2: ReachField, g: Grid, c: Axial)
    requires
        f1.wf(g),
        f1.full(g),
        f2.wf(g),
        f2.full(g),
        f1.origin == f2.origin,
        f1.budget <= f2.budget,
        f1.spec_contains(c),
    ensures
        f2.spec_contains(c),
{
    lemma_field_characterizes(f1, g, c);
    lemma_reach_monotone(g, f1.origin, f1.budget as int, f2.budget as int, c);
    lemma_field_characterizes(f2, g, c);
}

/// Every coordinate a sound field holds is within engine bounds, and
/// is the origin or a grid tile.
pub proof fn lemma_field_coord_ok(f: ReachField, g: Grid, c: Axial)
    requires
        f.wf(g),
        f.spec_contains(c),
    ensures
        coord_ok(c),
        c == f.origin || g.spec_contains(c),
{
    lemma_nodes_idx_valid(f.nodes@, c);
    let i = nodes_idx(f.nodes@, c);
    assert(node_sound(g, f.origin, f.budget, f.nodes@, f.nodes@[i]));
}

/// What the computed field means: a coordinate is in the field
/// exactly when it is reachable within the budget, and its recorded
/// cost is both witnessed by a walk and minimal among in-budget walks.
pub proof fn lemma_field_characterizes(f: ReachField, g: Grid, c: Axial)
    requires
        f.wf(g),
        f.full(g),
    ensures
        f.spec_contains(c) <==> reach_spec(g, f.origin, f.budget as int, c),
        f.spec_contains(c) ==> 0 <= f.cost_spec(c) <= f.budget,
        f.spec_contains(c) ==> reach_spec(g, f.origin, f.cost_spec(c), c),
        f.spec_contains(c) ==> forall|p: Seq<Axial>|
            #[trigger] is_route(g, f.origin, c, p) && path_cost(g, p) <= f.budget ==> f.cost_spec(
                c,
            ) <= path_cost(g, p),
{
    if f.spec_contains(c) {
        lemma_field_sound(g, f.origin, f.budget, f.nodes@, c);
        lemma_reach_monotone(g, f.origin, f.cost_spec(c), f.budget as int, c);
        assert forall|p: Seq<Axial>|
            #[trigger] is_route(g, f.origin, c, p) && path_cost(g, p)
                <= f.budget implies f.cost_spec(c) <= path_cost(g, p) by {
            assert(valid_path(g, p));
        }
    }
    if reach_spec(g, f.origin, f.budget as int, c) {
        let p = choose|p: Seq<Axial>|
            #[trigger] is_route(g, f.origin, c, p) && path_cost(g, p) <= f.budget;
        assert(valid_path(g, p));
        assert(nodes_contain(f.nodes@, p.last()));
    }
}

} // verus!
