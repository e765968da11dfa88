//! Cost-constrained pathfinding with a nearest-reachable-tile
//! fallback: return a minimal-cost in-budget route to the goal when
//! one exists, and otherwise walk a best-effort route toward the goal
//! and truncate it at the last coordinate still reachable within the
//! budget, so that a unit always moves as far as possible toward its
//! target whenever any progress is possible.

use vstd::prelude::*;

use crate::grid::{Cell, Grid};
use crate::hex::{coord_ok, is_adjacent, Axial};
use crate::reach::{compute, entry_cost, is_route, lemma_field_characterizes,
    lemma_nodes_idx_is, lemma_nodes_idx_valid, lemma_origin_always_reachable,
    lemma_path_cost_min_len, lemma_valid_path_prefix, node_sound, nodes_idx, path_cost,
    reach_spec, valid_path, ReachField};

verus! {

/// Some walk leads from `o` to `c`, whatever it costs.
pub open spec fn goal_attainable(g: Grid, o: Axial, c: Axial) -> bool {
    exists|p: Seq<Axial>| is_route(g, o, c, p)
}

/// Putting a coordinate in front of a walk whose head it can legally
/// step to gives a walk, and adds the old head's entry cost.
pub proof fn lemma_path_cost_prepend(g: Grid, c: Axial, p: Seq<Axial>)
    requires
        valid_path(g, p),
        is_adjacent(c, p.first()),
        g.cost_of(p.first()) is Some,
    ensures
        valid_path(g, seq![c] + p),
        (seq![c] + p).first() == c,
        (seq![c] + p).last() == p.last(),
        path_cost(g, seq![c] + p) == path_cost(g, p) + entry_cost(g, p.first()),
    decreases p.len(),
{
    let p2 = seq![c] + p;
    assert forall|i: int| 1 <= i < p2.len() implies is_adjacent(p2[i - 1], #[trigger] p2[i])
        && g.cost_of(p2[i]) is Some by {
        if i == 1 {
            assert(p2[0] == c);
            assert(p2[1] == p[0]);
        } else {
            assert(p2[i] == p[i - 1]);
            assert(p2[i - 1] == p[i - 2]);
        }
    }
    if p.len() == 1 {
        assert(p2.drop_last() =~= seq![c]);
        assert(p2.last() == p[0]);
        assert(path_cost(g, p2.drop_last()) == 0);
        assert(path_cost(g, p2) == path_cost(g, p2.drop_last()) + entry_cost(g, p2.last()));
        assert(path_cost(g, p) == 0);
    } else {
        lemma_valid_path_prefix(g, p);
        assert(p.drop_last().first() == p.first());
        lemma_path_cost_prepend(g, c, p.drop_last());
        assert(p2.drop_last() =~= seq![c] + p.drop_last());
        assert(p2.last() == p.last());
        assert(path_cost(g, p2) == path_cost(g, p2.drop_last()) + entry_cost(g, p2.last()));
        assert(path_cost(g, p2.drop_last()) == path_cost(g, p.drop_last()) + entry_cost(
            g,
            p.first(),
        ));
        assert(path_cost(g, p) == path_cost(g, p.drop_last()) + entry_cost(g, p.last()));
    }
}

/// No entry costs more than six points, so a walk's cumulative cost
/// is at most six times its step count.
pub proof fn lemma_path_cost_max(g: Grid, p: Seq<Axial>)
    requires
        valid_path(g, p),
    ensures
        path_cost(g, p) <= 6 * (p.len() - 1),
    decreases p.len(),
{
    if p.len() >= 2 {
        lemma_valid_path_prefix(g, p);
        lemma_path_cost_max(g, p.drop_last());
        g.lemma_cost_range(p.last());
    }
}

/// Any walk between two coordinates can be shortened, by cutting
/// loops, to one visiting each grid cell at most once; such a walk
/// costs at most six points per cell of the grid. So whenever the
/// goal is attainable at all, it is attainable within that budget.
#[verifier::rlimit(100)]
pub proof fn lemma_route_shrink(g: Grid, o: Axial, c: Axial, p: Seq<Axial>)
    requires
        g.wf(),
        is_route(g, o, c, p),
    ensures
        reach_spec(g, o, 6 * g.cells@.len() as int, c),
    decreases p.len(),
{
    let n = g.cells@.len() as int;
    if p.len() <= n + 1 {
        lemma_path_cost_max(g, p);
        assert(is_route(g, o, c, p) && path_cost(g, p) <= 6 * n);
    } else {
        let tail = p.subrange(1, p.len() as int);
        let coords_seq = g.cells@.map_values(|cl: Cell| cl.coord);
        assert forall|x: Axial| tail.to_set().contains(x) implies coords_seq.to_set().contains(
            x,
        ) by {
            let i = choose|i: int| 0 <= i < tail.len() && tail[i] == x;
            assert(tail[i] == p[1 + i]);
            assert(g.cost_of(p[1 + i]) is Some);
            assert(g.spec_contains(x));
            g.lemma_idx_of_valid(x);
            let j = g.idx_of(x);
            assert(coords_seq[j] == x);
            assert(coords_seq.contains(x));
        }
        coords_seq.lemma_cardinality_of_set();
        vstd::seq_lib::seq_to_set_is_finite(coords_seq);
        vstd::set_lib::lemma_len_subset(tail.to_set(), coords_seq.to_set());
        if tail.no_duplicates() {
            tail.unique_seq_to_set();
            assert(false);
        }
        let (a0, b0) = choose|i: int, j: int|
            0 <= i < tail.len() && 0 <= j < tail.len() && i != j && tail[i] == tail[j];
        let a = if a0 < b0 {
            a0
        } else {
            b0
        };
        let b = if a0 < b0 {
            b0
        } else {
            a0
        };
        let pi = 1 + a;
        let pj = 1 + b;
        assert(p[pi] == p[pj]);
        let p2 = p.subrange(0, pi) + p.subrange(pj, p.len() as int);
        assert(p2.len() == pi + p.len() - pj);
        assert forall|k: int| 1 <= k < p2.len() implies is_adjacent(p2[k - 1], #[trigger] p2[k])
            && g.cost_of(p2[k]) is Some by {
            if k < pi {
                assert(p2[k] == p[k]);
                assert(p2[k - 1] == p[k - 1]);
                assert(is_adjacent(p[k - 1], p[k]));
            } else if k == pi {
                assert(p2[k - 1] == p[pi - 1]);
                assert(p2[k] == p[pj]);
                assert(is_adjacent(p[pi - 1], p[pi]));
            } else {
                assert(p2[k] == p[pj + (k - pi)]);
                assert(p2[k - 1] == p[pj + (k - 1 - pi)]);
                assert(is_adjacent(p[pj + k - pi - 1], p[pj + k - pi]));
            }
        }
        assert(p2.first() == p[0]);
        assert(p2.last() == p[p.len() - 1]);
        assert(is_route(g, o, c, p2));
        lemma_route_shrink(g, o, c, p2);
    }
}

/// Reconstruct, by following recorded predecessors, a walk from the
/// field's origin to a coordinate the field holds. Its cumulative
/// cost is within the recorded (minimal) cost of that coordinate.
#[verifier::rlimit(100)]
fn extract_path(g: &Grid, f: &ReachField, target: Axial) -> (p: Vec<Axial>)
    requires
        g.wf(),
        f.wf(*g),
        f.spec_contains(target),
    ensures
        valid_path(*g, p@),
        p@.first() == f.origin,
        p@.last() == target,
        path_cost(*g, p@) <= f.cost_spec(target),
{
    let mut rev: Vec<Axial> = Vec::new();
    rev.push(target);
    let mut cur = target;
    let ghost mut fwd: Seq<Axial> = seq![target];
    while !(cur == f.origin)
        invariant
            g.wf(),
            f.wf(*g),
            f.spec_contains(cur),
            valid_path(*g, fwd),
            fwd.first() == cur,
            fwd.last() == target,
            path_cost(*g, fwd) + f.cost_spec(cur) <= f.cost_spec(target),
            fwd == rev@.reverse(),
        decreases f.cost_spec(cur),
    {
        proof {
            lemma_nodes_idx_valid(f.nodes@, cur);
            let i = nodes_idx(f.nodes@, cur);
            assert(node_sound(*g, f.origin, f.budget, f.nodes@, f.nodes@[i]));
            lemma_nodes_idx_is(f.nodes@, cur, i);
        }
        let par = match f.parent_to(cur) {
            Some(x) => x,
            None => {
                proof {
                    assert(false);
                }
                cur
            },
        };
        proof {
            lemma_nodes_idx_valid(f.nodes@, par);
            let ip = nodes_idx(f.nodes@, par);
            lemma_nodes_idx_is(f.nodes@, par, ip);
            lemma_path_cost_prepend(*g, par, fwd);
            let ghost old_fwd = fwd;
            fwd = seq![par] + fwd;
            assert(fwd.reverse() =~= old_fwd.reverse().push(par));
            assert(fwd =~= rev@.push(par).reverse());
        }
        rev.push(par);
        cur = par;
    }
    let mut p: Vec<Axial> = Vec::new();
    let n = rev.len();
    proof {
        assert(rev@.reverse().len() == n);
    }
    let mut t: usize = 0;
    while t < n
        invariant
            n == rev@.len(),
            t <= n,
            p@.len() == t,
            forall|u: int| 0 <= u < t ==> p@[u] == rev@[n - 1 - u],
        decreases n - t,
    {
        p.push(rev[n - 1 - t]);
        t = t + 1;
    }
    proof {
        assert(p@ =~= rev@.reverse());
    }
    p
}

/// Cost-aware route search. If the goal can be entered within the
/// budget, the result is a minimal-cost route from `start` to `goal`
/// whose cumulative cost fits the budget. Otherwise, if the goal can
/// be walked to at all, the result is a minimal-cost in-budget route
/// to the last still-reachable coordinate of a best-effort route
/// toward the goal. Only a goal no walk can reach yields `None`.
/// `start == goal` always yields the one-tile route, and with budget
/// zero only `start` itself is ever returned.
pub fn find_path(g: &Grid, start: Axial, goal: Axial, budget: u32) -> (r: Option<Vec<Axial>>)
    requires
        g.wf(),
        coord_ok(start),
    ensures
        r is None <==> (start != goal && !goal_attainable(*g, start, goal)),
        r matches Some(p) ==> {
            &&& valid_path(*g, p@)
            &&& p@.first() == start
            &&& path_cost(*g, p@) <= budget as int
            &&& reach_spec(*g, start, budget as int, p@.last())
            &&& forall|q: Seq<Axial>|
                #[trigger] is_route(*g, start, p@.last(), q) && path_cost(*g, q) <= budget as int
                    ==> path_cost(*g, p@) <= path_cost(*g, q)
            &&& reach_spec(*g, start, budget as int, goal) ==> p@.last() == goal
            &&& !reach_spec(*g, start, budget as int, goal) ==> exists|route: Seq<Axial>, i: int|
                is_route(*g, start, goal, route) && 0 <= i < route.len() && (
                #[trigger] route[i]) == p@.last() && (forall|t: int|
                    i < t < route.len() ==> !reach_spec(*g, start, budget as int, route[t]))
        },
{
    if start == goal {
        let mut p: Vec<Axial> = Vec::new();
        p.push(start);
        proof {
            assert(valid_path(*g, p@));
            lemma_origin_always_reachable(*g, start, budget as int);
            assert forall|q: Seq<Axial>|
                #[trigger] is_route(*g, start, p@.last(), q) && path_cost(*g, q)
                    <= budget as int implies path_cost(*g, p@) <= path_cost(*g, q) by {
                lemma_path_cost_min_len(*g, q);
            }
        }
        return Some(p);
    }
    let f = compute(g, start, budget);
    proof {
        lemma_field_characterizes(f, *g, goal);
    }
    if f.contains(goal) {
        let p = extract_path(g, &f, goal);
        proof {
            assert(goal_attainable(*g, start, goal)) by {
                let q = choose|q: Seq<Axial>|
                    #[trigger] is_route(*g, start, goal, q) && path_cost(*g, q) <= f.cost_spec(
                        goal,
                    );
                assert(is_route(*g, start, goal, q));
            }
            assert forall|q: Seq<Axial>|
                #[trigger] is_route(*g, start, goal, q) && path_cost(*g, q)
                    <= budget as int implies path_cost(*g, p@) <= path_cost(*g, q) by {}
        }
        return Some(p);
    }
    let cells = g.cell_count();
    let cap: u32 = 6 * (cells as u32);
    let far = compute(g, start, cap);
    proof {
        lemma_field_characterizes(far, *g, goal);
    }
    if !far.contains(goal) {
        proof {
            if goal_attainable(*g, start, goal) {
                let q = choose|q: Seq<Axial>| is_route(*g, start, goal, q);
                lemma_route_shrink(*g, start, goal, q);
            }
        }
        return None;
    }
    let route = extract_path(g, &far, goal);
    let mut i: usize = route.len() - 1;
    while !f.contains(route[i])
        invariant
            g.wf(),
            f.wf(*g),
            f.full(*g),
            0 <= i < route@.len(),
            f.origin == start,
            f.budget == budget,
            route@.first() == start,
            f.spec_contains(start),
            forall|t: int| i < t < route@.len() ==> !f.spec_contains(#[trigger] route@[t]),
        decreases i,
    {
        proof {
            if i == 0 {
                assert(f.spec_contains(route@[0]));
            }
        }
        i = i - 1;
    }
    let cut = route[i];
    let p = extract_path(g, &f, cut);
    proof {
        lemma_field_characterizes(f, *g, cut);
        assert forall|q: Seq<Axial>|
            #[trigger] is_route(*g, start, cut, q) && path_cost(*g, q)
                <= budget as int implies path_cost(*g, p@) <= path_cost(*g, q) by {}
        assert forall|t: int| i < t < route@.len() implies !reach_spec(
            *g,
            start,
            budget as int,
            #[trigger] route@[t],
        ) by {
            lemma_field_characterizes(f, *g, route@[t]);
        }
        assert(is_route(*g, start, goal, route@) && 0 <= i < route@.len() && route@[i as int]
            == p@.last() && (forall|t: int|
            i < t < route@.len() ==> !reach_spec(*g, start, budget as int, route@[t])));
    }
    Some(p)
}

} // verus!
