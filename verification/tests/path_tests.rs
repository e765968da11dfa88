use hex_engine::grid::{generate, Grid};
use hex_engine::hex::{distance, Axial};
use hex_engine::path::find_path;
use hex_engine::reach::compute;
use hex_engine::terrain::Biome;

fn ax(q: i32, r: i32) -> Axial {
    Axial::new(q, r)
}

fn ring(dist: i32) -> Vec<Axial> {
    let mut out = Vec::new();
    for q in -dist..=dist {
        for r in -dist..=dist {
            let c = ax(q, r);
            if distance(ax(0, 0), c) == dist as u64 {
                out.push(c);
            }
        }
    }
    out
}

fn cost_of_path(g: &Grid, p: &[Axial]) -> u32 {
    p.iter().skip(1).map(|c| g.cost_at(*c).expect("path steps onto passable tiles")).sum()
}

fn assert_steps_adjacent(p: &[Axial]) {
    for w in p.windows(2) {
        assert_eq!(distance(w[0], w[1]), 1, "consecutive path coordinates must be neighbors");
    }
}

#[test]
fn start_equals_goal_gives_single_tile() {
    let g = generate(2, Biome::Plains);
    let p = find_path(&g, ax(1, 0), ax(1, 0), 5).unwrap();
    assert_eq!(p, vec![ax(1, 0)]);
}

#[test]
fn straight_reach_within_budget() {
    let g = generate(2, Biome::Plains);
    let p = find_path(&g, ax(0, 0), ax(2, 0), 2).unwrap();
    assert_eq!(p.first(), Some(&ax(0, 0)));
    assert_eq!(p.last(), Some(&ax(2, 0)));
    assert_eq!(p.len(), 3);
    assert_steps_adjacent(&p);
    assert_eq!(cost_of_path(&g, &p), 2);
}

#[test]
fn budget_zero_returns_start_only() {
    let g = generate(2, Biome::Plains);
    let p = find_path(&g, ax(0, 0), ax(1, 0), 0).unwrap();
    assert_eq!(p, vec![ax(0, 0)]);
}

#[test]
fn over_budget_path_is_truncated() {
    let g = generate(3, Biome::Plains);
    let budget = 2;
    let p = find_path(&g, ax(0, 0), ax(3, 0), budget).unwrap();
    let last = *p.last().unwrap();
    assert_steps_adjacent(&p);
    assert!(cost_of_path(&g, &p) <= budget);
    assert_eq!(distance(ax(0, 0), last), 2);
    assert_eq!(distance(last, ax(3, 0)), 1);
}

#[test]
fn path_never_exceeds_budget() {
    let mut g = generate(3, Biome::Plains);
    assert!(g.set_biome(ax(1, 0), Biome::Forest));
    assert!(g.set_biome(ax(2, 0), Biome::Desert));
    assert!(g.set_biome(ax(0, 1), Biome::Snow));
    for budget in 0..8u32 {
        for goal in [ax(3, 0), ax(0, 3), ax(-3, 3), ax(2, -2)] {
            if let Some(p) = find_path(&g, ax(0, 0), goal, budget) {
                assert_steps_adjacent(&p);
                assert!(cost_of_path(&g, &p) <= budget);
            }
        }
    }
}

#[test]
fn impassable_goal_gives_none() {
    let mut g = generate(2, Biome::Plains);
    assert!(g.set_biome(ax(2, 0), Biome::DeepWater));
    assert_eq!(find_path(&g, ax(0, 0), ax(2, 0), 10), None);
}

#[test]
fn goal_outside_grid_gives_none() {
    let g = generate(2, Biome::Plains);
    assert_eq!(find_path(&g, ax(0, 0), ax(5, 0), 10), None);
}

#[test]
fn enclosed_origin_gives_none() {
    let mut g = generate(2, Biome::Plains);
    for c in ring(1) {
        assert!(g.set_biome(c, Biome::Mountain));
    }
    assert_eq!(find_path(&g, ax(0, 0), ax(2, 0), 10), None);
}

#[test]
fn path_threads_through_gap() {
    let mut g = generate(2, Biome::Plains);
    for c in ring(1) {
        if c != ax(1, 0) {
            assert!(g.set_biome(c, Biome::Mountain));
        }
    }
    let p = find_path(&g, ax(0, 0), ax(1, 1), 2).unwrap();
    assert_eq!(p, vec![ax(0, 0), ax(1, 0), ax(1, 1)]);
}

#[test]
fn ring_scenario_truncates_at_gap() {
    // Three-ring grid, every tile costing one, except an impassable
    // ring at distance two with one gap. From the origin with budget
    // two, the field is the distance-one disc plus the gap tile, and
    // a move ordered to a tile at distance three is truncated at the
    // gap: the last reachable tile on the way out.
    let mut g = generate(3, Biome::Plains);
    let gap = ax(2, 0);
    for c in ring(2) {
        if c != gap {
            assert!(g.set_biome(c, Biome::Mountain));
        }
    }
    let f = compute(&g, ax(0, 0), 2);
    let mut got = f.coords();
    got.sort_by_key(|c| (c.q, c.r));
    let mut expected = vec![
        ax(0, 0),
        ax(1, 0),
        ax(1, -1),
        ax(0, -1),
        ax(-1, 0),
        ax(-1, 1),
        ax(0, 1),
        gap,
    ];
    expected.sort_by_key(|c| (c.q, c.r));
    assert_eq!(got, expected);

    let p = find_path(&g, ax(0, 0), ax(3, 0), 2).unwrap();
    assert_steps_adjacent(&p);
    assert!(cost_of_path(&g, &p) <= 2);
    assert_eq!(*p.last().unwrap(), gap);
}

#[test]
fn ring_scenario_full_encirclement_gives_none() {
    let mut g = generate(3, Biome::Plains);
    for c in ring(2) {
        assert!(g.set_biome(c, Biome::Mountain));
    }
    assert_eq!(find_path(&g, ax(0, 0), ax(3, 0), 2), None);
}

#[test]
fn minimal_cost_route_preferred() {
    // Entering the snow tile costs six; the route around it is
    // cheaper and must be the one returned.
    let mut g = generate(2, Biome::Plains);
    assert!(g.set_biome(ax(1, 0), Biome::Snow));
    let p = find_path(&g, ax(0, 0), ax(2, 0), 7).unwrap();
    assert_eq!(cost_of_path(&g, &p), 3);
    assert!(!p.contains(&ax(1, 0)));
}
