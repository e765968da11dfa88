use hex_engine::grid::{generate, Grid};
use hex_engine::hex::{distance, Axial};
use hex_engine::reach::compute;
use hex_engine::terrain::Biome;

fn ax(q: i32, r: i32) -> Axial {
    Axial::new(q, r)
}

fn ring(dist: i32) -> Vec<Axial> {
    let mut out = Vec::new();
    for q in -dist..=dist {
        for r in -dist..=dist {
            let c = ax(q, r);
            if distance(ax(0, 0), c) == dist as u64 {
                out.push(c);
            }
        }
    }
    out
}

#[test]
fn origin_reachable_even_on_impassable_tile() {
    let mut g = generate(2, Biome::Plains);
    assert!(g.set_biome(ax(0, 0), Biome::Mountain));
    let f = compute(&g, ax(0, 0), 5);
    assert!(f.contains(ax(0, 0)));
    assert_eq!(f.cost_to(ax(0, 0)), Some(0));
}

#[test]
fn origin_reachable_with_budget_zero() {
    let g = generate(2, Biome::Plains);
    let f = compute(&g, ax(0, 0), 0);
    assert!(f.contains(ax(0, 0)));
    assert_eq!(f.coords().len(), 1);
}

#[test]
fn uniform_costs_match_distance() {
    let g = generate(2, Biome::Plains);
    let f = compute(&g, ax(0, 0), 2);
    assert_eq!(f.coords().len(), 19);
    for c in f.coords() {
        assert_eq!(f.cost_to(c), Some(distance(ax(0, 0), c) as u32));
    }
}

#[test]
fn budget_one_reaches_only_neighbors() {
    let g = generate(2, Biome::Plains);
    let f = compute(&g, ax(0, 0), 1);
    assert_eq!(f.coords().len(), 7);
    assert!(f.contains(ax(1, 0)));
    assert!(!f.contains(ax(2, 0)));
}

#[test]
fn smaller_budget_field_is_subset() {
    let mut g = generate(3, Biome::Plains);
    assert!(g.set_biome(ax(1, 0), Biome::Forest));
    assert!(g.set_biome(ax(0, 1), Biome::Snow));
    assert!(g.set_biome(ax(-1, 0), Biome::Mountain));
    let origin = ax(0, 0);
    for (b1, b2) in [(0u32, 1u32), (1, 2), (2, 3), (0, 3), (3, 6)] {
        let f1 = compute(&g, origin, b1);
        let f2 = compute(&g, origin, b2);
        for c in f1.coords() {
            assert!(f2.contains(c), "budget {} field must contain what budget {} reaches", b2, b1);
        }
    }
}

#[test]
fn wall_with_gap_limits_field() {
    let mut g = generate(2, Biome::Plains);
    for c in ring(1) {
        if c != ax(1, 0) {
            assert!(g.set_biome(c, Biome::Mountain));
        }
    }
    let f = compute(&g, ax(0, 0), 2);
    let mut got: Vec<Axial> = f.coords();
    got.sort_by_key(|c| (c.q, c.r));
    let mut expected = vec![ax(0, 0), ax(1, 0), ax(2, 0), ax(2, -1), ax(1, 1)];
    expected.sort_by_key(|c| (c.q, c.r));
    assert_eq!(got, expected);
}

#[test]
fn field_records_cheapest_detour() {
    let mut g = generate(2, Biome::Plains);
    assert!(g.set_biome(ax(1, 0), Biome::Snow));
    let f = compute(&g, ax(0, 0), 7);
    // Entering the snow tile directly costs 6; going around it keeps
    // the rest of the field at plain rates.
    assert_eq!(f.cost_to(ax(1, 0)), Some(6));
    assert_eq!(f.cost_to(ax(2, 0)), Some(3));
    assert_eq!(f.cost_to(ax(2, -1)), Some(2));
}

#[test]
fn absent_coordinate_is_never_reachable() {
    let g = generate(1, Biome::Plains);
    let f = compute(&g, ax(0, 0), 100);
    assert!(!f.contains(ax(2, 0)));
    assert_eq!(f.cost_to(ax(2, 0)), None);
    assert_eq!(f.coords().len(), 7);
}

#[test]
fn handles_mirror_reachable_coords() {
    let mut g = generate(2, Biome::Plains);
    assert!(g.set_biome(ax(1, 0), Biome::Mountain));
    let f = compute(&g, ax(0, 0), 1);
    let mut hs = f.handles(&g);
    let mut expected: Vec<u64> = f
        .coords()
        .into_iter()
        .filter_map(|c| g.handle_at(c))
        .collect();
    hs.sort();
    expected.sort();
    assert_eq!(hs, expected);
    assert_eq!(hs.len(), 6, "origin plus five passable neighbors");
}

fn impassable_count(g: &Grid, coords: &[Axial]) -> usize {
    coords.iter().filter(|c| g.cost_at(**c).is_none()).count()
}

#[test]
fn parents_walk_back_to_origin() {
    let g = generate(2, Biome::Plains);
    assert_eq!(impassable_count(&g, &ring(1)), 0);
    let f = compute(&g, ax(0, 0), 2);
    let mut cur = ax(2, -2);
    let mut steps = 0;
    while cur != ax(0, 0) {
        assert!(steps <= 2, "parent chain should reach the origin within the budget");
        cur = f.parent_to(cur).expect("every non-origin field entry has a parent");
        steps += 1;
    }
}
