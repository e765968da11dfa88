use hex_engine::grid::generate;
use hex_engine::hex::{distance, Axial};
use hex_engine::terrain::{Biome, Tile};

fn ax(q: i32, r: i32) -> Axial {
    Axial::new(q, r)
}

#[test]
fn distance_to_self_is_zero() {
    assert_eq!(distance(ax(0, 0), ax(0, 0)), 0);
    assert_eq!(distance(ax(3, -7), ax(3, -7)), 0);
    assert_eq!(distance(ax(-80, 80), ax(-80, 80)), 0);
}

#[test]
fn distance_to_each_neighbor_is_one() {
    let c = ax(2, -1);
    let offsets = [(1, 0), (1, -1), (0, -1), (-1, 0), (-1, 1), (0, 1)];
    for (dq, dr) in offsets {
        assert_eq!(distance(c, ax(2 + dq, -1 + dr)), 1);
    }
}

#[test]
fn distance_exact_values() {
    assert_eq!(distance(ax(0, 0), ax(2, -1)), 2);
    assert_eq!(distance(ax(0, 0), ax(3, -3)), 3);
    assert_eq!(distance(ax(0, 0), ax(2, 2)), 4);
    assert_eq!(distance(ax(-2, 1), ax(1, 1)), 3);
    assert_eq!(distance(ax(-1, -1), ax(1, 1)), 4);
}

#[test]
fn distance_is_symmetric() {
    let pairs = [
        (ax(0, 0), ax(5, -2)),
        (ax(-3, 1), ax(4, 4)),
        (ax(7, -9), ax(-7, 9)),
        (ax(1, 0), ax(0, 1)),
    ];
    for (a, b) in pairs {
        assert_eq!(distance(a, b), distance(b, a));
    }
}

#[test]
fn biome_costs_match_table() {
    assert_eq!(Biome::Mountain.cost(), None);
    assert_eq!(Biome::Plains.cost(), Some(1));
    assert_eq!(Biome::Forest.cost(), Some(2));
    assert_eq!(Biome::Desert.cost(), Some(3));
    assert_eq!(Biome::ShallowWater.cost(), Some(4));
    assert_eq!(Biome::DeepWater.cost(), None);
    assert_eq!(Biome::Snow.cost(), Some(6));
}

#[test]
fn tile_cost_follows_biome() {
    assert_eq!(Tile::new(Biome::Forest).cost(), Some(2));
    assert_eq!(Tile::new(Biome::DeepWater).cost(), None);
}

#[test]
fn generate_cell_counts() {
    assert_eq!(generate(1, Biome::Plains).cell_count(), 7);
    assert_eq!(generate(2, Biome::Plains).cell_count(), 19);
    assert_eq!(generate(3, Biome::Plains).cell_count(), 37);
}

#[test]
fn generate_covers_exactly_the_radius() {
    let g = generate(2, Biome::Plains);
    assert!(g.contains_coord(ax(0, 0)));
    assert!(g.contains_coord(ax(2, 0)));
    assert!(g.contains_coord(ax(-2, 2)));
    assert!(g.contains_coord(ax(1, 1)));
    assert!(!g.contains_coord(ax(3, 0)));
    assert!(!g.contains_coord(ax(2, 1)));
    assert!(!g.contains_coord(ax(-3, 1)));
}

#[test]
fn generate_fills_with_given_biome() {
    let g = generate(1, Biome::Forest);
    assert_eq!(g.cost_at(ax(0, 0)), Some(2));
    assert_eq!(g.cost_at(ax(1, -1)), Some(2));
    assert_eq!(g.cost_at(ax(5, 5)), None);
}

#[test]
fn set_biome_updates_one_tile_only() {
    let mut g = generate(1, Biome::Plains);
    assert!(g.set_biome(ax(1, 0), Biome::Mountain));
    assert_eq!(g.cost_at(ax(1, 0)), None);
    assert_eq!(g.cost_at(ax(0, 0)), Some(1));
    assert_eq!(g.cost_at(ax(0, 1)), Some(1));
}

#[test]
fn set_biome_outside_grid_is_rejected() {
    let mut g = generate(1, Biome::Plains);
    assert!(!g.set_biome(ax(2, 0), Biome::Snow));
    assert_eq!(g.cost_at(ax(0, 0)), Some(1));
}

#[test]
fn handles_are_distinct() {
    let g = generate(1, Biome::Plains);
    let coords = [
        ax(0, 0),
        ax(1, 0),
        ax(1, -1),
        ax(0, -1),
        ax(-1, 0),
        ax(-1, 1),
        ax(0, 1),
    ];
    let mut handles: Vec<u64> = coords.iter().map(|c| g.handle_at(*c).unwrap()).collect();
    handles.sort();
    handles.dedup();
    assert_eq!(handles.len(), 7);
}
