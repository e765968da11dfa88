use hex_engine::control::Controller;
use hex_engine::grid::generate;
use hex_engine::hex::Axial;
use hex_engine::terrain::Biome;

fn ax(q: i32, r: i32) -> Axial {
    Axial::new(q, r)
}

fn setup_two_units() -> Controller {
    let g = generate(3, Biome::Plains);
    let mut c = Controller::new(g);
    assert!(c.add_unit(1, 1, ax(0, 0), 2));
    assert!(c.add_unit(2, 2, ax(2, 0), 3));
    c
}

#[test]
fn add_unit_rejects_duplicates_and_off_grid() {
    let mut c = setup_two_units();
    assert!(!c.add_unit(1, 1, ax(1, 1), 5), "duplicate identity must be rejected");
    assert!(!c.add_unit(3, 1, ax(9, 9), 5), "off-grid start must be rejected");
    assert!(c.unit(3).is_none());
}

#[test]
fn select_computes_field_for_unit() {
    let mut c = setup_two_units();
    assert!(c.select(1));
    assert_eq!(c.selected, Some(1));
    let f = c.field.as_ref().expect("selection computes the field of movement");
    assert!(f.contains(ax(2, 0)));
    assert!(!f.contains(ax(3, 0)));
    assert!(c.target.is_none());
    assert!(c.path.is_none());
}

#[test]
fn select_missing_unit_is_rejected() {
    let mut c = setup_two_units();
    assert!(!c.select(42));
    assert_eq!(c.selected, None);
}

#[test]
fn selection_is_exclusive() {
    // Selecting unit 2 while unit 1 is selected fully deselects
    // unit 1: its target, path and field are discarded, and unit 2
    // alone is selected with its own field.
    let mut c = setup_two_units();
    assert!(c.select(1));
    assert!(c.set_target(ax(2, 0)));
    assert!(c.target.is_some());
    assert!(c.path.is_some());
    assert!(c.select(2));
    assert_eq!(c.selected, Some(2));
    assert!(c.target.is_none());
    assert!(c.path.is_none());
    let f = c.field.as_ref().unwrap();
    assert!(f.contains(ax(3, 0)), "the new field belongs to unit 2's position and budget");
    assert_eq!(f.cost_to(ax(2, 0)), Some(0));
}

#[test]
fn deselect_clears_everything() {
    let mut c = setup_two_units();
    assert!(c.select(1));
    assert!(c.set_target(ax(1, 0)));
    c.deselect();
    assert!(c.selected.is_none());
    assert!(c.field.is_none());
    assert!(c.target.is_none());
    assert!(c.path.is_none());
}

#[test]
fn set_target_requires_selection() {
    let mut c = setup_two_units();
    assert!(!c.set_target(ax(1, 0)));
    assert!(c.target.is_none());
}

#[test]
fn commit_moves_unit_to_target_within_budget() {
    let mut c = setup_two_units();
    assert!(c.select(1));
    assert!(c.set_target(ax(2, 0)));
    let p = c.path.as_ref().unwrap();
    assert_eq!(*p.last().unwrap(), ax(2, 0));
    assert!(c.commit_move());
    let u = c.unit(1).unwrap();
    assert_eq!(u.pos, ax(2, 0));
    assert!(u.has_moved);
    assert_eq!(c.selected, Some(1), "the unit stays selected after moving");
    assert!(c.field.is_none());
    assert!(c.target.is_none());
    assert!(c.path.is_none());
    let other = c.unit(2).unwrap();
    assert_eq!(other.pos, ax(2, 0));
    assert!(!other.has_moved);
}

#[test]
fn commit_truncates_to_reachable_tile() {
    let mut c = setup_two_units();
    assert!(c.select(1));
    assert!(c.set_target(ax(3, 0)));
    assert!(c.commit_move());
    let u = c.unit(1).unwrap();
    assert_eq!(u.pos, ax(2, 0), "budget two stops two tiles along the way");
}

#[test]
fn moved_unit_cannot_move_again_this_turn() {
    let mut c = setup_two_units();
    assert!(c.select(1));
    assert!(c.set_target(ax(1, 0)));
    assert!(c.commit_move());
    assert!(!c.commit_move(), "no second move without a fresh path");
    assert!(!c.set_target(ax(0, 1)), "a moved unit takes no new target this turn");
    assert!(c.select(1), "a moved unit may still be selected for inspection");
}

#[test]
fn begin_turn_clears_owners_flags_only() {
    let mut c = setup_two_units();
    assert!(c.select(1));
    assert!(c.set_target(ax(1, 0)));
    assert!(c.commit_move());
    c.deselect();
    assert!(c.select(2));
    assert!(c.set_target(ax(2, 1)));
    assert!(c.commit_move());
    assert!(c.unit(1).unwrap().has_moved);
    assert!(c.unit(2).unwrap().has_moved);
    c.begin_turn(1);
    assert!(!c.unit(1).unwrap().has_moved);
    assert!(c.unit(2).unwrap().has_moved, "other players' units keep their flags");
    c.begin_turn(1);
    assert!(!c.unit(1).unwrap().has_moved, "replaying the hook changes nothing");
    c.begin_turn(2);
    assert!(!c.unit(2).unwrap().has_moved);
}

#[test]
fn regenerate_invalidates_cached_state() {
    let mut c = setup_two_units();
    assert!(c.select(1));
    assert!(c.set_target(ax(2, 0)));
    assert!(c.path.is_some());
    let fresh = generate(3, Biome::Forest);
    c.regenerate(fresh);
    assert!(c.field.is_none());
    assert!(c.target.is_none());
    assert!(c.path.is_none());
    assert!(!c.commit_move(), "a stale commit is rejected after regeneration");
    assert_eq!(c.selected, Some(1));
    assert_eq!(c.grid.cost_at(ax(0, 0)), Some(2));
}

#[test]
fn unreachable_target_keeps_target_with_no_path() {
    let mut g = generate(2, Biome::Plains);
    assert!(g.set_biome(ax(2, 0), Biome::DeepWater));
    let mut c = Controller::new(g);
    assert!(c.add_unit(1, 1, ax(0, 0), 2));
    assert!(c.select(1));
    assert!(c.set_target(ax(2, 0)));
    assert_eq!(c.target, Some(ax(2, 0)));
    assert!(c.path.is_none(), "no walk enters deep water");
    assert!(!c.commit_move());
}
