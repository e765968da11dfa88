use hex_engine::command::{dispatch, Command};
use hex_engine::control::Controller;
use hex_engine::grid::generate;
use hex_engine::hex::Axial;
use hex_engine::terrain::Biome;
use hex_engine::turn::{GameplayState, TurnManager};

fn ax(q: i32, r: i32) -> Axial {
    Axial::new(q, r)
}

fn session() -> (Controller, TurnManager) {
    let g = generate(3, Biome::Plains);
    let mut world = Controller::new(g);
    assert!(world.add_unit(1, 1, ax(0, 0), 2));
    assert!(world.add_unit(2, 2, ax(-2, 0), 3));
    (world, TurnManager::new(2, 3))
}

#[test]
fn scripted_session_moves_and_rotates() {
    let (mut world, mut turns) = session();
    assert!(dispatch(&mut world, &mut turns, Command::Select(1)));
    assert!(dispatch(&mut world, &mut turns, Command::SetTarget(ax(2, 0))));
    assert!(dispatch(&mut world, &mut turns, Command::CommitMove));
    assert_eq!(world.unit(1).unwrap().pos, ax(2, 0));
    assert!(world.unit(1).unwrap().has_moved);
    assert_eq!(turns.current_state, GameplayState::Player1Turn);

    assert!(dispatch(&mut world, &mut turns, Command::EndTurn));
    assert_eq!(turns.current_state, GameplayState::Player2Turn);
    assert!(world.unit(1).unwrap().has_moved, "player 2's turn start leaves player 1 alone");

    assert!(dispatch(&mut world, &mut turns, Command::EndTurn));
    assert_eq!(turns.current_state, GameplayState::Player1Turn);
    assert_eq!(turns.current_turn, 2);
    assert!(!world.unit(1).unwrap().has_moved, "a new turn clears the flag");
}

#[test]
fn rejected_intents_are_no_ops() {
    let (mut world, mut turns) = session();
    assert!(!dispatch(&mut world, &mut turns, Command::CommitMove));
    assert!(!dispatch(&mut world, &mut turns, Command::SetTarget(ax(1, 0))));
    assert!(!dispatch(&mut world, &mut turns, Command::Select(9)));
    assert!(world.selected.is_none());
    assert_eq!(turns.current_turn, 1);
}

#[test]
fn end_turn_after_game_over_is_ignored() {
    let (mut world, mut turns) = session();
    for _ in 0..6 {
        assert!(dispatch(&mut world, &mut turns, Command::EndTurn));
    }
    assert_eq!(turns.current_state, GameplayState::GameOver);
    assert_eq!(turns.current_turn, 4);
    assert!(!dispatch(&mut world, &mut turns, Command::EndTurn));
    assert_eq!(turns.current_state, GameplayState::GameOver);
}

#[test]
fn regenerate_command_swaps_map_and_drops_caches() {
    let (mut world, mut turns) = session();
    assert!(dispatch(&mut world, &mut turns, Command::Select(1)));
    assert!(dispatch(&mut world, &mut turns, Command::SetTarget(ax(1, 0))));
    assert!(world.path.is_some());
    let fresh = generate(2, Biome::Desert);
    assert!(dispatch(&mut world, &mut turns, Command::Regenerate(fresh)));
    assert!(world.path.is_none());
    assert_eq!(world.grid.cost_at(ax(0, 0)), Some(3));
    assert!(!dispatch(&mut world, &mut turns, Command::CommitMove));
}

#[test]
fn deselect_command_clears_selection() {
    let (mut world, mut turns) = session();
    assert!(dispatch(&mut world, &mut turns, Command::Select(2)));
    assert!(dispatch(&mut world, &mut turns, Command::Deselect));
    assert!(world.selected.is_none());
    assert!(world.field.is_none());
}
