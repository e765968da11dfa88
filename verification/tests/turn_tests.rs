use hex_engine::turn::{GameplayState, MaxTurns, TurnManager};

#[test]
fn max_turns_presets() {
    assert_eq!(MaxTurns::Quick.get_max_turns(), 50);
    assert_eq!(MaxTurns::Normal.get_max_turns(), 100);
    assert_eq!(MaxTurns::Long.get_max_turns(), 150);
    assert_eq!(MaxTurns::LongLongLong.get_max_turns(), 175);
    assert_eq!(MaxTurns::Marathon.get_max_turns(), 200);
    assert_eq!(MaxTurns::Infinite.get_max_turns(), u32::MAX);
}

#[test]
fn default_state_is_first_players_turn() {
    assert_eq!(GameplayState::default(), GameplayState::Player1Turn);
    let m = TurnManager::default();
    assert_eq!(m.num_players, 8);
    assert_eq!(m.current_turn, 1);
    assert_eq!(m.max_turns, 100);
    assert_eq!(m.current_state, GameplayState::Player1Turn);
}

#[test]
fn two_players_three_turns_full_cycle() {
    // Six "turn ended" events walk Player1 -> Player2 -> Player1 ->
    // Player2 -> Player1 -> Player2 -> GameOver, with the turn
    // counter at four when the game ends.
    let mut m = TurnManager::new(2, 3);
    let expected = [
        GameplayState::Player2Turn,
        GameplayState::Player1Turn,
        GameplayState::Player2Turn,
        GameplayState::Player1Turn,
        GameplayState::Player2Turn,
        GameplayState::GameOver,
    ];
    let expected_turn = [1u32, 2, 2, 3, 3, 4];
    for k in 0..6 {
        m.end_turn();
        assert_eq!(m.current_state, expected[k], "after event {}", k + 1);
        assert_eq!(m.current_turn, expected_turn[k], "after event {}", k + 1);
    }
}

#[test]
fn game_over_is_sticky() {
    let mut m = TurnManager::new(1, 1);
    m.end_turn();
    assert_eq!(m.current_state, GameplayState::GameOver);
    assert!(m.is_over());
    m.end_turn();
    m.end_turn();
    assert_eq!(m.current_state, GameplayState::GameOver);
    assert_eq!(m.current_turn, 2);
}

#[test]
fn turn_counter_increments_once_per_cycle() {
    let mut m = TurnManager::new(3, 100);
    for _ in 0..3 {
        assert_eq!(m.current_turn, 1);
        m.end_turn();
    }
    assert_eq!(m.current_turn, 2);
    assert_eq!(m.current_state, GameplayState::Player1Turn);
}

#[test]
fn eight_player_rotation_order() {
    let mut m = TurnManager::new(8, 100);
    let order = [
        GameplayState::Player2Turn,
        GameplayState::Player3Turn,
        GameplayState::Player4Turn,
        GameplayState::Player5Turn,
        GameplayState::Player6Turn,
        GameplayState::Player7Turn,
        GameplayState::Player8Turn,
        GameplayState::Player1Turn,
    ];
    for s in order {
        m.end_turn();
        assert_eq!(m.current_state, s);
    }
    assert_eq!(m.current_turn, 2);
}

#[test]
fn infinite_preset_never_ends() {
    let mut m = TurnManager::new(1, MaxTurns::Infinite.get_max_turns());
    for _ in 0..500 {
        m.end_turn();
        assert_ne!(m.current_state, GameplayState::GameOver);
    }
    assert_eq!(m.current_turn, 501);
}
