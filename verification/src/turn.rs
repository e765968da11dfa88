//! Round-robin turn and phase state machine: whose turn it is, the
//! current turn number, and terminal game-over detection once the
//! configured maximum number of turns has elapsed.

use vstd::prelude::*;

verus! {

/// The phase of play: one of up to eight players' turns, a transient
/// in-between phase, or the terminal game-over phase.
#[derive(Clone, Copy, PartialEq, Eq, Structural, Debug, Hash)]
pub enum GameplayState {
    Player1Turn,
    Player2Turn,
    Player3Turn,
    Player4Turn,
    Player5Turn,
    Player6Turn,
    Player7Turn,
    Player8Turn,
    TurnTransition,
    GameOver,
}

/// The one-based player index a phase belongs to, if it is a
/// player's turn.
pub open spec fn phase_player(s: GameplayState) -> Option<u32> {
    match s {
        GameplayState::Player1Turn => Some(1u32),
        GameplayState::Player2Turn => Some(2u32),
        GameplayState::Player3Turn => Some(3u32),
        GameplayState::Player4Turn => Some(4u32),
        GameplayState::Player5Turn => Some(5u32),
        GameplayState::Player6Turn => Some(6u32),
        GameplayState::Player7Turn => Some(7u32),
        GameplayState::Player8Turn => Some(8u32),
        GameplayState::TurnTransition => None,
        GameplayState::GameOver => None,
    }
}

/// The phase of the one-based player index; indices above eight fall
/// back to the first player (constructors rule them out).
pub open spec fn player_phase(k: u32) -> GameplayState {
    if k == 2 {
        GameplayState::Player2Turn
    } else if k == 3 {
        GameplayState::Player3Turn
    } else if k == 4 {
        GameplayState::Player4Turn
    } else if k == 5 {
        GameplayState::Player5Turn
    } else if k == 6 {
        GameplayState::Player6Turn
    } else if k == 7 {
        GameplayState::Player7Turn
    } else if k == 8 {
        GameplayState::Player8Turn
    } else {
        GameplayState::Player1Turn
    }
}

impl Default for GameplayState {
    /// Play opens on the first player's turn.
    fn default() -> (s: Self)
        ensures
            s == GameplayState::Player1Turn,
    {
        GameplayState::Player1Turn
    }
}

fn phase_of_player(k: u32) -> (s: GameplayState)
    ensures
        s == player_phase(k),
{
    if k == 2 {
        GameplayState::Player2Turn
    } else if k == 3 {
        GameplayState::Player3Turn
    } else if k == 4 {
        GameplayState::Player4Turn
    } else if k == 5 {
        GameplayState::Player5Turn
    } else if k == 6 {
        GameplayState::Player6Turn
    } else if k == 7 {
        GameplayState::Player7Turn
    } else if k == 8 {
        GameplayState::Player8Turn
    } else {
        GameplayState::Player1Turn
    }
}

/// Preset lengths of a game, in turns.
#[derive(Clone, Copy, PartialEq, Eq, Structural, Debug)]
pub enum MaxTurns {
    Quick,
    Normal,
    Long,
    LongLongLong,
    Marathon,
    Infinite,
}

pub open spec fn max_turns_of(m: MaxTurns) -> u32 {
    match m {
        MaxTurns::Quick => 50u32,
        MaxTurns::Normal => 100u32,
        MaxTurns::Long => 150u32,
        MaxTurns::LongLongLong => 175u32,
        MaxTurns::Marathon => 200u32,
        MaxTurns::Infinite => u32::MAX,
    }
}

impl MaxTurns {
    /// The turn limit of this preset. `Infinite` is the sentinel that
    /// disables game-over detection: the turn counter saturates below
    /// it and so never exceeds it.
    pub fn get_max_turns(&self) -> (n: u32)
        ensures
            n == max_turns_of(*self),
    {
        match self {
            MaxTurns::Quick => 50,
            MaxTurns::Normal => 100,
            MaxTurns::Long => 150,
            MaxTurns::LongLongLong => 175,
            MaxTurns::Marathon => 200,
            MaxTurns::Infinite => u32::MAX,
        }
    }
}

/// The turn machine: cycles through the configured players in order,
/// counts full cycles, and sinks into `GameOver` once the counter
/// passes the configured maximum.
#[derive(Clone, Copy, PartialEq, Eq, Structural, Debug)]
pub struct TurnManager {
    pub num_players: u32,
    pub current_turn: u32,
    pub max_turns: u32,
    pub current_state: GameplayState,
}

impl TurnManager {
    /// Well-formedness: between one and eight players, the turn
    /// counter at least one, and the phase either an active player's
    /// turn or game over.
    pub open spec fn wf(self) -> bool {
        &&& 1 <= self.num_players <= 8
        &&& self.current_turn >= 1
        &&& match phase_player(self.current_state) {
            Some(k) => 1 <= k <= self.num_players,
            None => self.current_state == GameplayState::GameOver,
        }
    }

    /// The game has reached its terminal phase.
    pub open spec fn spec_over(self) -> bool {
        self.current_state == GameplayState::GameOver
    }

    /// Start a game: the first player's turn, turn number one.
    pub fn new(num_players: u32, max_turns: u32) -> (m: TurnManager)
        requires
            1 <= num_players <= 8,
            max_turns >= 1,
        ensures
            m.wf(),
            m.num_players == num_players,
            m.max_turns == max_turns,
            m.current_turn == 1,
            m.current_state == GameplayState::Player1Turn,
    {
        TurnManager { num_players, current_turn: 1, max_turns, current_state: GameplayState::Player1Turn }
    }

    /// Whether the machine is in the terminal game-over phase.
    pub fn is_over(&self) -> (b: bool)
        ensures
            b == self.spec_over(),
    {
        self.current_state == GameplayState::GameOver
    }

    /// The one-based index of the player whose turn it is, or `None`
    /// once the game is over.
    pub fn current_player(&self) -> (p: Option<u32>)
        ensures
            p == phase_player(self.current_state),
    {
        match self.current_state {
            GameplayState::Player1Turn => Some(1),
            GameplayState::Player2Turn => Some(2),
            GameplayState::Player3Turn => Some(3),
            GameplayState::Player4Turn => Some(4),
            GameplayState::Player5Turn => Some(5),
            GameplayState::Player6Turn => Some(6),
            GameplayState::Player7Turn => Some(7),
            GameplayState::Player8Turn => Some(8),
            GameplayState::TurnTransition => None,
            GameplayState::GameOver => None,
        }
    }

    /// The machine's transition table for one "turn ended" event: a
    /// non-final player hands over to the next; the final player's
    /// hand-over closes the cycle, counts one more turn (saturating),
    /// and ends the game if the counter now exceeds the maximum. In
    /// `GameOver` the event changes nothing: the terminal phase is
    /// sticky.
    pub open spec fn spec_end_turn(self) -> TurnManager {
        match phase_player(self.current_state) {
            None => self,
            Some(k) => if k < self.num_players {
                TurnManager { current_state: player_phase((k + 1) as u32), ..self }
            } else {
                let t = if self.current_turn == u32::MAX {
                    u32::MAX
                } else {
                    (self.current_turn + 1) as u32
                };
                TurnManager {
                    current_turn: t,
                    current_state: if t > self.max_turns {
                        GameplayState::GameOver
                    } else {
                        GameplayState::Player1Turn
                    },
                    ..self
                }
            },
        }
    }

    /// Apply one "turn ended" event, exactly as `spec_end_turn` says.
    pub fn end_turn(&mut self)
        requires
            old(self).wf(),
        ensures
            final(self).wf(),
            *final(self) == old(self).spec_end_turn(),
    {
        let k_opt: Option<u32> = match self.current_state {
            GameplayState::Player1Turn => Some(1),
            GameplayState::Player2Turn => Some(2),
            GameplayState::Player3Turn => Some(3),
            GameplayState::Player4Turn => Some(4),
            GameplayState::Player5Turn => Some(5),
            GameplayState::Player6Turn => Some(6),
            GameplayState::Player7Turn => Some(7),
            GameplayState::Player8Turn => Some(8),
            GameplayState::TurnTransition => None,
            GameplayState::GameOver => None,
        };
        match k_opt {
            Some(k) => {
                if k < self.num_players {
                    self.current_state = phase_of_player(k + 1);
                } else {
                    let t = if self.current_turn == u32::MAX {
                        u32::MAX
                    } else {
                        self.current_turn + 1
                    };
                    self.current_turn = t;
                    if t > self.max_turns {
                        self.current_state = GameplayState::GameOver;
                    } else {
                        self.current_state = GameplayState::Player1Turn;
                    }
                }
            },
            None => {},
        }
    }
}

impl Default for TurnManager {
    /// The configuration the game opens with: eight players and the
    /// normal turn limit.
    fn default() -> (m: Self)
        ensures
            m.wf(),
            m.num_players == 8,
            m.current_turn == 1,
            m.max_turns == max_turns_of(MaxTurns::Normal),
            m.current_state == GameplayState::Player1Turn,
    {
        TurnManager {
            num_players: 8,
            current_turn: 1,
            max_turns: MaxTurns::Normal.get_max_turns(),
            current_state: GameplayState::Player1Turn,
        }
    }
}

} // verus!
