//! The closed set of player intents and the single dispatcher that
//! applies them. Input devices translate clicks and key presses into
//! these tagged commands; the dispatcher sequences the controller and
//! the turn machine, so every state change of a session flows through
//! one exhaustively checked place.

use vstd::prelude::*;

use crate::control::{units_refreshed, Controller};
use crate::grid::Grid;
use crate::hex::Axial;
use crate::turn::{phase_player, TurnManager};

verus! {

/// An opaque player intent, as the input layer forwards it.
pub enum Command {
    /// Select the unit with this identity, deselecting any other.
    Select(u32),
    /// Drop the selection and all state derived from it.
    Deselect,
    /// Choose a destination for the selected unit and compute its
    /// route.
    SetTarget(Axial),
    /// Carry out the computed move.
    CommitMove,
    /// The active player ends their turn.
    EndTurn,
    /// Replace the whole map atomically.
    Regenerate(Grid),
}

/// Apply one intent to the session. The result says whether the
/// intent applied; a rejected intent is a no-op, never an error.
/// Ending a turn advances the turn machine and, when a player's turn
/// begins, clears that player's has-moved flags exactly once.
pub fn dispatch(world: &mut Controller, turns: &mut TurnManager, cmd: Command) -> (ok: bool)
    requires
        old(world).wf(),
        old(turns).wf(),
        cmd matches Command::Regenerate(g) ==> g.wf(),
    ensures
        final(world).wf(),
        final(turns).wf(),
        match cmd {
            Command::Select(id) => {
                &&& *final(turns) == *old(turns)
                &&& ok == old(world).spec_has_unit(id)
                &&& ok ==> final(world).selected == Some(id) && final(world).target is None
                    && final(world).path is None && final(world).field is Some
                &&& !ok ==> *final(world) == *old(world)
            },
            Command::Deselect => {
                &&& *final(turns) == *old(turns)
                &&& ok
                &&& final(world).selected is None && final(world).field is None
                &&& final(world).target is None && final(world).path is None
                &&& final(world).units == old(world).units
                &&& final(world).grid == old(world).grid
            },
            Command::SetTarget(c) => {
                &&& *final(turns) == *old(turns)
                &&& ok == (old(world).selected is Some && !old(world).unit_of(
                    old(world).selected->Some_0,
                ).has_moved)
                &&& ok ==> final(world).target == Some(c)
                &&& !ok ==> *final(world) == *old(world)
            },
            Command::CommitMove => {
                &&& *final(turns) == *old(turns)
                &&& ok == (old(world).selected is Some && old(world).path is Some && !old(
                world).unit_of(old(world).selected->Some_0).has_moved)
                &&& ok ==> {
                    let id = old(world).selected->Some_0;
                    final(world).unit_of(id).pos == old(world).path->Some_0@.last() && final(
                    world).unit_of(id).has_moved
                }
                &&& !ok ==> *final(world) == *old(world)
            },
            Command::EndTurn => {
                &&& *final(turns) == old(turns).spec_end_turn()
                &&& ok == !old(turns).spec_over()
                &&& final(world).grid == old(world).grid
                &&& final(world).selected == old(world).selected
                &&& match phase_player(final(turns).current_state) {
                    Some(k) => units_refreshed(old(world).units@, final(world).units@, k),
                    None => *final(world) == *old(world),
                }
            },
            Command::Regenerate(g) => {
                &&& *final(turns) == *old(turns)
                &&& ok
                &&& final(world).grid == g
                &&& final(world).field is None && final(world).target is None
                &&& final(world).path is None
                &&& final(world).units == old(world).units
                &&& final(world).selected == old(world).selected
            },
        },
{
    match cmd {
        Command::Select(id) => world.select(id),
        Command::Deselect => {
            world.deselect();
            true
        },
        Command::SetTarget(c) => world.set_target(c),
        Command::CommitMove => world.commit_move(),
        Command::EndTurn => {
            if turns.is_over() {
                return false;
            }
            turns.end_turn();
            match turns.current_player() {
                Some(k) => {
                    world.begin_turn(k);
                },
                None => {},
            }
            true
        },
        Command::Regenerate(g) => {
            world.regenerate(g);
            true
        },
    }
}

} // verus!
