use vstd::prelude::*;
use crate::model::game_state::GameState;
use crate::model::movement::Movement;

verus! {

/// What a player may ask for when it is their turn.
#[derive(Debug, Copy, Clone, PartialEq, Eq)]
pub enum Command {
    Undo,
    AcceptUndo,
    Resign,
    Save,
    CastleKingSide,
    CastleQueenSide,
    Move(Movement),
}

/// Whoever decides for one player: a person, a search, a peer on a network.
pub trait Controller {
    /// Whether this player agrees to take back the last move: yes, by default.
    fn accept_undo(&mut self) -> (accepted: bool)
        default_ensures
            accepted,
    {
        true
    }

    /// The command of this player for the given state: one of those that
    /// the player may give in it. The state comes back as the player may
    /// leave it.
    fn choose_command(&mut self, game_state: &mut GameState) -> (cmd: Command)
        ensures
            old(self).may_choose(*old(game_state), cmd),
            old(self).may_leave(*old(game_state), *final(game_state)),
    ;

    /// The commands that this player may give in a state. A player of
    /// which nothing more is said may give any command.
    open spec fn may_choose(&self, game_state: GameState, cmd: Command) -> bool {
        true
    }

    /// The states in which this player may leave a state that it was handed.
    /// A player of which nothing more is said may leave any state.
    open spec fn may_leave(&self, game_state: GameState, left: GameState) -> bool {
        true
    }
}

} // verus!
