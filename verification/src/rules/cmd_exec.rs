use vstd::prelude::*;
use crate::controllers::controller::Command;
use crate::model::game_state::GameState;
use crate::model::movement::Movement;
use crate::model::position::Position;

verus! {

impl Position {
    /// The position after a command: a movement or a castle of the side to
    /// move is carried out; any other command leaves the position as it is.
    pub open spec fn after_command(self, cmd: Command) -> Position {
        match cmd {
            Command::Move(movement) => self.after(movement),
            Command::CastleKingSide => self.after(Movement::CastleKingSide(self.player_to_move)),
            Command::CastleQueenSide => self.after(Movement::CastleQueenSide(self.player_to_move)),
            _ => self,
        }
    }
}

/// Carries out what a command does to the state. Whether the rules allow
/// it is for the caller to ask.
pub fn execute_command(cmd: Command, game_state: &mut GameState)
    ensures
        final(game_state)@ == old(game_state)@.after_command(cmd),
{
    match cmd {
        Command::CastleKingSide => game_state.castle_king_side(),
        Command::CastleQueenSide => game_state.castle_queen_side(),
        Command::Move(movement) => game_state.make_movement(movement),
        _ => {},
    }
}

} // verus!
