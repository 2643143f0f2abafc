use vstd::prelude::*;
use crate::controllers::controller::{Command, Controller};
use crate::model::game_state::GameState;
use crate::model::piece::Color;
use crate::model::position::Position;
use crate::rules::cmd_exec::execute_command;
use crate::rules::cmd_validator::is_valid_cmd;
use crate::rules::game_over::{is_draw, is_in_check_mate};
use crate::view::GameDisplay;

verus! {

/// A game between two players: the state, who shows it, who decides for
/// White and for Black, and the states before each movement that was made.
pub struct Game {
    pub game_state: GameState,
    pub game_display: Box<dyn GameDisplay>,
    pub controllers: [Box<dyn Controller>; 2],
    pub history: Vec<GameState>,
}

/// How a game ended.
#[derive(Debug, Copy, Clone, PartialEq, Eq, Structural)]
pub enum GameResult {
    Winner(Color),
    Draw,
}

/// What a command led to.
#[derive(Debug, Copy, Clone, PartialEq, Eq, Structural)]
pub enum Outcome {
    /// A movement was made.
    Moved,
    /// The last movement of each player was taken back.
    Undone,
    /// Nothing was done: the rules do not allow the command, there is too
    /// little to take back, or the other player declined.
    Refused,
    /// The state is to be saved.
    SaveRequested,
    /// The player gave up.
    Resigned(Color),
}

/// How the game has ended in a position, if it has: the side to move is
/// mated and the other side wins, or the game is drawn.
pub open spec fn result_of(p: Position) -> Option<GameResult> {
    if p.check_mate(p.player_to_move) {
        Some(GameResult::Winner(p.player_to_move.opponent()))
    } else if p.draw() {
        Some(GameResult::Draw)
    } else {
        None
    }
}

/// The states that are left for taking back and the state that comes back.
pub open spec fn taken_back(history: Seq<GameState>) -> (Seq<GameState>, GameState)
    recommends
        history.len() >= 2,
{
    (history.take(history.len() - 2), history[history.len() - 2])
}

/// What carrying out a command makes of the state and of the states that
/// are kept. A movement or a castle is made, and the state before it is
/// kept. Taking back brings back the state before the last movement of each
/// player, if two states are kept; a wish to take back may also be declined.
/// Saving and giving up change nothing: they are left to the caller.
pub open spec fn carried_out(
    cmd: Command,
    outcome: Outcome,
    state: GameState,
    history: Seq<GameState>,
    new_state: GameState,
    new_history: Seq<GameState>,
) -> bool {
    match cmd {
        Command::Move(_) | Command::CastleKingSide | Command::CastleQueenSide => {
            &&& outcome == Outcome::Moved
            &&& new_state@ == state@.after_command(cmd)
            &&& new_history == history.push(state)
        },
        Command::Save => {
            &&& outcome == Outcome::SaveRequested
            &&& new_state == state
            &&& new_history == history
        },
        Command::Resign => {
            &&& outcome == Outcome::Resigned(state.player_to_move)
            &&& new_state == state
            &&& new_history == history
        },
        Command::AcceptUndo => if history.len() >= 2 {
            &&& outcome == Outcome::Undone
            &&& new_history == taken_back(history).0
            &&& new_state == taken_back(history).1
        } else {
            &&& outcome == Outcome::Refused
            &&& new_state == state
            &&& new_history == history
        },
        Command::Undo => if outcome == Outcome::Undone {
            &&& history.len() >= 2
            &&& new_history == taken_back(history).0
            &&& new_state == taken_back(history).1
        } else {
            &&& outcome == Outcome::Refused
            &&& new_state == state
            &&& new_history == history
        },
    }
}

impl Game {
    /// A game that starts from the given state.
    pub fn new(
        game_state: GameState,
        game_display: Box<dyn GameDisplay>,
        controllers: [Box<dyn Controller>; 2],
    ) -> (game: Game)
        ensures
            game.game_state == game_state,
            game.history@.len() == 0,
    {
        Game { game_state, game_display, controllers, history: Vec::new() }
    }

    /// Takes back the last movement of each player, if two states are kept.
    fn undo(&mut self) -> (done: bool)
        ensures
            done == (old(self).history@.len() >= 2),
            done ==> final(self).history@ == taken_back(old(self).history@).0
                && final(self).game_state == taken_back(old(self).history@).1,
            !done ==> final(self).history@ == old(self).history@
                && final(self).game_state == old(self).game_state,
    {
        if self.history.len() < 2 {
            return false;
        }
        let _ = self.history.pop();
        match self.history.pop() {
            Some(previous_state) => {
                self.game_state = previous_state;
                proof {
                    assert(self.history@ =~= taken_back(old(self).history@).0);
                }
                true
            },
            None => false,
        }
    }

    /// Carries out a command that the rules allow. A movement is made and
    /// the state before it is kept. A wish to take back is put to the other
    /// player, who may decline; an accepted one takes back the last movement
    /// of each player. Saving and giving up are left to the caller.
    pub fn execute_command(&mut self, cmd: Command) -> (outcome: Outcome)
        ensures
            carried_out(
                cmd,
                outcome,
                old(self).game_state,
                old(self).history@,
                final(self).game_state,
                final(self).history@,
            ),
    {
        match cmd {
            Command::Move(_) | Command::CastleKingSide | Command::CastleQueenSide => {
                self.history.push(self.game_state.deepclone());
                execute_command(cmd, &mut self.game_state);
                Outcome::Moved
            },
            Command::Save => Outcome::SaveRequested,
            Command::Resign => Outcome::Resigned(self.game_state.player_to_move),
            Command::AcceptUndo => {
                if self.undo() {
                    Outcome::Undone
                } else {
                    Outcome::Refused
                }
            },
            Command::Undo => {
                if self.history.len() < 2 {
                    return Outcome::Refused;
                }
                let other: usize = match self.game_state.player_to_move {
                    Color::White => 1,
                    Color::Black => 0,
                };
                if self.controllers[other].accept_undo() {
                    if self.undo() {
                        Outcome::Undone
                    } else {
                        Outcome::Refused
                    }
                } else {
                    Outcome::Refused
                }
            },
        }
    }

    /// Carries out a command if the rules allow it, and refuses it otherwise.
    pub fn apply_command(&mut self, cmd: Command) -> (outcome: Outcome)
        ensures
            !old(self).game_state@.accepts(cmd) ==> outcome == Outcome::Refused
                && final(self).game_state == old(self).game_state
                && final(self).history@ == old(self).history@,
            old(self).game_state@.accepts(cmd) ==> carried_out(
                cmd,
                outcome,
                old(self).game_state,
                old(self).history@,
                final(self).game_state,
                final(self).history@,
            ),
    {
        if is_valid_cmd(&cmd, &self.game_state) {
            self.execute_command(cmd)
        } else {
            Outcome::Refused
        }
    }

    /// One turn: the player of the side to move gives a command, one that
    /// it may give in the state of the game, and the state is shown. The
    /// player may have changed the state within what it may leave: the
    /// command is carried out if the rules allow it in the state as left.
    /// The states that are kept grow by the one state before a movement,
    /// shrink by two when movements are taken back, and stay otherwise.
    pub fn player_turn(&mut self) -> (outcome: Outcome)
        ensures
            exists|cmd: Command, handed: GameState|
                old(self).controllers[old(self).game_state.player_to_move.index()].may_choose(
                    old(self).game_state,
                    cmd,
                ) && old(self).controllers[old(self).game_state.player_to_move.index()].may_leave(
                    old(self).game_state,
                    handed,
                ) && #[trigger] turn_taken(
                    cmd,
                    outcome,
                    handed,
                    old(self).history@,
                    final(self).game_state,
                    final(self).history@,
                ),
            outcome == Outcome::Moved ==> final(self).history@.len() == old(self).history@.len()
                + 1 && final(self).history@.drop_last() == old(self).history@,
            outcome == Outcome::Undone ==> old(self).history@.len() >= 2 && final(self).history@
                == taken_back(old(self).history@).0 && final(self).game_state == taken_back(
                old(self).history@,
            ).1,
            !(outcome == Outcome::Moved || outcome == Outcome::Undone) ==> final(self).history@
                == old(self).history@,
    {
        let mover: usize = match self.game_state.player_to_move {
            Color::White => 0,
            Color::Black => 1,
        };
        let cmd = self.controllers[mover].choose_command(&mut self.game_state);
        let ghost before = self.history@;
        let ghost handed = self.game_state;
        let outcome = self.apply_command(cmd);
        proof {
            if outcome == Outcome::Moved {
                assert(self.history@.drop_last() =~= before);
            }
            assert(turn_taken(cmd, outcome, handed, before, self.game_state, self.history@));
        }
        self.game_display.display_game(&self.game_state);
        outcome
    }

    /// How the game has ended, if it has.
    pub fn result(&self) -> (result: Option<GameResult>)
        ensures
            result == result_of(self.game_state@),
    {
        if is_in_check_mate(&self.game_state, self.game_state.player_to_move) {
            Some(GameResult::Winner(self.game_state.player_to_move.get_opponent_color()))
        } else if is_draw(&self.game_state) {
            Some(GameResult::Draw)
        } else {
            None
        }
    }

    /// How the game has ended after a turn, if it has: where the player
    /// gave up, the other side wins; otherwise the state decides.
    pub fn result_after(&self, outcome: Outcome) -> (result: Option<GameResult>)
        ensures
            result == ended_by(outcome, self.game_state@),
    {
        match outcome {
            Outcome::Resigned(color) => Some(GameResult::Winner(color.get_opponent_color())),
            _ => self.result(),
        }
    }
}

/// How a turn with the given outcome has ended the game, if it has: a
/// player who gives up loses to the other side, whatever the position;
/// after any other turn the game has ended as the position says.
pub open spec fn ended_by(outcome: Outcome, p: Position) -> Option<GameResult> {
    match outcome {
        Outcome::Resigned(color) => Some(GameResult::Winner(color.opponent())),
        _ => result_of(p),
    }
}

/// What a turn makes of a command that came for the state `handed`: the
/// command is carried out if the rules allow it in that state, and refused
/// otherwise, with nothing changed.
pub open spec fn turn_taken(
    cmd: Command,
    outcome: Outcome,
    handed: GameState,
    history: Seq<GameState>,
    new_state: GameState,
    new_history: Seq<GameState>,
) -> bool {
    if handed@.accepts(cmd) {
        carried_out(cmd, outcome, handed, history, new_state, new_history)
    } else {
        outcome == Outcome::Refused && new_state == handed && new_history == history
    }
}

} // verus!
