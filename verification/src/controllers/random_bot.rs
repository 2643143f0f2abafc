use vstd::prelude::*;
use crate::chance::choose_one;
use crate::controllers::controller::{Command, Controller};
use crate::model::game_state::GameState;
use crate::rules::move_generator::generate_commands;

verus! {

/// A player that plays any movement that the rules allow, by chance.
#[derive(Copy, Clone)]
pub struct RandomBot;

impl RandomBot {
    /// One of the movements that the side to move may play, as a command,
    /// or nothing where it has nothing to play.
    pub fn pick_command(&self, game_state: &GameState) -> (r: Option<Command>)
        ensures
            r is None <==> game_state@.no_legal_move(),
            r matches Some(c) ==> c matches Command::Move(m) && game_state@.legal(
                m,
                game_state@.player_to_move,
            ),
    {
        let commands = generate_commands(game_state);
        let picked = choose_one(&commands);
        proof {
            let p = game_state@;
            if commands@.len() == 0 {
                assert forall|m: crate::model::movement::Movement| !#[trigger] p.legal(
                    m,
                    p.player_to_move,
                ) by {
                    if p.legal(m, p.player_to_move) {
                        assert(commands@.contains(Command::Move(m)));
                    }
                }
            } else {
                let c = picked->0;
                assert(commands@.contains(c));
            }
        }
        picked
    }
}

impl Controller for RandomBot {
    /// A movement that the rules allow, or giving up where there is none.
    open spec fn may_choose(&self, game_state: GameState, cmd: Command) -> bool {
        match cmd {
            Command::Move(m) => game_state@.legal(m, game_state@.player_to_move),
            Command::Resign => game_state@.no_legal_move(),
            _ => false,
        }
    }

    /// The state is left as it was handed.
    open spec fn may_leave(&self, game_state: GameState, left: GameState) -> bool {
        left == game_state
    }

    /// A movement by chance; with nothing to play, the player resigns.
    fn choose_command(&mut self, game_state: &mut GameState) -> (cmd: Command)
        ensures
            *final(game_state) == *old(game_state),
            match cmd {
                Command::Move(m) => old(game_state)@.legal(m, old(game_state)@.player_to_move),
                Command::Resign => old(game_state)@.no_legal_move(),
                _ => false,
            },
    {
        match self.pick_command(game_state) {
            Some(command) => command,
            None => Command::Resign,
        }
    }
}

} // verus!
