use rust_chess::controllers::controller::Command;
use rust_chess::controllers::local_human::LocalHuman;
use rust_chess::model::game_state::GameState;
use rust_chess::model::movement::Movement;
use rust_chess::model::piece::Color;
use rust_chess::view::{board_picture, choose_ranges};

fn step(from: [usize; 2], to: [usize; 2]) -> Movement {
    Movement::Normal { from, to }
}

fn line(row: &Vec<char>) -> String {
    row.iter().collect()
}

#[test]
fn words_are_commands() {
    let state = GameState::new();
    let human = LocalHuman;
    assert!(matches!(human.parse_command("undo", &state), Ok(Command::Undo)));
    assert!(matches!(human.parse_command("resign\n", &state), Ok(Command::Resign)));
    assert!(matches!(human.parse_command("save\r\n", &state), Ok(Command::Save)));
    assert!(matches!(
        human.parse_command("0-0", &state),
        Ok(Command::Move(Movement::CastleKingSide(Color::White)))
    ));
    assert!(matches!(
        human.parse_command("O-O-O\n", &state),
        Ok(Command::Move(Movement::CastleQueenSide(Color::White)))
    ));
    assert!(matches!(human.parse_command("undone", &state), Err(())));
    assert!(matches!(human.parse_command("", &state), Err(())));
    assert!(matches!(human.parse_command("\n", &state), Err(())));
    match human.parse_command("e4\n", &state) {
        Ok(Command::Move(movement)) => assert_eq!(movement, step([1, 4], [3, 4])),
        _ => panic!(),
    }
}

#[test]
fn movements_are_read_as_written() {
    let mut state = GameState::new();
    let human = LocalHuman;
    assert_eq!(human.parse_movement("e4", &state), Ok(step([1, 4], [3, 4])));
    assert_eq!(human.parse_movement("e3\n", &state), Ok(step([1, 4], [2, 4])));
    assert_eq!(human.parse_movement("Nf3", &state), Ok(step([0, 6], [2, 5])));
    assert_eq!(human.parse_movement("nc3", &state), Ok(step([0, 1], [2, 2])));
    assert_eq!(human.parse_movement("Nb1xc3", &state), Ok(step([0, 1], [2, 2])));
    assert_eq!(human.parse_movement("g1xf3", &state), Ok(step([0, 6], [2, 5])));
    assert_eq!(human.parse_movement("e5", &state), Err(()));
    assert_eq!(human.parse_movement("Ke2", &state), Err(()));
    assert_eq!(human.parse_movement("Xe4", &state), Err(()));
    assert_eq!(human.parse_movement("e", &state), Err(()));
    assert_eq!(human.parse_movement("e9", &state), Err(()));
    assert_eq!(human.parse_movement("i4", &state), Err(()));
    assert_eq!(human.parse_movement("e2xe4xe5", &state), Err(()));
    assert_eq!(human.parse_movement("e2xe", &state), Err(()));
    assert_eq!(human.parse_movement("z2xe4", &state), Err(()));
    state.make_movement(step([1, 4], [3, 4]));
    assert_eq!(human.parse_movement("d5", &state), Ok(step([6, 3], [4, 3])));
    state.make_movement(step([6, 3], [4, 3]));
    assert_eq!(human.parse_movement("e4xd5", &state), Ok(step([3, 4], [4, 3])));
    assert_eq!(human.parse_movement("e4xe5", &state), Ok(step([3, 4], [4, 4])));
    assert_eq!(human.parse_movement("Qh5", &state), Ok(step([0, 3], [4, 7])));
    assert_eq!(human.parse_movement("♘f3", &state), Err(()));
    assert_eq!(human.parse_movement("é4", &state), Err(()));
    assert_eq!(human.parse_movement("x", &state), Err(()));
    assert_eq!(human.parse_movement("xe4", &state), Err(()));
}

#[test]
fn board_is_shown_from_the_side_to_move() {
    let mut state = GameState::new();
    let picture = board_picture(&state, false);
    assert_eq!(picture.len(), 8);
    assert_eq!(line(&picture[0]), "rnbqkbnr");
    assert_eq!(line(&picture[1]), "pppppppp");
    assert_eq!(line(&picture[4]), "        ");
    assert_eq!(line(&picture[7]), "RNBQKBNR");
    assert_eq!(line(&board_picture(&state, true)[7]), "♖♘♗♕♔♗♘♖");
    assert_eq!(line(&board_picture(&state, true)[0]), "♜♞♝♛♚♝♞♜");
    assert_eq!(choose_ranges(&state), [vec![7, 6, 5, 4, 3, 2, 1, 0], vec![0, 1, 2, 3, 4, 5, 6, 7]]);
    state.make_movement(step([1, 4], [3, 4]));
    let picture = board_picture(&state, false);
    assert_eq!(line(&picture[0]), "RNBKQBNR");
    assert_eq!(line(&picture[1]), "PPP PPPP");
    assert_eq!(line(&picture[3]), "   P    ");
    assert_eq!(line(&picture[7]), "rnbkqbnr");
    assert_eq!(choose_ranges(&state), [vec![0, 1, 2, 3, 4, 5, 6, 7], vec![7, 6, 5, 4, 3, 2, 1, 0]]);
}
