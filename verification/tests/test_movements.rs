use rand::Rng;
use rust_chess::model::game_state::GameState;
use rust_chess::model::movement::Movement;
use rust_chess::model::piece::{Color, Piece, PieceType};
use rust_chess::rules::castle_validator::{king_castle_is_valid, queen_castle_is_valid};
use rust_chess::rules::cmd_validator::{is_in_check, is_valid_movement};
use rust_chess::rules::move_generator::generate_movements;

fn new_empty_game_state() -> GameState {
    GameState {
        board: [[None; 8]; 8],
        player_to_move: Color::White,
        last_move: None,
        white_can_castle_queen_side: true,
        white_can_castle_king_side: true,
        black_can_castle_king_side: true,
        black_can_castle_queen_side: true,
        king_initial_positions: [None, None],
        rook_initial_positions: [[None, None], [None, None]],
        move_limit: 100,
    }
}

#[test]
fn test_movements_test_is_in_check() {
    let mut game_state = new_empty_game_state();
    let mut rng = rand::thread_rng();
    let x: usize = rng.gen_range(1, 3);
    let y: usize = rng.gen_range(1, 3);
    game_state.board[x][y] = Some(Piece {
        piece_type: PieceType::King,
        color: Color::White,
    });
    let x2: usize = rng.gen_range(5, 7);
    let y2: usize = rng.gen_range(5, 7);
    game_state.board[x2][y2] = Some(Piece {
        piece_type: PieceType::King,
        color: Color::Black,
    });
    assert_eq!(is_in_check(&game_state, Color::White), false);
    assert_eq!(is_in_check(&game_state, Color::Black), false);
    game_state.board[x + 1][y + 1] = Some(Piece {
        piece_type: PieceType::Queen,
        color: Color::Black,
    });
    assert_eq!(is_in_check(&game_state, Color::White), true);
    assert_eq!(is_in_check(&game_state, Color::Black), false);
}

#[test]
fn test_movements_test_rook() {
    let mut one_rook_state = new_empty_game_state();
    let mut rng = rand::thread_rng();
    let x: usize = rng.gen_range(0, 7);
    let y: usize = rng.gen_range(0, 7);
    one_rook_state.board[x][y] = Some(Piece {
        piece_type: PieceType::Rook,
        color: Color::White,
    });
    let movements: Vec<Movement> = generate_movements(&one_rook_state);
    assert_eq!(movements.len(), 14);
}

#[test]
fn test_movements_test_bishop() {
    let mut one_bishop_state = new_empty_game_state();
    one_bishop_state.board[1][2] = Some(Piece {
        piece_type: PieceType::Bishop,
        color: Color::White,
    });
    let movements: Vec<Movement> = generate_movements(&one_bishop_state);
    assert_eq!(movements.len(), 9);
}

#[test]
fn test_movements_test_king() {
    let mut one_king_state = new_empty_game_state();
    let mut rng = rand::thread_rng();
    let x: usize = rng.gen_range(1, 6);
    let y: usize = rng.gen_range(1, 6);
    one_king_state.board[x][y] = Some(Piece {
        piece_type: PieceType::King,
        color: Color::White,
    });
    let movements: Vec<Movement> = generate_movements(&one_king_state);
    assert_eq!(movements.len(), 8);
    one_king_state.board[x + 1][y + 1] = Some(Piece {
        piece_type: PieceType::Queen,
        color: Color::Black,
    });
    let movements2: Vec<Movement> = generate_movements(&one_king_state);
    assert_eq!(movements2.len(), 3);
}

fn en_passant_state() -> GameState {
    let mut state = new_empty_game_state();
    state.board[0][4] = Some(Piece { piece_type: PieceType::King, color: Color::White });
    state.board[7][4] = Some(Piece { piece_type: PieceType::King, color: Color::Black });
    state.board[4][3] = Some(Piece { piece_type: PieceType::Pawn, color: Color::White });
    state.board[6][4] = Some(Piece { piece_type: PieceType::Pawn, color: Color::Black });
    state.player_to_move = Color::Black;
    state.make_movement(Movement::Normal { from: [6, 4], to: [4, 4] });
    state
}

#[test]
fn test_movements_test_en_passant() {
    let en_passant_state = en_passant_state();
    assert_eq!(
        is_valid_movement(
            &Movement::Normal {
                from: [4, 3],
                to: [5, 4]
            },
            &en_passant_state
        ),
        true
    );
}

#[test]
fn test_movements_test_castle() {
    let mut game_state = GameState::new();
    assert_eq!(king_castle_is_valid(&game_state), false);
    assert_eq!(queen_castle_is_valid(&game_state), false);
    game_state.board[0][5] = None;
    game_state.board[0][6] = None;
    assert_eq!(king_castle_is_valid(&game_state), true);
    game_state.make_movement(Movement::Normal {
        from: [0, 4],
        to: [0, 5],
    });
    game_state.make_movement(Movement::Normal {
        from: [0, 5],
        to: [0, 4],
    });
    assert_eq!(king_castle_is_valid(&game_state), false);
    game_state.board[7][5] = None;
    game_state.board[7][6] = None;
    game_state.player_to_move = Color::Black;
    assert_eq!(king_castle_is_valid(&game_state), true);
    assert_eq!(queen_castle_is_valid(&game_state), false);
    game_state.board[7][1] = None;
    game_state.board[7][2] = None;
    game_state.board[7][3] = None;
    assert_eq!(queen_castle_is_valid(&game_state), true);
    game_state.make_movement(Movement::Normal {
        from: [0, 0],
        to: [7, 0],
    }); // take the rook
    assert_eq!(queen_castle_is_valid(&game_state), false);
    game_state.board[0][1] = None;
    game_state.board[0][2] = None;
    game_state.board[0][3] = None;
    game_state.player_to_move = Color::White;
    assert_eq!(queen_castle_is_valid(&game_state), false);
}
