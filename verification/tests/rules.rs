use rust_chess::controllers::controller::Command;
use rust_chess::evaluation::{
    evaluate_game_over, evaluate_material, evaluate_positions, CHECK_MATE_VALUE,
};
use rust_chess::model::game_state::GameState;
use rust_chess::model::movement::Movement;
use rust_chess::model::piece::{Color, Piece, PieceType};
use rust_chess::rules::castle_validator::{king_castle_is_valid, queen_castle_is_valid};
use rust_chess::rules::cmd_exec::execute_command;
use rust_chess::rules::cmd_validator::{
    is_in_check, is_valid_cmd, is_valid_movement, is_valid_movement_for_player,
    is_valid_normal_movement_for_player, last_move_was_check, move_is_check, obeys_piece_rules,
};
use rust_chess::rules::game_over::{has_no_legal_move, is_draw, is_game_over, is_in_check_mate};
use rust_chess::rules::move_generator::{
    generate_commands, generate_movements, generate_movements_for_piece,
    generate_movements_for_player, generate_movements_for_player_ignoring_check,
};

fn piece(piece_type: PieceType, color: Color) -> Option<Piece> {
    Some(Piece { piece_type, color })
}

fn step(from: [usize; 2], to: [usize; 2]) -> Movement {
    Movement::Normal { from, to }
}

fn two_kings() -> GameState {
    let mut state = GameState::new_empty();
    state.board[0][4] = piece(PieceType::King, Color::White);
    state.board[7][4] = piece(PieceType::King, Color::Black);
    state
}

fn fools_mate() -> GameState {
    let mut state = GameState::new();
    state.make_movement(step([1, 5], [2, 5]));
    state.make_movement(step([6, 4], [4, 4]));
    state.make_movement(step([1, 6], [3, 6]));
    state.make_movement(step([7, 3], [3, 7]));
    state
}

#[test]
fn movement_flips_the_side_and_counts_down() {
    let mut state = GameState::new();
    state.make_movement(step([1, 4], [3, 4]));
    assert_eq!(state.player_to_move, Color::Black);
    assert_eq!(state.move_limit, 99);
    assert_eq!(state.last_move, Some(step([1, 4], [3, 4])));
    assert_eq!(state.board[3][4], piece(PieceType::Pawn, Color::White));
    assert_eq!(state.board[1][4], None);
    state.make_movement(step([6, 3], [4, 3]));
    assert_eq!(state.player_to_move, Color::White);
    assert_eq!(state.move_limit, 98);
}

#[test]
fn capture_sets_the_counter_to_its_ceiling() {
    let mut state = GameState::new();
    state.make_movement(step([1, 4], [3, 4]));
    state.make_movement(step([6, 3], [4, 3]));
    state.make_movement(step([3, 4], [4, 3]));
    assert_eq!(state.move_limit, 100);
    assert_eq!(state.board[4][3], piece(PieceType::Pawn, Color::White));
    assert_eq!(state.player_to_move, Color::Black);
}

#[test]
fn counter_stays_at_the_least_integer() {
    let mut state = two_kings();
    state.move_limit = i32::MIN;
    state.make_movement(step([0, 4], [0, 3]));
    assert_eq!(state.move_limit, i32::MIN);
    assert_eq!(state.player_to_move, Color::Black);
}

#[test]
fn movement_that_cannot_be_made_changes_nothing() {
    let start = GameState::new();
    let mut state = GameState::new();
    state.make_movement(step([3, 3], [4, 3]));
    assert!(state == start);
    state.make_movement(step([8, 0], [4, 3]));
    assert!(state == start);
    state.make_movement(step([1, 0], [2, 9]));
    assert!(state == start);
    let mut empty = GameState::new_empty();
    let before = empty.clone();
    empty.make_movement(Movement::CastleKingSide(Color::White));
    assert!(empty == before);
    empty.castle_queen_side();
    assert!(empty == before);
}

#[test]
fn clone_and_move_leaves_the_state_alone() {
    let state = GameState::new();
    let next = state.clone_and_move(step([1, 4], [3, 4]));
    assert!(state == GameState::new());
    assert_eq!(next.board[3][4], piece(PieceType::Pawn, Color::White));
    assert!(state.deepclone() == state);
    assert!(next != state);
}

#[test]
fn pawn_on_the_far_row_becomes_a_queen() {
    let mut state = two_kings();
    state.board[6][0] = piece(PieceType::Pawn, Color::White);
    state.board[1][7] = piece(PieceType::Pawn, Color::Black);
    state.make_movement(step([6, 0], [7, 0]));
    assert_eq!(state.board[7][0], piece(PieceType::Queen, Color::White));
    state.make_movement(step([1, 7], [0, 7]));
    assert_eq!(state.board[0][7], piece(PieceType::Queen, Color::Black));
}

fn en_passant_position() -> GameState {
    let mut state = two_kings();
    state.board[4][3] = piece(PieceType::Pawn, Color::White);
    state.board[6][4] = piece(PieceType::Pawn, Color::Black);
    state.player_to_move = Color::Black;
    state.make_movement(step([6, 4], [4, 4]));
    state
}

#[test]
fn en_passant_takes_the_pawn_beside() {
    let mut state = en_passant_position();
    state.move_limit = 50;
    assert!(state.is_en_passant(4, 3, 5, 4));
    assert!(!state.is_en_passant(4, 3, 5, 2));
    assert!(is_valid_movement(&step([4, 3], [5, 4]), &state));
    assert!(generate_movements(&state).contains(&step([4, 3], [5, 4])));
    state.make_movement(step([4, 3], [5, 4]));
    assert_eq!(state.board[5][4], piece(PieceType::Pawn, Color::White));
    assert_eq!(state.board[4][4], None);
    assert_eq!(state.board[4][3], None);
    assert_eq!(state.move_limit, 100);
}

#[test]
fn en_passant_is_gone_one_move_later() {
    let mut state = en_passant_position();
    state.make_movement(step([0, 4], [0, 3]));
    state.make_movement(step([7, 4], [7, 3]));
    assert_eq!(state.player_to_move, Color::White);
    assert!(!state.is_en_passant(4, 3, 5, 4));
    assert!(!is_valid_movement(&step([4, 3], [5, 4]), &state));
    assert!(!generate_movements(&state).contains(&step([4, 3], [5, 4])));
}

#[test]
fn black_takes_en_passant_too() {
    let mut state = two_kings();
    state.board[3][6] = piece(PieceType::Pawn, Color::Black);
    state.board[1][5] = piece(PieceType::Pawn, Color::White);
    state.make_movement(step([1, 5], [3, 5]));
    assert!(is_valid_movement(&step([3, 6], [2, 5]), &state));
    state.make_movement(step([3, 6], [2, 5]));
    assert_eq!(state.board[3][5], None);
    assert_eq!(state.board[2][5], piece(PieceType::Pawn, Color::Black));
}

#[test]
fn castle_moves_king_and_rook() {
    let mut state = GameState::new();
    state.board[0][5] = None;
    state.board[0][6] = None;
    state.make_movement(Movement::CastleKingSide(Color::White));
    assert_eq!(state.board[0][6], piece(PieceType::King, Color::White));
    assert_eq!(state.board[0][5], piece(PieceType::Rook, Color::White));
    assert_eq!(state.board[0][4], None);
    assert_eq!(state.board[0][7], None);
    assert_eq!(state.white_can_castle_king_side, false);
    assert_eq!(state.white_can_castle_queen_side, false);
    assert_eq!(state.black_can_castle_king_side, true);
    assert_eq!(state.player_to_move, Color::Black);
    assert_eq!(state.last_move, Some(Movement::CastleKingSide(Color::White)));
    assert_eq!(state.move_limit, 99);
    state.board[7][1] = None;
    state.board[7][2] = None;
    state.board[7][3] = None;
    state.castle_queen_side();
    assert_eq!(state.board[7][2], piece(PieceType::King, Color::Black));
    assert_eq!(state.board[7][3], piece(PieceType::Rook, Color::Black));
    assert_eq!(state.board[7][0], None);
    assert_eq!(state.black_can_castle_king_side, false);
    assert_eq!(state.last_move, Some(Movement::CastleQueenSide(Color::Black)));
}

#[test]
fn castling_rights_do_not_come_back() {
    let mut state = GameState::new();
    state.board[0][5] = None;
    state.board[0][6] = None;
    state.make_movement(step([0, 7], [0, 6]));
    assert_eq!(state.white_can_castle_king_side, false);
    assert_eq!(state.white_can_castle_queen_side, true);
    state.make_movement(step([6, 0], [5, 0]));
    state.make_movement(step([0, 6], [0, 7]));
    assert_eq!(state.white_can_castle_king_side, false);
    state.make_movement(step([5, 0], [4, 0]));
    assert_eq!(king_castle_is_valid(&state), false);
    state.make_movement(step([1, 0], [2, 0]));
    assert_eq!(state.white_can_castle_king_side, false);
    assert_eq!(state.white_can_castle_queen_side, true);
}

#[test]
fn taking_a_rook_on_its_square_takes_the_right() {
    let mut state = GameState::new();
    state.board[1][7] = None;
    state.board[6][7] = None;
    state.make_movement(step([0, 7], [7, 7]));
    assert_eq!(state.black_can_castle_king_side, false);
    assert_eq!(state.black_can_castle_queen_side, true);
    assert_eq!(state.white_can_castle_king_side, false);
}

fn castle_position(black_rook: [usize; 2]) -> GameState {
    let mut state = GameState::new_empty();
    state.board[0][4] = piece(PieceType::King, Color::White);
    state.board[0][7] = piece(PieceType::Rook, Color::White);
    state.board[7][0] = piece(PieceType::King, Color::Black);
    state.board[black_rook[0]][black_rook[1]] = piece(PieceType::Rook, Color::Black);
    state.king_initial_positions = [Some([0, 4]), Some([7, 0])];
    state.rook_initial_positions = [[Some([0, 0]), None], [Some([0, 7]), None]];
    state
}

#[test]
fn king_may_not_castle_out_of_through_or_into_check() {
    assert_eq!(king_castle_is_valid(&castle_position([7, 7])), true);
    assert_eq!(king_castle_is_valid(&castle_position([7, 4])), false);
    assert_eq!(king_castle_is_valid(&castle_position([7, 5])), false);
    assert_eq!(king_castle_is_valid(&castle_position([7, 6])), false);
    assert_eq!(queen_castle_is_valid(&castle_position([7, 7])), false);
    let state = castle_position([7, 7]);
    assert!(generate_movements(&state).contains(&Movement::CastleKingSide(Color::White)));
    assert!(is_valid_movement(&Movement::CastleKingSide(Color::White), &state));
    assert!(is_valid_cmd(&Command::CastleKingSide, &state));
    assert!(!is_valid_cmd(&Command::CastleQueenSide, &state));
}

#[test]
fn castle_in_a_random_chess_position() {
    let mut state = GameState::new_empty();
    state.board[0][1] = piece(PieceType::Rook, Color::White);
    state.board[0][5] = piece(PieceType::King, Color::White);
    state.board[0][6] = piece(PieceType::Rook, Color::White);
    state.board[7][1] = piece(PieceType::Rook, Color::Black);
    state.board[7][5] = piece(PieceType::King, Color::Black);
    state.board[7][6] = piece(PieceType::Rook, Color::Black);
    state.board[1][6] = piece(PieceType::Pawn, Color::White);
    state.king_initial_positions = [Some([0, 5]), Some([7, 5])];
    state.rook_initial_positions = [[Some([0, 1]), Some([7, 1])], [Some([0, 6]), Some([7, 6])]];
    assert_eq!(king_castle_is_valid(&state), true);
    assert_eq!(queen_castle_is_valid(&state), true);
    let king_side = state.clone_and_move(Movement::CastleKingSide(Color::White));
    assert_eq!(king_side.board[0][6], piece(PieceType::King, Color::White));
    assert_eq!(king_side.board[0][5], piece(PieceType::Rook, Color::White));
    assert_eq!(king_side.board[0][1], piece(PieceType::Rook, Color::White));
    let queen_side = state.clone_and_move(Movement::CastleQueenSide(Color::White));
    assert_eq!(queen_side.board[0][2], piece(PieceType::King, Color::White));
    assert_eq!(queen_side.board[0][3], piece(PieceType::Rook, Color::White));
    assert_eq!(queen_side.board[0][1], None);
    assert_eq!(queen_side.board[0][5], None);
    assert_eq!(queen_side.board[0][6], piece(PieceType::Rook, Color::White));
    state.board[0][3] = piece(PieceType::Bishop, Color::White);
    assert_eq!(queen_castle_is_valid(&state), false);
    assert_eq!(king_castle_is_valid(&state), true);
    state.board[1][6] = None;
    assert_eq!(king_castle_is_valid(&state), false);
}

#[test]
fn king_that_stands_where_it_lands_may_castle() {
    let mut state = GameState::new_empty();
    state.board[0][6] = piece(PieceType::King, Color::White);
    state.board[0][7] = piece(PieceType::Rook, Color::White);
    state.board[0][0] = piece(PieceType::Rook, Color::White);
    state.board[7][0] = piece(PieceType::King, Color::Black);
    state.king_initial_positions = [Some([0, 6]), Some([7, 0])];
    state.rook_initial_positions = [[Some([0, 0]), None], [Some([0, 7]), None]];
    assert_eq!(king_castle_is_valid(&state), true);
    let next = state.clone_and_move(Movement::CastleKingSide(Color::White));
    assert_eq!(next.board[0][6], piece(PieceType::King, Color::White));
    assert_eq!(next.board[0][5], piece(PieceType::Rook, Color::White));
    assert_eq!(next.board[0][7], None);
    state.board[0][5] = piece(PieceType::Knight, Color::White);
    assert_eq!(king_castle_is_valid(&state), false);
    state.board[0][5] = None;
    state.board[0][3] = piece(PieceType::Knight, Color::White);
    assert_eq!(queen_castle_is_valid(&state), false);
    state.board[0][3] = None;
    assert_eq!(queen_castle_is_valid(&state), true);
    let next = state.clone_and_move(Movement::CastleQueenSide(Color::White));
    assert_eq!(next.board[0][2], piece(PieceType::King, Color::White));
    assert_eq!(next.board[0][3], piece(PieceType::Rook, Color::White));
    assert_eq!(next.board[0][6], None);
    assert_eq!(next.board[0][0], None);
    assert_eq!(next.board[0][7], piece(PieceType::Rook, Color::White));
}

#[test]
fn side_without_a_king_is_never_in_check() {
    let mut state = GameState::new_empty();
    state.board[3][3] = piece(PieceType::Queen, Color::Black);
    state.board[0][0] = piece(PieceType::Rook, Color::White);
    assert_eq!(is_in_check(&state, Color::White), false);
    assert_eq!(is_in_check(&state, Color::Black), false);
    assert_eq!(is_in_check_mate(&state, Color::White), false);
    assert_eq!(king_castle_is_valid(&state), false);
}

#[test]
fn mate_and_what_it_is_worth() {
    let state = fools_mate();
    assert_eq!(state.player_to_move, Color::White);
    assert!(is_in_check(&state, Color::White));
    assert!(has_no_legal_move(&state));
    assert!(generate_movements(&state).is_empty());
    assert!(is_in_check_mate(&state, Color::White));
    assert!(!is_in_check_mate(&state, Color::Black));
    assert!(!is_draw(&state));
    assert!(is_game_over(&state));
    assert_eq!(evaluate_game_over(&state, Color::White), -CHECK_MATE_VALUE);
    assert_eq!(evaluate_game_over(&state, Color::Black), CHECK_MATE_VALUE);
    assert_eq!(CHECK_MATE_VALUE, 20000);
    assert!(last_move_was_check(&state));
    assert!(!is_game_over(&GameState::new()));
}

#[test]
fn stalemate_is_a_draw() {
    let mut state = GameState::new_empty();
    state.board[7][0] = piece(PieceType::King, Color::Black);
    state.board[5][1] = piece(PieceType::Queen, Color::White);
    state.board[5][2] = piece(PieceType::King, Color::White);
    state.board[1][7] = piece(PieceType::Pawn, Color::White);
    state.player_to_move = Color::Black;
    assert!(!is_in_check(&state, Color::Black));
    assert!(has_no_legal_move(&state));
    assert!(is_draw(&state));
    assert!(!is_in_check_mate(&state, Color::Black));
    assert_eq!(evaluate_game_over(&state, Color::Black), 0);
    assert_eq!(evaluate_game_over(&state, Color::White), 0);
}

#[test]
fn little_material_is_a_draw() {
    let mut state = two_kings();
    assert!(is_draw(&state));
    state.board[3][3] = piece(PieceType::Bishop, Color::White);
    state.board[4][4] = piece(PieceType::Knight, Color::Black);
    assert!(is_draw(&state));
    state.board[3][4] = piece(PieceType::Knight, Color::White);
    assert!(!is_draw(&state));
    state.board[3][4] = None;
    state.board[2][2] = piece(PieceType::Pawn, Color::White);
    assert!(!is_draw(&state));
}

#[test]
fn run_out_counter_is_a_draw() {
    let mut state = GameState::new();
    assert!(!is_draw(&state));
    state.move_limit = 0;
    assert!(is_draw(&state));
    assert!(is_game_over(&state));
    state.move_limit = 1;
    assert!(!is_draw(&state));
}

#[test]
fn material_is_counted_by_piece() {
    let mut state = GameState::new();
    assert_eq!(evaluate_material(&state, Color::White), 0);
    state.board[7][3] = None;
    assert_eq!(evaluate_material(&state, Color::White), 40);
    assert_eq!(evaluate_material(&state, Color::Black), -40);
    state.board[0][0] = None;
    assert_eq!(evaluate_material(&state, Color::White), 20);
    state.board[0][1] = None;
    assert_eq!(evaluate_material(&state, Color::White), 8);
    state.board[7][2] = None;
    assert_eq!(evaluate_material(&state, Color::White), 21);
    state.board[1][0] = None;
    assert_eq!(evaluate_material(&state, Color::White), 17);
    state.board[7][4] = None;
    assert_eq!(evaluate_material(&state, Color::White), 1017);
}

#[test]
fn material_by_row() {
    let mut state = GameState::new_empty();
    state.board[0][4] = piece(PieceType::King, Color::White);
    assert_eq!(evaluate_positions(&state, Color::White), 1000);
    assert_eq!(evaluate_positions(&state, Color::Black), -999);
    state.board[0][2] = piece(PieceType::Bishop, Color::White);
    state.board[3][2] = piece(PieceType::Knight, Color::White);
    assert_eq!(evaluate_positions(&state, Color::White), 1000 + 12 + 12);
    state.board[3][3] = piece(PieceType::Queen, Color::Black);
    state.board[3][4] = piece(PieceType::Rook, Color::Black);
    state.board[3][5] = piece(PieceType::Pawn, Color::Black);
    assert_eq!(evaluate_positions(&state, Color::White), 1024 - 64);
}

#[test]
fn each_piece_moves_its_own_way() {
    let state = GameState::new_empty();
    let at = |kind: PieceType| {
        generate_movements_for_piece(
            &state,
            3,
            3,
            Piece { piece_type: kind, color: Color::White },
        )
        .len()
    };
    assert_eq!(at(PieceType::Rook), 14);
    assert_eq!(at(PieceType::Bishop), 13);
    assert_eq!(at(PieceType::Queen), 27);
    assert_eq!(at(PieceType::Knight), 8);
    assert_eq!(at(PieceType::King), 9);
    assert_eq!(at(PieceType::Pawn), 1);
    let knight = Piece { piece_type: PieceType::Knight, color: Color::White };
    assert_eq!(generate_movements_for_piece(&state, 0, 0, knight).len(), 2);
    assert_eq!(generate_movements_for_piece(&state, 8, 0, knight).len(), 0);
    let pawn = Piece { piece_type: PieceType::Pawn, color: Color::Black };
    assert_eq!(generate_movements_for_piece(&state, 6, 0, pawn).len(), 2);
    assert_eq!(generate_movements_for_piece(&state, 0, 0, pawn).len(), 0);
}

#[test]
fn start_has_twenty_movements() {
    let state = GameState::new();
    let movements = generate_movements(&state);
    assert_eq!(movements.len(), 20);
    assert_eq!(generate_movements_for_player(&state, Color::Black).len(), 20);
    assert_eq!(generate_movements_for_player_ignoring_check(&state, Color::White).len(), 20);
    assert_eq!(generate_commands(&state).len(), 20);
    for movement in &movements {
        assert!(is_valid_movement(movement, &state));
        assert!(obeys_piece_rules(movement, &state));
        assert_eq!(movements.iter().filter(|other| *other == movement).count(), 1);
    }
    assert!(movements.contains(&step([1, 4], [3, 4])));
    assert!(movements.contains(&step([0, 1], [2, 2])));
    assert!(!movements.contains(&step([0, 0], [2, 0])));
}

#[test]
fn pinned_piece_may_not_leave() {
    let mut state = two_kings();
    state.board[1][4] = piece(PieceType::Rook, Color::White);
    state.board[6][4] = piece(PieceType::Rook, Color::Black);
    state.board[7][4] = None;
    state.board[7][0] = piece(PieceType::King, Color::Black);
    assert!(is_valid_movement(&step([1, 4], [3, 4]), &state));
    assert!(!is_valid_movement(&step([1, 4], [1, 0]), &state));
    assert!(obeys_piece_rules(&step([1, 4], [1, 0]), &state));
    let legal = generate_movements(&state);
    let pseudo = generate_movements_for_player_ignoring_check(&state, Color::White);
    assert!(!legal.contains(&step([1, 4], [1, 0])));
    assert!(pseudo.contains(&step([1, 4], [1, 0])));
    assert!(legal.len() < pseudo.len());
}

#[test]
fn validator_knows_whose_turn_it_is() {
    let state = GameState::new();
    assert!(!is_valid_movement(&step([6, 4], [4, 4]), &state));
    assert!(is_valid_movement_for_player(&step([6, 4], [4, 4]), &state, Color::Black));
    assert!(is_valid_normal_movement_for_player(&step([6, 4], [4, 4]), &state, Color::Black));
    assert!(!is_valid_normal_movement_for_player(
        &Movement::CastleKingSide(Color::Black),
        &state,
        Color::Black
    ));
    assert!(!is_valid_movement(&step([1, 4], [4, 4]), &state));
    assert!(!is_valid_movement(&step([0, 0], [3, 0]), &state));
    assert!(!is_valid_movement(&step([0, 2], [2, 4]), &state));
    assert!(!is_valid_movement(&step([1, 4], [1, 4]), &state));
    assert!(!is_valid_movement(&step([9, 4], [1, 4]), &state));
    assert!(!is_valid_movement(&step([3, 3], [4, 3]), &state));
}

#[test]
fn king_may_be_taken_by_a_piece_that_leaves_its_own_king_in_check() {
    let mut state = GameState::new_empty();
    state.board[0][0] = piece(PieceType::King, Color::White);
    state.board[0][4] = piece(PieceType::Rook, Color::White);
    state.board[0][7] = piece(PieceType::Rook, Color::Black);
    state.board[7][4] = piece(PieceType::King, Color::Black);
    assert!(is_valid_movement(&step([0, 4], [7, 4]), &state));
    assert!(!is_valid_movement(&step([0, 4], [6, 4]), &state));
}

#[test]
fn commands_are_checked_and_carried_out() {
    let mut state = GameState::new();
    assert!(is_valid_cmd(&Command::Undo, &state));
    assert!(is_valid_cmd(&Command::AcceptUndo, &state));
    assert!(is_valid_cmd(&Command::Resign, &state));
    assert!(is_valid_cmd(&Command::Save, &state));
    assert!(!is_valid_cmd(&Command::CastleKingSide, &state));
    assert!(is_valid_cmd(&Command::Move(step([1, 4], [3, 4])), &state));
    assert!(!is_valid_cmd(&Command::Move(step([1, 4], [4, 4])), &state));
    execute_command(Command::Save, &mut state);
    execute_command(Command::Resign, &mut state);
    execute_command(Command::Undo, &mut state);
    assert!(state == GameState::new());
    execute_command(Command::Move(step([1, 4], [3, 4])), &mut state);
    assert_eq!(state.board[3][4], piece(PieceType::Pawn, Color::White));
    let mut castle = castle_position([7, 7]);
    execute_command(Command::CastleKingSide, &mut castle);
    assert_eq!(castle.board[0][6], piece(PieceType::King, Color::White));
}

#[test]
fn check_by_the_piece_that_moved() {
    let mut state = two_kings();
    state.board[1][0] = piece(PieceType::Rook, Color::White);
    assert!(move_is_check(step([1, 0], [1, 4]), &state));
    assert!(!move_is_check(step([1, 0], [1, 3]), &state));
    assert!(!last_move_was_check(&state));
    state.make_movement(step([1, 0], [7, 0]));
    assert!(last_move_was_check(&state));
    assert!(is_in_check(&state, Color::Black));
}

#[test]
fn squares_are_listed_in_reading_order() {
    let state = GameState::new();
    let rook = Piece { piece_type: PieceType::Rook, color: Color::Black };
    assert_eq!(state.get_piece_positions(rook), vec![[7, 0], [7, 7]]);
    let king = Piece { piece_type: PieceType::King, color: Color::White };
    assert_eq!(state.get_piece_positions(king), vec![[0, 4]]);
    let white = state.get_positions_of_color(Color::White);
    assert_eq!(white.len(), 16);
    assert_eq!(white[0], [0, 0]);
    assert_eq!(white[15], [1, 7]);
    assert_eq!(state.get_king_initial_position(Color::Black), Some([7, 4]));
    assert_eq!(state.get_rook_initial_position(Color::White, true), Some([0, 7]));
    assert_eq!(state.get_rook_initial_position(Color::Black, false), Some([7, 0]));
    assert_eq!(step([0, 4], [1, 4]).get_piece(&state), king);
    assert_eq!(
        Movement::CastleQueenSide(Color::Black).get_piece(&state),
        Piece { piece_type: PieceType::King, color: Color::Black }
    );
}

#[test]
fn pieces_and_their_letters() {
    let knight = Piece { piece_type: PieceType::Knight, color: Color::White };
    assert_eq!(knight.to_ascii(), 'N');
    assert_eq!(knight.to_unicode(), '♘');
    assert_eq!(knight.to_char(), '♘');
    let pawn = Piece { piece_type: PieceType::Pawn, color: Color::Black };
    assert_eq!(pawn.to_ascii(), 'p');
    assert_eq!(pawn.to_unicode(), '♟');
    assert_eq!(Piece::from_char('q', Color::White), Ok(Piece { piece_type: PieceType::Queen, color: Color::White }));
    assert_eq!(Piece::from_char('R', Color::Black), Ok(Piece { piece_type: PieceType::Rook, color: Color::Black }));
    assert_eq!(Piece::from_char('x', Color::Black), Err(()));
    assert_eq!(Color::White.get_opponent_color(), Color::Black);
    assert_eq!(Color::Black.get_opponent_color(), Color::White);
}

#[test]
fn random_chess_start_is_well_arranged() {
    let mut seen: Vec<[Option<Piece>; 8]> = vec![];
    for _ in 0..50 {
        let state = GameState::new960();
        let kind = |col: usize| state.board[0][col].unwrap().piece_type;
        let places = |wanted: PieceType| -> Vec<usize> {
            (0..8).filter(|col| kind(*col) == wanted).collect()
        };
        let rooks = places(PieceType::Rook);
        let kings = places(PieceType::King);
        let bishops = places(PieceType::Bishop);
        assert_eq!(rooks.len(), 2);
        assert_eq!(kings.len(), 1);
        assert_eq!(bishops.len(), 2);
        assert_eq!(places(PieceType::Queen).len(), 1);
        assert_eq!(places(PieceType::Knight).len(), 2);
        assert!(rooks[0] < kings[0] && kings[0] < rooks[1]);
        assert!(bishops[0] % 2 != bishops[1] % 2);
        for col in 0..8 {
            assert_eq!(state.board[0][col].unwrap().color, Color::White);
            assert_eq!(state.board[7][col], piece(kind(col), Color::Black));
            assert_eq!(state.board[1][col], piece(PieceType::Pawn, Color::White));
            assert_eq!(state.board[6][col], piece(PieceType::Pawn, Color::Black));
            assert_eq!(state.board[3][col], None);
        }
        assert_eq!(state.king_initial_positions, [Some([0, kings[0]]), Some([7, kings[0]])]);
        assert_eq!(
            state.rook_initial_positions,
            [[Some([0, rooks[0]]), Some([7, rooks[0]])], [Some([0, rooks[1]]), Some([7, rooks[1]])]]
        );
        assert_eq!(state.move_limit, 100);
        if !seen.contains(&state.board[0]) {
            seen.push(state.board[0]);
        }
    }
    assert!(seen.len() > 1);
}
