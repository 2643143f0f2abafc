use rand::seq::SliceRandom;
use rust_chess::model::game_state::GameState;
use rust_chess::model::movement::Movement;
use rust_chess::model::piece::{Color, PieceType};
use rust_chess::rules::cmd_validator::is_valid_movement;
use rust_chess::rules::game_over::{is_draw, is_in_check_mate};
use rust_chess::rules::move_generator::generate_movements;

fn is_valid_position(game_state: &GameState) -> bool {
    let mut king_count = 0;
    let mut white_rook_count = 0;
    let mut black_rook_count = 0;
    for row in game_state.board {
        for square in row {
            match square {
                Some(piece) if piece.piece_type == PieceType::King => {
                    king_count += 1;
                }
                Some(piece) if piece.piece_type == PieceType::Rook => match piece.color {
                    Color::White => {
                        white_rook_count += 1;
                    }
                    Color::Black => {
                        black_rook_count += 1;
                    }
                },
                _ => {}
            }
        }
    }
    return king_count == 2 && white_rook_count <= 2 && black_rook_count <= 2;
}

#[test]
fn test_bots_random_games() {
    // verify that all generated movements are valid
    for _ in 0..200 {
        let mut game_state: GameState = GameState::new960();
        for i in 0..100 {
            let movements: Vec<Movement> = generate_movements(&game_state);
            for movement in &movements {
                assert_eq!(is_valid_movement(&movement, &game_state), true);
            }
            if let Some(chosen_move) = movements.choose(&mut rand::thread_rng()) {
                game_state.make_movement(chosen_move.clone());
                if !is_valid_position(&game_state) {
                    panic!("{:?}", &game_state.last_move);
                }
            } else {
                println!("Game over {}", i);
                let check_mate = is_in_check_mate(&game_state, game_state.player_to_move);
                let draw = is_draw(&game_state);
                if check_mate {
                    println!("{:?} won", game_state.player_to_move.get_opponent_color());
                } else if draw {
                    println!("Draw");
                }
                assert_eq!(check_mate || draw, true);
                break;
            }
        }
    }
}

#[test]
fn test_960_init() {
    for _ in 0..10 {
        let game_state = GameState::new960();
        for king_pos in game_state.king_initial_positions {
            assert_eq!(
                game_state.board[king_pos.unwrap()[0]][king_pos.unwrap()[1]]
                    .unwrap()
                    .piece_type,
                PieceType::King
            );
        }
        for arr in game_state.rook_initial_positions {
            for rook_pos in arr {
                assert_eq!(
                    game_state.board[rook_pos.unwrap()[0]][rook_pos.unwrap()[1]]
                        .unwrap()
                        .piece_type,
                    PieceType::Rook
                );
            }
        }
    }
}

#[test]
fn test_random_games() {
    // verify that all generated movements are valid
    for _ in 0..10 {
        let mut game_state: GameState = GameState::new();
        for i in 0..100 {
            let movements: Vec<Movement> = generate_movements(&game_state);
            for movement in &movements {
                assert_eq!(is_valid_movement(&movement, &game_state), true);
            }
            if let Some(chosen_move) = movements.choose(&mut rand::thread_rng()) {
                game_state.make_movement(chosen_move.clone());
            } else {
                println!("Game over {}", i);
                let check_mate = is_in_check_mate(&game_state, game_state.player_to_move);
                let draw = is_draw(&game_state);
                if check_mate {
                    println!("{:?} won", game_state.player_to_move.get_opponent_color());
                } else if draw {
                    println!("Draw");
                }
                assert_eq!(check_mate || draw, true);
                break;
            }
        }
    }
}
