use rust_chess::controllers::alphabeta::AlphaBetaBot;
use rust_chess::controllers::controller::{Command, Controller};
use rust_chess::controllers::game_tree::GameTree;
use rust_chess::controllers::minimax::MinimaxBot;
use rust_chess::controllers::random_bot::RandomBot;
use rust_chess::evaluation::{evaluate_game_over, evaluate_material};
use rust_chess::game::{Game, GameResult, Outcome};
use rust_chess::model::game_state::GameState;
use rust_chess::model::movement::Movement;
use rust_chess::model::piece::{Color, Piece, PieceType};
use rust_chess::rules::cmd_validator::is_valid_movement;
use rust_chess::rules::game_over::is_game_over;
use rust_chess::rules::move_generator::generate_movements_for_player_ignoring_check;
use rust_chess::view::NoDisplay;

fn piece(piece_type: PieceType, color: Color) -> Option<Piece> {
    Some(Piece { piece_type, color })
}

fn step(from: [usize; 2], to: [usize; 2]) -> Movement {
    Movement::Normal { from, to }
}

fn hanging_queen() -> GameState {
    let mut state = GameState::new_empty();
    state.board[0][4] = piece(PieceType::King, Color::White);
    state.board[0][0] = piece(PieceType::Rook, Color::White);
    state.board[7][4] = piece(PieceType::King, Color::Black);
    state.board[7][0] = piece(PieceType::Queen, Color::Black);
    state
}

fn small_positions() -> Vec<GameState> {
    let mut positions = vec![hanging_queen()];
    let mut black_to_move = hanging_queen();
    black_to_move.player_to_move = Color::Black;
    positions.push(black_to_move);
    let mut minor = GameState::new_empty();
    minor.board[0][6] = piece(PieceType::King, Color::White);
    minor.board[2][2] = piece(PieceType::Knight, Color::White);
    minor.board[1][5] = piece(PieceType::Pawn, Color::White);
    minor.board[7][1] = piece(PieceType::King, Color::Black);
    minor.board[4][3] = piece(PieceType::Bishop, Color::Black);
    minor.board[3][1] = piece(PieceType::Pawn, Color::Black);
    minor.board[5][6] = piece(PieceType::Rook, Color::Black);
    positions.push(minor.clone());
    minor.player_to_move = Color::Black;
    positions.push(minor);
    let mut pawns = GameState::new_empty();
    pawns.board[0][0] = piece(PieceType::King, Color::White);
    pawns.board[5][3] = piece(PieceType::Pawn, Color::White);
    pawns.board[4][2] = piece(PieceType::Pawn, Color::White);
    pawns.board[7][7] = piece(PieceType::King, Color::Black);
    pawns.board[6][4] = piece(PieceType::Pawn, Color::Black);
    pawns.board[6][2] = piece(PieceType::Knight, Color::Black);
    positions.push(pawns);
    positions
}

/// The worth of a state to the side to move, found without pruning.
fn worth(state: &GameState, depth: u32) -> Option<i32> {
    let mover = state.player_to_move;
    if depth == 0 {
        return Some(evaluate_material(state, mover));
    }
    let movements = generate_movements_for_player_ignoring_check(state, mover);
    for movement in &movements {
        if let Movement::Normal { from: _, to } = movement {
            if let Some(taken) = state.board[to[0]][to[1]] {
                if taken.piece_type == PieceType::King {
                    return None;
                }
            }
        }
    }
    let mut best: Option<i32> = None;
    for movement in movements {
        let next = state.clone_and_move(movement);
        if let Some(value) = worth(&next, depth - 1) {
            best = Some(match best {
                Some(b) if b >= -value => b,
                _ => -value,
            });
        }
    }
    match best {
        Some(b) => Some(b),
        None => {
            if is_game_over(state) {
                Some(evaluate_game_over(state, mover))
            } else {
                None
            }
        }
    }
}

#[test]
fn pruned_search_finds_the_worth_of_the_full_search() {
    for state in small_positions() {
        for depth in 0..4 {
            let expected = worth(&state, depth);
            let mut tree = GameTree::leaf(state.clone(), 0);
            let found = tree.alphabeta_search(depth, 255, -20000, 20000);
            assert_eq!(found.is_ok(), expected.is_some());
            if let Some(value) = expected {
                assert!(-20000 < value && value < 20000);
                assert_eq!(-tree.score, value);
                if depth > 0 && !tree.children.is_empty() {
                    assert_eq!(found, Ok(value));
                    let chosen = &tree.children[0];
                    assert_eq!(chosen.score, value);
                    assert_eq!(worth(&chosen.game_state, depth - 1), Some(-value));
                } else {
                    assert_eq!(found, Ok(-value));
                }
            }
            let mut full = GameTree::leaf(state.clone(), 0);
            assert_eq!(full.dfs(depth, 255).is_ok(), expected.is_some());
            if let Some(value) = expected {
                assert_eq!(-full.score, value);
            }
        }
    }
}

#[test]
fn narrow_window_bounds_the_worth() {
    for state in small_positions() {
        for depth in 1..4 {
            let value = match worth(&state, depth) {
                Some(value) => value,
                None => continue,
            };
            for (alpha, beta) in [(value - 30, value - 10), (value + 10, value + 30), (value - 1, value + 1)] {
                let mut tree = GameTree::leaf(state.clone(), 0);
                let found = tree.alphabeta_search(depth, 255, alpha, beta);
                assert!(found.is_ok());
                let b = -tree.score;
                if b > alpha {
                    assert!(value >= b);
                }
                if b < beta {
                    assert!(value <= b);
                }
            }
        }
    }
}

#[test]
fn search_takes_the_hanging_queen() {
    let state = hanging_queen();
    let mut tree = GameTree::leaf(state.clone(), 0);
    assert_eq!(tree.alphabeta_search(1, 255, -20000, 20000), Ok(20));
    assert_eq!(tree.score, -20);
    assert_eq!(tree.children[0].game_state.last_move, Some(step([0, 0], [7, 0])));
    assert_eq!(tree.children[0].score, 20);
    let mut bot = AlphaBetaBot::new(3);
    assert_eq!(bot.choose_move(&state), Some(step([0, 0], [7, 0])));
    let mut state = state;
    assert!(matches!(
        bot.clone().choose_command(&mut state),
        Command::Move(_) | Command::Resign
    ));
    let mut minimax = MinimaxBot::new(2);
    assert_eq!(minimax.choose_move(&hanging_queen()), Some(step([0, 0], [7, 0])));
}

#[test]
fn search_with_no_ply_scores_the_state() {
    let state = hanging_queen();
    let mut tree = GameTree::leaf(state.clone(), 7);
    assert_eq!(tree.alphabeta_search(0, 255, -20000, 20000), Ok(20));
    assert_eq!(tree.score, 20);
    assert!(tree.children.is_empty());
    let mut tree = GameTree::leaf(state, 7);
    assert_eq!(tree.dfs(0, 255), Ok(()));
    assert_eq!(tree.score, 20);
    assert_eq!(AlphaBetaBot::new(0).choose_move(&GameState::new()), None);
}

fn king_to_take() -> GameState {
    let mut state = GameState::new_empty();
    state.board[0][0] = piece(PieceType::King, Color::White);
    state.board[0][4] = piece(PieceType::Rook, Color::White);
    state.board[7][4] = piece(PieceType::King, Color::Black);
    state
}

#[test]
fn state_with_a_king_to_take_cannot_be_searched() {
    let state = king_to_take();
    let mut tree = GameTree::leaf(state.clone(), 0);
    assert_eq!(tree.alphabeta_search(2, 255, -20000, 20000), Err(()));
    assert!(tree.children.is_empty());
    let mut tree = GameTree::leaf(state.clone(), 0);
    assert_eq!(tree.expand_leaves(255), Err(()));
    let mut tree = GameTree::leaf(state.clone(), 0);
    assert_eq!(tree.dfs(2, 255), Err(()));
    assert_eq!(AlphaBetaBot::new(2).choose_move(&state), None);
    assert_eq!(MinimaxBot::new(2).choose_move(&state), None);
    let mut state = state;
    assert!(matches!(AlphaBetaBot::new(2).choose_command(&mut state), Command::Resign));
}

#[test]
fn search_keeps_off_movements_that_lose_the_king() {
    let mut state = GameState::new_empty();
    state.board[0][4] = piece(PieceType::King, Color::White);
    state.board[1][4] = piece(PieceType::Rook, Color::White);
    state.board[7][4] = piece(PieceType::Rook, Color::Black);
    state.board[7][0] = piece(PieceType::King, Color::Black);
    state.board[6][0] = piece(PieceType::Queen, Color::Black);
    let mut tree = GameTree::leaf(state.clone(), 0);
    assert!(tree.alphabeta_search(2, 255, -20000, 20000).is_ok());
    for child in &tree.children {
        assert!(is_valid_movement(&child.game_state.last_move.unwrap(), &state));
    }
    assert!(!tree.children.is_empty());
}

#[test]
fn mated_side_scores_a_lost_game() {
    let mut state = GameState::new();
    state.make_movement(step([1, 5], [2, 5]));
    state.make_movement(step([6, 4], [4, 4]));
    state.make_movement(step([1, 6], [3, 6]));
    let mut tree = GameTree::leaf(state.clone(), 0);
    assert_eq!(tree.alphabeta_search(3, 255, -20000, 20000), Ok(20000));
    assert_eq!(tree.children[0].game_state.last_move, Some(step([7, 3], [3, 7])));
    state.make_movement(step([7, 3], [3, 7]));
    let mut tree = GameTree::leaf(state.clone(), 0);
    assert_eq!(tree.alphabeta_search(2, 255, -20000, 20000), Ok(20000));
    assert_eq!(tree.score, 20000);
    assert!(tree.children.is_empty());
    assert_eq!(AlphaBetaBot::new(2).choose_move(&state), None);
}

#[test]
fn expansion_lists_every_movement_best_first() {
    let state = hanging_queen();
    let mut tree = GameTree::leaf(state.clone(), 0);
    assert_eq!(tree.expand_leaves(255), Ok(()));
    let movements = generate_movements_for_player_ignoring_check(&state, Color::White);
    assert_eq!(tree.children.len(), movements.len());
    for movement in &movements {
        let child = tree
            .children
            .iter()
            .find(|child| child.game_state.last_move == Some(*movement))
            .unwrap();
        assert!(child.game_state == state.clone_and_move(*movement));
        assert_eq!(child.score, evaluate_material(&child.game_state, Color::White));
        assert!(child.children.is_empty());
    }
    for pair in tree.children.windows(2) {
        assert!(pair[0].score >= pair[1].score);
    }
    assert_eq!(tree.children[0].score, 20);
    assert_eq!(tree.children[tree.children.len() - 1].score, -20);
    assert_eq!(tree.score, -20);
    assert_eq!(tree.get_depth(), 1);
}

#[test]
fn tree_grows_ply_by_ply_and_is_kept() {
    let state = GameState::new();
    let mut tree = GameTree::leaf(state.clone(), 0);
    assert_eq!(tree.get_depth(), 0);
    assert_eq!(tree.expand_leaves(255), Ok(()));
    assert_eq!(tree.get_depth(), 1);
    assert_eq!(tree.children.len(), 20);
    assert_eq!(tree.expand_leaves(255), Ok(()));
    assert_eq!(tree.get_depth(), 2);
    assert_eq!(tree.children.len(), 20);
    assert_eq!(tree.expand_leaves(3), Ok(()));
    assert_eq!(tree.get_depth(), 3);
    assert_eq!(tree.children.iter().filter(|child| child.get_depth() == 2).count(), 3);
    let copy = tree.clone();
    assert_eq!(copy.get_depth(), 3);
    assert_eq!(copy.children.len(), 20);
    assert!(copy.game_state == tree.game_state);
    let next = tree.children[5].game_state.clone();
    let below = tree.children[5].children.len();
    let root = GameTree::descend(tree, &next);
    assert!(root.game_state == next);
    assert_eq!(root.children.len(), below);
    assert!(below > 0);
    let elsewhere = GameTree::descend(copy, &state);
    assert!(elsewhere.game_state == state);
    assert!(elsewhere.children.is_empty());
    assert_eq!(elsewhere.score, 0);
}

#[test]
fn bots_play_what_the_rules_allow() {
    let mut state = GameState::new();
    let mut white = AlphaBetaBot::new(2);
    let mut black = MinimaxBot::new(2);
    let random = RandomBot;
    for turn in 0..12 {
        let movement = if turn % 2 == 0 {
            white.choose_move(&state).unwrap()
        } else if turn % 4 == 1 {
            black.choose_move(&state).unwrap()
        } else {
            match random.pick_command(&state) {
                Some(Command::Move(movement)) => movement,
                _ => unreachable!(),
            }
        };
        assert!(is_valid_movement(&movement, &state));
        state.make_movement(movement);
    }
}

#[test]
fn player_agrees_to_take_back_unless_it_says_otherwise() {
    assert!(RandomBot.accept_undo());
    assert!(AlphaBetaBot::new(1).accept_undo());
    assert!(MinimaxBot::new(1).accept_undo());
}

#[test]
fn random_bot_resigns_with_nothing_to_play() {
    let mut state = GameState::new();
    state.make_movement(step([1, 5], [2, 5]));
    state.make_movement(step([6, 4], [4, 4]));
    state.make_movement(step([1, 6], [3, 6]));
    state.make_movement(step([7, 3], [3, 7]));
    assert!(RandomBot.pick_command(&state).is_none());
    assert!(matches!(RandomBot.choose_command(&mut state), Command::Resign));
}

fn play(game: &mut Game, turns: u32) -> Option<GameResult> {
    for _ in 0..turns {
        if let Some(result) = game.result() {
            return Some(result);
        }
        if let Outcome::Resigned(color) = game.player_turn() {
            return Some(GameResult::Winner(color.get_opponent_color()));
        }
    }
    game.result()
}

#[test]
fn search_bot_beats_the_random_mover() {
    let mut wins = 0;
    let mut losses = 0;
    let games = 20;
    for _ in 0..games {
        let mut game = Game::new(
            GameState::new(),
            Box::new(NoDisplay),
            [Box::new(AlphaBetaBot::new(3)), Box::new(RandomBot)],
        );
        match play(&mut game, 400) {
            Some(GameResult::Winner(Color::White)) => wins += 1,
            Some(GameResult::Winner(Color::Black)) => losses += 1,
            _ => {}
        }
    }
    println!("wins {} losses {} of {}", wins, losses, games);
    assert_eq!(losses, 0);
    assert!(wins * 10 >= games * 7);
}

#[test]
fn game_keeps_what_was_played() {
    let mut game = Game::new(
        GameState::new(),
        Box::new(NoDisplay),
        [Box::new(RandomBot), Box::new(RandomBot)],
    );
    assert_eq!(game.result(), None);
    assert_eq!(game.execute_command(Command::Undo), Outcome::Refused);
    assert_eq!(game.execute_command(Command::AcceptUndo), Outcome::Refused);
    assert_eq!(game.execute_command(Command::Save), Outcome::SaveRequested);
    assert_eq!(game.execute_command(Command::Resign), Outcome::Resigned(Color::White));
    assert_eq!(game.execute_command(Command::Move(step([1, 4], [3, 4]))), Outcome::Moved);
    assert_eq!(game.history.len(), 1);
    assert!(game.history[0] == GameState::new());
    assert_eq!(game.execute_command(Command::Resign), Outcome::Resigned(Color::Black));
    assert_eq!(game.execute_command(Command::Undo), Outcome::Refused);
    assert_eq!(game.execute_command(Command::Move(step([6, 4], [4, 4]))), Outcome::Moved);
    assert_eq!(game.execute_command(Command::Move(step([0, 6], [2, 5]))), Outcome::Moved);
    assert_eq!(game.history.len(), 3);
    let second = game.history[1].clone();
    assert_eq!(game.execute_command(Command::Undo), Outcome::Undone);
    assert_eq!(game.history.len(), 1);
    assert!(game.game_state == second);
    assert_eq!(game.player_turn(), Outcome::Moved);
    assert_eq!(game.history.len(), 2);
    assert_eq!(game.execute_command(Command::AcceptUndo), Outcome::Undone);
    assert_eq!(game.history.len(), 0);
    assert!(game.game_state == GameState::new());
}

#[test]
fn game_refuses_what_the_rules_do_not_allow() {
    let mut game = Game::new(
        GameState::new(),
        Box::new(NoDisplay),
        [Box::new(RandomBot), Box::new(RandomBot)],
    );
    assert_eq!(game.apply_command(Command::Move(step([1, 4], [4, 4]))), Outcome::Refused);
    assert_eq!(game.apply_command(Command::CastleKingSide), Outcome::Refused);
    assert!(game.game_state == GameState::new());
    assert!(game.history.is_empty());
    assert_eq!(game.apply_command(Command::Move(step([1, 4], [3, 4]))), Outcome::Moved);
    assert_eq!(game.apply_command(Command::Save), Outcome::SaveRequested);
    assert_eq!(game.history.len(), 1);
}

#[test]
fn game_ends_with_mate() {
    let mut game = Game::new(
        GameState::new(),
        Box::new(NoDisplay),
        [Box::new(RandomBot), Box::new(RandomBot)],
    );
    for movement in [
        step([1, 5], [2, 5]),
        step([6, 4], [4, 4]),
        step([1, 6], [3, 6]),
        step([7, 3], [3, 7]),
    ] {
        assert_eq!(game.result(), None);
        game.execute_command(Command::Move(movement));
    }
    assert_eq!(game.result(), Some(GameResult::Winner(Color::Black)));
    assert_eq!(game.player_turn(), Outcome::Resigned(Color::White));
    game.game_state = GameState::new();
    game.game_state.move_limit = 0;
    assert_eq!(game.result(), Some(GameResult::Draw));
}

fn mated_white() -> GameState {
    let mut state = GameState::new();
    state.make_movement(step([1, 5], [2, 5]));
    state.make_movement(step([6, 4], [4, 4]));
    state.make_movement(step([1, 6], [3, 6]));
    state.make_movement(step([7, 3], [3, 7]));
    state
}

#[test]
fn minimax_bot_gives_up_when_mated() {
    let mut state = mated_white();
    for depth in 0..4 {
        assert_eq!(MinimaxBot::new(depth).choose_move(&state), None);
        assert!(matches!(MinimaxBot::new(depth).choose_command(&mut state), Command::Resign));
    }
    assert!(state == mated_white());
}

#[test]
fn minimax_bot_plays_what_the_rules_allow() {
    for state in small_positions() {
        let king_can_be_taken = GameTree::leaf(state.clone(), 0).expand_leaves(255).is_err();
        for depth in 0..4 {
            let mut bot = MinimaxBot::new(depth);
            if king_can_be_taken {
                assert_eq!(bot.choose_move(&state), None);
                continue;
            }
            let movement = bot.choose_move(&state).unwrap();
            assert!(is_valid_movement(&movement, &state));
            let mut next = state.clone_and_move(movement);
            let mut reply = MinimaxBot::new(1);
            if let Command::Move(answer) = reply.choose_command(&mut next) {
                assert!(is_valid_movement(&answer, &next));
                let after = next.clone_and_move(answer);
                if let Some(second) = bot.choose_move(&after) {
                    assert!(is_valid_movement(&second, &after));
                }
            }
        }
    }
}

#[test]
fn minimax_bot_keeps_off_check() {
    let mut state = GameState::new_empty();
    state.board[0][4] = piece(PieceType::King, Color::White);
    state.board[1][4] = piece(PieceType::Rook, Color::White);
    state.board[7][4] = piece(PieceType::Rook, Color::Black);
    state.board[7][0] = piece(PieceType::King, Color::Black);
    state.board[6][0] = piece(PieceType::Queen, Color::Black);
    for depth in 0..3 {
        let movement = MinimaxBot::new(depth).choose_move(&state).unwrap();
        assert!(is_valid_movement(&movement, &state));
    }
}

#[test]
fn growth_drops_what_cannot_grow() {
    let state = mated_white();
    let mut tree = GameTree::leaf(state.clone(), 0);
    assert_eq!(tree.expand_leaves(255), Ok(()));
    assert!(!tree.children.is_empty());
    assert_eq!(tree.expand_leaves(255), Ok(()));
    assert!(tree.children.is_empty());
    assert_eq!(tree.score, 20000);
    let mut tree = GameTree::leaf(state.clone(), 0);
    assert_eq!(tree.expand_leaves(255), Ok(()));
    let held = tree.children.len();
    assert_eq!(tree.expand_leaves(0), Ok(()));
    assert_eq!(tree.children.len(), held);
    assert_eq!(tree.get_depth(), 1);
}

#[test]
fn growth_fails_where_no_child_can_grow() {
    let mut tree = GameTree::leaf(GameState::new(), 7);
    tree.children.push(GameTree::leaf(king_to_take(), 3));
    assert_eq!(tree.expand_leaves(255), Err(()));
    assert!(tree.children.is_empty());
    assert_eq!(tree.score, 7);
    assert!(tree.game_state == GameState::new());
    let mut tree = GameTree::leaf(king_to_take(), 7);
    assert_eq!(tree.expand_leaves(255), Err(()));
    assert!(tree.children.is_empty());
    assert_eq!(tree.score, 7);
    let mut tree = GameTree::leaf(GameState::new(), 7);
    tree.children.push(GameTree::leaf(king_to_take(), 3));
    tree.children.push(GameTree::leaf(hanging_queen(), 1));
    assert_eq!(tree.expand_leaves(255), Ok(()));
    assert_eq!(tree.children.len(), 1);
    assert!(tree.children[0].game_state == hanging_queen());
    assert_eq!(tree.score, -tree.children[0].score);
}

#[test]
fn one_ply_search_scores_each_child_by_its_material() {
    let state = hanging_queen();
    let mut tree = GameTree::leaf(state.clone(), 0);
    assert_eq!(tree.alphabeta_search(1, 255, -20000, 20000), Ok(20));
    assert_eq!(tree.score, -20);
    for child in &tree.children {
        assert_eq!(child.score, evaluate_material(&child.game_state, Color::White));
        assert!(child.children.is_empty());
    }
    assert_eq!(tree.children[0].game_state.last_move, Some(step([0, 0], [7, 0])));
    assert_eq!(tree.children.iter().filter(|child| child.score == 20).count(), 1);
    for (i, one) in tree.children.iter().enumerate() {
        for other in &tree.children[i + 1..] {
            assert!(one.game_state.last_move != other.game_state.last_move);
        }
    }
}

#[test]
fn mate_outweighs_material() {
    let mut states = small_positions();
    states.push(GameState::new());
    states.push(mated_white());
    let mut queens = GameState::new_empty();
    for row in 0..8 {
        for col in 0..8 {
            queens.board[row][col] = piece(PieceType::Queen, Color::White);
        }
    }
    queens.board[0][0] = piece(PieceType::King, Color::White);
    queens.board[7][7] = piece(PieceType::King, Color::Black);
    assert_eq!(evaluate_material(&queens, Color::White), 62 * 40);
    states.push(queens);
    for state in states {
        for color in [Color::White, Color::Black] {
            let material = evaluate_material(&state, color);
            assert!(-3560 <= material && material <= 3560);
            assert!(5 * material.abs() < 20000);
        }
    }
}

#[test]
fn giving_up_ends_the_game_for_the_other_side() {
    let mut game = Game::new(
        GameState::new(),
        Box::new(NoDisplay),
        [Box::new(RandomBot), Box::new(RandomBot)],
    );
    assert_eq!(
        game.result_after(Outcome::Resigned(Color::White)),
        Some(GameResult::Winner(Color::Black))
    );
    assert_eq!(
        game.result_after(Outcome::Resigned(Color::Black)),
        Some(GameResult::Winner(Color::White))
    );
    assert_eq!(game.result_after(Outcome::Moved), None);
    assert_eq!(game.result_after(Outcome::Refused), None);
    assert_eq!(game.result_after(Outcome::SaveRequested), None);
    game.game_state = mated_white();
    assert_eq!(game.result_after(Outcome::Moved), Some(GameResult::Winner(Color::Black)));
    assert_eq!(
        game.result_after(Outcome::Resigned(Color::Black)),
        Some(GameResult::Winner(Color::White))
    );
    game.game_state = GameState::new();
    game.game_state.move_limit = 0;
    assert_eq!(game.result_after(Outcome::Undone), Some(GameResult::Draw));
}

#[test]
fn plain_search_fails_where_no_child_can_be_searched() {
    let mut tree = GameTree::leaf(GameState::new(), 7);
    tree.children.push(GameTree::leaf(king_to_take(), 3));
    assert_eq!(tree.dfs(2, 255), Err(()));
    assert!(tree.children.is_empty());
    assert!(tree.game_state == GameState::new());
    let mut tree = GameTree::leaf(GameState::new(), 7);
    tree.children.push(GameTree::leaf(king_to_take(), 3));
    tree.children.push(GameTree::leaf(hanging_queen(), 1));
    assert_eq!(tree.dfs(2, 255), Ok(()));
    assert_eq!(tree.children.len(), 1);
    assert!(tree.children[0].game_state == hanging_queen());
    assert_eq!(tree.children[0].score, -20);
    assert_eq!(tree.score, 20);
    let mut tree = GameTree::leaf(GameState::new(), 7);
    tree.children.push(GameTree::leaf(king_to_take(), 3));
    assert_eq!(tree.dfs(2, 0), Ok(()));
    assert_eq!(tree.children.len(), 1);
    assert_eq!(tree.children[0].score, 3);
    assert_eq!(tree.score, -3);
    let mut tree = GameTree::leaf(king_to_take(), 7);
    assert_eq!(tree.dfs(1, 0), Err(()));
    assert_eq!(tree.score, 7);
    let mut tree = GameTree::leaf(king_to_take(), 7);
    assert_eq!(tree.dfs(0, 0), Ok(()));
    assert_eq!(tree.score, -20);
    let mut tree = GameTree::leaf(GameState::new(), 7);
    assert_eq!(tree.dfs(2, 0), Ok(()));
    assert_eq!(tree.children.len(), 20);
    assert_eq!(tree.get_depth(), 1);
    let mut tree = GameTree::leaf(mated_white(), 7);
    assert_eq!(tree.dfs(2, 255), Ok(()));
    assert!(tree.children.is_empty());
    assert_eq!(tree.score, 20000);
}
