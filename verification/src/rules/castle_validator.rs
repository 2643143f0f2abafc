use vstd::prelude::*;
use crate::model::board::on_board;
use crate::model::game_state::GameState;
use crate::model::movement::Movement;
use crate::model::piece::{Color, Piece, PieceType};
use crate::model::position::{king_target_col, rook_target_col, Position};
use crate::rules::cmd_validator::is_in_check;

verus! {

/// Whether `c` lies strictly between `a` and `b`, whichever of them is greater.
pub open spec fn strictly_between(a: int, c: int, b: int) -> bool {
    a < c < b || b < c < a
}

impl Position {
    /// The square is empty.
    pub open spec fn empty_at(self, row: int, col: int) -> bool {
        self.at(row, col) is None
    }

    /// Every square of `row` strictly between the two columns is empty.
    pub open spec fn between_free(self, row: int, a: int, b: int) -> bool {
        forall|c: int| strictly_between(a, c, b) ==> #[trigger] self.empty_at(row, c)
    }

    /// The square is empty, or it is where the king or the rook stands now.
    pub open spec fn landing_free(self, row: int, col: int, king_col: int, rook_col: int) -> bool {
        self.at(row, col) is None || col == king_col || col == rook_col
    }

    /// The position with the king of `color` lifted from `(row, from_col)`
    /// and set down on `(row, to_col)`; nothing else changes.
    pub open spec fn with_king_on(
        self,
        color: Color,
        row: int,
        from_col: int,
        to_col: int,
    ) -> Position {
        Position {
            board: Seq::new(
                8,
                |r: int|
                    Seq::new(
                        8,
                        |c: int|
                            if r == row && c == to_col {
                                Some(Piece { piece_type: PieceType::King, color })
                            } else if r == row && c == from_col {
                                None
                            } else {
                                self.at(r, c)
                            },
                    ),
            ),
            ..self
        }
    }

    /// The king of `color` would not be in check on `(row, col)`.
    pub open spec fn king_safe_on(self, color: Color, row: int, from_col: int, col: int) -> bool {
        !self.with_king_on(color, row, from_col, col).in_check(color)
    }

    /// The king is in check on no square that it crosses on its way to the
    /// column where it lands.
    pub open spec fn king_walk_safe(self, king_side: bool) -> bool {
        let mover = self.player_to_move;
        let k = self.king_start(mover)->0;
        forall|c: int|
            strictly_between(k.1, c, king_target_col(king_side)) ==> #[trigger] self.king_safe_on(
                mover,
                k.0,
                k.1,
                c,
            )
    }

    /// King and rook of the side to move stand on their starting squares, in
    /// one row, with nothing between them.
    pub open spec fn castle_line_free(self, king_side: bool) -> bool {
        let mover = self.player_to_move;
        let k = self.king_start(mover)->0;
        let rk = self.rook_start(mover, king_side)->0;
        &&& self.castle_applicable(king_side)
        &&& k.0 == rk.0
        &&& self.at(k.0, k.1) == Some(Piece { piece_type: PieceType::King, color: mover })
        &&& self.at(rk.0, rk.1) == Some(Piece { piece_type: PieceType::Rook, color: mover })
        &&& self.between_free(k.0, k.1, rk.1)
    }

    /// The two squares on which king and rook land hold no other piece.
    pub open spec fn castle_destination_free(self, king_side: bool) -> bool {
        let mover = self.player_to_move;
        let k = self.king_start(mover)->0;
        let rk = self.rook_start(mover, king_side)->0;
        &&& self.castle_applicable(king_side)
        &&& self.landing_free(k.0, king_target_col(king_side), k.1, rk.1)
        &&& self.landing_free(k.0, rook_target_col(king_side), k.1, rk.1)
    }

    /// Whether the side to move may castle on the given wing: it still holds
    /// the right; king and rook stand where they started, with nothing between
    /// them; the squares on which they land are free; and the king is in check
    /// neither where it stands, nor on a square that it crosses, nor where it lands.
    pub open spec fn castle_ok(self, king_side: bool) -> bool {
        let mover = self.player_to_move;
        &&& self.can_castle(mover, king_side)
        &&& self.castle_line_free(king_side)
        &&& self.castle_destination_free(king_side)
        &&& !self.in_check(mover)
        &&& self.king_walk_safe(king_side)
        &&& !self.after_castle(king_side).in_check(mover)
    }
}

/// Whether the squares on which king and rook land hold no other piece.
fn destination_is_free(game_state: &GameState, king_side: bool) -> (r: bool)
    ensures
        r == game_state@.castle_destination_free(king_side),
{
    let mover = game_state.player_to_move;
    let king = match game_state.get_king_initial_position(mover) {
        Some(square) => square,
        None => {
            return false;
        },
    };
    let rook = match game_state.get_rook_initial_position(mover, king_side) {
        Some(square) => square,
        None => {
            return false;
        },
    };
    if king[0] >= 8 || king[1] >= 8 || rook[0] >= 8 || rook[1] >= 8 {
        return false;
    }
    let king_col: usize = if king_side {
        6
    } else {
        2
    };
    let rook_col: usize = if king_side {
        5
    } else {
        3
    };
    let row: usize = king[0];
    let king_lands = game_state.board[row][king_col].is_none() || king_col == king[1] || king_col
        == rook[1];
    let rook_lands = game_state.board[row][rook_col].is_none() || rook_col == king[1] || rook_col
        == rook[1];
    king_lands && rook_lands
}

/// As `destination_is_free`, for the king's wing.
fn castle_king_side_destination_is_free(game_state: &GameState) -> (r: bool)
    ensures
        r == game_state@.castle_destination_free(true),
{
    destination_is_free(game_state, true)
}

/// As `destination_is_free`, for the queen's wing.
fn castle_queen_side_destination_is_free(game_state: &GameState) -> (r: bool)
    ensures
        r == game_state@.castle_destination_free(false),
{
    destination_is_free(game_state, false)
}

/// Whether king and rook stand on their starting squares with nothing between them.
#[verifier::loop_isolation(false)]
fn free_space_between_rook_and_king(game_state: &GameState, king_side: bool) -> (r: bool)
    ensures
        r == game_state@.castle_line_free(king_side),
{
    let mover = game_state.player_to_move;
    let king = match game_state.get_king_initial_position(mover) {
        Some(square) => square,
        None => {
            return false;
        },
    };
    let rook = match game_state.get_rook_initial_position(mover, king_side) {
        Some(square) => square,
        None => {
            return false;
        },
    };
    if king[0] >= 8 || king[1] >= 8 || rook[0] >= 8 || rook[1] >= 8 || king[0] != rook[0] {
        return false;
    }
    let row: usize = king[0];
    let king_there = match game_state.board[row][king[1]] {
        Some(piece) => piece.piece_type == PieceType::King && piece.color == mover,
        None => false,
    };
    let rook_there = match game_state.board[row][rook[1]] {
        Some(piece) => piece.piece_type == PieceType::Rook && piece.color == mover,
        None => false,
    };
    if !king_there || !rook_there {
        return false;
    }
    let low: usize = if king[1] < rook[1] {
        king[1]
    } else {
        rook[1]
    };
    let high: usize = if king[1] < rook[1] {
        rook[1]
    } else {
        king[1]
    };
    let mut col: usize = low + 1;
    while col < high
        invariant
            low < col,
            forall|c: int| low < c < col ==> #[trigger] game_state@.empty_at(row as int, c),
        decreases high - col,
    {
        if game_state.board[row][col].is_some() {
            assert(!game_state@.empty_at(row as int, col as int));
            assert(strictly_between(king[1] as int, col as int, rook[1] as int));
            return false;
        }
        col += 1;
    }
    true
}

/// Whether the king of the side to move, set down on column `col` of its
/// row, would be out of check.
fn king_is_safe_on(game_state: &GameState, king: [usize; 2], col: usize) -> (r: bool)
    requires
        on_board(king[0] as int, king[1] as int),
        col < 8,
    ensures
        r == game_state@.king_safe_on(
            game_state@.player_to_move,
            king[0] as int,
            king[1] as int,
            col as int,
        ),
{
    let mover = game_state.player_to_move;
    let mut trial = game_state.deepclone();
    trial.board[king[0]][king[1]] = None;
    trial.board[king[0]][col] = Some(Piece { piece_type: PieceType::King, color: mover });
    proof {
        let moved = game_state@.with_king_on(mover, king[0] as int, king[1] as int, col as int);
        assert(trial@.board =~~= moved.board);
        assert(trial@ == moved);
    }
    !is_in_check(&trial, mover)
}

/// Whether the king crosses no square on which it would be in check.
#[verifier::loop_isolation(false)]
fn king_walks_safely(game_state: &GameState, king_side: bool) -> (r: bool)
    requires
        game_state@.castle_applicable(king_side),
    ensures
        r == game_state@.king_walk_safe(king_side),
{
    let mover = game_state.player_to_move;
    let king = match game_state.get_king_initial_position(mover) {
        Some(square) => square,
        None => {
            return true;
        },
    };
    let target: usize = if king_side {
        6
    } else {
        2
    };
    let low: usize = if king[1] < target {
        king[1]
    } else {
        target
    };
    let high: usize = if king[1] < target {
        target
    } else {
        king[1]
    };
    let mut col: usize = low + 1;
    while col < high
        invariant
            low < col,
            forall|c: int|
                low < c < col ==> #[trigger] game_state@.king_safe_on(
                    mover,
                    king[0] as int,
                    king[1] as int,
                    c,
                ),
        decreases high - col,
    {
        if !king_is_safe_on(game_state, king, col) {
            assert(strictly_between(king[1] as int, col as int, target as int));
            return false;
        }
        col += 1;
    }
    true
}

/// Whether the side to move may castle on the given wing.
fn castle_is_valid(game_state: &GameState, king_side: bool) -> (r: bool)
    ensures
        r == game_state@.castle_ok(king_side),
{
    let mover = game_state.player_to_move;
    let holds_right = match mover {
        Color::White => if king_side {
            game_state.white_can_castle_king_side
        } else {
            game_state.white_can_castle_queen_side
        },
        Color::Black => if king_side {
            game_state.black_can_castle_king_side
        } else {
            game_state.black_can_castle_queen_side
        },
    };
    if !holds_right {
        return false;
    }
    if !free_space_between_rook_and_king(game_state, king_side) || !destination_is_free(
        game_state,
        king_side,
    ) {
        return false;
    }
    if is_in_check(game_state, mover) {
        return false;
    }
    if !king_walks_safely(game_state, king_side) {
        return false;
    }
    let movement = if king_side {
        Movement::CastleKingSide(mover)
    } else {
        Movement::CastleQueenSide(mover)
    };
    let game_state2 = game_state.clone_and_move(movement);
    !is_in_check(&game_state2, mover)
}

/// Whether the side to move may castle on the king's wing.
pub fn king_castle_is_valid(game_state: &GameState) -> (r: bool)
    ensures
        r == game_state@.castle_ok(true),
{
    castle_is_valid(game_state, true)
}

/// Whether the side to move may castle on the queen's wing.
pub fn queen_castle_is_valid(game_state: &GameState) -> (r: bool)
    ensures
        r == game_state@.castle_ok(false),
{
    castle_is_valid(game_state, false)
}

} // verus!
