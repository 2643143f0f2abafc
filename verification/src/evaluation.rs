use vstd::prelude::*;
use crate::model::game_state::GameState;
use crate::model::piece::{Color, PieceType};
use crate::model::position::Position;
use crate::rules::game_over::{is_draw, is_in_check_mate};

verus! {

pub const KING_VALUE: i32 = 1000;

pub const QUEEN_VALUE: i32 = 40;

pub const KNIGHT_VALUE: i32 = 12;

pub const BISHOP_VALUE: i32 = 13;

pub const ROOK_VALUE: i32 = 20;

pub const PAWN_VALUE: i32 = 4;

/// The worth of a mate; it outweighs the pieces of a game many times over.
pub const CHECK_MATE_VALUE: i32 = 20000;

/// The worth of a piece by its kind.
pub open spec fn piece_value(kind: PieceType) -> int {
    match kind {
        PieceType::King => KING_VALUE as int,
        PieceType::Queen => QUEEN_VALUE as int,
        PieceType::Rook => ROOK_VALUE as int,
        PieceType::Bishop => BISHOP_VALUE as int,
        PieceType::Knight => KNIGHT_VALUE as int,
        PieceType::Pawn => PAWN_VALUE as int,
    }
}

/// The worth of a piece by its kind and the row on which it stands: a king
/// is worth one less away from `first_row`, a bishop or a knight one less on it.
pub open spec fn placed_value(kind: PieceType, row: int, first_row: int) -> int {
    match kind {
        PieceType::King => if row == first_row {
            KING_VALUE as int
        } else {
            KING_VALUE - 1
        },
        PieceType::Bishop => if row == first_row {
            BISHOP_VALUE - 1
        } else {
            BISHOP_VALUE as int
        },
        PieceType::Knight => if row == first_row {
            KNIGHT_VALUE - 1
        } else {
            KNIGHT_VALUE as int
        },
        _ => piece_value(kind),
    }
}

/// The row on which the pieces of `color` start.
pub open spec fn first_row(color: Color) -> int {
    match color {
        Color::White => 0,
        Color::Black => 7,
    }
}

impl Position {
    /// What the `n`-th square in reading order adds to the material of
    /// `color`: the worth of the piece on it, counted against `color` if the
    /// piece belongs to the other side. With `placed`, the worth is taken by row.
    pub open spec fn square_worth(self, color: Color, placed: bool, n: int) -> int {
        match self.at(n / 8, n % 8) {
            Some(piece) => {
                let worth = if placed {
                    placed_value(piece.piece_type, n / 8, first_row(color))
                } else {
                    piece_value(piece.piece_type)
                };
                if piece.color == color {
                    worth
                } else {
                    -worth
                }
            },
            None => 0,
        }
    }

    /// The sum of `square_worth` over the first `n` squares in reading order.
    pub open spec fn worth_of_first(self, color: Color, placed: bool, n: int) -> int
        decreases n,
    {
        if n <= 0 {
            0
        } else {
            self.worth_of_first(color, placed, n - 1) + self.square_worth(color, placed, n - 1)
        }
    }

    /// The pieces of `color` minus the pieces of the other side.
    pub open spec fn material(self, color: Color) -> int {
        self.worth_of_first(color, false, 64)
    }

    /// As `material`, with the worth of each piece taken by its row.
    pub open spec fn placed_material(self, color: Color) -> int {
        self.worth_of_first(color, true, 64)
    }

    /// The worth of a finished game for `color`: nothing for a draw, a mate
    /// against `color` if `color` is mated, a mate in its favour otherwise.
    pub open spec fn terminal_score(self, color: Color) -> int {
        if self.draw() {
            0
        } else if self.check_mate(color) {
            -CHECK_MATE_VALUE
        } else {
            CHECK_MATE_VALUE as int
        }
    }
}

/// The sum over some squares stays within a thousand for each.
pub proof fn lemma_worth_bounded(p: Position, color: Color, placed: bool, n: int)
    requires
        0 <= n,
    ensures
        -1000 * n <= p.worth_of_first(color, placed, n) <= 1000 * n,
    decreases n,
{
    if n > 0 {
        lemma_worth_bounded(p, color, placed, n - 1);
    }
}

/// What one side has in material, the other side lacks.
pub proof fn lemma_material_antisymmetric(p: Position, color: Color, n: int)
    requires
        0 <= n,
    ensures
        p.worth_of_first(color.opponent(), false, n) == -p.worth_of_first(color, false, n),
    decreases n,
{
    if n > 0 {
        lemma_material_antisymmetric(p, color, n - 1);
    }
}

/// The worth of a piece by its kind.
fn value_of(kind: PieceType) -> (v: i32)
    ensures
        v == piece_value(kind),
{
    match kind {
        PieceType::King => KING_VALUE,
        PieceType::Queen => QUEEN_VALUE,
        PieceType::Rook => ROOK_VALUE,
        PieceType::Bishop => BISHOP_VALUE,
        PieceType::Knight => KNIGHT_VALUE,
        PieceType::Pawn => PAWN_VALUE,
    }
}

/// The worth of a piece by its kind and its row.
fn value_on_row(kind: PieceType, row: usize, first: usize) -> (v: i32)
    ensures
        v == placed_value(kind, row as int, first as int),
{
    match kind {
        PieceType::King => if row == first {
            KING_VALUE
        } else {
            KING_VALUE - 1
        },
        PieceType::Bishop => if row == first {
            BISHOP_VALUE - 1
        } else {
            BISHOP_VALUE
        },
        PieceType::Knight => if row == first {
            KNIGHT_VALUE - 1
        } else {
            KNIGHT_VALUE
        },
        PieceType::Queen => QUEEN_VALUE,
        PieceType::Rook => ROOK_VALUE,
        PieceType::Pawn => PAWN_VALUE,
    }
}

/// The sum of what each square adds to the material of `player_color`.
fn sum_worth(game_state: &GameState, player_color: Color, placed: bool) -> (score: i32)
    ensures
        score == game_state@.worth_of_first(player_color, placed, 64),
        -64000 <= score <= 64000,
{
    let ghost p = game_state@;
    let first: usize = match player_color {
        Color::White => 0,
        Color::Black => 7,
    };
    let mut score: i32 = 0;
    let mut n: usize = 0;
    while n < 64
        invariant
            0 <= n <= 64,
            p == game_state@,
            first == first_row(player_color),
            score == p.worth_of_first(player_color, placed, n as int),
            -1000 * n <= score <= 1000 * n,
        decreases 64 - n,
    {
        let x = n / 8;
        let y = n % 8;
        proof {
            lemma_worth_bounded(p, player_color, placed, n as int + 1);
        }
        match game_state.board[x][y] {
            Some(piece) => {
                let value = if placed {
                    value_on_row(piece.piece_type, x, first)
                } else {
                    value_of(piece.piece_type)
                };
                if piece.color == player_color {
                    score = score + value;
                } else {
                    score = score - value;
                }
            },
            None => {},
        }
        n += 1;
    }
    score
}

/// Sums the worth of the pieces of `player_color`, minus those of the other side.
pub fn evaluate_material(game_state: &GameState, player_color: Color) -> (score: i32)
    ensures
        score == game_state@.material(player_color),
        -64000 <= score <= 64000,
{
    sum_worth(game_state, player_color, false)
}

/// As `evaluate_material`, with the worth of each piece taken by its row.
pub fn evaluate_positions(game_state: &GameState, player_color: Color) -> (score: i32)
    ensures
        score == game_state@.placed_material(player_color),
        -64000 <= score <= 64000,
{
    sum_worth(game_state, player_color, true)
}

/// The worth of a finished game for `player_color`.
pub fn evaluate_game_over(game_state: &GameState, player_color: Color) -> (score: i32)
    requires
        game_state@.game_over() || game_state@.check_mate(player_color)
            || game_state@.check_mate(player_color.opponent()),
    ensures
        score == game_state@.terminal_score(player_color),
{
    if is_draw(game_state) {
        0
    } else if is_in_check_mate(game_state, player_color) {
        -CHECK_MATE_VALUE
    } else {
        CHECK_MATE_VALUE
    }
}

} // verus!
