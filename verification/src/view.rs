use vstd::prelude::*;
use crate::model::game_state::GameState;
use crate::model::piece::{figurine, Color, Piece};
use crate::model::position::Position;

verus! {

/// Whoever shows the game to the players.
pub trait GameDisplay {
    /// The sign that stands for a piece.
    fn piece_to_char(&self, piece: &Piece) -> char;

    /// Shows the board.
    fn display_game(&self, game_state: &GameState);

    /// Shows how the game ended.
    fn display_game_over(&self, game_state: &GameState);
}

/// Shows nothing.
pub struct NoDisplay;

impl GameDisplay for NoDisplay {
    fn piece_to_char(&self, _piece: &Piece) -> (c: char)
        ensures
            c == ' ',
    {
        ' '
    }

    fn display_game(&self, _game_state: &GameState) {
    }

    fn display_game_over(&self, _game_state: &GameState) {
    }
}

/// The row, or the column, that stands at place `i` when the board is
/// shown in falling or in rising order.
pub open spec fn shown_at(falling: bool, i: int) -> int {
    if falling {
        7 - i
    } else {
        i
    }
}

/// The sign of what stands on a square: a blank for an empty square, the
/// figurine or the letter of a piece.
pub open spec fn sign_of(square: Option<Piece>, unicode: bool) -> char {
    match square {
        Some(piece) => if unicode {
            figurine(piece)
        } else {
            piece.ascii()
        },
        None => ' ',
    }
}

/// The order in which rows and columns are shown, so that the side to
/// move sees the board from its own side: for White the rows fall and the
/// columns rise, for Black the rows rise and the columns fall.
pub fn choose_ranges(game_state: &GameState) -> (ranges: [Vec<usize>; 2])
    ensures
        ranges[0]@.len() == 8,
        ranges[1]@.len() == 8,
        forall|i: int|
            0 <= i < 8 ==> #[trigger] ranges[0]@[i] == shown_at(
                game_state@.player_to_move == Color::White,
                i,
            ),
        forall|i: int|
            0 <= i < 8 ==> #[trigger] ranges[1]@[i] == shown_at(
                game_state@.player_to_move == Color::Black,
                i,
            ),
{
    let white = game_state.player_to_move == Color::White;
    let mut rows: Vec<usize> = Vec::new();
    let mut cols: Vec<usize> = Vec::new();
    let mut i: usize = 0;
    while i < 8
        invariant
            0 <= i <= 8,
            white == (game_state@.player_to_move == Color::White),
            rows@.len() == i,
            cols@.len() == i,
            forall|k: int| 0 <= k < i ==> #[trigger] rows@[k] == shown_at(white, k),
            forall|k: int| 0 <= k < i ==> #[trigger] cols@[k] == shown_at(!white, k),
        decreases 8 - i,
    {
        if white {
            rows.push(7 - i);
            cols.push(i);
        } else {
            rows.push(i);
            cols.push(7 - i);
        }
        i += 1;
    }
    [rows, cols]
}

/// `line` holds the signs of the eight squares of `row`, in the order of
/// columns that `falling` gives.
pub open spec fn shows_row(
    line: Seq<char>,
    p: Position,
    row: int,
    falling: bool,
    unicode: bool,
) -> bool {
    &&& line.len() == 8
    &&& forall|b: int|
        0 <= b < 8 ==> #[trigger] line[b] == sign_of(p.at(row, shown_at(falling, b)), unicode)
}

/// The signs of the 64 squares, row by row as the side to move sees the
/// board: figurines if `unicode`, letters otherwise.
pub fn board_picture(game_state: &GameState, unicode: bool) -> (picture: Vec<Vec<char>>)
    ensures
        picture@.len() == 8,
        forall|i: int|
            0 <= i < 8 ==> shows_row(
                (#[trigger] picture@[i])@,
                game_state@,
                shown_at(game_state@.player_to_move == Color::White, i),
                game_state@.player_to_move == Color::Black,
                unicode,
            ),
{
    let ranges = choose_ranges(game_state);
    let ghost p = game_state@;
    let white = game_state.player_to_move == Color::White;
    let mut picture: Vec<Vec<char>> = Vec::new();
    let mut i: usize = 0;
    while i < 8
        invariant
            0 <= i <= 8,
            p == game_state@,
            white == (p.player_to_move == Color::White),
            ranges[0]@.len() == 8,
            ranges[1]@.len() == 8,
            forall|k: int| 0 <= k < 8 ==> #[trigger] ranges[0]@[k] == shown_at(white, k),
            forall|k: int| 0 <= k < 8 ==> #[trigger] ranges[1]@[k] == shown_at(!white, k),
            picture@.len() == i,
            forall|a: int|
                0 <= a < i ==> shows_row(
                    (#[trigger] picture@[a])@,
                    p,
                    shown_at(white, a),
                    !white,
                    unicode,
                ),
        decreases 8 - i,
    {
        let row: usize = ranges[0][i];
        let mut line: Vec<char> = Vec::new();
        let mut j: usize = 0;
        while j < 8
            invariant
                0 <= j <= 8,
                0 <= i < 8,
                0 <= row < 8,
                p == game_state@,
                ranges[1]@.len() == 8,
                forall|k: int| 0 <= k < 8 ==> #[trigger] ranges[1]@[k] == shown_at(!white, k),
                line@.len() == j,
                forall|b: int|
                    0 <= b < j ==> #[trigger] line@[b] == sign_of(
                        p.at(row as int, shown_at(!white, b)),
                        unicode,
                    ),
            decreases 8 - j,
        {
            let col: usize = ranges[1][j];
            let sign = match game_state.board[row][col] {
                Some(piece) => if unicode {
                    piece.to_unicode()
                } else {
                    piece.to_ascii()
                },
                None => ' ',
            };
            proof {
                assert(p.at(row as int, col as int) == game_state.board[row as int][col as int]);
            }
            line.push(sign);
            j += 1;
        }
        let ghost before = picture@;
        picture.push(line);
        proof {
            assert forall|a: int| 0 <= a < i + 1 implies shows_row(
                (#[trigger] picture@[a])@,
                p,
                shown_at(white, a),
                !white,
                unicode,
            ) by {
                if a < i {
                    assert(picture@[a] == before[a]);
                }
            }
        }
        i += 1;
    }
    picture
}

} // verus!
