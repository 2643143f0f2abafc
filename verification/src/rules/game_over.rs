use vstd::prelude::*;
use crate::model::board::on_board;
use crate::model::game_state::{reading_order, GameState};
use crate::model::movement::Movement;
use crate::model::piece::{Color, PieceType};
use crate::model::position::Position;
use crate::rules::cmd_validator::is_in_check;
use crate::rules::move_generator::generate_movements;

verus! {

impl Position {
    /// The king of `color` is attacked and the side to move has nothing to play.
    pub open spec fn check_mate(self, color: Color) -> bool {
        self.in_check(color) && self.no_legal_move()
    }

    /// A rook, a queen or a pawn stands on the square.
    pub open spec fn mating_piece_at(self, row: int, col: int) -> bool {
        &&& self.at(row, col) matches Some(piece)
        &&& (piece.piece_type == PieceType::Rook || piece.piece_type == PieceType::Queen
            || piece.piece_type == PieceType::Pawn)
    }

    /// A bishop or a knight of `color` stands on the square.
    pub open spec fn minor_piece_at(self, color: Color, row: int, col: int) -> bool {
        &&& on_board(row, col)
        &&& self.at(row, col) matches Some(piece)
        &&& piece.color == color
        &&& (piece.piece_type == PieceType::Bishop || piece.piece_type == PieceType::Knight)
    }

    /// `color` has no more than one bishop or knight.
    pub open spec fn at_most_one_minor(self, color: Color) -> bool {
        forall|r1: int, c1: int, r2: int, c2: int|
            #[trigger] self.minor_piece_at(color, r1, c1) && #[trigger] self.minor_piece_at(
                color,
                r2,
                c2,
            ) ==> r1 == r2 && c1 == c2
    }

    /// Neither side can be expected to mate: the board holds no rook, queen
    /// or pawn, and each side has at most one bishop or knight. The test is
    /// kept this simple: two knights against a bare king, for one, do not
    /// pass it.
    pub open spec fn insufficient_material(self) -> bool {
        &&& forall|r: int, c: int| on_board(r, c) ==> !#[trigger] self.mating_piece_at(r, c)
        &&& self.at_most_one_minor(Color::White)
        &&& self.at_most_one_minor(Color::Black)
    }

    /// The counter of the fifty-move rule has run out.
    pub open spec fn move_limit_exhausted(self) -> bool {
        self.move_limit <= 0
    }

    /// The game is drawn: the side to move is not in check and has nothing to
    /// play, or the material is insufficient, or the counter has run out.
    pub open spec fn draw(self) -> bool {
        ||| (!self.in_check(self.player_to_move) && self.no_legal_move())
        ||| self.insufficient_material()
        ||| self.move_limit_exhausted()
    }

    /// The side to move is mated, or the game is drawn.
    pub open spec fn game_over(self) -> bool {
        self.check_mate(self.player_to_move) || self.draw()
    }
}

/// A mated side is in check and, if it is the side to move, has nothing to play.
pub proof fn lemma_check_mate_means(p: Position, color: Color)
    requires
        p.check_mate(color),
    ensures
        p.in_check(color),
        forall|m: Movement| !p.legal(m, p.player_to_move),
{
}

/// In a drawn game whose counter has not run out, and in which the side to
/// move is not in check with insufficient material on the board, the side to
/// move is not in check, and it has nothing to play or the material is
/// insufficient.
pub proof fn lemma_draw_means(p: Position)
    requires
        p.draw(),
        !p.move_limit_exhausted(),
        !(p.insufficient_material() && p.in_check(p.player_to_move)),
    ensures
        !p.in_check(p.player_to_move),
        p.no_legal_move() || p.insufficient_material(),
{
}

/// Whether `player_color` is in check while the side to move has nothing to play.
pub fn is_in_check_mate(game_state: &GameState, player_color: Color) -> (r: bool)
    ensures
        r == game_state@.check_mate(player_color),
{
    if !is_in_check(game_state, player_color) {
        return false;
    }
    has_no_legal_move(game_state)
}

/// Whether the side to move has nothing to play.
pub fn has_no_legal_move(game_state: &GameState) -> (r: bool)
    ensures
        r == game_state@.no_legal_move(),
{
    let movements = generate_movements(game_state);
    proof {
        let p = game_state@;
        if movements.len() == 0 {
            assert forall|m: Movement| !#[trigger] p.legal(m, p.player_to_move) by {
                if p.legal(m, p.player_to_move) {
                    assert(movements@.contains(m));
                }
            }
        } else {
            assert(movements@.contains(movements@[0]));
            assert(p.legal(movements@[0], p.player_to_move));
        }
    }
    movements.len() == 0
}

/// Whether neither side has the material to be expected to mate.
fn has_insufficient_material(game_state: &GameState) -> (r: bool)
    ensures
        r == game_state@.insufficient_material(),
{
    let ghost p = game_state@;
    let mut white_piece_count: u8 = 0;
    let mut black_piece_count: u8 = 0;
    let ghost mut white_seen: Seq<(int, int)> = Seq::empty();
    let ghost mut black_seen: Seq<(int, int)> = Seq::empty();
    let mut n: usize = 0;
    while n < 64
        invariant
            0 <= n <= 64,
            p == game_state@,
            white_piece_count <= n,
            black_piece_count <= n,
            white_seen.len() == white_piece_count,
            black_seen.len() == black_piece_count,
            forall|r: int, c: int|
                on_board(r, c) && reading_order(r, c) < n ==> !#[trigger] p.mating_piece_at(r, c),
            forall|i: int|
                0 <= i < white_seen.len() ==> p.minor_piece_at(
                    Color::White,
                    (#[trigger] white_seen[i]).0,
                    white_seen[i].1,
                ) && reading_order(white_seen[i].0, white_seen[i].1) < n,
            forall|i: int|
                0 <= i < black_seen.len() ==> p.minor_piece_at(
                    Color::Black,
                    (#[trigger] black_seen[i]).0,
                    black_seen[i].1,
                ) && reading_order(black_seen[i].0, black_seen[i].1) < n,
            forall|i: int, j: int|
                0 <= i < j < white_seen.len() ==> reading_order(
                    (#[trigger] white_seen[i]).0,
                    white_seen[i].1,
                ) != reading_order((#[trigger] white_seen[j]).0, white_seen[j].1),
            forall|i: int, j: int|
                0 <= i < j < black_seen.len() ==> reading_order(
                    (#[trigger] black_seen[i]).0,
                    black_seen[i].1,
                ) != reading_order((#[trigger] black_seen[j]).0, black_seen[j].1),
            forall|r: int, c: int| #[trigger]
                p.minor_piece_at(Color::White, r, c) && reading_order(r, c) < n ==> exists|i: int|
                    0 <= i < white_seen.len() && #[trigger] white_seen[i] == (r, c),
            forall|r: int, c: int| #[trigger]
                p.minor_piece_at(Color::Black, r, c) && reading_order(r, c) < n ==> exists|i: int|
                    0 <= i < black_seen.len() && #[trigger] black_seen[i] == (r, c),
        decreases 64 - n,
    {
        let x = n / 8;
        let y = n % 8;
        let ghost white_before = white_seen;
        let ghost black_before = black_seen;
        match game_state.board[x][y] {
            Some(piece) => {
                match piece.piece_type {
                    PieceType::Rook | PieceType::Queen | PieceType::Pawn => {
                        assert(p.mating_piece_at(x as int, y as int));
                        return false;
                    },
                    PieceType::Bishop | PieceType::Knight => match piece.color {
                        Color::White => {
                            white_piece_count += 1;
                            proof {
                                white_seen = white_seen.push((x as int, y as int));
                            }
                        },
                        Color::Black => {
                            black_piece_count += 1;
                            proof {
                                black_seen = black_seen.push((x as int, y as int));
                            }
                        },
                    },
                    PieceType::King => {},
                }
            },
            None => {},
        }
        proof {
            assert forall|r: int, c: int| #[trigger]
                p.minor_piece_at(Color::White, r, c) && reading_order(r, c) < n
                    + 1 implies exists|i: int|
                0 <= i < white_seen.len() && #[trigger] white_seen[i] == (r, c) by {
                if reading_order(r, c) < n {
                    let i = choose|i: int|
                        0 <= i < white_before.len() && #[trigger] white_before[i] == (r, c);
                    assert(white_seen[i] == (r, c));
                } else {
                    assert(r == x && c == y);
                    assert(white_seen[white_seen.len() - 1] == (r, c));
                }
            }
            assert forall|r: int, c: int| #[trigger]
                p.minor_piece_at(Color::Black, r, c) && reading_order(r, c) < n
                    + 1 implies exists|i: int|
                0 <= i < black_seen.len() && #[trigger] black_seen[i] == (r, c) by {
                if reading_order(r, c) < n {
                    let i = choose|i: int|
                        0 <= i < black_before.len() && #[trigger] black_before[i] == (r, c);
                    assert(black_seen[i] == (r, c));
                } else {
                    assert(r == x && c == y);
                    assert(black_seen[black_seen.len() - 1] == (r, c));
                }
            }
        }
        n += 1;
    }
    proof {
        lemma_count_of_minors(p, Color::White, white_seen);
        lemma_count_of_minors(p, Color::Black, black_seen);
    }
    white_piece_count <= 1 && black_piece_count <= 1
}

/// A side has at most one bishop or knight exactly when a list of the
/// squares that hold one, read square by square, has at most one entry.
proof fn lemma_count_of_minors(p: Position, color: Color, seen: Seq<(int, int)>)
    requires
        forall|i: int|
            0 <= i < seen.len() ==> p.minor_piece_at(color, (#[trigger] seen[i]).0, seen[i].1),
        forall|i: int, j: int|
            0 <= i < j < seen.len() ==> reading_order((#[trigger] seen[i]).0, seen[i].1)
                != reading_order((#[trigger] seen[j]).0, seen[j].1),
        forall|r: int, c: int| #[trigger]
            p.minor_piece_at(color, r, c) ==> exists|i: int|
                0 <= i < seen.len() && #[trigger] seen[i] == (r, c),
    ensures
        p.at_most_one_minor(color) <==> seen.len() <= 1,
{
    if seen.len() <= 1 {
        assert forall|r1: int, c1: int, r2: int, c2: int|
            #[trigger] p.minor_piece_at(color, r1, c1) && #[trigger] p.minor_piece_at(
                color,
                r2,
                c2,
            ) implies r1 == r2 && c1 == c2 by {
            let i = choose|i: int| 0 <= i < seen.len() && #[trigger] seen[i] == (r1, c1);
            let j = choose|j: int| 0 <= j < seen.len() && #[trigger] seen[j] == (r2, c2);
            assert(i == j);
        }
    } else {
        assert(p.minor_piece_at(color, seen[0].0, seen[0].1));
        assert(p.minor_piece_at(color, seen[1].0, seen[1].1));
        assert(reading_order(seen[0].0, seen[0].1) != reading_order(seen[1].0, seen[1].1));
    }
}

/// Whether the game is drawn.
pub fn is_draw(game_state: &GameState) -> (r: bool)
    ensures
        r == game_state@.draw(),
{
    if game_state.move_limit <= 0 {
        return true;
    }
    if has_insufficient_material(game_state) {
        return true;
    }
    !is_in_check(game_state, game_state.player_to_move) && has_no_legal_move(game_state)
}

/// Whether the side to move is mated or the game is drawn.
pub fn is_game_over(game_state: &GameState) -> (r: bool)
    ensures
        r == game_state@.game_over(),
{
    if game_state.move_limit <= 0 {
        return true;
    }
    if has_insufficient_material(game_state) {
        return true;
    }
    has_no_legal_move(game_state)
}

} // verus!
