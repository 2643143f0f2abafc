use vstd::prelude::*;
use vstd::std_specs::cmp::PartialEqSpecImpl;
use crate::model::board::{
    board_view, draw_back_rank, init_positions, lemma_board_view_injective, on_board,
    standard_back_rank, starting_square, BackRank, Board,
};
use crate::model::movement::Movement;
use crate::model::piece::{Color, Piece, PieceType};
use crate::model::position::{coords, counted_down, Position, MOVE_LIMIT_CEILING};

verus! {

/// Everything that is needed to go on with a game: the grid, the side to
/// move, the last movement, the four castling rights, the squares on which
/// kings and rooks started, and the counter of the fifty-move rule.
///
/// `king_initial_positions` holds one square per side, White first;
/// `rook_initial_positions` holds the queen-side rooks and then the
/// king-side rooks, each with White first.
#[derive(Debug, Clone)]
pub struct GameState {
    pub board: Board,
    pub player_to_move: Color,
    pub last_move: Option<Movement>,
    pub white_can_castle_queen_side: bool,
    pub white_can_castle_king_side: bool,
    pub black_can_castle_queen_side: bool,
    pub black_can_castle_king_side: bool,
    pub king_initial_positions: [Option<[usize; 2]>; 2],
    pub rook_initial_positions: [[Option<[usize; 2]>; 2]; 2],
    pub move_limit: i32,
}

impl View for GameState {
    type V = Position;

    open spec fn view(&self) -> Position {
        Position {
            board: board_view(self.board),
            player_to_move: self.player_to_move,
            last_move: self.last_move,
            white_can_castle_queen_side: self.white_can_castle_queen_side,
            white_can_castle_king_side: self.white_can_castle_king_side,
            black_can_castle_queen_side: self.black_can_castle_queen_side,
            black_can_castle_king_side: self.black_can_castle_king_side,
            king_initial_positions: self.king_initial_positions,
            rook_initial_positions: self.rook_initial_positions,
            move_limit: self.move_limit as int,
        }
    }
}

/// Position of a square in the order in which the board is read: row by
/// row, each row from column 0.
pub open spec fn reading_order(row: int, col: int) -> int {
    8 * row + col
}

/// Whether a square holds a piece of `color` and, where a kind is given, of that kind.
pub open spec fn square_matches(
    p: Position,
    kind: Option<PieceType>,
    color: Color,
    row: int,
    col: int,
) -> bool {
    &&& p.at(row, col) matches Some(piece)
    &&& piece.color == color
    &&& (kind matches Some(k) ==> piece.piece_type == k)
}

/// `squares` lists, in reading order and each once, the squares of the board
/// that hold a piece of `color` and, where a kind is given, of that kind.
pub open spec fn lists_squares(
    squares: Seq<[usize; 2]>,
    p: Position,
    kind: Option<PieceType>,
    color: Color,
) -> bool {
    &&& forall|i: int|
        0 <= i < squares.len() ==> on_board((#[trigger] squares[i])[0] as int, squares[i][1] as int)
            && square_matches(p, kind, color, squares[i][0] as int, squares[i][1] as int)
    &&& forall|i: int, j: int|
        0 <= i < j < squares.len() ==> reading_order(
            (#[trigger] squares[i])[0] as int,
            squares[i][1] as int,
        ) < reading_order((#[trigger] squares[j])[0] as int, squares[j][1] as int)
    &&& forall|r: int, c: int|
        on_board(r, c) && #[trigger] square_matches(p, kind, color, r, c) ==> exists|i: int|
            0 <= i < squares.len() && (#[trigger] squares[i])[0] == r && squares[i][1] == c
}

/// The starting position of standard chess.
pub open spec fn standard_start() -> Position {
    Position {
        board: Seq::new(
            8,
            |r: int| Seq::new(8, |c: int| starting_square(|k: int| standard_back_rank(k), r, c)),
        ),
        player_to_move: Color::White,
        last_move: None,
        white_can_castle_queen_side: true,
        white_can_castle_king_side: true,
        black_can_castle_queen_side: true,
        black_can_castle_king_side: true,
        king_initial_positions: standard_king_squares(),
        rook_initial_positions: standard_rook_squares(),
        move_limit: MOVE_LIMIT_CEILING as int,
    }
}

/// The squares e1 and e8.
pub open spec fn standard_king_squares() -> [Option<[usize; 2]>; 2] {
    [Some([0usize, 4usize]), Some([7usize, 4usize])]
}

/// The squares a1 and a8, then h1 and h8.
pub open spec fn standard_rook_squares() -> [[Option<[usize; 2]>; 2]; 2] {
    [
        [Some([0usize, 0usize]), Some([7usize, 0usize])],
        [Some([0usize, 7usize]), Some([7usize, 7usize])],
    ]
}

/// The starting position of a game of Fischer's random chess with the
/// given back rank: every right to castle is held, and the squares of the
/// king and of the rooks are recorded for both sides.
pub open spec fn start_of(rank: BackRank) -> Position {
    Position {
        board: Seq::new(
            8,
            |r: int| Seq::new(8, |c: int| starting_square(|k: int| rank.kind_at(k), r, c)),
        ),
        player_to_move: Color::White,
        last_move: None,
        white_can_castle_queen_side: true,
        white_can_castle_king_side: true,
        black_can_castle_queen_side: true,
        black_can_castle_king_side: true,
        king_initial_positions: [Some([0usize, rank.king_col]), Some([7usize, rank.king_col])],
        rook_initial_positions: [
            [Some([0usize, rank.rook_col1]), Some([7usize, rank.rook_col1])],
            [Some([0usize, rank.rook_col2]), Some([7usize, rank.rook_col2])],
        ],
        move_limit: MOVE_LIMIT_CEILING as int,
    }
}

/// Whether a stored square is the square `(x, y)`.
fn square_is(square: Option<[usize; 2]>, x: usize, y: usize) -> (r: bool)
    ensures
        r == (coords(square) == Some((x as int, y as int))),
{
    match square {
        Some(s) => s[0] == x && s[1] == y,
        None => false,
    }
}

/// Whether two stored squares are the same.
fn same_square(a: Option<[usize; 2]>, b: Option<[usize; 2]>) -> (r: bool)
    ensures
        r == (a == b),
{
    match a {
        Some(s) => match b {
            Some(t) => {
                let r = s[0] == t[0] && s[1] == t[1];
                proof {
                    if r {
                        assert(s =~= t);
                    }
                }
                r
            },
            None => false,
        },
        None => b.is_none(),
    }
}

impl GameState {
    /// The start of a game of standard chess.
    pub fn new() -> (state: GameState)
        ensures
            state@ == standard_start(),
    {
        let state = GameState {
            board: init_positions(),
            player_to_move: Color::White,
            last_move: None,
            white_can_castle_queen_side: true,
            white_can_castle_king_side: true,
            black_can_castle_king_side: true,
            black_can_castle_queen_side: true,
            king_initial_positions: [Some([0, 4]), Some([7, 4])],
            rook_initial_positions: [[Some([0, 0]), Some([7, 0])], [Some([0, 7]), Some([7, 7])]],
            move_limit: MOVE_LIMIT_CEILING,
        };
        proof {
            assert forall|r: int| 0 <= r < 8
                implies state@.board[r] =~= standard_start().board[r] by {
                assert forall|c: int| 0 <= c < 8 implies state@.board[r][c]
                    == standard_start().board[r][c] by {
                    assert(on_board(r, c));
                    assert(state.board[r][c] == starting_square(
                        |k: int| standard_back_rank(k),
                        r,
                        c,
                    ));
                }
            }
            assert(state@.board =~= standard_start().board);
            assert(state.king_initial_positions =~~= standard_king_squares());
            assert(state.rook_initial_positions =~~= standard_rook_squares());
        }
        state
    }

    /// An empty board with White to move: every right to castle is marked
    /// as held, and no starting square is recorded.
    pub fn new_empty() -> (state: GameState)
        ensures
            forall|r: int, c: int| on_board(r, c) ==> state@.at(r, c) is None,
            state@.player_to_move == Color::White,
            state@.last_move is None,
            state@.white_can_castle_queen_side,
            state@.white_can_castle_king_side,
            state@.black_can_castle_queen_side,
            state@.black_can_castle_king_side,
            forall|color: Color| state@.king_start(color) is None,
            forall|color: Color, king_side: bool| state@.rook_start(color, king_side) is None,
            state@.move_limit == MOVE_LIMIT_CEILING,
    {
        let none: Option<Piece> = None;
        let nowhere: Option<[usize; 2]> = None;
        let state = GameState {
            board: [[none; 8]; 8],
            player_to_move: Color::White,
            last_move: None,
            white_can_castle_queen_side: true,
            white_can_castle_king_side: true,
            black_can_castle_king_side: true,
            black_can_castle_queen_side: true,
            king_initial_positions: [nowhere, nowhere],
            rook_initial_positions: [[nowhere, nowhere], [nowhere, nowhere]],
            move_limit: MOVE_LIMIT_CEILING,
        };
        proof {
            assert forall|r: int, c: int| on_board(r, c) implies state@.at(r, c) is None by {
                assert(state.board[r][c] is None);
            }
        }
        state
    }

    /// The start of a game of Fischer's random chess, drawn by chance.
    pub fn new960() -> (state: GameState)
        ensures
            exists|rank: BackRank| rank.valid() && #[trigger] start_of(rank) == state@,
    {
        let rank = draw_back_rank();
        let state = GameState {
            board: rank.board(),
            player_to_move: Color::White,
            last_move: None,
            white_can_castle_queen_side: true,
            white_can_castle_king_side: true,
            black_can_castle_king_side: true,
            black_can_castle_queen_side: true,
            king_initial_positions: [Some([0, rank.king_col]), Some([7, rank.king_col])],
            rook_initial_positions: [
                [Some([0, rank.rook_col1]), Some([7, rank.rook_col1])],
                [Some([0, rank.rook_col2]), Some([7, rank.rook_col2])],
            ],
            move_limit: MOVE_LIMIT_CEILING,
        };
        proof {
            assert forall|r: int| 0 <= r < 8
                implies state@.board[r] =~= start_of(rank).board[r] by {
                assert forall|c: int| 0 <= c < 8 implies state@.board[r][c] == start_of(
                    rank,
                ).board[r][c] by {
                    assert(on_board(r, c));
                    assert(state.board[r][c] == starting_square(|k: int| rank.kind_at(k), r, c));
                }
            }
            assert(state@.board =~= start_of(rank).board);
            assert(state.king_initial_positions =~~= start_of(rank).king_initial_positions);
            assert(state.rook_initial_positions =~~= start_of(rank).rook_initial_positions);
            assert(start_of(rank) == state@);
        }
        state
    }

    /// A copy of the state that shares nothing with it.
    pub fn deepclone(&self) -> (copy: GameState)
        ensures
            copy == *self,
    {
        GameState {
            board: self.deepclone_board(),
            player_to_move: self.player_to_move,
            last_move: self.last_move,
            white_can_castle_queen_side: self.white_can_castle_queen_side,
            white_can_castle_king_side: self.white_can_castle_king_side,
            black_can_castle_queen_side: self.black_can_castle_queen_side,
            black_can_castle_king_side: self.black_can_castle_king_side,
            king_initial_positions: self.king_initial_positions,
            rook_initial_positions: self.rook_initial_positions,
            move_limit: self.move_limit,
        }
    }

    /// A copy of the grid.
    fn deepclone_board(&self) -> (board: Board)
        ensures
            board == self.board,
    {
        self.board
    }

    /// Whether two states are the same in every part.
    pub fn same_as(&self, other: &GameState) -> (r: bool)
        ensures
            r == (self@ == other@),
            r == (*self == *other),
    {
        let mut n: usize = 0;
        while n < 64
            invariant
                0 <= n <= 64,
                forall|r: int, c: int|
                    on_board(r, c) && reading_order(r, c) < n ==> self.board[r][c]
                        == other.board[r][c],
            decreases 64 - n,
        {
            let i = n / 8;
            let j = n % 8;
            if self.board[i][j] != other.board[i][j] {
                proof {
                    assert(self@.board[i as int][j as int] == self.board[i as int][j as int]);
                    assert(other@.board[i as int][j as int] == other.board[i as int][j as int]);
                }
                return false;
            }
            n += 1;
        }
        proof {
            assert forall|r: int| 0 <= r < 8 implies self@.board[r] =~= other@.board[r] by {
                assert forall|c: int| 0 <= c < 8
                    implies self@.board[r][c] == other@.board[r][c] by {
                    assert(on_board(r, c) && reading_order(r, c) < 64);
                }
            }
            assert(self@.board =~= other@.board);
            lemma_board_view_injective(self.board, other.board);
        }
        let moves_agree = match self.last_move {
            Some(a) => match other.last_move {
                Some(b) => a.same_as(&b),
                None => false,
            },
            None => other.last_move.is_none(),
        };
        let kings_agree = same_square(
            self.king_initial_positions[0],
            other.king_initial_positions[0],
        )
            && same_square(self.king_initial_positions[1], other.king_initial_positions[1]);
        let rooks_agree = same_square(
            self.rook_initial_positions[0][0],
            other.rook_initial_positions[0][0],
        ) && same_square(self.rook_initial_positions[0][1], other.rook_initial_positions[0][1])
            && same_square(self.rook_initial_positions[1][0], other.rook_initial_positions[1][0])
            && same_square(self.rook_initial_positions[1][1], other.rook_initial_positions[1][1]);
        proof {
            if kings_agree {
                assert(self.king_initial_positions =~= other.king_initial_positions);
            }
            if rooks_agree {
                assert(self.rook_initial_positions[0] =~= other.rook_initial_positions[0]);
                assert(self.rook_initial_positions[1] =~= other.rook_initial_positions[1]);
                assert(self.rook_initial_positions =~= other.rook_initial_positions);
            }
        }
        moves_agree && kings_agree && rooks_agree && self.player_to_move == other.player_to_move
            && self.white_can_castle_queen_side == other.white_can_castle_queen_side
            && self.white_can_castle_king_side == other.white_can_castle_king_side
            && self.black_can_castle_queen_side == other.black_can_castle_queen_side
            && self.black_can_castle_king_side == other.black_can_castle_king_side
            && self.move_limit == other.move_limit
    }

    /// The squares that hold a piece of `color` and, where a kind is given,
    /// of that kind, in reading order.
    fn scan(&self, kind: Option<PieceType>, color: Color) -> (squares: Vec<[usize; 2]>)
        ensures
            lists_squares(squares@, self@, kind, color),
    {
        let mut results: Vec<[usize; 2]> = Vec::new();
        let mut n: usize = 0;
        while n < 64
            invariant
                0 <= n <= 64,
                forall|i: int|
                    0 <= i < results.len() ==> on_board(
                        (#[trigger] results[i])[0] as int,
                        results[i][1] as int,
                    ) && square_matches(
                        self@,
                        kind,
                        color,
                        results[i][0] as int,
                        results[i][1] as int,
                    ) && reading_order(results[i][0] as int, results[i][1] as int) < n,
                forall|i: int, j: int|
                    0 <= i < j < results.len() ==> reading_order(
                        (#[trigger] results[i])[0] as int,
                        results[i][1] as int,
                    ) < reading_order((#[trigger] results[j])[0] as int, results[j][1] as int),
                forall|r: int, c: int|
                    on_board(r, c) && #[trigger] square_matches(self@, kind, color, r, c)
                        && reading_order(r, c) < n ==> exists|i: int|
                        0 <= i < results.len() && (#[trigger] results[i])[0] == r && results[i][1]
                            == c,
            decreases 64 - n,
        {
            let i = n / 8;
            let j = n % 8;
            let ghost before = results@;
            let here = match self.board[i][j] {
                Some(found) => found.color == color && match kind {
                    Some(k) => found.piece_type == k,
                    None => true,
                },
                None => false,
            };
            if here {
                results.push([i, j]);
            }
            proof {
                assert(here == square_matches(self@, kind, color, i as int, j as int));
                assert forall|r: int, c: int|
                    on_board(r, c) && #[trigger] square_matches(self@, kind, color, r, c)
                        && reading_order(r, c) < n + 1 implies exists|k: int|
                    0 <= k < results.len() && (#[trigger] results[k])[0] == r && results[k][1]
                        == c by {
                    if reading_order(r, c) < n {
                        let k = choose|k: int|
                            0 <= k < before.len() && (#[trigger] before[k])[0] == r && before[k][1]
                                == c;
                        assert(results[k] == before[k]);
                    } else {
                        assert(r == i && c == j);
                        assert(results[results.len() - 1][0] == i);
                    }
                }
            }
            n += 1;
        }
        results
    }

    /// The squares on which `piece` stands, in reading order.
    pub fn get_piece_positions(&self, piece: Piece) -> (squares: Vec<[usize; 2]>)
        ensures
            lists_squares(squares@, self@, Some(piece.piece_type), piece.color),
    {
        self.scan(Some(piece.piece_type), piece.color)
    }

    /// The squares on which pieces of `color` stand, in reading order.
    pub fn get_positions_of_color(&self, color: Color) -> (squares: Vec<[usize; 2]>)
        ensures
            lists_squares(squares@, self@, None, color),
    {
        self.scan(None, color)
    }

    /// The square on which a rook of `player` started: the king-side rook
    /// if `king_side`, else the queen-side rook.
    pub fn get_rook_initial_position(&self, player: Color, king_side: bool) -> (square: Option<
        [usize; 2],
    >)
        ensures
            coords(square) == self@.rook_start(player, king_side),
    {
        let wing: usize = if king_side {
            1
        } else {
            0
        };
        let side: usize = match player {
            Color::White => 0,
            Color::Black => 1,
        };
        self.rook_initial_positions[wing][side]
    }

    /// The square on which the king of `player` started.
    pub fn get_king_initial_position(&self, player: Color) -> (square: Option<[usize; 2]>)
        ensures
            coords(square) == self@.king_start(player),
    {
        let side: usize = match player {
            Color::White => 0,
            Color::Black => 1,
        };
        self.king_initial_positions[side]
    }

    /// Whether the castling right of a side and a wing is still held.
    fn can_castle(&self, color: Color, king_side: bool) -> (r: bool)
        ensures
            r == self@.can_castle(color, king_side),
    {
        match color {
            Color::White => if king_side {
                self.white_can_castle_king_side
            } else {
                self.white_can_castle_queen_side
            },
            Color::Black => if king_side {
                self.black_can_castle_king_side
            } else {
                self.black_can_castle_queen_side
            },
        }
    }

    /// Whether the move from `(x, y)` to `(x2, y2)` is a pawn taking en passant.
    pub fn is_en_passant(&self, x: usize, y: usize, x2: usize, y2: usize) -> (r: bool)
        ensures
            r == self@.en_passant_capture(x as int, y as int, x2 as int, y2 as int),
    {
        if x >= 8 || y >= 8 || x2 >= 8 || y2 >= 8 {
            return false;
        }
        let pawn = match self.board[x][y] {
            Some(piece) => piece,
            None => {
                return false;
            },
        };
        if pawn.piece_type != PieceType::Pawn {
            return false;
        }
        let beside = y2 == y + 1 || y2 + 1 == y;
        let ahead = match pawn.color {
            Color::White => x2 == x + 1 && x == 4,
            Color::Black => x2 + 1 == x && x == 3,
        };
        if !beside || !ahead || self.board[x2][y2].is_some() {
            return false;
        }
        let taken = match self.board[x][y2] {
            Some(piece) => piece.piece_type == PieceType::Pawn && piece.color != pawn.color,
            None => false,
        };
        if !taken {
            return false;
        }
        let started: usize = match pawn.color {
            Color::White => 6,
            Color::Black => 1,
        };
        match self.last_move {
            Some(Movement::Normal { from, to }) => from[0] == started && from[1] == y2 && to[0] == x
                && to[1] == y2,
            _ => false,
        }
    }

    /// A castling right after an ordinary move from `(x, y)` to `(x2, y2)`.
    fn right_after_move(
        &self,
        color: Color,
        king_side: bool,
        x: usize,
        y: usize,
        x2: usize,
        y2: usize,
    ) -> (r: bool)
        ensures
            r == self@.right_after_move(color, king_side, x as int, y as int, x2 as int, y2 as int),
    {
        let king = self.get_king_initial_position(color);
        let rook = self.get_rook_initial_position(color, king_side);
        if !self.can_castle(color, king_side) || king.is_none() {
            return false;
        }
        if self.player_to_move == color {
            !(square_is(king, x, y) || square_is(rook, x, y))
        } else {
            !square_is(rook, x2, y2)
        }
    }

    /// Sets the four castling rights to what they are after an ordinary move.
    fn update_can_castle(&mut self, x: usize, y: usize, x2: usize, y2: usize)
        ensures
            final(self).white_can_castle_queen_side == old(self)@.right_after_move(
                Color::White,
                false,
                x as int,
                y as int,
                x2 as int,
                y2 as int,
            ),
            final(self).white_can_castle_king_side == old(self)@.right_after_move(
                Color::White,
                true,
                x as int,
                y as int,
                x2 as int,
                y2 as int,
            ),
            final(self).black_can_castle_queen_side == old(self)@.right_after_move(
                Color::Black,
                false,
                x as int,
                y as int,
                x2 as int,
                y2 as int,
            ),
            final(self).black_can_castle_king_side == old(self)@.right_after_move(
                Color::Black,
                true,
                x as int,
                y as int,
                x2 as int,
                y2 as int,
            ),
            final(self).board == old(self).board,
            final(self).player_to_move == old(self).player_to_move,
            final(self).last_move == old(self).last_move,
            final(self).king_initial_positions == old(self).king_initial_positions,
            final(self).rook_initial_positions == old(self).rook_initial_positions,
            final(self).move_limit == old(self).move_limit,
    {
        let wq = self.right_after_move(Color::White, false, x, y, x2, y2);
        let wk = self.right_after_move(Color::White, true, x, y, x2, y2);
        let bq = self.right_after_move(Color::Black, false, x, y, x2, y2);
        let bk = self.right_after_move(Color::Black, true, x, y, x2, y2);
        self.white_can_castle_queen_side = wq;
        self.white_can_castle_king_side = wk;
        self.black_can_castle_queen_side = bq;
        self.black_can_castle_king_side = bk;
    }

    /// Sets the counter to its ceiling after a capture and lowers it by one otherwise.
    fn update_move_limit(&mut self, captured: bool)
        ensures
            final(self).move_limit == (if captured {
                MOVE_LIMIT_CEILING as int
            } else {
                counted_down(old(self).move_limit as int)
            }),
            final(self).board == old(self).board,
            final(self).player_to_move == old(self).player_to_move,
            final(self).last_move == old(self).last_move,
            final(self).king_initial_positions == old(self).king_initial_positions,
            final(self).rook_initial_positions == old(self).rook_initial_positions,
            final(self).white_can_castle_queen_side == old(self).white_can_castle_queen_side,
            final(self).white_can_castle_king_side == old(self).white_can_castle_king_side,
            final(self).black_can_castle_queen_side == old(self).black_can_castle_queen_side,
            final(self).black_can_castle_king_side == old(self).black_can_castle_king_side,
    {
        if captured {
            self.move_limit = MOVE_LIMIT_CEILING;
        } else if self.move_limit > i32::MIN {
            self.move_limit = self.move_limit - 1;
        }
    }

    /// Carries out a movement without asking whether the rules allow it.
    /// A movement that cannot be carried out leaves the state as it is.
    pub fn make_movement(&mut self, movement: Movement)
        ensures
            final(self)@ == old(self)@.after(movement),
    {
        match movement {
            Movement::Normal { from, to } => {
                let x: usize = from[0];
                let y: usize = from[1];
                let x2: usize = to[0];
                let y2: usize = to[1];
                if x >= 8 || y >= 8 || x2 >= 8 || y2 >= 8 {
                    return ;
                }
                let piece = match self.board[x][y] {
                    Some(piece) => piece,
                    None => {
                        return ;
                    },
                };
                let en_passant = self.is_en_passant(x, y, x2, y2);
                let captured = en_passant || self.board[x2][y2].is_some();
                self.update_move_limit(captured);
                self.update_can_castle(x, y, x2, y2);
                if en_passant {
                    self.board[x][y2] = None;
                }
                self.board[x][y] = None;
                let promoted = piece.piece_type == PieceType::Pawn && match piece.color {
                    Color::White => x2 == 7,
                    Color::Black => x2 == 0,
                };
                if promoted {
                    self.board[x2][y2] = Some(
                        Piece { piece_type: PieceType::Queen, color: piece.color },
                    );
                } else {
                    self.board[x2][y2] = Some(piece);
                }
                self.player_to_move = self.player_to_move.get_opponent_color();
                self.last_move = Some(movement);
                proof {
                    assert(self@.board =~~= old(self)@.after(movement).board);
                }
            },
            Movement::CastleKingSide(_) => self.castle_king_side(),
            Movement::CastleQueenSide(_) => self.castle_queen_side(),
        }
    }

    /// Takes both castling rights from the side to move.
    fn set_curr_player_cant_castle(&mut self)
        ensures
            final(self).white_can_castle_queen_side == (old(self).player_to_move != Color::White
                && old(self).white_can_castle_queen_side),
            final(self).white_can_castle_king_side == (old(self).player_to_move != Color::White
                && old(self).white_can_castle_king_side),
            final(self).black_can_castle_queen_side == (old(self).player_to_move != Color::Black
                && old(self).black_can_castle_queen_side),
            final(self).black_can_castle_king_side == (old(self).player_to_move != Color::Black
                && old(self).black_can_castle_king_side),
            final(self).board == old(self).board,
            final(self).player_to_move == old(self).player_to_move,
            final(self).last_move == old(self).last_move,
            final(self).king_initial_positions == old(self).king_initial_positions,
            final(self).rook_initial_positions == old(self).rook_initial_positions,
            final(self).move_limit == old(self).move_limit,
    {
        match self.player_to_move {
            Color::White => {
                self.white_can_castle_king_side = false;
                self.white_can_castle_queen_side = false;
            },
            Color::Black => {
                self.black_can_castle_king_side = false;
                self.black_can_castle_queen_side = false;
            },
        }
    }

    /// Castles on the given wing, if the starting squares are recorded.
    fn castle(&mut self, king_side: bool)
        ensures
            final(self)@ == (if old(self)@.castle_applicable(king_side) {
                old(self)@.after_castle(king_side)
            } else {
                old(self)@
            }),
    {
        let mover = self.player_to_move;
        let king = match self.get_king_initial_position(mover) {
            Some(square) => square,
            None => {
                return ;
            },
        };
        let rook = match self.get_rook_initial_position(mover, king_side) {
            Some(square) => square,
            None => {
                return ;
            },
        };
        if king[0] >= 8 || king[1] >= 8 || rook[0] >= 8 || rook[1] >= 8 {
            return ;
        }
        self.set_curr_player_cant_castle();
        self.update_move_limit(false);
        self.board[rook[0]][rook[1]] = None;
        self.board[king[0]][king[1]] = None;
        let row: usize = king[0];
        if king_side {
            self.board[row][5] = Some(Piece { piece_type: PieceType::Rook, color: mover });
            self.board[row][6] = Some(Piece { piece_type: PieceType::King, color: mover });
            self.last_move = Some(Movement::CastleKingSide(mover));
        } else {
            self.board[row][3] = Some(Piece { piece_type: PieceType::Rook, color: mover });
            self.board[row][2] = Some(Piece { piece_type: PieceType::King, color: mover });
            self.last_move = Some(Movement::CastleQueenSide(mover));
        }
        self.player_to_move = mover.get_opponent_color();
        proof {
            assert(self@.board =~~= old(self)@.after_castle(king_side).board);
        }
    }

    /// Castles on the king's wing for the side to move.
    pub fn castle_king_side(&mut self)
        ensures
            final(self)@ == old(self)@.after(Movement::CastleKingSide(old(self).player_to_move)),
    {
        self.castle(true)
    }

    /// Castles on the queen's wing for the side to move.
    pub fn castle_queen_side(&mut self)
        ensures
            final(self)@ == old(self)@.after(Movement::CastleQueenSide(old(self).player_to_move)),
    {
        self.castle(false)
    }

    /// The state that a movement leads to; `self` stays as it is.
    pub fn clone_and_move(&self, movement: Movement) -> (next: GameState)
        ensures
            next@ == self@.after(movement),
    {
        let mut next_state = self.deepclone();
        next_state.make_movement(movement);
        next_state
    }
}

impl PartialEq for GameState {
    fn eq(&self, other: &GameState) -> (r: bool) {
        self.same_as(other)
    }
}

impl PartialEqSpecImpl for GameState {
    open spec fn obeys_eq_spec() -> bool {
        true
    }

    open spec fn eq_spec(&self, other: &GameState) -> bool {
        *self == *other
    }
}

} // verus!
