use vstd::prelude::*;
use crate::chance::{choose_one, random_in_range};
use crate::model::piece::{Color, Piece, PieceType};

verus! {

/// The 8x8 grid, indexed `[row][col]`; row 0 is White's back rank.
pub type Board = [[Option<Piece>; 8]; 8];

/// Whether `(row, col)` names a square of the board.
pub open spec fn on_board(row: int, col: int) -> bool {
    0 <= row < 8 && 0 <= col < 8
}

/// The grid as a sequence of rows, each a sequence of squares.
pub open spec fn board_view(board: Board) -> Seq<Seq<Option<Piece>>> {
    Seq::new(8, |r: int| Seq::new(8, |c: int| board[r][c]))
}

/// Two grids that agree on every square are equal.
pub proof fn lemma_board_ext(a: Board, b: Board)
    requires
        forall|r: int, c: int| on_board(r, c) ==> a[r][c] == b[r][c],
    ensures
        a == b,
{
    assert forall|r: int| 0 <= r < 8 implies a[r] == b[r] by {
        assert forall|c: int| 0 <= c < 8 implies a[r][c] == b[r][c] by {
            assert(on_board(r, c));
        }
        assert(a[r] =~= b[r]);
    }
    assert(a =~= b);
}

/// Grids with the same view are equal.
pub proof fn lemma_board_view_injective(a: Board, b: Board)
    requires
        board_view(a) == board_view(b),
    ensures
        a == b,
{
    assert forall|r: int, c: int| on_board(r, c) implies a[r][c] == b[r][c] by {
        assert(board_view(a)[r][c] == a[r][c]);
        assert(board_view(b)[r][c] == b[r][c]);
    }
    lemma_board_ext(a, b);
}

/// The kind of piece that stands on a column of the back rank in the
/// standard starting position.
pub open spec fn standard_back_rank(col: int) -> PieceType {
    if col == 0 || col == 7 {
        PieceType::Rook
    } else if col == 1 || col == 6 {
        PieceType::Knight
    } else if col == 2 || col == 5 {
        PieceType::Bishop
    } else if col == 3 {
        PieceType::Queen
    } else {
        PieceType::King
    }
}

/// What stands on a square at the start of a game whose back rank holds
/// `back_rank(col)` on each column: the back ranks mirror each other, a row
/// of pawns stands before each, the middle is empty.
pub open spec fn starting_square(
    back_rank: spec_fn(int) -> PieceType, row: int, col: int,
) -> Option<
    Piece,
> {
    if row == 0 {
        Some(Piece { piece_type: back_rank(col), color: Color::White })
    } else if row == 1 {
        Some(Piece { piece_type: PieceType::Pawn, color: Color::White })
    } else if row == 6 {
        Some(Piece { piece_type: PieceType::Pawn, color: Color::Black })
    } else if row == 7 {
        Some(Piece { piece_type: back_rank(col), color: Color::Black })
    } else {
        None
    }
}

/// Whether `board` is the starting grid for the given back rank.
pub open spec fn is_starting_board(board: Board, back_rank: spec_fn(int) -> PieceType) -> bool {
    forall|r: int, c: int| on_board(r, c) ==> board[r][c] == starting_square(back_rank, r, c)
}

/// Builds the starting grid from the eight kinds of the back rank, column 0 first.
pub fn board_from_back_rank(kinds: &[PieceType; 8]) -> (board: Board)
    ensures
        is_starting_board(board, |c: int| kinds[c]),
{
    let white = Color::White;
    let black = Color::Black;
    let none: Option<Piece> = None;
    let white_pawn = Some(Piece { piece_type: PieceType::Pawn, color: white });
    let black_pawn = Some(Piece { piece_type: PieceType::Pawn, color: black });
    let row0 = [
        Some(Piece { piece_type: kinds[0], color: white }),
        Some(Piece { piece_type: kinds[1], color: white }),
        Some(Piece { piece_type: kinds[2], color: white }),
        Some(Piece { piece_type: kinds[3], color: white }),
        Some(Piece { piece_type: kinds[4], color: white }),
        Some(Piece { piece_type: kinds[5], color: white }),
        Some(Piece { piece_type: kinds[6], color: white }),
        Some(Piece { piece_type: kinds[7], color: white }),
    ];
    let row7 = [
        Some(Piece { piece_type: kinds[0], color: black }),
        Some(Piece { piece_type: kinds[1], color: black }),
        Some(Piece { piece_type: kinds[2], color: black }),
        Some(Piece { piece_type: kinds[3], color: black }),
        Some(Piece { piece_type: kinds[4], color: black }),
        Some(Piece { piece_type: kinds[5], color: black }),
        Some(Piece { piece_type: kinds[6], color: black }),
        Some(Piece { piece_type: kinds[7], color: black }),
    ];
    let board = [
        row0,
        [white_pawn; 8],
        [none; 8],
        [none; 8],
        [none; 8],
        [none; 8],
        [black_pawn; 8],
        row7,
    ];
    assert forall|r: int, c: int| on_board(r, c) implies board[r][c] == starting_square(
        |c: int| kinds[c],
        r,
        c,
    ) by {
        assert(board[r]@[c] == board[r][c]);
    }
    board
}

/// The grid of the standard starting position.
pub fn init_positions() -> (board: Board)
    ensures
        is_starting_board(board, |c: int| standard_back_rank(c)),
{
    let kinds = [
        PieceType::Rook,
        PieceType::Knight,
        PieceType::Bishop,
        PieceType::Queen,
        PieceType::King,
        PieceType::Bishop,
        PieceType::Knight,
        PieceType::Rook,
    ];
    let board = board_from_back_rank(&kinds);
    assert forall|r: int, c: int| on_board(r, c) implies board[r][c] == starting_square(
        |c: int| standard_back_rank(c),
        r,
        c,
    ) by {
        assert(board[r][c] == starting_square(|c: int| kinds[c], r, c));
    }
    board
}

/// The columns of the pieces on the back rank of a game of Fischer's
/// random chess; the two columns that are left hold the knights.
#[derive(Debug, Copy, Clone)]
pub struct BackRank {
    pub rook_col1: usize,
    pub king_col: usize,
    pub rook_col2: usize,
    pub bishop_col1: usize,
    pub bishop_col2: usize,
    pub queen_col: usize,
}

impl BackRank {
    /// The king stands between the rooks, the bishops stand on squares of
    /// different colours, and no two pieces share a column.
    pub open spec fn valid(self) -> bool {
        &&& self.rook_col1 < self.king_col < self.rook_col2 < 8
        &&& self.bishop_col1 < 8
        &&& self.bishop_col2 < 8
        &&& self.queen_col < 8
        &&& self.bishop_col1 % 2 != self.bishop_col2 % 2
        &&& !self.holds_rook_or_king(self.bishop_col1 as int)
        &&& !self.holds_rook_or_king(self.bishop_col2 as int)
        &&& !self.holds_rook_or_king(self.queen_col as int)
        &&& self.queen_col != self.bishop_col1
        &&& self.queen_col != self.bishop_col2
    }

    /// A rook or the king stands on the column.
    pub open spec fn holds_rook_or_king(self, col: int) -> bool {
        col == self.rook_col1 || col == self.king_col || col == self.rook_col2
    }

    /// The kind of piece on a column.
    pub open spec fn kind_at(self, col: int) -> PieceType {
        if col == self.rook_col1 || col == self.rook_col2 {
            PieceType::Rook
        } else if col == self.king_col {
            PieceType::King
        } else if col == self.bishop_col1 || col == self.bishop_col2 {
            PieceType::Bishop
        } else if col == self.queen_col {
            PieceType::Queen
        } else {
            PieceType::Knight
        }
    }

    /// Whether `board` is the starting grid of this back rank.
    pub open spec fn starts(self, board: Board) -> bool {
        forall|r: int, c: int|
            on_board(r, c) ==> board[r][c] == starting_square(|k: int| self.kind_at(k), r, c)
    }

    /// The starting grid of this back rank.
    pub fn board(&self) -> (board: Board)
        requires
            self.valid(),
        ensures
            self.starts(board),
    {
        let mut kinds = [PieceType::Knight; 8];
        kinds[self.queen_col] = PieceType::Queen;
        kinds[self.bishop_col1] = PieceType::Bishop;
        kinds[self.bishop_col2] = PieceType::Bishop;
        kinds[self.king_col] = PieceType::King;
        kinds[self.rook_col1] = PieceType::Rook;
        kinds[self.rook_col2] = PieceType::Rook;
        let board = board_from_back_rank(&kinds);
        assert forall|r: int, c: int| on_board(r, c) implies board[r][c] == starting_square(
            |k: int| self.kind_at(k),
            r,
            c,
        ) by {
            assert(board[r][c] == starting_square(|k: int| kinds[k], r, c));
            assert(kinds[c] == self.kind_at(c));
        }
        board
    }
}

/// The columns among 0 to 7 that are not marked as taken and, where a
/// remainder is given, leave that remainder when halved.
fn free_columns(taken: &[bool; 8], remainder: Option<usize>) -> (columns: Vec<usize>)
    ensures
        forall|c: usize| #[trigger]
            columns@.contains(c) <==> (c < 8 && !taken[c as int] && (remainder matches Some(r)
                ==> c % 2 == r)),
{
    let mut columns: Vec<usize> = Vec::new();
    let mut col: usize = 0;
    while col < 8
        invariant
            0 <= col <= 8,
            forall|c: usize| #[trigger]
                columns@.contains(c) <==> (c < col && !taken[c as int] && (remainder matches Some(
                    r,
                ) ==> c % 2 == r)),
        decreases 8 - col,
    {
        let fits = match remainder {
            Some(r) => col % 2 == r,
            None => true,
        };
        let ghost before = columns@;
        if !taken[col] && fits {
            columns.push(col);
        }
        proof {
            assert forall|c: usize| #[trigger]
                columns@.contains(c) <==> (c < col + 1 && !taken[c as int] && (
                remainder matches Some(r) ==> c % 2 == r)) by {
                if before.contains(c) {
                    let i = choose|i: int| 0 <= i < before.len() && before[i] == c;
                    assert(columns@[i] == c);
                }
                if columns@.contains(c) {
                    let i = choose|i: int| 0 <= i < columns@.len() && columns@[i] == c;
                    if i < before.len() {
                        assert(before[i] == c);
                    }
                }
                if c == col && !taken[col as int] && fits {
                    assert(columns@[columns@.len() - 1] == c);
                }
            }
        }
        col += 1;
    }
    columns
}

/// Draws the back rank of a game of Fischer's random chess: the first rook
/// among columns 0 to 4, the second at least two columns on, the king
/// between them; then the first bishop among the free columns, the second
/// among the free columns of the other colour, and the queen among the rest.
pub fn draw_back_rank() -> (rank: BackRank)
    ensures
        rank.valid(),
{
    let rook_col1 = random_in_range(0, 5);
    let rook_col2 = random_in_range(rook_col1 + 2, 8);
    let king_col = random_in_range(rook_col1 + 1, rook_col2);
    let mut taken = [false; 8];
    taken[rook_col1] = true;
    taken[rook_col2] = true;
    taken[king_col] = true;
    let free = free_columns(&taken, None);
    proof {
        assert(free@.contains(0usize) || free@.contains(1usize) || free@.contains(2usize)
            || free@.contains(3usize));
    }
    let bishop_col1 = match choose_one(&free) {
        Some(col) => col,
        None => 0,
    };
    taken[bishop_col1] = true;
    let other: usize = 1 - bishop_col1 % 2;
    let free = free_columns(&taken, Some(other));
    proof {
        if other == 0 {
            assert(free@.contains(0usize) || free@.contains(2usize) || free@.contains(4usize)
                || free@.contains(6usize));
        } else {
            assert(free@.contains(1usize) || free@.contains(3usize) || free@.contains(5usize)
                || free@.contains(7usize));
        }
    }
    let bishop_col2 = match choose_one(&free) {
        Some(col) => col,
        None => 0,
    };
    taken[bishop_col2] = true;
    let free = free_columns(&taken, None);
    proof {
        assert(free@.contains(0usize) || free@.contains(1usize) || free@.contains(2usize)
            || free@.contains(3usize) || free@.contains(4usize) || free@.contains(5usize));
    }
    let queen_col = match choose_one(&free) {
        Some(col) => col,
        None => 0,
    };
    BackRank { rook_col1, king_col, rook_col2, bishop_col1, bishop_col2, queen_col }
}

/// Whether `board` is the starting grid of a game of Fischer's random chess.
pub open spec fn is_960_board(board: Board) -> bool {
    exists|rank: BackRank| rank.valid() && #[trigger] rank.starts(board)
}

/// A starting grid of Fischer's random chess, drawn by chance.
pub fn create_960_board() -> (board: Board)
    ensures
        is_960_board(board),
{
    let rank = draw_back_rank();
    rank.board()
}

} // verus!
