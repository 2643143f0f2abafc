use vstd::prelude::*;
use crate::model::board::on_board;
use crate::model::movement::Movement;
use crate::model::piece::{Color, Piece, PieceType};

verus! {

/// The mathematical model of a game state: what the rules speak of.
///
/// The grid is a sequence of eight rows of eight squares; the counter is an
/// unbounded integer. Everything else is carried as it is stored.
pub struct Position {
    pub board: Seq<Seq<Option<Piece>>>,
    pub player_to_move: Color,
    pub last_move: Option<Movement>,
    pub white_can_castle_queen_side: bool,
    pub white_can_castle_king_side: bool,
    pub black_can_castle_queen_side: bool,
    pub black_can_castle_king_side: bool,
    pub king_initial_positions: [Option<[usize; 2]>; 2],
    pub rook_initial_positions: [[Option<[usize; 2]>; 2]; 2],
    pub move_limit: int,
}

/// The value that the fifty-move counter takes after a capture.
pub const MOVE_LIMIT_CEILING: i32 = 100;

/// A stored square as a pair of integers.
pub open spec fn coords(square: Option<[usize; 2]>) -> Option<(int, int)> {
    match square {
        Some(s) => Some((s[0] as int, s[1] as int)),
        None => None,
    }
}

/// The row towards which pawns of `color` advance, as a step of +1 or -1.
pub open spec fn forward(color: Color) -> int {
    match color {
        Color::White => 1,
        Color::Black => -1,
    }
}

/// The row on which pawns of `color` start.
pub open spec fn home_row(color: Color) -> int {
    match color {
        Color::White => 1,
        Color::Black => 6,
    }
}

/// The row on which a pawn of `color` is promoted.
pub open spec fn far_row(color: Color) -> int {
    match color {
        Color::White => 7,
        Color::Black => 0,
    }
}

/// The row from which a pawn of `color` captures en passant.
pub open spec fn en_passant_row(color: Color) -> int {
    match color {
        Color::White => 4,
        Color::Black => 3,
    }
}

/// The column on which the king lands when castling.
pub open spec fn king_target_col(king_side: bool) -> int {
    if king_side {
        6
    } else {
        2
    }
}

/// The column on which the rook lands when castling.
pub open spec fn rook_target_col(king_side: bool) -> int {
    if king_side {
        5
    } else {
        3
    }
}

/// The counter one step lower; it stays where the machine integer ends.
pub open spec fn counted_down(limit: int) -> int {
    if limit > i32::MIN {
        limit - 1
    } else {
        limit
    }
}

impl Position {
    /// The grid has eight rows of eight squares.
    pub open spec fn wf(self) -> bool {
        &&& self.board.len() == 8
        &&& forall|r: int| 0 <= r < 8 ==> (#[trigger] self.board[r]).len() == 8
    }

    /// What stands on a square.
    pub open spec fn at(self, row: int, col: int) -> Option<Piece> {
        self.board[row][col]
    }

    /// Whether a square of the board holds a piece.
    pub open spec fn occupied(self, row: int, col: int) -> bool {
        on_board(row, col) && self.at(row, col) is Some
    }

    /// Whether the castling right of a side and a wing is still held.
    pub open spec fn can_castle(self, color: Color, king_side: bool) -> bool {
        match color {
            Color::White => if king_side {
                self.white_can_castle_king_side
            } else {
                self.white_can_castle_queen_side
            },
            Color::Black => if king_side {
                self.black_can_castle_king_side
            } else {
                self.black_can_castle_queen_side
            },
        }
    }

    /// The square on which the king of a side started, if one is recorded.
    pub open spec fn king_start(self, color: Color) -> Option<(int, int)> {
        coords(self.king_initial_positions[color.index()])
    }

    /// The square on which a rook of a side started, if one is recorded.
    pub open spec fn rook_start(self, color: Color, king_side: bool) -> Option<(int, int)> {
        coords(
            self.rook_initial_positions[if king_side {
                1int
            } else {
                0int
            }][color.index()],
        )
    }

    /// A pawn on `(fr, fc)` takes, by moving to the empty square `(tr, tc)`,
    /// the opposing pawn beside it that has just advanced two rows.
    pub open spec fn en_passant_capture(self, fr: int, fc: int, tr: int, tc: int) -> bool {
        &&& on_board(fr, fc)
        &&& on_board(tr, tc)
        &&& self.at(fr, fc) matches Some(pawn)
        &&& pawn.piece_type == PieceType::Pawn
        &&& (tc == fc + 1 || tc == fc - 1)
        &&& tr == fr + forward(pawn.color)
        &&& self.at(tr, tc) is None
        &&& fr == en_passant_row(pawn.color)
        &&& self.at(fr, tc) == Some(
            Piece { piece_type: PieceType::Pawn, color: pawn.color.opponent() },
        )
        &&& self.last_move matches Some(last)
        &&& last is Normal
        &&& last.from_row() == home_row(pawn.color.opponent())
        &&& last.from_col() == tc
        &&& last.to_row() == fr
        &&& last.to_col() == tc
    }

    /// Whether a movement can be carried out at all: an ordinary move needs
    /// two squares of the board and a piece on the first; a castle needs the
    /// recorded starting squares of the mover's king and of the rook.
    pub open spec fn applicable(self, movement: Movement) -> bool {
        match movement {
            Movement::Normal { from, to } => {
                &&& on_board(movement.from_row(), movement.from_col())
                &&& on_board(movement.to_row(), movement.to_col())
                &&& self.at(movement.from_row(), movement.from_col()) is Some
            },
            Movement::CastleKingSide(_) => self.castle_applicable(true),
            Movement::CastleQueenSide(_) => self.castle_applicable(false),
        }
    }

    /// The starting squares of the mover's king and of the rook of the given
    /// wing are recorded and lie on the board.
    pub open spec fn castle_applicable(self, king_side: bool) -> bool {
        &&& self.king_start(self.player_to_move) matches Some(k)
        &&& on_board(k.0, k.1)
        &&& self.rook_start(self.player_to_move, king_side) matches Some(rk)
        &&& on_board(rk.0, rk.1)
    }

    /// Whether carrying out a movement takes a piece off the board.
    pub open spec fn captures(self, movement: Movement) -> bool {
        &&& movement is Normal
        &&& self.applicable(movement)
        &&& (self.at(movement.to_row(), movement.to_col()) is Some || self.en_passant_capture(
            movement.from_row(),
            movement.from_col(),
            movement.to_row(),
            movement.to_col(),
        ))
    }

    /// What stands on `(row, col)` once the piece on `(fr, fc)` has moved to
    /// `(tr, tc)`: a pawn that reaches its far row becomes a queen, and a pawn
    /// taken en passant leaves the board.
    pub open spec fn square_after_move(self, fr: int, fc: int, tr: int, tc: int, row: int, col: int)
        -> Option<Piece> {
        if row == tr && col == tc {
            match self.at(fr, fc) {
                Some(piece) => if piece.piece_type == PieceType::Pawn && tr == far_row(
                    piece.color,
                ) {
                    Some(Piece { piece_type: PieceType::Queen, color: piece.color })
                } else {
                    Some(piece)
                },
                None => None,
            }
        } else if row == fr && col == fc {
            None
        } else if row == fr && col == tc && self.en_passant_capture(fr, fc, tr, tc) {
            None
        } else {
            self.at(row, col)
        }
    }

    /// A castling right after an ordinary move from `(fr, fc)` to `(tr, tc)`.
    /// It is lost for good when no starting square of the king is recorded,
    /// when the mover leaves the starting square of its own king or rook, and
    /// when the mover lands on the starting square of the other side's rook.
    pub open spec fn right_after_move(
        self,
        color: Color,
        king_side: bool,
        fr: int,
        fc: int,
        tr: int,
        tc: int,
    ) -> bool {
        &&& self.can_castle(color, king_side)
        &&& self.king_start(color) is Some
        &&& !(self.player_to_move == color && (self.king_start(color) == Some((fr, fc))
            || self.rook_start(color, king_side) == Some((fr, fc))))
        &&& !(self.player_to_move != color && self.rook_start(color, king_side) == Some((tr, tc)))
    }

    /// The position after an ordinary, applicable move.
    pub open spec fn after_move(self, movement: Movement) -> Position
        recommends
            movement is Normal,
    {
        let fr = movement.from_row();
        let fc = movement.from_col();
        let tr = movement.to_row();
        let tc = movement.to_col();
        Position {
            board: Seq::new(
                8,
                |r: int| Seq::new(8, |c: int| self.square_after_move(fr, fc, tr, tc, r, c)),
            ),
            player_to_move: self.player_to_move.opponent(),
            last_move: Some(movement),
            white_can_castle_queen_side: self.right_after_move(Color::White, false, fr, fc, tr, tc),
            white_can_castle_king_side: self.right_after_move(Color::White, true, fr, fc, tr, tc),
            black_can_castle_queen_side: self.right_after_move(Color::Black, false, fr, fc, tr, tc),
            black_can_castle_king_side: self.right_after_move(Color::Black, true, fr, fc, tr, tc),
            king_initial_positions: self.king_initial_positions,
            rook_initial_positions: self.rook_initial_positions,
            move_limit: if self.captures(movement) {
                MOVE_LIMIT_CEILING as int
            } else {
                counted_down(self.move_limit)
            },
        }
    }

    /// What stands on `(row, col)` once the mover has castled: king and rook
    /// have left their starting squares and stand on their target columns of
    /// the king's starting row.
    pub open spec fn square_after_castle(self, king_side: bool, row: int, col: int) -> Option<
        Piece,
    > {
        let mover = self.player_to_move;
        let k = self.king_start(mover)->0;
        let rk = self.rook_start(mover, king_side)->0;
        if row == k.0 && col == king_target_col(king_side) {
            Some(Piece { piece_type: PieceType::King, color: mover })
        } else if row == k.0 && col == rook_target_col(king_side) {
            Some(Piece { piece_type: PieceType::Rook, color: mover })
        } else if (row == k.0 && col == k.1) || (row == rk.0 && col == rk.1) {
            None
        } else {
            self.at(row, col)
        }
    }

    /// The position after an applicable castle of the mover.
    pub open spec fn after_castle(self, king_side: bool) -> Position {
        let mover = self.player_to_move;
        Position {
            board: Seq::new(
                8,
                |r: int| Seq::new(8, |c: int| self.square_after_castle(king_side, r, c)),
            ),
            player_to_move: mover.opponent(),
            last_move: Some(
                if king_side {
                    Movement::CastleKingSide(mover)
                } else {
                    Movement::CastleQueenSide(mover)
                },
            ),
            white_can_castle_queen_side: mover != Color::White && self.white_can_castle_queen_side,
            white_can_castle_king_side: mover != Color::White && self.white_can_castle_king_side,
            black_can_castle_queen_side: mover != Color::Black && self.black_can_castle_queen_side,
            black_can_castle_king_side: mover != Color::Black && self.black_can_castle_king_side,
            king_initial_positions: self.king_initial_positions,
            rook_initial_positions: self.rook_initial_positions,
            move_limit: counted_down(self.move_limit),
        }
    }

    /// The position after a movement. No rule of play is consulted; a
    /// movement that is not applicable leaves the position as it is.
    pub open spec fn after(self, movement: Movement) -> Position {
        if !self.applicable(movement) {
            self
        } else {
            match movement {
                Movement::Normal { from, to } => self.after_move(movement),
                Movement::CastleKingSide(_) => self.after_castle(true),
                Movement::CastleQueenSide(_) => self.after_castle(false),
            }
        }
    }

    /// The position after a sequence of movements, made in order.
    pub open spec fn after_all(self, movements: Seq<Movement>) -> Position
        decreases movements.len(),
    {
        if movements.len() == 0 {
            self
        } else {
            self.after_all(movements.drop_last()).after(movements.last())
        }
    }
}

/// After an applicable movement the other side is to move; the counter is at
/// its ceiling if a piece was taken and has gone down by one otherwise (as
/// long as the machine integer can hold the lower value).
pub proof fn lemma_turn_and_counter(p: Position, movement: Movement)
    requires
        p.applicable(movement),
    ensures
        p.after(movement).player_to_move == p.player_to_move.opponent(),
        p.captures(movement) ==> p.after(movement).move_limit == MOVE_LIMIT_CEILING,
        !p.captures(movement) && p.move_limit > i32::MIN ==> p.after(movement).move_limit
            == p.move_limit - 1,
{
}

/// A castling right that is lost stays lost over one movement.
pub proof fn lemma_right_lost_stays_lost(
    p: Position,
    movement: Movement,
    color: Color,
    king_side: bool,
)
    requires
        !p.can_castle(color, king_side),
    ensures
        !p.after(movement).can_castle(color, king_side),
{
}

/// A castling right that is lost stays lost over every sequence of movements.
pub proof fn lemma_castling_rights_never_return(
    p: Position,
    movements: Seq<Movement>,
    color: Color,
    king_side: bool,
)
    requires
        !p.can_castle(color, king_side),
    ensures
        !p.after_all(movements).can_castle(color, king_side),
    decreases movements.len(),
{
    if movements.len() > 0 {
        lemma_castling_rights_never_return(p, movements.drop_last(), color, king_side);
        lemma_right_lost_stays_lost(
            p.after_all(movements.drop_last()),
            movements.last(),
            color,
            king_side,
        );
    }
}

/// A pawn may take en passant only right after the double step of the
/// pawn that it takes: in the position that a movement leads to, the right
/// to take en passant from `(fr, fc)` to `(tr, tc)` exists only if that
/// movement took a pawn of the other side from its home row to the square
/// beside the capturing pawn.
pub proof fn lemma_en_passant_needs_double_step(
    p: Position,
    made: Movement,
    fr: int,
    fc: int,
    tr: int,
    tc: int,
)
    requires
        p.wf(),
        p.applicable(made),
        p.after(made).en_passant_capture(fr, fc, tr, tc),
    ensures
        made is Normal,
        made.from_col() == tc,
        made.to_col() == tc,
        made.to_row() == fr,
        p.at(made.from_row(), made.from_col()) matches Some(stepped) && stepped.piece_type
            == PieceType::Pawn && made.from_row() == home_row(stepped.color) && made.to_row()
            == made.from_row() + 2 * forward(stepped.color),
{
    let q = p.after(made);
    assert(q.last_move == Some(made));
    assert(q.at(fr, tc) == p.square_after_move(
        made.from_row(),
        made.from_col(),
        made.to_row(),
        made.to_col(),
        fr,
        tc,
    ));
}

/// The right to take en passant lasts for one movement: whatever is played
/// next, unless it is again the double step of a pawn onto the same square,
/// the right is gone in the position that follows.
pub proof fn lemma_en_passant_expires(
    p: Position,
    next: Movement,
    fr: int,
    fc: int,
    tr: int,
    tc: int,
)
    requires
        p.wf(),
        p.applicable(next),
        !(next is Normal && next.to_row() == fr && next.to_col() == tc && next.from_col() == tc
            && (next.from_row() == fr + 2 || next.from_row() == fr - 2)),
    ensures
        !p.after(next).en_passant_capture(fr, fc, tr, tc),
{
    if p.after(next).en_passant_capture(fr, fc, tr, tc) {
        lemma_en_passant_needs_double_step(p, next, fr, fc, tr, tc);
    }
}

} // verus!
