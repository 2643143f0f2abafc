use vstd::prelude::*;
use vstd::std_specs::cmp::PartialEqSpecImpl;
use crate::model::game_state::GameState;
use crate::model::piece::{Color, Piece, PieceType};

verus! {

/// One move: an ordinary move between two squares, each given as `[row, col]`,
/// or one of the two castles, whose squares follow from the recorded initial
/// positions of king and rook.
#[derive(Debug, Copy, Clone)]
pub enum Movement {
    CastleKingSide(Color),
    CastleQueenSide(Color),
    Normal { from: [usize; 2], to: [usize; 2] },
}

impl Movement {
    /// Row of the source square of an ordinary move.
    pub open spec fn from_row(self) -> int
        recommends
            self is Normal,
    {
        self->from[0] as int
    }

    /// Column of the source square of an ordinary move.
    pub open spec fn from_col(self) -> int
        recommends
            self is Normal,
    {
        self->from[1] as int
    }

    /// Row of the destination square of an ordinary move.
    pub open spec fn to_row(self) -> int
        recommends
            self is Normal,
    {
        self->to[0] as int
    }

    /// Column of the destination square of an ordinary move.
    pub open spec fn to_col(self) -> int
        recommends
            self is Normal,
    {
        self->to[1] as int
    }

    /// The piece that the move sets in motion: for an ordinary move the piece
    /// on its source square, for a castle the king of the named side.
    pub open spec fn moved_piece(self, state: &GameState) -> Piece {
        match self {
            Movement::Normal { from, to } => state@.at(self.from_row(), self.from_col())->0,
            Movement::CastleKingSide(color) => Piece { piece_type: PieceType::King, color },
            Movement::CastleQueenSide(color) => Piece { piece_type: PieceType::King, color },
        }
    }

    /// The piece that the move sets in motion.
    pub fn get_piece(&self, game_state: &GameState) -> (piece: Piece)
        requires
            self is Normal ==> game_state@.occupied(self.from_row(), self.from_col()),
        ensures
            piece == self.moved_piece(game_state),
    {
        match self {
            Movement::Normal { from, to } => {
                let x: usize = from[0];
                let y: usize = from[1];
                match game_state.board[x][y] {
                    Some(piece) => piece,
                    None => Piece { piece_type: PieceType::King, color: Color::White },
                }
            },
            Movement::CastleKingSide(color) => Piece { piece_type: PieceType::King, color: *color },
            Movement::CastleQueenSide(color) => Piece {
                piece_type: PieceType::King,
                color: *color,
            },
        }
    }
}

impl Movement {
    /// Whether two movements are the same.
    pub fn same_as(&self, other: &Movement) -> (r: bool)
        ensures
            r == (*self == *other),
    {
        match self {
            Movement::Normal { from, to } => match other {
                Movement::Normal { from: from2, to: to2 } => {
                    let r = from[0] == from2[0] && from[1] == from2[1] && to[0] == to2[0] && to[1]
                        == to2[1];
                    proof {
                        if r {
                            lemma_same_squares(*self, *other);
                        }
                    }
                    r
                },
                _ => false,
            },
            Movement::CastleKingSide(c) => match other {
                Movement::CastleKingSide(d) => *c == *d,
                _ => false,
            },
            Movement::CastleQueenSide(c) => match other {
                Movement::CastleQueenSide(d) => *c == *d,
                _ => false,
            },
        }
    }
}

impl PartialEq for Movement {
    fn eq(&self, other: &Movement) -> (r: bool) {
        self.same_as(other)
    }
}

impl PartialEqSpecImpl for Movement {
    open spec fn obeys_eq_spec() -> bool {
        true
    }

    open spec fn eq_spec(&self, other: &Movement) -> bool {
        *self == *other
    }
}

impl Eq for Movement {

}

/// The ordinary move between two squares of the board.
pub open spec fn move_between(from: (int, int), to: (int, int)) -> Movement {
    Movement::Normal {
        from: [from.0 as usize, from.1 as usize],
        to: [to.0 as usize, to.1 as usize],
    }
}

/// Two ordinary moves with the same four coordinates are the same move.
pub proof fn lemma_same_squares(a: Movement, b: Movement)
    requires
        a is Normal,
        b is Normal,
        a.from_row() == b.from_row(),
        a.from_col() == b.from_col(),
        a.to_row() == b.to_row(),
        a.to_col() == b.to_col(),
    ensures
        a == b,
{
    assert(a->from =~= b->from);
    assert(a->to =~= b->to);
}

} // verus!
