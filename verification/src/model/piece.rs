use vstd::prelude::*;

verus! {

/// The six kinds of chess piece.
#[derive(Debug, Copy, Clone, PartialEq, Eq, Structural)]
pub enum PieceType {
    King,
    Queen,
    Rook,
    Bishop,
    Knight,
    Pawn,
}

/// The two sides of a game.
#[derive(Debug, Copy, Clone, PartialEq, Eq, Structural)]
pub enum Color {
    White,
    Black,
}

/// A piece: its kind and the side that owns it.
#[derive(Debug, Copy, Clone, PartialEq, Eq, Structural)]
pub struct Piece {
    pub piece_type: PieceType,
    pub color: Color,
}

impl Color {
    /// The side that plays against `self`.
    pub open spec fn opponent(self) -> Color {
        match self {
            Color::White => Color::Black,
            Color::Black => Color::White,
        }
    }

    /// Index of the side in tables that hold one entry per side.
    pub open spec fn index(self) -> int {
        match self {
            Color::White => 0,
            Color::Black => 1,
        }
    }

    /// The side that plays against `self`.
    pub fn get_opponent_color(&self) -> (other: Color)
        ensures
            other == self.opponent(),
    {
        match self {
            Color::White => Color::Black,
            Color::Black => Color::White,
        }
    }
}

/// The letter that stands for a kind of piece, in upper case.
pub open spec fn kind_letter(kind: PieceType) -> char {
    match kind {
        PieceType::King => 'K',
        PieceType::Queen => 'Q',
        PieceType::Rook => 'R',
        PieceType::Bishop => 'B',
        PieceType::Knight => 'N',
        PieceType::Pawn => 'P',
    }
}

/// The lower-case form of a piece letter.
pub open spec fn lower_letter(letter: char) -> char {
    if letter == 'K' {
        'k'
    } else if letter == 'Q' {
        'q'
    } else if letter == 'R' {
        'r'
    } else if letter == 'B' {
        'b'
    } else if letter == 'N' {
        'n'
    } else if letter == 'P' {
        'p'
    } else {
        letter
    }
}

/// The kind of piece that a letter names, in either case.
pub open spec fn kind_of_letter(letter: char) -> Option<PieceType> {
    if letter == 'K' || letter == 'k' {
        Some(PieceType::King)
    } else if letter == 'Q' || letter == 'q' {
        Some(PieceType::Queen)
    } else if letter == 'R' || letter == 'r' {
        Some(PieceType::Rook)
    } else if letter == 'B' || letter == 'b' {
        Some(PieceType::Bishop)
    } else if letter == 'N' || letter == 'n' {
        Some(PieceType::Knight)
    } else if letter == 'P' || letter == 'p' {
        Some(PieceType::Pawn)
    } else {
        None
    }
}

/// The chess figurine of a piece.
pub open spec fn figurine(piece: Piece) -> char {
    match piece.color {
        Color::White => match piece.piece_type {
            PieceType::King => '\u{2654}',
            PieceType::Queen => '\u{2655}',
            PieceType::Rook => '\u{2656}',
            PieceType::Bishop => '\u{2657}',
            PieceType::Knight => '\u{2658}',
            PieceType::Pawn => '\u{2659}',
        },
        Color::Black => match piece.piece_type {
            PieceType::King => '\u{265A}',
            PieceType::Queen => '\u{265B}',
            PieceType::Rook => '\u{265C}',
            PieceType::Bishop => '\u{265D}',
            PieceType::Knight => '\u{265E}',
            PieceType::Pawn => '\u{265F}',
        },
    }
}

impl Piece {
    /// The ASCII letter of the piece: upper case for White, lower case for Black.
    pub open spec fn ascii(self) -> char {
        match self.color {
            Color::White => kind_letter(self.piece_type),
            Color::Black => lower_letter(kind_letter(self.piece_type)),
        }
    }

    /// The ASCII letter of the piece: upper case for White, lower case for Black.
    pub fn to_ascii(&self) -> (c: char)
        ensures
            c == self.ascii(),
            kind_of_letter(c) == Some(self.piece_type),
    {
        match self.color {
            Color::White => match self.piece_type {
                PieceType::King => 'K',
                PieceType::Queen => 'Q',
                PieceType::Rook => 'R',
                PieceType::Bishop => 'B',
                PieceType::Knight => 'N',
                PieceType::Pawn => 'P',
            },
            Color::Black => match self.piece_type {
                PieceType::King => 'k',
                PieceType::Queen => 'q',
                PieceType::Rook => 'r',
                PieceType::Bishop => 'b',
                PieceType::Knight => 'n',
                PieceType::Pawn => 'p',
            },
        }
    }

    /// The chess figurine of the piece.
    pub fn to_unicode(&self) -> (c: char)
        ensures
            c == figurine(*self),
    {
        match self.color {
            Color::White => match self.piece_type {
                PieceType::King => '\u{2654}',
                PieceType::Queen => '\u{2655}',
                PieceType::Rook => '\u{2656}',
                PieceType::Bishop => '\u{2657}',
                PieceType::Knight => '\u{2658}',
                PieceType::Pawn => '\u{2659}',
            },
            Color::Black => match self.piece_type {
                PieceType::King => '\u{265A}',
                PieceType::Queen => '\u{265B}',
                PieceType::Rook => '\u{265C}',
                PieceType::Bishop => '\u{265D}',
                PieceType::Knight => '\u{265E}',
                PieceType::Pawn => '\u{265F}',
            },
        }
    }

    /// The chess figurine of the piece.
    pub fn to_char(&self) -> (c: char)
        ensures
            c == figurine(*self),
    {
        self.to_unicode()
    }

    /// Reads a piece letter in either case; the side is given by the caller.
    pub fn from_char(piece_char: char, color: Color) -> (r: Result<Piece, ()>)
        ensures
            match kind_of_letter(piece_char) {
                Some(kind) => r == Ok::<Piece, ()>(Piece { piece_type: kind, color }),
                None => r is Err,
            },
    {
        let piece_type = if piece_char == 'K' || piece_char == 'k' {
            PieceType::King
        } else if piece_char == 'Q' || piece_char == 'q' {
            PieceType::Queen
        } else if piece_char == 'B' || piece_char == 'b' {
            PieceType::Bishop
        } else if piece_char == 'N' || piece_char == 'n' {
            PieceType::Knight
        } else if piece_char == 'R' || piece_char == 'r' {
            PieceType::Rook
        } else if piece_char == 'P' || piece_char == 'p' {
            PieceType::Pawn
        } else {
            return Err(());
        };
        Ok(Piece { piece_type, color })
    }
}

} // verus!
