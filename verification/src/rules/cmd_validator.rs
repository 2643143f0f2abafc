use vstd::prelude::*;
use crate::controllers::controller::Command;
use crate::model::board::on_board;
use crate::model::game_state::{lists_squares, reading_order, square_matches, GameState};
use crate::model::movement::Movement;
use crate::model::piece::{Color, Piece, PieceType};
use crate::model::position::{forward, home_row, Position};
use crate::rules::castle_validator::{king_castle_is_valid, queen_castle_is_valid};

verus! {

/// `x` moved `k` steps in the direction of the sign of `d`.
pub open spec fn shift(x: int, d: int, k: int) -> int {
    if d > 0 {
        x + k
    } else if d < 0 {
        x - k
    } else {
        x
    }
}

/// How far two rows, or two columns, are apart.
pub open spec fn distance(a: int, b: int) -> int {
    if a >= b {
        a - b
    } else {
        b - a
    }
}

/// The number of steps of a king between two squares.
pub open spec fn reach(fr: int, fc: int, tr: int, tc: int) -> int {
    if distance(fr, tr) >= distance(fc, tc) {
        distance(fr, tr)
    } else {
        distance(fc, tc)
    }
}

/// Whether both squares of an ordinary move lie on the board.
pub open spec fn squares_on_board(movement: Movement) -> bool {
    &&& movement is Normal
    &&& on_board(movement.from_row(), movement.from_col())
    &&& on_board(movement.to_row(), movement.to_col())
}

impl Position {
    /// The square `j` steps from `(fr, fc)` towards `(tr, tc)` is empty.
    pub open spec fn on_way_empty(self, fr: int, fc: int, tr: int, tc: int, j: int) -> bool {
        self.at(shift(fr, tr - fr, j), shift(fc, tc - fc, j)) is None
    }

    /// Every square strictly between the two squares is empty.
    pub open spec fn path_clear(self, fr: int, fc: int, tr: int, tc: int) -> bool {
        forall|j: int| 1 <= j < reach(fr, fc, tr, tc)
            ==> #[trigger] self.on_way_empty(fr, fc, tr, tc, j)
    }

    /// Along a row or a column, over empty squares.
    pub open spec fn rook_move(self, fr: int, fc: int, tr: int, tc: int) -> bool {
        (fr == tr) != (fc == tc) && self.path_clear(fr, fc, tr, tc)
    }

    /// Along a diagonal, over empty squares.
    pub open spec fn bishop_move(self, fr: int, fc: int, tr: int, tc: int) -> bool {
        fr != tr && distance(fr, tr) == distance(fc, tc) && self.path_clear(fr, fc, tr, tc)
    }

    /// As a rook or as a bishop.
    pub open spec fn queen_move(self, fr: int, fc: int, tr: int, tc: int) -> bool {
        self.rook_move(fr, fc, tr, tc) || self.bishop_move(fr, fc, tr, tc)
    }

    /// The straight moves of a pawn of `color`: one row forward onto an empty
    /// square, or two rows from its home row over an empty square onto one.
    pub open spec fn pawn_push(self, color: Color, fr: int, fc: int, tr: int, tc: int) -> bool {
        &&& tc == fc
        &&& self.at(tr, tc) is None
        &&& (tr == fr + forward(color) || (tr == fr + 2 * forward(color) && fr == home_row(color)
            && self.at(fr + forward(color), fc) is None))
    }

    /// The diagonal moves of a pawn of `color`: one row forward and one column
    /// aside, onto a piece or en passant.
    pub open spec fn pawn_capture(self, color: Color, fr: int, fc: int, tr: int, tc: int) -> bool {
        &&& (tc == fc + 1 || tc == fc - 1)
        &&& tr == fr + forward(color)
        &&& (self.at(tr, tc) is Some || (self.en_passant_capture(fr, fc, tr, tc) && self.at(
            fr,
            fc,
        )->0.color == color))
    }

    /// How a pawn of `color` moves.
    pub open spec fn pawn_move(self, color: Color, fr: int, fc: int, tr: int, tc: int) -> bool {
        self.pawn_push(color, fr, fc, tr, tc) || self.pawn_capture(color, fr, fc, tr, tc)
    }

    /// No piece of `color` stands on the square.
    pub open spec fn destination_free(self, color: Color, tr: int, tc: int) -> bool {
        match self.at(tr, tc) {
            Some(other) => other.color != color,
            None => true,
        }
    }

    /// `piece`, standing on `(fr, fc)`, would go to `(tr, tc)` by the way its
    /// kind moves, and would land on no piece of its own side.
    pub open spec fn moves_like(self, piece: Piece, fr: int, fc: int, tr: int, tc: int) -> bool {
        &&& self.destination_free(piece.color, tr, tc)
        &&& match piece.piece_type {
            PieceType::King => king_move(fr, fc, tr, tc),
            PieceType::Queen => self.queen_move(fr, fc, tr, tc),
            PieceType::Rook => self.rook_move(fr, fc, tr, tc),
            PieceType::Bishop => self.bishop_move(fr, fc, tr, tc),
            PieceType::Knight => knight_move(fr, fc, tr, tc),
            PieceType::Pawn => self.pawn_move(piece.color, fr, fc, tr, tc),
        }
    }

    /// The piece on `(fr, fc)` may go to `(tr, tc)` by the way its kind
    /// moves, and lands on no piece of its own side. Whether its own king is
    /// left in check is not asked.
    pub open spec fn piece_rules_allow(self, fr: int, fc: int, tr: int, tc: int) -> bool {
        &&& on_board(fr, fc)
        &&& on_board(tr, tc)
        &&& self.at(fr, fc) matches Some(piece)
        &&& self.moves_like(piece, fr, fc, tr, tc)
    }

    /// A piece of `by` stands on `(fr, fc)` and may go to `(tr, tc)`.
    pub open spec fn attacks_from(self, by: Color, fr: int, fc: int, tr: int, tc: int) -> bool {
        &&& self.at(fr, fc) matches Some(piece)
        &&& piece.color == by
        &&& self.piece_rules_allow(fr, fc, tr, tc)
    }

    /// Some piece of `by` may go to `(tr, tc)`.
    pub open spec fn attacked(self, tr: int, tc: int, by: Color) -> bool {
        exists|fr: int, fc: int| #[trigger] self.attacks_from(by, fr, fc, tr, tc)
    }

    /// `(row, col)` is the first square in reading order that holds the king of `color`.
    pub open spec fn king_on(self, color: Color, row: int, col: int) -> bool {
        &&& on_board(row, col)
        &&& square_matches(self, Some(PieceType::King), color, row, col)
        &&& forall|r: int, c: int|
            on_board(r, c) && reading_order(r, c) < reading_order(row, col)
                ==> !#[trigger] square_matches(
                self,
                Some(PieceType::King),
                color,
                r,
                c,
            )
    }

    /// The king of `color` stands on `(row, col)` and a piece of the other side may go there.
    pub open spec fn king_attacked_on(self, color: Color, row: int, col: int) -> bool {
        self.king_on(color, row, col) && self.attacked(row, col, color.opponent())
    }

    /// The king of `color` is attacked. A side without a king is never in check.
    pub open spec fn in_check(self, color: Color) -> bool {
        exists|row: int, col: int| #[trigger] self.king_attacked_on(color, row, col)
    }

    /// A king of either side stands on the square.
    pub open spec fn holds_king(self, row: int, col: int) -> bool {
        self.at(row, col) matches Some(piece) && piece.piece_type == PieceType::King
    }

    /// An ordinary move that `color` may make: a piece of `color` moves as
    /// its kind does, and the king of `color` is not in check afterwards. A
    /// move that takes a king needs not look after its own king.
    pub open spec fn valid_move(self, movement: Movement, color: Color) -> bool {
        &&& squares_on_board(movement)
        &&& self.at(movement.from_row(), movement.from_col()) matches Some(piece)
        &&& piece.color == color
        &&& self.piece_rules_allow(
            movement.from_row(),
            movement.from_col(),
            movement.to_row(),
            movement.to_col(),
        )
        &&& (self.holds_king(movement.to_row(), movement.to_col()) || !self.after(
            movement,
        ).in_check(color))
    }
}

/// As a knight: two squares one way and one square the other.
pub open spec fn knight_move(fr: int, fc: int, tr: int, tc: int) -> bool {
    (distance(fr, tr) == 2 && distance(fc, tc) == 1) || (distance(fr, tr) == 1 && distance(fc, tc)
        == 2)
}

/// As a king: at most one row and at most one column away.
pub open spec fn king_move(fr: int, fc: int, tr: int, tc: int) -> bool {
    distance(fr, tr) <= 1 && distance(fc, tc) <= 1
}

/// How far two rows, or two columns, are apart.
fn apart(a: usize, b: usize) -> (d: usize)
    ensures
        d == distance(a as int, b as int),
{
    if a >= b {
        a - b
    } else {
        b - a
    }
}

/// Whether the movement is an ordinary move between two squares of the board.
fn within_board(movement: &Movement) -> (r: bool)
    ensures
        r == squares_on_board(*movement),
{
    match movement {
        Movement::Normal { from, to } => from[0] < 8 && from[1] < 8 && to[0] < 8 && to[1] < 8,
        _ => false,
    }
}

/// Whether every square strictly between two squares of one line is empty.
#[verifier::loop_isolation(false)]
fn path_is_clear(game_state: &GameState, x: usize, y: usize, x2: usize, y2: usize) -> (r: bool)
    requires
        on_board(x as int, y as int),
        on_board(x2 as int, y2 as int),
        x == x2 || y == y2 || distance(x as int, x2 as int) == distance(y as int, y2 as int),
    ensures
        r == game_state@.path_clear(x as int, y as int, x2 as int, y2 as int),
{
    let dx = apart(x, x2);
    let dy = apart(y, y2);
    let n = if dx >= dy {
        dx
    } else {
        dy
    };
    let mut j: usize = 1;
    while j < n
        invariant
            1 <= j,
            forall|k: int|
                1 <= k < j ==> #[trigger] game_state@.on_way_empty(
                    x as int,
                    y as int,
                    x2 as int,
                    y2 as int,
                    k,
                ),
        decreases n - j,
    {
        let cx = if x2 > x {
            x + j
        } else if x2 < x {
            x - j
        } else {
            x
        };
        let cy = if y2 > y {
            y + j
        } else if y2 < y {
            y - j
        } else {
            y
        };
        if game_state.board[cx][cy].is_some() {
            assert(!game_state@.on_way_empty(x as int, y as int, x2 as int, y2 as int, j as int));
            return false;
        }
        j += 1;
    }
    true
}

/// Whether the move goes as a rook goes.
fn is_valid_movement_for_rook(movement: &Movement, game_state: &GameState) -> (r: bool)
    ensures
        r == (squares_on_board(*movement) && game_state@.rook_move(
            movement.from_row(),
            movement.from_col(),
            movement.to_row(),
            movement.to_col(),
        )),
{
    if !within_board(movement) {
        return false;
    }
    match movement {
        Movement::Normal { from, to } => {
            if (from[0] == to[0]) != (from[1] == to[1]) {
                path_is_clear(game_state, from[0], from[1], to[0], to[1])
            } else {
                false
            }
        },
        _ => false,
    }
}

/// Whether the move goes as a bishop goes.
fn is_valid_movement_for_bishop(movement: &Movement, game_state: &GameState) -> (r: bool)
    ensures
        r == (squares_on_board(*movement) && game_state@.bishop_move(
            movement.from_row(),
            movement.from_col(),
            movement.to_row(),
            movement.to_col(),
        )),
{
    if !within_board(movement) {
        return false;
    }
    match movement {
        Movement::Normal { from, to } => {
            if from[0] != to[0] && apart(from[0], to[0]) == apart(from[1], to[1]) {
                path_is_clear(game_state, from[0], from[1], to[0], to[1])
            } else {
                false
            }
        },
        _ => false,
    }
}

/// Whether the move goes as a queen goes.
fn is_valid_movement_for_queen(movement: &Movement, game_state: &GameState) -> (r: bool)
    ensures
        r == (squares_on_board(*movement) && game_state@.queen_move(
            movement.from_row(),
            movement.from_col(),
            movement.to_row(),
            movement.to_col(),
        )),
{
    is_valid_movement_for_rook(movement, game_state) || is_valid_movement_for_bishop(
        movement,
        game_state,
    )
}

/// Whether the move goes as a knight goes.
fn is_valid_movement_for_knight(movement: &Movement) -> (r: bool)
    ensures
        r == (squares_on_board(*movement) && knight_move(
            movement.from_row(),
            movement.from_col(),
            movement.to_row(),
            movement.to_col(),
        )),
{
    if !within_board(movement) {
        return false;
    }
    match movement {
        Movement::Normal { from, to } => {
            let dx = apart(from[0], to[0]);
            let dy = apart(from[1], to[1]);
            (dx == 2 && dy == 1) || (dx == 1 && dy == 2)
        },
        _ => false,
    }
}

/// Whether the move goes as a pawn of the side of `piece` goes.
fn is_valid_movement_for_pawn(
    movement: &Movement,
    game_state: &GameState,
    piece: &Piece,
) -> (r: bool)
    ensures
        r == (squares_on_board(*movement) && game_state@.pawn_move(
            piece.color,
            movement.from_row(),
            movement.from_col(),
            movement.to_row(),
            movement.to_col(),
        )),
{
    if !within_board(movement) {
        return false;
    }
    match movement {
        Movement::Normal { from, to } => {
            let x: usize = from[0];
            let y: usize = from[1];
            let x2: usize = to[0];
            let y2: usize = to[1];
            let one_ahead = match piece.color {
                Color::White => x2 == x + 1,
                Color::Black => x2 + 1 == x,
            };
            let two_ahead = match piece.color {
                Color::White => x2 == x + 2 && x == 1,
                Color::Black => x2 + 2 == x && x == 6,
            };
            if y2 != y {
                if (y2 == y + 1 || y2 + 1 == y) && one_ahead {
                    match game_state.board[x2][y2] {
                        Some(_) => true,
                        None => {
                            let mover = match game_state.board[x][y] {
                                Some(found) => found.color == piece.color,
                                None => false,
                            };
                            mover && game_state.is_en_passant(x, y, x2, y2)
                        },
                    }
                } else {
                    false
                }
            } else if game_state.board[x2][y2].is_some() {
                false
            } else if one_ahead {
                true
            } else if two_ahead {
                let middle: usize = match piece.color {
                    Color::White => 2,
                    Color::Black => 5,
                };
                game_state.board[middle][y].is_none()
            } else {
                false
            }
        },
        _ => false,
    }
}

/// Whether the move goes as a king goes.
fn is_valid_movement_for_king(movement: &Movement) -> (r: bool)
    ensures
        r == (squares_on_board(*movement) && king_move(
            movement.from_row(),
            movement.from_col(),
            movement.to_row(),
            movement.to_col(),
        )),
{
    if !within_board(movement) {
        return false;
    }
    match movement {
        Movement::Normal { from, to } => apart(from[0], to[0]) <= 1 && apart(from[1], to[1]) <= 1,
        _ => false,
    }
}

/// Whether the move lands on no piece of the side of `piece`.
fn is_valid_destination(movement: &Movement, game_state: &GameState, piece: &Piece) -> (r: bool)
    ensures
        r == (squares_on_board(*movement) && game_state@.destination_free(
            piece.color,
            movement.to_row(),
            movement.to_col(),
        )),
{
    if !within_board(movement) {
        return false;
    }
    match movement {
        Movement::Normal { from, to } => match game_state.board[to[0]][to[1]] {
            None => true,
            Some(other) => other.color != piece.color,
        },
        _ => false,
    }
}

/// Whether the piece on the source square of an ordinary move may go to
/// the destination by the way its kind moves; its own king is not looked after.
pub fn obeys_piece_rules(movement: &Movement, game_state: &GameState) -> (r: bool)
    ensures
        r == (movement is Normal && game_state@.piece_rules_allow(
            movement.from_row(),
            movement.from_col(),
            movement.to_row(),
            movement.to_col(),
        )),
{
    if !within_board(movement) {
        return false;
    }
    match movement {
        Movement::Normal { from, to } => {
            let piece = match game_state.board[from[0]][from[1]] {
                Some(piece) => piece,
                None => {
                    return false;
                },
            };
            if !is_valid_destination(movement, game_state, &piece) {
                return false;
            }
            match piece.piece_type {
                PieceType::King => is_valid_movement_for_king(movement),
                PieceType::Queen => is_valid_movement_for_queen(movement, game_state),
                PieceType::Bishop => is_valid_movement_for_bishop(movement, game_state),
                PieceType::Knight => is_valid_movement_for_knight(movement),
                PieceType::Rook => is_valid_movement_for_rook(movement, game_state),
                PieceType::Pawn => is_valid_movement_for_pawn(movement, game_state, &piece),
            }
        },
        _ => false,
    }
}

/// Whether some piece of `color` may go to `position`.
#[verifier::loop_isolation(false)]
fn square_is_threatened_by(position: [usize; 2], game_state: &GameState, color: Color) -> (r: bool)
    ensures
        r == game_state@.attacked(position[0] as int, position[1] as int, color),
{
    let squares = game_state.get_positions_of_color(color);
    let ghost p = game_state@;
    let ghost tr = position[0] as int;
    let ghost tc = position[1] as int;
    let mut i: usize = 0;
    while i < squares.len()
        invariant
            0 <= i <= squares.len(),
            forall|k: int|
                0 <= k < i ==> !p.attacks_from(
                    color,
                    (#[trigger] squares[k])[0] as int,
                    squares[k][1] as int,
                    tr,
                    tc,
                ),
        decreases squares.len() - i,
    {
        let from = squares[i];
        let movement = Movement::Normal { from, to: position };
        if obeys_piece_rules(&movement, game_state) {
            assert(p.attacks_from(color, from[0] as int, from[1] as int, tr, tc));
            return true;
        }
        i += 1;
    }
    proof {
        assert forall|fr: int, fc: int| !#[trigger] p.attacks_from(color, fr, fc, tr, tc) by {
            if p.attacks_from(color, fr, fc, tr, tc) {
                assert(square_matches(p, None, color, fr, fc));
                let k = choose|k: int|
                    0 <= k < squares.len() && (#[trigger] squares[k])[0] == fr && squares[k][1]
                        == fc;
                assert(!p.attacks_from(color, squares[k][0] as int, squares[k][1] as int, tr, tc));
            }
        }
    }
    false
}

/// Whether the king of `player_color` is attacked.
pub fn is_in_check(game_state: &GameState, player_color: Color) -> (r: bool)
    ensures
        r == game_state@.in_check(player_color),
{
    let player_king = Piece { piece_type: PieceType::King, color: player_color };
    let king_positions = game_state.get_piece_positions(player_king);
    let ghost p = game_state@;
    if king_positions.len() == 0 {
        proof {
            assert forall|row: int, col: int| !#[trigger] p.king_attacked_on(
                player_color,
                row,
                col,
            ) by {
                if p.king_on(player_color, row, col) {
                    assert(square_matches(p, Some(PieceType::King), player_color, row, col));
                }
            }
        }
        return false;
    }
    let king_position = king_positions[0];
    let r = square_is_threatened_by(king_position, game_state, player_color.get_opponent_color());
    proof {
        let kr = king_position[0] as int;
        let kc = king_position[1] as int;
        assert(p.king_on(player_color, kr, kc)) by {
            assert forall|r2: int, c2: int|
                on_board(r2, c2) && reading_order(r2, c2) < reading_order(kr, kc)
                    implies !#[trigger] square_matches(
                    p,
                    Some(PieceType::King),
                    player_color,
                    r2,
                    c2,
                ) by {
                if square_matches(p, Some(PieceType::King), player_color, r2, c2) {
                    let k = choose|k: int|
                        0 <= k < king_positions.len() && (#[trigger] king_positions[k])[0] == r2
                            && king_positions[k][1] == c2;
                    if k > 0 {
                        assert(reading_order(
                            king_positions[0][0] as int,
                            king_positions[0][1] as int,
                        ) < reading_order(
                            king_positions[k][0] as int,
                            king_positions[k][1] as int,
                        ));
                    }
                }
            }
        }
        if r {
            assert(p.king_attacked_on(player_color, kr, kc));
        } else {
            assert forall|row: int, col: int| !#[trigger] p.king_attacked_on(
                player_color,
                row,
                col,
            ) by {
                if p.king_on(player_color, row, col) {
                    assert(square_matches(p, Some(PieceType::King), player_color, row, col));
                    assert(square_matches(p, Some(PieceType::King), player_color, kr, kc));
                    assert(row == kr && col == kc);
                }
            }
        }
    }
    r
}

/// Whether `player_color` may make the ordinary move `movement`.
pub fn is_valid_normal_movement_for_player(
    movement: &Movement,
    game_state: &GameState,
    player_color: Color,
) -> (r: bool)
    ensures
        r == game_state@.valid_move(*movement, player_color),
{
    if !within_board(movement) {
        return false;
    }
    match movement {
        Movement::Normal { from, to } => {
            let piece = match game_state.board[from[0]][from[1]] {
                Some(piece) => piece,
                None => {
                    return false;
                },
            };
            if piece.color != player_color || !obeys_piece_rules(movement, game_state) {
                return false;
            }
            let takes_king = match game_state.board[to[0]][to[1]] {
                Some(taken) => taken.piece_type == PieceType::King,
                None => false,
            };
            if takes_king {
                true
            } else {
                let game_state2 = game_state.clone_and_move(*movement);
                !is_in_check(&game_state2, player_color)
            }
        },
        _ => false,
    }
}

impl Position {
    /// What `color` may play: an ordinary move as `valid_move` says, a castle
    /// whenever the side to move may castle on that wing.
    pub open spec fn valid(self, movement: Movement, color: Color) -> bool {
        match movement {
            Movement::Normal { from, to } => self.valid_move(movement, color),
            Movement::CastleKingSide(_) => self.castle_ok(true),
            Movement::CastleQueenSide(_) => self.castle_ok(false),
        }
    }

    /// Whether a command may be carried out: a movement or a castle under
    /// the rules of play for the side to move, anything else always.
    pub open spec fn accepts(self, cmd: Command) -> bool {
        match cmd {
            Command::Move(movement) => self.valid(movement, self.player_to_move),
            Command::CastleKingSide => self.castle_ok(true),
            Command::CastleQueenSide => self.castle_ok(false),
            _ => true,
        }
    }
}

impl Position {
    /// The piece that moved last stands on the board and may go to a
    /// square that holds a king of the side to move.
    pub open spec fn checked_by_last_move(self) -> bool {
        &&& self.last_move matches Some(last)
        &&& last is Normal
        &&& exists|row: int, col: int| #[trigger]
            square_matches(self, Some(PieceType::King), self.player_to_move, row, col)
                && self.attacks_from(
                self.player_to_move.opponent(),
                last.to_row(),
                last.to_col(),
                row,
                col,
            )
    }
}

/// Whether the piece that moved last gives check to the side to move.
#[verifier::loop_isolation(false)]
pub fn last_move_was_check(game_state: &GameState) -> (r: bool)
    ensures
        r == game_state@.checked_by_last_move(),
{
    let last_to = match game_state.last_move {
        Some(Movement::Normal { from, to }) => to,
        _ => {
            return false;
        },
    };
    let ghost p = game_state@;
    let mover = game_state.player_to_move;
    let other = mover.get_opponent_color();
    if last_to[0] >= 8 || last_to[1] >= 8 {
        return false;
    }
    let belongs = match game_state.board[last_to[0]][last_to[1]] {
        Some(piece) => piece.color == other,
        None => false,
    };
    if !belongs {
        return false;
    }
    let kings = game_state.get_piece_positions(Piece { piece_type: PieceType::King, color: mover });
    let mut i: usize = 0;
    while i < kings.len()
        invariant
            0 <= i <= kings.len(),
            p == game_state@,
            mover == p.player_to_move,
            other == mover.opponent(),
            on_board(last_to[0] as int, last_to[1] as int),
            lists_squares(kings@, p, Some(PieceType::King), mover),
            forall|k: int|
                0 <= k < i ==> !p.attacks_from(
                    other,
                    last_to[0] as int,
                    last_to[1] as int,
                    (#[trigger] kings@[k])[0] as int,
                    kings@[k][1] as int,
                ),
        decreases kings.len() - i,
    {
        let movement = Movement::Normal { from: last_to, to: kings[i] };
        if obeys_piece_rules(&movement, game_state) {
            proof {
                assert(square_matches(
                    p,
                    Some(PieceType::King),
                    mover,
                    kings@[i as int][0] as int,
                    kings@[i as int][1] as int,
                ));
                assert(p.attacks_from(
                    other,
                    last_to[0] as int,
                    last_to[1] as int,
                    kings@[i as int][0] as int,
                    kings@[i as int][1] as int,
                ));
            }
            return true;
        }
        i += 1;
    }
    proof {
        assert forall|row: int, col: int| !(#[trigger] square_matches(
            p,
            Some(PieceType::King),
            mover,
            row,
            col,
        ) && p.attacks_from(other, last_to[0] as int, last_to[1] as int, row, col)) by {
            if square_matches(p, Some(PieceType::King), mover, row, col) && p.attacks_from(
                other,
                last_to[0] as int,
                last_to[1] as int,
                row,
                col,
            ) {
                let k = choose|k: int|
                    0 <= k < kings@.len() && (#[trigger] kings@[k])[0] == row && kings@[k][1]
                        == col;
                assert(!p.attacks_from(
                    other,
                    last_to[0] as int,
                    last_to[1] as int,
                    kings@[k][0] as int,
                    kings@[k][1] as int,
                ));
            }
        }
    }
    false
}

/// Whether a movement, once made, gives check by the piece that moved.
pub fn move_is_check(movement: Movement, game_state: &GameState) -> (r: bool)
    ensures
        r == game_state@.after(movement).checked_by_last_move(),
{
    let next_game_state = game_state.clone_and_move(movement);
    last_move_was_check(&next_game_state)
}

/// A pawn that may go diagonally onto an empty square takes en passant.
pub proof fn lemma_diagonal_onto_empty_is_en_passant(p: Position, movement: Movement, color: Color)
    requires
        p.valid(movement, color),
        movement is Normal,
        p.at(movement.from_row(), movement.from_col()) matches Some(piece) && piece.piece_type
            == PieceType::Pawn,
        movement.from_col() != movement.to_col(),
        p.at(movement.to_row(), movement.to_col()) is None,
    ensures
        p.en_passant_capture(
            movement.from_row(),
            movement.from_col(),
            movement.to_row(),
            movement.to_col(),
        ),
{
}

/// Whether the side to move may play `movement`.
pub fn is_valid_movement(movement: &Movement, game_state: &GameState) -> (r: bool)
    ensures
        r == game_state@.valid(*movement, game_state@.player_to_move),
{
    is_valid_movement_for_player(movement, game_state, game_state.player_to_move)
}

/// Whether `player_color` may play `movement`.
pub fn is_valid_movement_for_player(
    movement: &Movement,
    game_state: &GameState,
    player_color: Color,
) -> (r: bool)
    ensures
        r == game_state@.valid(*movement, player_color),
{
    match movement {
        Movement::Normal { from, to } => is_valid_normal_movement_for_player(
            movement,
            game_state,
            player_color,
        ),
        Movement::CastleKingSide(_) => king_castle_is_valid(game_state),
        Movement::CastleQueenSide(_) => queen_castle_is_valid(game_state),
    }
}

/// Whether a command may be carried out in the given state.
pub fn is_valid_cmd(cmd: &Command, game_state: &GameState) -> (r: bool)
    ensures
        r == game_state@.accepts(*cmd),
{
    match cmd {
        Command::Resign => true,
        Command::Save => true,
        Command::Undo => true,
        Command::AcceptUndo => true,
        Command::CastleKingSide => king_castle_is_valid(game_state),
        Command::CastleQueenSide => queen_castle_is_valid(game_state),
        Command::Move(movement) => is_valid_movement(movement, game_state),
    }
}

} // verus!
