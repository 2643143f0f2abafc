use vstd::prelude::*;
use crate::controllers::controller::Command;
use crate::model::board::on_board;
use crate::model::game_state::{reading_order, GameState};
use crate::model::movement::{lemma_same_squares, Movement};
use crate::model::piece::{Color, Piece, PieceType};
use crate::model::position::{forward, Position};
use crate::rules::castle_validator::{king_castle_is_valid, queen_castle_is_valid};
use crate::rules::cmd_validator::{is_in_check, reach, shift, squares_on_board};

verus! {

/// `movement` is the ordinary move from `(fr, fc)` to `(tr, tc)`.
pub open spec fn is_move(movement: Movement, fr: int, fc: int, tr: int, tc: int) -> bool {
    &&& movement is Normal
    &&& movement.from_row() == fr
    &&& movement.from_col() == fc
    &&& movement.to_row() == tr
    &&& movement.to_col() == tc
}

impl Position {
    /// The square `j` steps from `(x, y)` in the direction `(dx, dy)` is empty.
    pub open spec fn ray_empty(self, x: int, y: int, dx: int, dy: int, j: int) -> bool {
        self.at(shift(x, dx, j), shift(y, dy, j)) is None
    }

    /// `(tr, tc)` is reached from `(x, y)` by going in the direction
    /// `(dx, dy)` over empty squares, and holds no piece of the side of `piece`.
    pub open spec fn slides_to(
        self,
        piece: Piece,
        x: int,
        y: int,
        dx: int,
        dy: int,
        tr: int,
        tc: int,
    ) -> bool {
        let k = reach(x, y, tr, tc);
        &&& k >= 1
        &&& tr == shift(x, dx, k)
        &&& tc == shift(y, dy, k)
        &&& self.path_clear(x, y, tr, tc)
        &&& self.destination_free(piece.color, tr, tc)
    }

    /// `movement` is an ordinary move from `(x, y)`, within the board, that
    /// `piece` would make from there by the way its kind moves.
    pub open spec fn piece_could_play(
        self,
        piece: Piece,
        x: int,
        y: int,
        movement: Movement,
    ) -> bool {
        &&& squares_on_board(movement)
        &&& movement.from_row() == x
        &&& movement.from_col() == y
        &&& self.moves_like(piece, x, y, movement.to_row(), movement.to_col())
    }

    /// `movement` is an ordinary move from `(x, y)`, within the board, along
    /// the direction `(dx, dy)`.
    pub open spec fn piece_could_slide(
        self,
        piece: Piece,
        x: int,
        y: int,
        dx: int,
        dy: int,
        movement: Movement,
    ) -> bool {
        &&& squares_on_board(movement)
        &&& movement.from_row() == x
        &&& movement.from_col() == y
        &&& self.slides_to(piece, x, y, dx, dy, movement.to_row(), movement.to_col())
    }

    /// What `color` may play when nobody asks whether its king is left in
    /// check: the ordinary moves of its pieces by the way their kinds move,
    /// and the castles that the side to move may make.
    pub open spec fn pseudo_legal(self, movement: Movement, color: Color) -> bool {
        match movement {
            Movement::Normal { from, to } => {
                &&& squares_on_board(movement)
                &&& self.at(movement.from_row(), movement.from_col()) matches Some(piece)
                &&& piece.color == color
                &&& self.piece_rules_allow(
                    movement.from_row(),
                    movement.from_col(),
                    movement.to_row(),
                    movement.to_col(),
                )
            },
            Movement::CastleKingSide(c) => c == color && self.castle_ok(true),
            Movement::CastleQueenSide(c) => c == color && self.castle_ok(false),
        }
    }

    /// What `color` may play: as `pseudo_legal`, and an ordinary move must
    /// not leave the king of `color` in check.
    pub open spec fn legal(self, movement: Movement, color: Color) -> bool {
        &&& self.pseudo_legal(movement, color)
        &&& (movement is Normal ==> !self.after(movement).in_check(color))
    }

    /// The side to move has nothing to play.
    pub open spec fn no_legal_move(self) -> bool {
        forall|movement: Movement| !#[trigger] self.legal(movement, self.player_to_move)
    }
}

/// `moves` holds each ordinary move that `piece` would make from `(x, y)`, once.
pub open spec fn lists_piece_moves(
    moves: Seq<Movement>,
    p: Position,
    piece: Piece,
    x: int,
    y: int,
) -> bool {
    &&& moves.no_duplicates()
    &&& forall|m: Movement| #[trigger] moves.contains(m) <==> p.piece_could_play(piece, x, y, m)
}

/// `moves` holds each movement that `color` may play, once, where nobody
/// asks whether its king is left in check.
pub open spec fn lists_pseudo_legal(moves: Seq<Movement>, p: Position, color: Color) -> bool {
    &&& moves.no_duplicates()
    &&& forall|m: Movement| #[trigger] moves.contains(m) <==> p.pseudo_legal(m, color)
}

/// `moves` holds each movement that `color` may play, once.
pub open spec fn lists_legal(moves: Seq<Movement>, p: Position, color: Color) -> bool {
    &&& moves.no_duplicates()
    &&& forall|m: Movement| #[trigger] moves.contains(m) <==> p.legal(m, color)
}

/// Every movement that may be played passes the test of a single movement.
pub proof fn lemma_generated_is_valid(p: Position, movement: Movement, color: Color)
    requires
        p.legal(movement, color),
    ensures
        p.valid(movement, color),
{
}

/// Adds the ordinary move from `(x, y)` to `(x2, y2)`.
fn push_move(moves: &mut Vec<Movement>, x: usize, y: usize, x2: usize, y2: usize)
    requires
        old(moves)@.no_duplicates(),
        forall|m: Movement|
            old(moves)@.contains(m) ==> !is_move(m, x as int, y as int, x2 as int, y2 as int),
    ensures
        final(moves)@.no_duplicates(),
        final(moves)@ == old(moves)@.push(Movement::Normal { from: [x, y], to: [x2, y2] }),
        forall|m: Movement| #[trigger]
            final(moves)@.contains(m) <==> (old(moves)@.contains(m) || is_move(
                m,
                x as int,
                y as int,
                x2 as int,
                y2 as int,
            )),
{
    let movement = Movement::Normal { from: [x, y], to: [x2, y2] };
    let ghost before = moves@;
    moves.push(movement);
    proof {
        lemma_push_contains(before, movement);
        assert forall|m: Movement| #[trigger]
            moves@.contains(m) <==> (before.contains(m) || is_move(
                m,
                x as int,
                y as int,
                x2 as int,
                y2 as int,
            )) by {
            if is_move(m, x as int, y as int, x2 as int, y2 as int) {
                lemma_same_squares(m, movement);
            }
        }
    }
}

/// What a sequence holds after one more element, and when it stays free of
/// repetitions.
pub proof fn lemma_push_contains(s: Seq<Movement>, e: Movement)
    ensures
        forall|m: Movement| #[trigger] s.push(e).contains(m) <==> (s.contains(m) || m == e),
        s.no_duplicates() && !s.contains(e) ==> s.push(e).no_duplicates(),
{
    let t = s.push(e);
    assert forall|m: Movement| #[trigger] t.contains(m) <==> (s.contains(m) || m == e) by {
        if s.contains(m) {
            let i = choose|i: int| 0 <= i < s.len() && s[i] == m;
            assert(t[i] == m);
        }
        if m == e {
            assert(t[s.len() as int] == m);
        }
        if t.contains(m) {
            let i = choose|i: int| 0 <= i < t.len() && t[i] == m;
            if i < s.len() {
                assert(s[i] == m);
            }
        }
    }
    if s.no_duplicates() && !s.contains(e) {
        assert forall|i: int, j: int| 0 <= i < t.len() && 0 <= j < t.len() && i != j implies t[i]
            != t[j] by {
            if i < s.len() && j < s.len() {
                assert(s[i] != s[j]);
            } else if i < s.len() {
                assert(s.contains(s[i]));
            } else if j < s.len() {
                assert(s.contains(s[j]));
            }
        }
    }
}

/// Adds the movements of `more`, none of which `moves` holds yet.
fn append_moves(moves: &mut Vec<Movement>, more: &Vec<Movement>)
    requires
        old(moves)@.no_duplicates(),
        more@.no_duplicates(),
        forall|m: Movement| !(old(moves)@.contains(m) && more@.contains(m)),
    ensures
        final(moves)@.no_duplicates(),
        final(moves)@ == old(moves)@ + more@,
        forall|m: Movement| #[trigger]
            final(moves)@.contains(m) <==> (old(moves)@.contains(m) || more@.contains(m)),
{
    let ghost before = moves@;
    let mut i: usize = 0;
    while i < more.len()
        invariant
            0 <= i <= more.len(),
            before.no_duplicates(),
            more@.no_duplicates(),
            forall|m: Movement| !(before.contains(m) && more@.contains(m)),
            moves@.no_duplicates(),
            moves@ == before + more@.take(i as int),
            forall|m: Movement| #[trigger]
                moves@.contains(m) <==> (before.contains(m) || more@.take(i as int).contains(m)),
        decreases more.len() - i,
    {
        let ghost current = moves@;
        let e = more[i];
        proof {
            lemma_push_contains(current, e);
            assert(more@.contains(e));
            if more@.take(i as int).contains(e) {
                let k = choose|k: int| 0 <= k < i && more@.take(i as int)[k] == e;
                assert(more@[k] == more@[i as int]);
            }
            assert(more@.take(i as int + 1) =~= more@.take(i as int).push(e));
            lemma_push_contains(more@.take(i as int), e);
        }
        moves.push(e);
        proof {
            assert(moves@ =~= before + more@.take(i as int + 1));
        }
        i += 1;
    }
    proof {
        assert(more@.take(more.len() as int) =~= more@);
    }
}

/// Adds the diagonal move of a pawn from `(x, y)` to `(x2, y2)` if the
/// pawn takes a piece there or takes en passant.
fn try_pawn_capture(
    moves: &mut Vec<Movement>,
    game_state: &GameState,
    x: usize,
    y: usize,
    x2: usize,
    y2: usize,
    color: Color,
)
    requires
        on_board(x as int, y as int),
        on_board(x2 as int, y2 as int),
        x2 == x + forward(color),
        y2 == y + 1 || y2 == y - 1,
        old(moves)@.no_duplicates(),
        forall|m: Movement|
            old(moves)@.contains(m) ==> !is_move(m, x as int, y as int, x2 as int, y2 as int),
    ensures
        final(moves)@.no_duplicates(),
        forall|m: Movement| #[trigger]
            final(moves)@.contains(m) <==> (old(moves)@.contains(m) || (is_move(
                m,
                x as int,
                y as int,
                x2 as int,
                y2 as int,
            ) && game_state@.destination_free(color, x2 as int, y2 as int)
                && game_state@.pawn_capture(color, x as int, y as int, x2 as int, y2 as int))),
{
    let takes = match game_state.board[x2][y2] {
        Some(other) => other.color != color,
        None => {
            let own_pawn = match game_state.board[x][y] {
                Some(found) => found.color == color,
                None => false,
            };
            own_pawn && game_state.is_en_passant(x, y, x2, y2)
        },
    };
    if takes {
        push_move(moves, x, y, x2, y2);
    }
}

/// Adds the straight moves of a pawn from `(x, y)`: to `(x2, y)`, one row
/// on, and from its home row to the row behind that.
fn push_pawn_pushes(
    moves: &mut Vec<Movement>,
    game_state: &GameState,
    x: usize,
    y: usize,
    x2: usize,
    color: Color,
)
    requires
        on_board(x as int, y as int),
        on_board(x2 as int, y as int),
        x2 == x + forward(color),
        old(moves)@.len() == 0,
    ensures
        final(moves)@.no_duplicates(),
        forall|m: Movement| #[trigger]
            final(moves)@.contains(m) <==> (squares_on_board(m) && m.from_row() == x
                && m.from_col() == y && game_state@.pawn_push(
                color,
                x as int,
                y as int,
                m.to_row(),
                m.to_col(),
            )),
{
    if game_state.board[x2][y].is_none() {
        push_move(moves, x, y, x2, y);
        let at_home = match color {
            Color::White => x == 1,
            Color::Black => x == 6,
        };
        if at_home {
            let x3: usize = match color {
                Color::White => 3,
                Color::Black => 4,
            };
            if game_state.board[x3][y].is_none() {
                push_move(moves, x, y, x3, y);
            }
        }
    }
}

/// The ordinary moves of a pawn from `(x, y)`.
fn generate_movements_for_pawn(
    game_state: &GameState,
    x: usize,
    y: usize,
    piece: &Piece,
) -> (movements: Vec<Movement>)
    requires
        on_board(x as int, y as int),
        piece.piece_type == PieceType::Pawn,
    ensures
        lists_piece_moves(movements@, game_state@, *piece, x as int, y as int),
{
    let mut movements: Vec<Movement> = Vec::new();
    let color = piece.color;
    let ahead: Option<usize> = match color {
        Color::White => if x < 7 {
            Some(x + 1)
        } else {
            None
        },
        Color::Black => if x > 0 {
            Some((x - 1) as usize)
        } else {
            None
        },
    };
    let x2: usize = match ahead {
        Some(row) => row,
        None => {
            return movements;
        },
    };
    push_pawn_pushes(&mut movements, game_state, x, y, x2, color);
    if y > 0 {
        try_pawn_capture(&mut movements, game_state, x, y, x2, (y - 1) as usize, color);
    }
    if y < 7 {
        try_pawn_capture(&mut movements, game_state, x, y, x2, y + 1, color);
    }
    movements
}

/// The ordinary moves from `(x, y)` along one direction, up to the first
/// piece in the way, which is taken if it belongs to the other side.
fn generate_movements_in_one_direction(
    game_state: &GameState,
    x: usize,
    y: usize,
    piece: &Piece,
    direction: [i8; 2],
) -> (movements: Vec<Movement>)
    requires
        on_board(x as int, y as int),
        -1 <= direction[0] <= 1,
        -1 <= direction[1] <= 1,
        direction[0] != 0 || direction[1] != 0,
    ensures
        movements@.no_duplicates(),
        forall|m: Movement| #[trigger]
            movements@.contains(m) <==> game_state@.piece_could_slide(
                *piece,
                x as int,
                y as int,
                direction[0] as int,
                direction[1] as int,
                m,
            ),
{
    let dx: i8 = direction[0];
    let dy: i8 = direction[1];
    let ghost p = game_state@;
    let ghost xi = x as int;
    let ghost yi = y as int;
    let ghost dxi = dx as int;
    let ghost dyi = dy as int;
    let mut movements: Vec<Movement> = Vec::new();
    let mut k: usize = 1;
    let mut x2: i8 = x as i8 + dx;
    let mut y2: i8 = y as i8 + dy;
    while 0 <= x2 && x2 < 8 && 0 <= y2 && y2 < 8
        invariant
            1 <= k <= 8,
            on_board(xi, yi),
            -1 <= dxi <= 1,
            -1 <= dyi <= 1,
            dxi != 0 || dyi != 0,
            xi == x,
            yi == y,
            dxi == dx,
            dyi == dy,
            dx == direction[0],
            dy == direction[1],
            p == game_state@,
            x2 == shift(xi, dxi, k as int),
            y2 == shift(yi, dyi, k as int),
            movements@.no_duplicates(),
            forall|j: int| 1 <= j < k ==> #[trigger] p.ray_empty(xi, yi, dxi, dyi, j),
            forall|m: Movement| #[trigger]
                movements@.contains(m) <==> (p.piece_could_slide(*piece, xi, yi, dxi, dyi, m)
                    && reach(xi, yi, m.to_row(), m.to_col()) < k),
        decreases 8 - k,
    {
        let tx: usize = x2 as usize;
        let ty: usize = y2 as usize;
        let ghost before = movements@;
        proof {
            assert(reach(xi, yi, tx as int, ty as int) == k);
            assert(p.path_clear(xi, yi, tx as int, ty as int)) by {
                assert forall|j: int| 1 <= j < k implies #[trigger] p.on_way_empty(
                    xi,
                    yi,
                    tx as int,
                    ty as int,
                    j,
                ) by {
                    assert(p.ray_empty(xi, yi, dxi, dyi, j));
                }
            }
        }
        match game_state.board[tx][ty] {
            None => {
                push_move(&mut movements, x, y, tx, ty);
                proof {
                    assert(p.ray_empty(xi, yi, dxi, dyi, k as int));
                }
            },
            Some(other) => {
                if other.color != piece.color {
                    push_move(&mut movements, x, y, tx, ty);
                }
                proof {
                    assert forall|m: Movement| #[trigger]
                        movements@.contains(m) <==> p.piece_could_slide(
                            *piece,
                            xi,
                            yi,
                            dxi,
                            dyi,
                            m,
                        ) by {
                        if p.piece_could_slide(*piece, xi, yi, dxi, dyi, m) {
                            let far = reach(xi, yi, m.to_row(), m.to_col());
                            if far > k {
                                assert(p.on_way_empty(xi, yi, m.to_row(), m.to_col(), k as int));
                            }
                        }
                        if before.contains(m) {
                        }
                    }
                }
                return movements;
            },
        }
        x2 = x2 + dx;
        y2 = y2 + dy;
        k = k + 1;
    }
    movements
}

/// A rook moves along exactly one of four directions.
pub proof fn lemma_rook_directions(p: Position, piece: Piece, x: int, y: int, tr: int, tc: int)
    ensures
        (p.rook_move(x, y, tr, tc) && p.destination_free(piece.color, tr, tc)) <==> (p.slides_to(
            piece,
            x,
            y,
            1,
            0,
            tr,
            tc,
        ) || p.slides_to(piece, x, y, -1, 0, tr, tc) || p.slides_to(piece, x, y, 0, 1, tr, tc)
            || p.slides_to(piece, x, y, 0, -1, tr, tc)),
        !(p.slides_to(piece, x, y, 1, 0, tr, tc) && p.slides_to(piece, x, y, -1, 0, tr, tc)),
        !((p.slides_to(piece, x, y, 1, 0, tr, tc) || p.slides_to(piece, x, y, -1, 0, tr, tc))
            && p.slides_to(piece, x, y, 0, 1, tr, tc)),
        !((p.slides_to(piece, x, y, 1, 0, tr, tc) || p.slides_to(piece, x, y, -1, 0, tr, tc)
            || p.slides_to(piece, x, y, 0, 1, tr, tc)) && p.slides_to(piece, x, y, 0, -1, tr, tc)),
{
}

/// A bishop moves along exactly one of four directions.
pub proof fn lemma_bishop_directions(p: Position, piece: Piece, x: int, y: int, tr: int, tc: int)
    ensures
        (p.bishop_move(x, y, tr, tc) && p.destination_free(piece.color, tr, tc)) <==> (p.slides_to(
            piece,
            x,
            y,
            1,
            1,
            tr,
            tc,
        ) || p.slides_to(piece, x, y, -1, 1, tr, tc) || p.slides_to(piece, x, y, 1, -1, tr, tc)
            || p.slides_to(piece, x, y, -1, -1, tr, tc)),
        !(p.slides_to(piece, x, y, 1, 1, tr, tc) && p.slides_to(piece, x, y, -1, 1, tr, tc)),
        !((p.slides_to(piece, x, y, 1, 1, tr, tc) || p.slides_to(piece, x, y, -1, 1, tr, tc))
            && p.slides_to(piece, x, y, 1, -1, tr, tc)),
        !((p.slides_to(piece, x, y, 1, 1, tr, tc) || p.slides_to(piece, x, y, -1, 1, tr, tc)
            || p.slides_to(piece, x, y, 1, -1, tr, tc))
                && p.slides_to(piece, x, y, -1, -1, tr, tc)),
{
}

/// The ordinary moves from `(x, y)` along four directions.
fn generate_along(
    game_state: &GameState,
    x: usize,
    y: usize,
    piece: &Piece,
    directions: [[i8; 2]; 4],
) -> (movements: Vec<Movement>)
    requires
        on_board(x as int, y as int),
        forall|i: int|
            0 <= i < 4 ==> -1 <= (#[trigger] directions[i])[0] <= 1 && -1 <= directions[i][1] <= 1
                && (directions[i][0] != 0 || directions[i][1] != 0),
        forall|m: Movement, i: int, j: int|
            0 <= i < j < 4 ==> !(#[trigger] game_state@.piece_could_slide(
                *piece,
                x as int,
                y as int,
                directions[i][0] as int,
                directions[i][1] as int,
                m,
            ) && #[trigger] game_state@.piece_could_slide(
                *piece,
                x as int,
                y as int,
                directions[j][0] as int,
                directions[j][1] as int,
                m,
            )),
    ensures
        movements@.no_duplicates(),
        forall|m: Movement| #[trigger]
            movements@.contains(m) <==> exists|i: int|
                0 <= i < 4 && #[trigger] game_state@.piece_could_slide(
                    *piece,
                    x as int,
                    y as int,
                    directions[i][0] as int,
                    directions[i][1] as int,
                    m,
                ),
{
    let mut movements: Vec<Movement> = Vec::new();
    let ghost p = game_state@;
    let mut n: usize = 0;
    while n < 4
        invariant
            0 <= n <= 4,
            p == game_state@,
            on_board(x as int, y as int),
            forall|i: int|
                0 <= i < 4 ==> -1 <= (#[trigger] directions[i])[0] <= 1 && -1 <= directions[i][1]
                    <= 1 && (directions[i][0] != 0 || directions[i][1] != 0),
            forall|m: Movement, i: int, j: int|
                0 <= i < j < 4 ==> !(#[trigger] p.piece_could_slide(
                    *piece,
                    x as int,
                    y as int,
                    directions[i][0] as int,
                    directions[i][1] as int,
                    m,
                ) && #[trigger] p.piece_could_slide(
                    *piece,
                    x as int,
                    y as int,
                    directions[j][0] as int,
                    directions[j][1] as int,
                    m,
                )),
            movements@.no_duplicates(),
            forall|m: Movement| #[trigger]
                movements@.contains(m) <==> exists|i: int|
                    0 <= i < n && #[trigger] p.piece_could_slide(
                        *piece,
                        x as int,
                        y as int,
                        directions[i][0] as int,
                        directions[i][1] as int,
                        m,
                    ),
        decreases 4 - n,
    {
        let ghost before = movements@;
        let more = generate_movements_in_one_direction(game_state, x, y, piece, directions[n]);
        append_moves(&mut movements, &more);
        proof {
            assert forall|m: Movement| #[trigger]
                movements@.contains(m) <==> exists|i: int|
                    0 <= i < n + 1 && #[trigger] p.piece_could_slide(
                        *piece,
                        x as int,
                        y as int,
                        directions[i][0] as int,
                        directions[i][1] as int,
                        m,
                    ) by {
                if more@.contains(m) {
                    assert(p.piece_could_slide(
                        *piece,
                        x as int,
                        y as int,
                        directions[n as int][0] as int,
                        directions[n as int][1] as int,
                        m,
                    ));
                }
                if before.contains(m) {
                }
            }
        }
        n += 1;
    }
    movements
}

/// The piece of the given kind on the side of `piece`.
pub open spec fn of_kind(piece: Piece, kind: PieceType) -> Piece {
    Piece { piece_type: kind, color: piece.color }
}

/// The ordinary moves of a rook from `(x, y)`.
fn generate_movements_for_rook(
    game_state: &GameState,
    x: usize,
    y: usize,
    piece: &Piece,
) -> (movements: Vec<Movement>)
    requires
        on_board(x as int, y as int),
    ensures
        lists_piece_moves(
            movements@,
            game_state@,
            of_kind(*piece, PieceType::Rook),
            x as int,
            y as int,
        ),
{
    let directions: [[i8; 2]; 4] = [[1, 0], [-1, 0], [0, 1], [0, -1]];
    let ghost p = game_state@;
    let ghost xi = x as int;
    let ghost yi = y as int;
    proof {
        assert forall|m: Movement, i: int, j: int| 0 <= i < j < 4
            implies !(#[trigger] p.piece_could_slide(
            *piece,
            xi,
            yi,
            directions[i][0] as int,
            directions[i][1] as int,
            m,
        ) && #[trigger] p.piece_could_slide(
            *piece,
            xi,
            yi,
            directions[j][0] as int,
            directions[j][1] as int,
            m,
        )) by {
            lemma_rook_directions(p, *piece, xi, yi, m.to_row(), m.to_col());
        }
    }
    let movements = generate_along(game_state, x, y, piece, directions);
    proof {
        let rook = of_kind(*piece, PieceType::Rook);
        assert forall|m: Movement| #[trigger]
            movements@.contains(m) <==> p.piece_could_play(rook, xi, yi, m) by {
            lemma_rook_directions(p, *piece, xi, yi, m.to_row(), m.to_col());
            if p.piece_could_play(rook, xi, yi, m) {
                if p.slides_to(*piece, xi, yi, 1, 0, m.to_row(), m.to_col()) {
                    assert(p.piece_could_slide(
                        *piece,
                        xi,
                        yi,
                        directions[0][0] as int,
                        directions[0][1] as int,
                        m,
                    ));
                } else if p.slides_to(*piece, xi, yi, -1, 0, m.to_row(), m.to_col()) {
                    assert(p.piece_could_slide(
                        *piece,
                        xi,
                        yi,
                        directions[1][0] as int,
                        directions[1][1] as int,
                        m,
                    ));
                } else if p.slides_to(*piece, xi, yi, 0, 1, m.to_row(), m.to_col()) {
                    assert(p.piece_could_slide(
                        *piece,
                        xi,
                        yi,
                        directions[2][0] as int,
                        directions[2][1] as int,
                        m,
                    ));
                } else {
                    assert(p.piece_could_slide(
                        *piece,
                        xi,
                        yi,
                        directions[3][0] as int,
                        directions[3][1] as int,
                        m,
                    ));
                }
            }
            if movements@.contains(m) {
                let i = choose|i: int|
                    0 <= i < 4 && #[trigger] p.piece_could_slide(
                        *piece,
                        xi,
                        yi,
                        directions[i][0] as int,
                        directions[i][1] as int,
                        m,
                    );
                assert(i == 0 || i == 1 || i == 2 || i == 3);
            }
        }
    }
    movements
}

/// The ordinary moves of a bishop from `(x, y)`.
fn generate_movements_for_bishop(
    game_state: &GameState,
    x: usize,
    y: usize,
    piece: &Piece,
) -> (movements: Vec<Movement>)
    requires
        on_board(x as int, y as int),
    ensures
        lists_piece_moves(
            movements@,
            game_state@,
            of_kind(*piece, PieceType::Bishop),
            x as int,
            y as int,
        ),
{
    let directions: [[i8; 2]; 4] = [[1, 1], [-1, 1], [1, -1], [-1, -1]];
    let ghost p = game_state@;
    let ghost xi = x as int;
    let ghost yi = y as int;
    proof {
        assert forall|m: Movement, i: int, j: int| 0 <= i < j < 4
            implies !(#[trigger] p.piece_could_slide(
            *piece,
            xi,
            yi,
            directions[i][0] as int,
            directions[i][1] as int,
            m,
        ) && #[trigger] p.piece_could_slide(
            *piece,
            xi,
            yi,
            directions[j][0] as int,
            directions[j][1] as int,
            m,
        )) by {
            lemma_bishop_directions(p, *piece, xi, yi, m.to_row(), m.to_col());
        }
    }
    let movements = generate_along(game_state, x, y, piece, directions);
    proof {
        let bishop = of_kind(*piece, PieceType::Bishop);
        assert forall|m: Movement| #[trigger]
            movements@.contains(m) <==> p.piece_could_play(bishop, xi, yi, m) by {
            lemma_bishop_directions(p, *piece, xi, yi, m.to_row(), m.to_col());
            if p.piece_could_play(bishop, xi, yi, m) {
                if p.slides_to(*piece, xi, yi, 1, 1, m.to_row(), m.to_col()) {
                    assert(p.piece_could_slide(
                        *piece,
                        xi,
                        yi,
                        directions[0][0] as int,
                        directions[0][1] as int,
                        m,
                    ));
                } else if p.slides_to(*piece, xi, yi, -1, 1, m.to_row(), m.to_col()) {
                    assert(p.piece_could_slide(
                        *piece,
                        xi,
                        yi,
                        directions[1][0] as int,
                        directions[1][1] as int,
                        m,
                    ));
                } else if p.slides_to(*piece, xi, yi, 1, -1, m.to_row(), m.to_col()) {
                    assert(p.piece_could_slide(
                        *piece,
                        xi,
                        yi,
                        directions[2][0] as int,
                        directions[2][1] as int,
                        m,
                    ));
                } else {
                    assert(p.piece_could_slide(
                        *piece,
                        xi,
                        yi,
                        directions[3][0] as int,
                        directions[3][1] as int,
                        m,
                    ));
                }
            }
            if movements@.contains(m) {
                let i = choose|i: int|
                    0 <= i < 4 && #[trigger] p.piece_could_slide(
                        *piece,
                        xi,
                        yi,
                        directions[i][0] as int,
                        directions[i][1] as int,
                        m,
                    );
                assert(i == 0 || i == 1 || i == 2 || i == 3);
            }
        }
    }
    movements
}

/// The ordinary moves of a queen from `(x, y)`: those of a bishop, then
/// those of a rook.
fn generate_movements_for_queen(
    game_state: &GameState,
    x: usize,
    y: usize,
    piece: &Piece,
) -> (movements: Vec<Movement>)
    requires
        on_board(x as int, y as int),
    ensures
        lists_piece_moves(
            movements@,
            game_state@,
            of_kind(*piece, PieceType::Queen),
            x as int,
            y as int,
        ),
{
    let mut movements = generate_movements_for_bishop(game_state, x, y, piece);
    let more = generate_movements_for_rook(game_state, x, y, piece);
    append_moves(&mut movements, &more);
    movements
}

/// Adds the ordinary move from `(x, y)` by `(dx, dy)` if it stays on the
/// board and lands on no piece of `color`.
fn try_step(
    moves: &mut Vec<Movement>,
    game_state: &GameState,
    x: usize,
    y: usize,
    color: Color,
    dx: i8,
    dy: i8,
)
    requires
        on_board(x as int, y as int),
        -2 <= dx <= 2,
        -2 <= dy <= 2,
        old(moves)@.no_duplicates(),
        forall|m: Movement| old(moves)@.contains(m)
            ==> !is_move(m, x as int, y as int, x + dx, y + dy),
    ensures
        final(moves)@.no_duplicates(),
        forall|m: Movement| #[trigger]
            final(moves)@.contains(m) <==> (old(moves)@.contains(m) || (is_move(
                m,
                x as int,
                y as int,
                x + dx,
                y + dy,
            ) && on_board(x + dx, y + dy) && game_state@.destination_free(color, x + dx, y + dy))),
{
    let x2: i8 = x as i8 + dx;
    let y2: i8 = y as i8 + dy;
    if 0 <= x2 && x2 < 8 && 0 <= y2 && y2 < 8 {
        let tx: usize = x2 as usize;
        let ty: usize = y2 as usize;
        let free = match game_state.board[tx][ty] {
            Some(other) => other.color != color,
            None => true,
        };
        if free {
            push_move(moves, x, y, tx, ty);
        }
    }
}

/// The ordinary moves of a knight from `(x, y)`.
fn generate_movements_for_knight(
    game_state: &GameState,
    x: usize,
    y: usize,
    piece: &Piece,
) -> (movements: Vec<Movement>)
    requires
        on_board(x as int, y as int),
    ensures
        lists_piece_moves(
            movements@,
            game_state@,
            of_kind(*piece, PieceType::Knight),
            x as int,
            y as int,
        ),
{
    let mut movements: Vec<Movement> = Vec::new();
    try_step(&mut movements, game_state, x, y, piece.color, -2, 1);
    try_step(&mut movements, game_state, x, y, piece.color, -1, 2);
    try_step(&mut movements, game_state, x, y, piece.color, 1, 2);
    try_step(&mut movements, game_state, x, y, piece.color, 2, 1);
    try_step(&mut movements, game_state, x, y, piece.color, 2, -1);
    try_step(&mut movements, game_state, x, y, piece.color, 1, -2);
    try_step(&mut movements, game_state, x, y, piece.color, -1, -2);
    try_step(&mut movements, game_state, x, y, piece.color, -2, -1);
    movements
}

/// The ordinary moves of a king from `(x, y)`.
fn generate_movements_for_king(
    game_state: &GameState,
    x: usize,
    y: usize,
    piece: &Piece,
) -> (movements: Vec<Movement>)
    requires
        on_board(x as int, y as int),
    ensures
        lists_piece_moves(
            movements@,
            game_state@,
            of_kind(*piece, PieceType::King),
            x as int,
            y as int,
        ),
{
    let mut movements: Vec<Movement> = Vec::new();
    try_step(&mut movements, game_state, x, y, piece.color, -1, -1);
    try_step(&mut movements, game_state, x, y, piece.color, -1, 0);
    try_step(&mut movements, game_state, x, y, piece.color, -1, 1);
    try_step(&mut movements, game_state, x, y, piece.color, 0, -1);
    try_step(&mut movements, game_state, x, y, piece.color, 0, 0);
    try_step(&mut movements, game_state, x, y, piece.color, 0, 1);
    try_step(&mut movements, game_state, x, y, piece.color, 1, -1);
    try_step(&mut movements, game_state, x, y, piece.color, 1, 0);
    try_step(&mut movements, game_state, x, y, piece.color, 1, 1);
    movements
}

/// The ordinary moves that `piece` would make from `(x, y)` by the way its
/// kind moves; none from a square outside the board.
pub fn generate_movements_for_piece(
    game_state: &GameState,
    x: usize,
    y: usize,
    piece: Piece,
) -> (movements: Vec<Movement>)
    ensures
        lists_piece_moves(movements@, game_state@, piece, x as int, y as int),
{
    if x >= 8 || y >= 8 {
        return Vec::new();
    }
    match piece.piece_type {
        PieceType::King => generate_movements_for_king(game_state, x, y, &piece),
        PieceType::Queen => generate_movements_for_queen(game_state, x, y, &piece),
        PieceType::Rook => generate_movements_for_rook(game_state, x, y, &piece),
        PieceType::Bishop => generate_movements_for_bishop(game_state, x, y, &piece),
        PieceType::Knight => generate_movements_for_knight(game_state, x, y, &piece),
        PieceType::Pawn => generate_movements_for_pawn(game_state, x, y, &piece),
    }
}

/// Everything that `color` may play where nobody asks whether its king is
/// left in check: the ordinary moves square by square in reading order, then
/// the castles.
pub fn generate_movements_for_player_ignoring_check(
    game_state: &GameState,
    color: Color,
) -> (movements: Vec<Movement>)
    ensures
        lists_pseudo_legal(movements@, game_state@, color),
{
    let mut movements: Vec<Movement> = Vec::new();
    let ghost p = game_state@;
    let mut n: usize = 0;
    while n < 64
        invariant
            0 <= n <= 64,
            p == game_state@,
            movements@.no_duplicates(),
            forall|m: Movement| #[trigger]
                movements@.contains(m) <==> (m is Normal && p.pseudo_legal(m, color)
                    && reading_order(m.from_row(), m.from_col()) < n),
        decreases 64 - n,
    {
        let i = n / 8;
        let j = n % 8;
        let ghost before = movements@;
        match game_state.board[i][j] {
            Some(piece) => {
                if piece.color == color {
                    let more = generate_movements_for_piece(game_state, i, j, piece);
                    append_moves(&mut movements, &more);
                }
            },
            None => {},
        }
        proof {
            assert forall|m: Movement| #[trigger]
                movements@.contains(m) <==> (m is Normal && p.pseudo_legal(m, color)
                    && reading_order(m.from_row(), m.from_col()) < n + 1) by {
                if before.contains(m) {
                }
                if m is Normal && p.pseudo_legal(m, color) && reading_order(
                    m.from_row(),
                    m.from_col(),
                ) == n {
                    assert(m.from_row() == i && m.from_col() == j);
                }
            }
        }
        n += 1;
    }
    if king_castle_is_valid(game_state) {
        proof {
            lemma_push_contains(movements@, Movement::CastleKingSide(color));
        }
        movements.push(Movement::CastleKingSide(color));
    }
    if queen_castle_is_valid(game_state) {
        proof {
            lemma_push_contains(movements@, Movement::CastleQueenSide(color));
        }
        movements.push(Movement::CastleQueenSide(color));
    }
    movements
}

/// Everything that `color` may play: as above, without the ordinary moves
/// that leave the king of `color` in check.
pub fn generate_movements_for_player(
    game_state: &GameState,
    color: Color,
) -> (movements: Vec<Movement>)
    ensures
        lists_legal(movements@, game_state@, color),
{
    let candidates = generate_movements_for_player_ignoring_check(game_state, color);
    let ghost p = game_state@;
    let mut movements: Vec<Movement> = Vec::new();
    let mut i: usize = 0;
    while i < candidates.len()
        invariant
            0 <= i <= candidates.len(),
            p == game_state@,
            lists_pseudo_legal(candidates@, p, color),
            movements@.no_duplicates(),
            forall|m: Movement| #[trigger]
                movements@.contains(m) <==> (candidates@.take(i as int).contains(m) && p.legal(
                    m,
                    color,
                )),
        decreases candidates.len() - i,
    {
        let movement = candidates[i];
        let keep = match movement {
            Movement::Normal { from, to } => {
                let game_state2 = game_state.clone_and_move(movement);
                !is_in_check(&game_state2, color)
            },
            _ => true,
        };
        proof {
            assert(candidates@.contains(movement));
            assert(keep == p.legal(movement, color));
            assert(candidates@.take(i as int + 1) =~= candidates@.take(i as int).push(movement));
            lemma_push_contains(candidates@.take(i as int), movement);
            lemma_push_contains(movements@, movement);
            if candidates@.take(i as int).contains(movement) {
                let k = choose|k: int| 0 <= k < i && candidates@.take(i as int)[k] == movement;
                assert(candidates@[k] == candidates@[i as int]);
            }
        }
        if keep {
            movements.push(movement);
        }
        i += 1;
    }
    proof {
        assert(candidates@.take(candidates.len() as int) =~= candidates@);
    }
    movements
}

/// Everything that the side to move may play.
pub fn generate_movements(game_state: &GameState) -> (movements: Vec<Movement>)
    ensures
        lists_legal(movements@, game_state@, game_state@.player_to_move),
{
    generate_movements_for_player(game_state, game_state.player_to_move)
}

/// Everything that the side to move may play, each movement as a command.
pub fn generate_commands(game_state: &GameState) -> (commands: Vec<Command>)
    ensures
        commands@.no_duplicates(),
        forall|c: Command| #[trigger]
            commands@.contains(c) <==> (c matches Command::Move(m) && game_state@.legal(
                m,
                game_state@.player_to_move,
            )),
{
    let movements = generate_movements_for_player(game_state, game_state.player_to_move);
    let mut commands: Vec<Command> = Vec::new();
    let mut i: usize = 0;
    while i < movements.len()
        invariant
            0 <= i <= movements.len(),
            commands.len() == i,
            forall|k: int| 0 <= k < i ==> #[trigger] commands[k] == Command::Move(movements[k]),
        decreases movements.len() - i,
    {
        commands.push(Command::Move(movements[i]));
        i += 1;
    }
    proof {
        let p = game_state@;
        assert forall|c: Command| #[trigger]
            commands@.contains(c) <==> (c matches Command::Move(m) && p.legal(
                m,
                p.player_to_move,
            )) by {
            if commands@.contains(c) {
                let k = choose|k: int| 0 <= k < commands.len() && commands[k] == c;
                assert(movements@.contains(movements[k]));
            }
            if let Command::Move(m) = c {
                if p.legal(m, p.player_to_move) {
                    assert(movements@.contains(m));
                    let k = choose|k: int| 0 <= k < movements.len() && movements[k] == m;
                    assert(commands[k] == c);
                }
            }
        }
        assert forall|a: int, b: int|
            0 <= a < commands.len() && 0 <= b < commands.len() && a != b implies commands[a]
            != commands[b] by {
            assert(movements[a] != movements[b]);
        }
    }
    commands
}

} // verus!
