use vstd::prelude::*;
use crate::model::board::on_board;
use crate::model::board::{standard_back_rank, starting_square, BackRank};
use crate::model::game_state::{reading_order, square_matches, standard_start, start_of};
use crate::model::movement::{move_between, Movement};
use crate::model::piece::{Color, PieceType};
use crate::evaluation::{
    lemma_material_antisymmetric, piece_value, CHECK_MATE_VALUE, KING_VALUE, QUEEN_VALUE,
};
use crate::model::position::{king_target_col, Position};
use crate::rules::move_generator::lists_pseudo_legal;

verus! {

impl Position {
    /// `movement` is an ordinary move of the side to move, as its piece
    /// moves, onto a square that holds a king.
    pub open spec fn captures_king(self, movement: Movement) -> bool {
        &&& movement is Normal
        &&& self.pseudo_legal(movement, self.player_to_move)
        &&& self.holds_king(movement.to_row(), movement.to_col())
    }

    /// The side to move could take a king: the position cannot have come
    /// about by a movement that looked after its own king.
    pub open spec fn king_capturable(self) -> bool {
        exists|movement: Movement| #[trigger] self.captures_king(movement)
    }

    /// Whether a search of `depth` plies gives the position a worth. With no
    /// ply left every position has one; otherwise no king may stand to be
    /// taken, and the game is over or some movement of the side to move, as
    /// its pieces move, leads to a position that the plies left can search.
    pub open spec fn searchable(self, depth: nat) -> bool
        decreases depth,
    {
        depth == 0 || (!self.king_capturable() && (self.game_over()
            || exists|m: Movement| #[trigger]
            self.pseudo_legal(m, self.player_to_move) && self.after(m).searchable(
                (depth - 1) as nat,
            )))
    }

    /// `movement` is a reply that a search of `depth` plies follows: the
    /// side to move may play it where nobody asks for the king's safety, and
    /// the position it leads to can be searched for the plies that are left.
    pub open spec fn reply(self, movement: Movement, depth: nat) -> bool {
        &&& depth > 0
        &&& self.pseudo_legal(movement, self.player_to_move)
        &&& self.after(movement).searchable((depth - 1) as nat)
    }

    /// The side to move has a reply that a search of `depth` plies follows.
    pub open spec fn has_reply(self, depth: nat) -> bool {
        exists|m: Movement| #[trigger] self.reply(m, depth)
    }

    /// To the side to move the position is worth at least `v` in a search of
    /// `depth` plies: by its material with no ply left, by the end of the
    /// game where no reply is followed, and else because some reply leads to
    /// a position that is worth at most `-v` to the other side.
    pub open spec fn worth_at_least(self, depth: nat, v: int) -> bool
        decreases depth,
    {
        if depth == 0 {
            self.material(self.player_to_move) >= v
        } else if !self.has_reply(depth) {
            self.terminal_score(self.player_to_move) >= v
        } else {
            exists|m: Movement| #[trigger]
                self.reply(m, depth) && self.after(m).worth_at_most((depth - 1) as nat, -v)
        }
    }

    /// To the side to move the position is worth at most `v` in a search of
    /// `depth` plies: by its material with no ply left, by the end of the
    /// game where no reply is followed, and else because every reply leads
    /// to a position that is worth at least `-v` to the other side.
    pub open spec fn worth_at_most(self, depth: nat, v: int) -> bool
        decreases depth,
    {
        if depth == 0 {
            self.material(self.player_to_move) <= v
        } else if !self.has_reply(depth) {
            self.terminal_score(self.player_to_move) <= v
        } else {
            forall|m: Movement| #[trigger]
                self.reply(m, depth) ==> self.after(m).worth_at_least((depth - 1) as nat, -v)
        }
    }

    /// Within `depth` plies no position that is reached has more than
    /// `limit` movements to choose from, where nobody asks for the king's safety.
    pub open spec fn narrow(self, depth: nat, limit: int) -> bool
        decreases depth,
    {
        depth == 0 || {
            &&& forall|l: Seq<Movement>| #[trigger]
                lists_pseudo_legal(l, self, self.player_to_move) ==> l.len() <= limit
            &&& forall|m: Movement| #[trigger]
                self.pseudo_legal(m, self.player_to_move) ==> self.after(m).narrow(
                    (depth - 1) as nat,
                    limit,
                )
        }
    }

    /// To the side to move the position is worth exactly `v` in a search of `depth` plies.
    pub open spec fn worth(self, depth: nat, v: int) -> bool {
        self.worth_at_least(depth, v) && self.worth_at_most(depth, v)
    }

    /// What a search within the window from `alpha` to `beta` claims of its
    /// result `b`: above `alpha` the position is worth at least `b`, below
    /// `beta` it is worth at most `b`.
    pub open spec fn within_bounds(self, depth: nat, b: int, alpha: int, beta: int) -> bool {
        &&& (b > alpha ==> self.worth_at_least(depth, b))
        &&& (b < beta ==> self.worth_at_most(depth, b))
    }
}

/// `q` is what one movement of the side to move makes of `p`, and it
/// records that movement as its last.
pub open spec fn child_of(p: Position, q: Position) -> bool {
    &&& q.last_move matches Some(m)
    &&& p.pseudo_legal(m, p.player_to_move)
    &&& q == p.after(m)
}

/// A movement that may be played where nobody asks for the king's safety
/// can be carried out, and the position it leads to records it.
pub proof fn lemma_pseudo_legal_applies(p: Position, m: Movement)
    requires
        p.pseudo_legal(m, p.player_to_move),
    ensures
        p.applicable(m),
        p.after(m).last_move == Some(m),
        child_of(p, p.after(m)),
{
}

/// What `searchable` says, one ply unfolded.
pub proof fn lemma_searchable(p: Position, depth: nat)
    ensures
        p.searchable(depth) <==> (depth == 0 || (!p.king_capturable() && (p.game_over()
            || p.has_reply(depth)))),
{
    if depth > 0 && !p.king_capturable() && !p.game_over() {
        if p.searchable(depth) {
            let m = choose|m: Movement| #[trigger]
                p.pseudo_legal(m, p.player_to_move) && p.after(m).searchable((depth - 1) as nat);
            assert(p.reply(m, depth));
        }
        if p.has_reply(depth) {
            let m = choose|m: Movement| #[trigger] p.reply(m, depth);
            assert(p.pseudo_legal(m, p.player_to_move) && p.after(m).searchable(
                (depth - 1) as nat,
            ));
        }
    }
}

/// With no ply left a position is worth its material to the side to move,
/// which is what the other side lacks.
pub proof fn lemma_worth_of_material(p: Position, q: Position, score: int)
    requires
        child_of(p, q),
        score == q.material(p.player_to_move),
    ensures
        q.worth(0, -score),
        q.searchable(0),
{
    let m = q.last_move->0;
    lemma_pseudo_legal_applies(p, m);
    lemma_material_antisymmetric(q, p.player_to_move, 64);
}

/// What is worth at least `v` is worth at least anything below `v`.
pub proof fn lemma_at_least_monotone(p: Position, depth: nat, v: int, w: int)
    requires
        p.worth_at_least(depth, v),
        w <= v,
    ensures
        p.worth_at_least(depth, w),
    decreases depth,
{
    if depth > 0 && p.has_reply(depth) {
        let m = choose|m: Movement| #[trigger]
            p.reply(m, depth) && p.after(m).worth_at_most((depth - 1) as nat, -v);
        lemma_at_most_monotone(p.after(m), (depth - 1) as nat, -v, -w);
    }
}

/// What is worth at most `v` is worth at most anything above `v`.
pub proof fn lemma_at_most_monotone(p: Position, depth: nat, v: int, w: int)
    requires
        p.worth_at_most(depth, v),
        w >= v,
    ensures
        p.worth_at_most(depth, w),
    decreases depth,
{
    if depth > 0 && p.has_reply(depth) {
        assert forall|m: Movement| #[trigger] p.reply(m, depth) implies p.after(m).worth_at_least(
            (depth - 1) as nat,
            -w,
        ) by {
            lemma_at_least_monotone(p.after(m), (depth - 1) as nat, -v, -w);
        }
    }
}

/// A position that is worth at least `v` and at most `w` has `v` no greater than `w`.
pub proof fn lemma_worth_consistent(p: Position, depth: nat, v: int, w: int)
    requires
        p.worth_at_least(depth, v),
        p.worth_at_most(depth, w),
    ensures
        v <= w,
    decreases depth,
{
    if depth > 0 && p.has_reply(depth) {
        let m = choose|m: Movement| #[trigger]
            p.reply(m, depth) && p.after(m).worth_at_most((depth - 1) as nat, -v);
        lemma_worth_consistent(p.after(m), (depth - 1) as nat, -w, -v);
    }
}

/// A search of a given depth gives a position no more than one worth:
/// pruned or not, two searches that each find the exact worth agree.
pub proof fn lemma_worth_unique(p: Position, depth: nat, v: int, w: int)
    requires
        p.worth(depth, v),
        p.worth(depth, w),
    ensures
        v == w,
{
    lemma_worth_consistent(p, depth, v, w);
    lemma_worth_consistent(p, depth, w, v);
}

/// A search with pruning that finds a score strictly within its window
/// has found the worth that a search without pruning finds.
pub proof fn lemma_pruned_search_agrees(
    p: Position,
    depth: nat,
    b: int,
    alpha: int,
    beta: int,
    v: int,
)
    requires
        p.within_bounds(depth, b, alpha, beta),
        alpha < b < beta,
        p.worth(depth, v),
    ensures
        b == v,
{
    lemma_worth_unique(p, depth, b, v);
}

impl Position {
    /// No two squares of the board hold a king of `color`.
    pub open spec fn at_most_one_king(self, color: Color) -> bool {
        forall|r1: int, c1: int, r2: int, c2: int|
            on_board(r1, c1) && on_board(r2, c2) && #[trigger] square_matches(
                self,
                Some(PieceType::King),
                color,
                r1,
                c1,
            ) && #[trigger] square_matches(self, Some(PieceType::King), color, r2, c2) ==> r1 == r2
                && c1 == c2
    }

    /// The grid is well formed and neither side has more than one king.
    pub open spec fn sound(self) -> bool {
        &&& self.wf()
        &&& self.at_most_one_king(Color::White)
        &&& self.at_most_one_king(Color::Black)
    }
}

impl Position {
    /// The number of kings of `color` on the first `n` squares in reading order.
    pub open spec fn kings_on_first(self, color: Color, n: int) -> int
        decreases n,
    {
        if n <= 0 {
            0
        } else {
            self.kings_on_first(color, n - 1) + (if square_matches(
                self,
                Some(PieceType::King),
                color,
                (n - 1) / 8,
                (n - 1) % 8,
            ) {
                1int
            } else {
                0int
            })
        }
    }
}

/// A side that has one king at most has one king at most on the first
/// squares of the board, however many are counted.
pub proof fn lemma_one_king_counted(p: Position, color: Color, n: int)
    requires
        p.at_most_one_king(color),
        0 <= n <= 64,
    ensures
        0 <= p.kings_on_first(color, n) <= 1,
        p.kings_on_first(color, n) == 1 ==> exists|k: int|
            0 <= k < n && #[trigger] square_matches(p, Some(PieceType::King), color, k / 8, k % 8),
    decreases n,
{
    if n > 0 {
        lemma_one_king_counted(p, color, n - 1);
        let r = (n - 1) / 8;
        let c = (n - 1) % 8;
        if square_matches(p, Some(PieceType::King), color, r, c) {
            if p.kings_on_first(color, n - 1) == 1 {
                let k = choose|k: int|
                    0 <= k < n - 1 && #[trigger] square_matches(
                        p,
                        Some(PieceType::King),
                        color,
                        k / 8,
                        k % 8,
                    );
                assert(on_board(k / 8, k % 8) && on_board(r, c));
                assert(k / 8 == r && k % 8 == c);
                assert(false);
            }
            assert(square_matches(p, Some(PieceType::King), color, (n - 1) / 8, (n - 1) % 8));
        } else if p.kings_on_first(color, n - 1) == 1 {
            let k = choose|k: int|
                0 <= k < n - 1 && #[trigger] square_matches(
                    p,
                    Some(PieceType::King),
                    color,
                    k / 8,
                    k % 8,
                );
            assert(0 <= k < n && square_matches(p, Some(PieceType::King), color, k / 8, k % 8));
        }
    }
}

/// The material of a side on the first squares of the board is at most a
/// queen for each square and a king for each of its kings, and at least
/// as much against it for the kings of the other side.
pub proof fn lemma_worth_by_kings(p: Position, color: Color, n: int)
    requires
        0 <= n,
    ensures
        0 <= p.kings_on_first(color, n),
        0 <= p.kings_on_first(color.opponent(), n),
        p.worth_of_first(color, false, n) <= QUEEN_VALUE * n + KING_VALUE * p.kings_on_first(
            color,
            n,
        ),
        p.worth_of_first(color, false, n) >= -QUEEN_VALUE * n - KING_VALUE * p.kings_on_first(
            color.opponent(),
            n,
        ),
    decreases n,
{
    if n > 0 {
        lemma_worth_by_kings(p, color, n - 1);
        match p.at((n - 1) / 8, (n - 1) % 8) {
            Some(piece) => {
                assert(piece.piece_type != PieceType::King ==> 0 <= piece_value(piece.piece_type)
                    <= QUEEN_VALUE);
                assert(piece.color != color ==> piece.color == color.opponent());
            },
            None => {},
        }
    }
}

/// In a sound position the material of either side stays within a queen
/// for each square and one king: a mate outweighs it five times over.
pub proof fn lemma_mate_outweighs_material(p: Position, color: Color)
    requires
        p.sound(),
    ensures
        -(64 * QUEEN_VALUE + KING_VALUE) <= p.material(color) <= 64 * QUEEN_VALUE + KING_VALUE,
        5 * (64 * QUEEN_VALUE + KING_VALUE) < CHECK_MATE_VALUE,
{
    lemma_worth_by_kings(p, color, 64);
    match color {
        Color::White => {
            lemma_one_king_counted(p, Color::White, 64);
            lemma_one_king_counted(p, Color::Black, 64);
        },
        Color::Black => {
            lemma_one_king_counted(p, Color::Black, 64);
            lemma_one_king_counted(p, Color::White, 64);
        },
    }
}

/// In a sound position no search finds a worth beyond a mate: what is
/// worth at least `v` has `v` no greater than a mate in favour, and what is
/// worth at most `v` has `v` no less than a mate against.
pub proof fn lemma_worth_within_mate(p: Position, depth: nat, v: int)
    requires
        p.sound(),
    ensures
        p.worth_at_least(depth, v) ==> v <= CHECK_MATE_VALUE,
        p.worth_at_most(depth, v) ==> v >= -CHECK_MATE_VALUE,
    decreases depth,
{
    if depth == 0 {
        lemma_mate_outweighs_material(p, p.player_to_move);
    } else if p.has_reply(depth) {
        if p.worth_at_least(depth, v) {
            let m = choose|m: Movement| #[trigger]
                p.reply(m, depth) && p.after(m).worth_at_most((depth - 1) as nat, -v);
            lemma_sound_stays(p, m);
            lemma_worth_within_mate(p.after(m), (depth - 1) as nat, -v);
        }
        if p.worth_at_most(depth, v) {
            let m = choose|m: Movement| #[trigger] p.reply(m, depth);
            lemma_sound_stays(p, m);
            lemma_worth_within_mate(p.after(m), (depth - 1) as nat, -v);
        }
    }
}

/// In a sound position a search with pruning over the whole window, from
/// a mate against to a mate in favour, finds the worth that a search
/// without pruning finds.
pub proof fn lemma_whole_window_agrees(p: Position, depth: nat, b: int, v: int)
    requires
        p.sound(),
        p.within_bounds(depth, b, -CHECK_MATE_VALUE as int, CHECK_MATE_VALUE as int),
        p.worth(depth, v),
    ensures
        b == v,
{
    lemma_worth_within_mate(p, depth, v);
    lemma_worth_within_mate(p, depth, b);
    if b > -CHECK_MATE_VALUE {
        lemma_worth_consistent(p, depth, b, v);
    }
    if b < CHECK_MATE_VALUE {
        lemma_worth_consistent(p, depth, v, b);
    }
}

/// A side that is in check has a king that the side to move could take;
/// where that side has one king at most, the converse holds too: the
/// search finds out by the king that stands to be taken that the movement
/// before did not look after its own king.
pub proof fn lemma_guard_is_check(q: Position)
    ensures
        q.in_check(q.player_to_move.opponent()) ==> q.king_capturable(),
        q.at_most_one_king(q.player_to_move.opponent()) ==> (q.king_capturable() <==> q.in_check(
            q.player_to_move.opponent(),
        )),
{
    let mover = q.player_to_move;
    let other = mover.opponent();
    if q.in_check(other) {
        let (row, col) = choose|row: int, col: int| #[trigger] q.king_attacked_on(other, row, col);
        let (fr, fc) = choose|fr: int, fc: int| #[trigger] q.attacks_from(mover, fr, fc, row, col);
        let m = move_between((fr, fc), (row, col));
        assert(m.from_row() == fr && m.from_col() == fc && m.to_row() == row && m.to_col() == col);
        assert(q.captures_king(m));
    }
    if q.at_most_one_king(other) && q.king_capturable() {
        let m = choose|m: Movement| #[trigger] q.captures_king(m);
        let tr = m.to_row();
        let tc = m.to_col();
        assert(square_matches(q, Some(PieceType::King), other, tr, tc));
        assert(q.attacks_from(mover, m.from_row(), m.from_col(), tr, tc));
        assert(q.king_on(other, tr, tc)) by {
            assert forall|r: int, c: int|
                on_board(r, c) && reading_order(r, c) < reading_order(
                    tr,
                    tc,
                ) implies !#[trigger] square_matches(q, Some(PieceType::King), other, r, c) by {
                if square_matches(q, Some(PieceType::King), other, r, c) {
                    assert(r == tr && c == tc);
                }
            }
        }
        assert(q.king_attacked_on(other, tr, tc));
    }
}

/// A movement that may be played where nobody asks for the king's safety
/// makes no second king.
pub proof fn lemma_kings_stay_single(p: Position, m: Movement, color: Color)
    requires
        p.wf(),
        p.at_most_one_king(color),
        p.pseudo_legal(m, p.player_to_move),
    ensures
        p.after(m).at_most_one_king(color),
{
    let q = p.after(m);
    assert forall|r1: int, c1: int, r2: int, c2: int|
        on_board(r1, c1) && on_board(r2, c2) && #[trigger] square_matches(
            q,
            Some(PieceType::King),
            color,
            r1,
            c1,
        ) && #[trigger] square_matches(
            q,
            Some(PieceType::King),
            color,
            r2,
            c2,
        ) implies r1 == r2 && c1 == c2 by {
        match m {
            Movement::Normal { from, to } => {
                let fr = m.from_row();
                let fc = m.from_col();
                let tr = m.to_row();
                let tc = m.to_col();
                assert(q.at(r1, c1) == p.square_after_move(fr, fc, tr, tc, r1, c1));
                assert(q.at(r2, c2) == p.square_after_move(fr, fc, tr, tc, r2, c2));
                let s1 = if r1 == tr && c1 == tc {
                    (fr, fc)
                } else {
                    (r1, c1)
                };
                let s2 = if r2 == tr && c2 == tc {
                    (fr, fc)
                } else {
                    (r2, c2)
                };
                assert(square_matches(p, Some(PieceType::King), color, s1.0, s1.1));
                assert(square_matches(p, Some(PieceType::King), color, s2.0, s2.1));
            },
            _ => {
                let king_side = m is CastleKingSide;
                let k = p.king_start(p.player_to_move)->0;
                assert(q.at(r1, c1) == p.square_after_castle(king_side, r1, c1));
                assert(q.at(r2, c2) == p.square_after_castle(king_side, r2, c2));
                let target = king_target_col(king_side);
                let s1 = if r1 == k.0 && c1 == target {
                    k
                } else {
                    (r1, c1)
                };
                let s2 = if r2 == k.0 && c2 == target {
                    k
                } else {
                    (r2, c2)
                };
                assert(square_matches(p, Some(PieceType::King), color, s1.0, s1.1));
                assert(square_matches(p, Some(PieceType::King), color, s2.0, s2.1));
            },
        }
    }
}

/// A movement that may be played where nobody asks for the king's safety
/// leads from a sound position to a sound position.
pub proof fn lemma_sound_stays(p: Position, m: Movement)
    requires
        p.sound(),
        p.pseudo_legal(m, p.player_to_move),
    ensures
        p.after(m).sound(),
{
    lemma_kings_stay_single(p, m, Color::White);
    lemma_kings_stay_single(p, m, Color::Black);
}

/// In a sound position a search follows every movement that the rules allow.
pub proof fn lemma_legal_is_followed(p: Position, m: Movement, depth: nat)
    requires
        p.sound(),
        p.legal(m, p.player_to_move),
        depth > 0,
    ensures
        p.reply(m, depth),
    decreases depth, 0int,
{
    let c = p.after(m);
    lemma_sound_stays(p, m);
    lemma_pseudo_legal_applies(p, m);
    assert(c.player_to_move == p.player_to_move.opponent());
    assert(!c.in_check(p.player_to_move));
    lemma_guard_is_check(c);
    if depth > 1 {
        lemma_sound_is_searchable(c, (depth - 1) as nat);
    }
}

/// A sound position in which no king stands to be taken can be searched
/// to any depth.
pub proof fn lemma_sound_is_searchable(q: Position, depth: nat)
    requires
        q.sound(),
        !q.king_capturable(),
    ensures
        q.searchable(depth),
    decreases depth, 1int,
{
    if depth > 0 {
        lemma_searchable(q, depth);
        if !q.game_over() {
            assert(!q.no_legal_move());
            let m = choose|m: Movement| #[trigger] q.legal(m, q.player_to_move);
            lemma_legal_is_followed(q, m, depth);
        }
    }
}

/// In a sound position a search of two plies or more follows no movement
/// that leaves the own king in check: what it follows, the rules allow.
pub proof fn lemma_followed_is_legal(p: Position, m: Movement, depth: nat)
    requires
        p.sound(),
        p.reply(m, depth),
        depth >= 2,
    ensures
        p.legal(m, p.player_to_move),
{
    let c = p.after(m);
    lemma_sound_stays(p, m);
    lemma_pseudo_legal_applies(p, m);
    lemma_searchable(c, (depth - 1) as nat);
    lemma_guard_is_check(c);
}

/// In a sound position the rules allow a movement of the side to move, as
/// its pieces move, after which no king stands to be taken.
pub proof fn lemma_guarded_is_legal(p: Position, m: Movement)
    requires
        p.sound(),
        p.pseudo_legal(m, p.player_to_move),
        !p.after(m).king_capturable(),
    ensures
        p.legal(m, p.player_to_move),
{
    let c = p.after(m);
    lemma_sound_stays(p, m);
    lemma_pseudo_legal_applies(p, m);
    lemma_guard_is_check(c);
}

/// In a sound position a search of two plies or more follows a reply
/// exactly when the side to move has something to play.
pub proof fn lemma_reply_when_legal(p: Position, depth: nat)
    requires
        p.sound(),
        depth >= 2,
    ensures
        p.has_reply(depth) <==> !p.no_legal_move(),
{
    if p.has_reply(depth) {
        let m = choose|m: Movement| #[trigger] p.reply(m, depth);
        lemma_followed_is_legal(p, m, depth);
    }
    if !p.no_legal_move() {
        let m = choose|m: Movement| #[trigger] p.legal(m, p.player_to_move);
        lemma_legal_is_followed(p, m, depth);
    }
}

/// The position after a sequence of movements each of which the rules
/// allowed when it was made.
pub open spec fn legal_play(p: Position, movements: Seq<Movement>) -> bool
    decreases movements.len(),
{
    movements.len() == 0 || {
        &&& legal_play(p, movements.drop_last())
        &&& p.after_all(movements.drop_last()).legal(
            movements.last(),
            p.after_all(movements.drop_last()).player_to_move,
        )
    }
}

/// What the rules allow leads from a sound position to a sound position in
/// which no king stands to be taken.
pub proof fn lemma_legal_keeps_sound(p: Position, m: Movement)
    requires
        p.sound(),
        p.legal(m, p.player_to_move),
    ensures
        p.after(m).sound(),
        !p.after(m).king_capturable(),
{
    lemma_legal_is_followed(p, m, 2);
    lemma_sound_stays(p, m);
    lemma_searchable(p.after(m), 1);
}

/// The standard starting position is sound, and no king stands to be taken in it.
pub proof fn lemma_standard_start_is_sound()
    ensures
        standard_start().sound(),
        !standard_start().king_capturable(),
{
    let p = standard_start();
    assert forall|r: int, c: int| on_board(r, c) implies p.at(r, c) == starting_square(
        |k: int| standard_back_rank(k),
        r,
        c,
    ) by {}
    assert forall|m: Movement| !#[trigger] p.captures_king(m) by {
        if p.captures_king(m) {
            let fr = m.from_row();
            let fc = m.from_col();
            let tr = m.to_row();
            let tc = m.to_col();
            assert(p.at(tr, tc) == starting_square(|k: int| standard_back_rank(k), tr, tc));
            assert(p.at(fr, fc) == starting_square(|k: int| standard_back_rank(k), fr, fc));
            assert(tr == 7 && tc == 4);
            assert(fr == 0 || fr == 1);
        }
    }
}

/// Every starting position of Fischer's random chess is sound, and no king
/// stands to be taken in it.
pub proof fn lemma_random_start_is_sound(rank: BackRank)
    requires
        rank.valid(),
    ensures
        start_of(rank).sound(),
        !start_of(rank).king_capturable(),
{
    let p = start_of(rank);
    assert forall|r: int, c: int| on_board(r, c) implies p.at(r, c) == starting_square(
        |k: int| rank.kind_at(k),
        r,
        c,
    ) by {}
    assert forall|m: Movement| !#[trigger] p.captures_king(m) by {
        if p.captures_king(m) {
            let fr = m.from_row();
            let fc = m.from_col();
            let tr = m.to_row();
            let tc = m.to_col();
            assert(p.at(tr, tc) == starting_square(|k: int| rank.kind_at(k), tr, tc));
            assert(p.at(fr, fc) == starting_square(|k: int| rank.kind_at(k), fr, fc));
            assert(tr == 7 && tc == rank.king_col);
            assert(fr == 0 || fr == 1);
        }
    }
}

/// Every position that legal play reaches from a sound position is sound,
/// and from the first movement on no king stands to be taken in it.
pub proof fn lemma_legal_play_is_sound(p: Position, movements: Seq<Movement>)
    requires
        p.sound(),
        legal_play(p, movements),
    ensures
        p.after_all(movements).sound(),
        movements.len() > 0 ==> !p.after_all(movements).king_capturable(),
    decreases movements.len(),
{
    if movements.len() > 0 {
        lemma_legal_play_is_sound(p, movements.drop_last());
        lemma_legal_keeps_sound(p.after_all(movements.drop_last()), movements.last());
    }
}

} // verus!
