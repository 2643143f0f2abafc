use vstd::prelude::*;
use substring::Substring;
use crate::controllers::controller::Command;
use crate::model::game_state::{lists_squares, reading_order, square_matches, GameState};
use crate::model::movement::{lemma_same_squares, move_between, Movement};
use crate::model::piece::{kind_of_letter, Color, Piece, PieceType};
use crate::model::position::Position;
use crate::rules::cmd_validator::is_valid_movement;

verus! {

/// The player at the keyboard: reads commands as they are typed.
pub struct LocalHuman;

/// A line feed or a carriage return.
pub open spec fn is_line_end(sign: char) -> bool {
    sign == '\n' || sign == '\r'
}

/// The text without its line feeds and carriage returns.
pub open spec fn stripped(text: Seq<char>) -> Seq<char>
    decreases text.len(),
{
    if text.len() == 0 {
        Seq::empty()
    } else if is_line_end(text.last()) {
        stripped(text.drop_last())
    } else {
        stripped(text.drop_last()).push(text.last())
    }
}

/// The first place at or after `from` where the text holds `sign`, or the
/// length of the text where it holds none.
pub open spec fn place_from(text: Seq<char>, sign: char, from: int) -> int
    decreases text.len() - from,
{
    if from < 0 || from >= text.len() {
        text.len() as int
    } else if text[from] == sign {
        from
    } else {
        place_from(text, sign, from + 1)
    }
}

/// The characters from place `start` up to place `end`, as far as the text
/// goes; none where `end` is not beyond `start`.
pub open spec fn cut(text: Seq<char>, start: int, end: int) -> Seq<char> {
    if end <= start {
        Seq::empty()
    } else {
        let from = if start < text.len() {
            start
        } else {
            text.len() as int
        };
        let to = if end < text.len() {
            end
        } else {
            text.len() as int
        };
        text.subrange(from, to)
    }
}

/// The column that a letter from `a` to `h` names.
pub open spec fn column_named(letter: char) -> Option<int> {
    if 'a' <= letter <= 'h' {
        Some(letter as int - 'a' as int)
    } else {
        None
    }
}

/// The row that a digit from `1` to `8` names.
pub open spec fn row_named(digit: char) -> Option<int> {
    if '1' <= digit <= '8' {
        Some(digit as int - '1' as int)
    } else {
        None
    }
}

/// The square, as row and column, that the first two characters name.
pub open spec fn square_named(text: Seq<char>) -> Option<(int, int)> {
    if text.len() < 2 {
        None
    } else {
        match (column_named(text[0]), row_named(text[1])) {
            (Some(col), Some(row)) => Some((row, col)),
            _ => None,
        }
    }
}

/// The piece that a text of `n` characters speaks of: the piece of the
/// first letter where the text has 3 or 6 characters, a pawn otherwise.
pub open spec fn named_piece(text: Seq<char>, n: int, mover: Color) -> Option<Piece> {
    if n == 3 || n == 6 {
        match kind_of_letter(text[0]) {
            Some(kind) => Some(Piece { piece_type: kind, color: mover }),
            None => None,
        }
    } else {
        Some(Piece { piece_type: PieceType::Pawn, color: mover })
    }
}

/// The move to `to` of the first `piece`, from square `n` on in reading
/// order, that may make it.
pub open spec fn first_move_to(p: Position, piece: Piece, to: (int, int), n: int) -> Option<
    Movement,
>
    decreases 64 - n,
{
    if n < 0 || n >= 64 {
        None
    } else if p.at(n / 8, n % 8) == Some(piece) && p.valid(
        move_between((n / 8, n % 8), to),
        p.player_to_move,
    ) {
        Some(move_between((n / 8, n % 8), to))
    } else {
        first_move_to(p, piece, to, n + 1)
    }
}

/// The movement that a text without a source square names: the last two
/// characters name where to go, and the first piece that may go there goes.
pub open spec fn plain_movement(t: Seq<char>, p: Position, piece: Piece) -> Option<Movement> {
    match square_named(t.skip(t.len() - 2)) {
        Some(to) => first_move_to(p, piece, to, 0),
        None => None,
    }
}

/// The movement that a text names. A text with one `x` names a capture:
/// the two characters before the `x` (behind the letter of the piece, if
/// there is one) name the source, the two behind it the destination; where
/// the rules do not allow that move, the text is read as one without a source.
pub open spec fn movement_of(text: Seq<char>, p: Position) -> Option<Movement> {
    let t = stripped(text);
    let mover = p.player_to_move;
    if t.len() <= 1 {
        None
    } else {
        match named_piece(text, t.len() as int, mover) {
            None => None,
            Some(piece) => {
                let at = place_from(t, 'x', 0);
                if at < t.len() {
                    let part1 = t.take(at);
                    let part2 = t.skip(at + 1);
                    let source_text = if part1.len() == 3 {
                        cut(part1, 1, 3)
                    } else {
                        part1
                    };
                    if place_from(part2, 'x', 0) < part2.len() {
                        None
                    } else if source_text.len() == 2 && part2.len() == 2 {
                        match (square_named(source_text), square_named(part2)) {
                            (Some(from), Some(to)) => if p.valid(move_between(from, to), mover) {
                                Some(move_between(from, to))
                            } else {
                                plain_movement(t, p, piece)
                            },
                            _ => None,
                        }
                    } else {
                        None
                    }
                } else {
                    plain_movement(t, p, piece)
                }
            },
        }
    }
}

/// The command that a text names: one of the words `undo`, `resign` and
/// `save`, a castle written with zeros or with capital letters, or a movement.
pub open spec fn command_of(text: Seq<char>, p: Position) -> Option<Command> {
    let t = stripped(text);
    if t == seq!['u', 'n', 'd', 'o'] {
        Some(Command::Undo)
    } else if t == seq!['r', 'e', 's', 'i', 'g', 'n'] {
        Some(Command::Resign)
    } else if t == seq!['s', 'a', 'v', 'e'] {
        Some(Command::Save)
    } else if t == seq!['0', '-', '0'] || t == seq!['O', '-', 'O'] {
        Some(Command::Move(Movement::CastleKingSide(p.player_to_move)))
    } else if t == seq!['0', '-', '0', '-', '0'] || t == seq!['O', '-', 'O', '-', 'O'] {
        Some(Command::Move(Movement::CastleQueenSide(p.player_to_move)))
    } else {
        match movement_of(text, p) {
            Some(movement) => Some(Command::Move(movement)),
            None => None,
        }
    }
}

/// `substring::Substring::substring` on the characters of the text.
/// Trusted: the characters from place `start` up to place `end` come
/// back, as far as the text goes, and none where `end` is not beyond `start`.
#[verifier::external_body]
fn substring_of(text: &Vec<char>, start: usize, end: usize) -> (part: Vec<char>)
    ensures
        part@ == cut(text@, start as int, end as int),
{
    let whole: String = text.iter().collect();
    whole.substring(start, end).chars().collect()
}

/// The characters of a string.
fn chars_of(text: &str) -> (chars: Vec<char>)
    ensures
        chars@ == text@,
{
    let n = text.unicode_len();
    let mut chars: Vec<char> = Vec::new();
    let mut i: usize = 0;
    while i < n
        invariant
            0 <= i <= n,
            n == text@.len(),
            chars@ == text@.take(i as int),
        decreases n - i,
    {
        chars.push(text.get_char(i));
        proof {
            assert(chars@ =~= text@.take(i as int + 1));
        }
        i += 1;
    }
    proof {
        assert(text@.take(n as int) =~= text@);
    }
    chars
}

/// The characters without line feeds and carriage returns.
fn without_line_ends(text: &Vec<char>) -> (kept: Vec<char>)
    ensures
        kept@ == stripped(text@),
{
    let mut kept: Vec<char> = Vec::new();
    let mut i: usize = 0;
    while i < text.len()
        invariant
            0 <= i <= text.len(),
            kept@ == stripped(text@.take(i as int)),
        decreases text.len() - i,
    {
        let sign = text[i];
        proof {
            assert(text@.take(i as int + 1).drop_last() =~= text@.take(i as int));
        }
        if sign != '\n' && sign != '\r' {
            kept.push(sign);
        }
        i += 1;
    }
    proof {
        assert(text@.take(text.len() as int) =~= text@);
    }
    kept
}

/// The characters from place `from` up to place `to`.
fn part_of(text: &Vec<char>, from: usize, to: usize) -> (part: Vec<char>)
    requires
        from <= to <= text.len(),
    ensures
        part@ == text@.subrange(from as int, to as int),
{
    let mut part: Vec<char> = Vec::new();
    let mut i: usize = from;
    while i < to
        invariant
            from <= i <= to <= text.len(),
            part@ == text@.subrange(from as int, i as int),
        decreases to - i,
    {
        part.push(text[i]);
        proof {
            assert(part@ =~= text@.subrange(from as int, i as int + 1));
        }
        i += 1;
    }
    part
}

/// The first place at or after `from` where the text holds `sign`.
fn find_from(text: &Vec<char>, sign: char, from: usize) -> (place: usize)
    requires
        from <= text.len(),
    ensures
        place == place_from(text@, sign, from as int),
        from <= place <= text.len(),
{
    let mut i: usize = from;
    while i < text.len() && text[i] != sign
        invariant
            from <= i <= text.len(),
            place_from(text@, sign, from as int) == place_from(text@, sign, i as int),
        decreases text.len() - i,
    {
        i += 1;
    }
    i
}

/// Whether the text is exactly the given word.
fn is_word<const N: usize>(text: &Vec<char>, word: &[char; N]) -> (r: bool)
    ensures
        r == (text@ == word@),
{
    if text.len() != N {
        return false;
    }
    let mut i: usize = 0;
    while i < N
        invariant
            0 <= i <= N,
            text@.len() == N,
            forall|k: int| 0 <= k < i ==> text@[k] == word@[k],
        decreases N - i,
    {
        if text[i] != word[i] {
            return false;
        }
        i += 1;
    }
    proof {
        assert(text@ =~= word@);
    }
    true
}

/// Squares that hold no piece that may move are passed over.
proof fn lemma_first_move_skips(p: Position, piece: Piece, to: (int, int), a: int, b: int)
    requires
        0 <= a <= b <= 64,
        forall|n: int|
            a <= n < b ==> !(p.at(n / 8, n % 8) == Some(piece) && #[trigger] p.valid(
                move_between((n / 8, n % 8), to),
                p.player_to_move,
            )),
    ensures
        first_move_to(p, piece, to, a) == first_move_to(p, piece, to, b),
    decreases b - a,
{
    if a < b {
        lemma_first_move_skips(p, piece, to, a + 1, b);
    }
}

impl LocalHuman {
    /// Reads the square that the first two characters name, as row and column.
    fn str_to_position(position_str: &Vec<char>) -> (r: Result<[usize; 2], ()>)
        ensures
            match r {
                Ok(square) => square_named(position_str@) == Some(
                    (square[0] as int, square[1] as int),
                ) && square[0] < 8 && square[1] < 8,
                Err(_) => square_named(position_str@) is None,
            },
    {
        if position_str.len() < 2 {
            return Err(());
        }
        let letter = position_str[0];
        let digit = position_str[1];
        let column_number: usize = if letter == 'a' {
            0
        } else if letter == 'b' {
            1
        } else if letter == 'c' {
            2
        } else if letter == 'd' {
            3
        } else if letter == 'e' {
            4
        } else if letter == 'f' {
            5
        } else if letter == 'g' {
            6
        } else if letter == 'h' {
            7
        } else {
            return Err(());
        };
        let row_number: usize = if digit == '1' {
            0
        } else if digit == '2' {
            1
        } else if digit == '3' {
            2
        } else if digit == '4' {
            3
        } else if digit == '5' {
            4
        } else if digit == '6' {
            5
        } else if digit == '7' {
            6
        } else if digit == '8' {
            7
        } else {
            return Err(());
        };
        Ok([row_number, column_number])
    }

    /// The move to `dest` of the first `piece` in reading order that may make it.
    fn first_mover(game_state: &GameState, piece: Piece, dest: [usize; 2]) -> (r: Result<
        Movement,
        (),
    >)
        requires
            dest[0] < 8,
            dest[1] < 8,
            piece.color == game_state@.player_to_move,
        ensures
            match r {
                Ok(m) => first_move_to(
                    game_state@,
                    piece,
                    (dest[0] as int, dest[1] as int),
                    0,
                ) == Some(m),
                Err(_) => first_move_to(game_state@, piece, (dest[0] as int, dest[1] as int), 0)
                    is None,
            },
    {
        let ghost p = game_state@;
        let ghost to = (dest[0] as int, dest[1] as int);
        let squares = game_state.get_piece_positions(piece);
        let ghost mut reached: int = 0;
        let mut k: usize = 0;
        while k < squares.len()
            invariant
                0 <= k <= squares.len(),
                p == game_state@,
                to == (dest[0] as int, dest[1] as int),
                dest[0] < 8,
                dest[1] < 8,
                lists_squares(squares@, p, Some(piece.piece_type), piece.color),
                0 <= reached <= 64,
                k < squares.len() ==> reached <= reading_order(
                    squares@[k as int][0] as int,
                    squares@[k as int][1] as int,
                ),
                forall|j: int|
                    0 <= j < k ==> reading_order(
                        (#[trigger] squares@[j])[0] as int,
                        squares@[j][1] as int,
                    ) < reached,
                first_move_to(p, piece, to, 0) == first_move_to(p, piece, to, reached),
            decreases squares.len() - k,
        {
            let source = squares[k];
            let movement = Movement::Normal { from: source, to: dest };
            let ghost here = reading_order(source[0] as int, source[1] as int);
            proof {
                assert forall|n: int| reached <= n < here implies !(p.at(n / 8, n % 8) == Some(
                    piece,
                ) && #[trigger] p.valid(move_between((n / 8, n % 8), to), p.player_to_move)) by {
                    if p.at(n / 8, n % 8) == Some(piece) {
                        assert(square_matches(
                            p,
                            Some(piece.piece_type),
                            piece.color,
                            n / 8,
                            n % 8,
                        ));
                        let j = choose|j: int|
                            0 <= j < squares@.len() && (#[trigger] squares@[j])[0] == n / 8
                                && squares@[j][1] == n % 8;
                        if j < k {
                        } else if j > k {
                            assert(reading_order(
                                squares@[k as int][0] as int,
                                squares@[k as int][1] as int,
                            ) < reading_order(squares@[j][0] as int, squares@[j][1] as int));
                        }
                    }
                }
                lemma_first_move_skips(p, piece, to, reached, here);
                lemma_same_squares(
                    movement,
                    move_between((source[0] as int, source[1] as int), to),
                );
                assert(here / 8 == source[0] && here % 8 == source[1]);
                assert(square_matches(
                    p,
                    Some(piece.piece_type),
                    piece.color,
                    source[0] as int,
                    source[1] as int,
                ));
            }
            if is_valid_movement(&movement, game_state) {
                return Ok(movement);
            }
            proof {
                reached = here + 1;
                if k + 1 < squares.len() {
                    assert(reading_order(
                        squares@[k as int][0] as int,
                        squares@[k as int][1] as int,
                    ) < reading_order(
                        squares@[k as int + 1][0] as int,
                        squares@[k as int + 1][1] as int,
                    ));
                }
            }
            k += 1;
        }
        proof {
            assert forall|n: int| reached <= n < 64 implies !(p.at(n / 8, n % 8) == Some(piece)
                && #[trigger] p.valid(move_between((n / 8, n % 8), to), p.player_to_move)) by {
                if p.at(n / 8, n % 8) == Some(piece) {
                    assert(square_matches(p, Some(piece.piece_type), piece.color, n / 8, n % 8));
                    let j = choose|j: int|
                        0 <= j < squares@.len() && (#[trigger] squares@[j])[0] == n / 8
                            && squares@[j][1] == n % 8;
                }
            }
            lemma_first_move_skips(p, piece, to, reached, 64);
        }
        Err(())
    }

    /// Reads a movement as a player writes it.
    pub fn parse_movement(
        &self,
        move_str: &str,
        game_state: &GameState,
    ) -> (r: Result<Movement, ()>)
        ensures
            match r {
                Ok(m) => movement_of(move_str@, game_state@) == Some(m),
                Err(_) => movement_of(move_str@, game_state@) is None,
            },
    {
        let text = chars_of(move_str);
        let t = without_line_ends(&text);
        let mover = game_state.player_to_move;
        if t.len() <= 1 {
            return Err(());
        }
        proof {
            lemma_stripped_is_shorter(text@);
        }
        let piece = if t.len() == 3 || t.len() == 6 {
            match Piece::from_char(text[0], mover) {
                Ok(piece) => piece,
                Err(_) => {
                    return Err(());
                },
            }
        } else {
            Piece { piece_type: PieceType::Pawn, color: mover }
        };
        let at = find_from(&t, 'x', 0);
        if at < t.len() {
            let part1 = part_of(&t, 0, at);
            let part2 = part_of(&t, at + 1, t.len());
            if find_from(&part2, 'x', 0) < part2.len() {
                return Err(());
            }
            let source_text = if part1.len() == 3 {
                substring_of(&part1, 1, 3)
            } else {
                part1
            };
            if source_text.len() == 2 && part2.len() == 2 {
                let source = match Self::str_to_position(&source_text) {
                    Ok(square) => square,
                    Err(_) => {
                        return Err(());
                    },
                };
                let dest = match Self::str_to_position(&part2) {
                    Ok(square) => square,
                    Err(_) => {
                        return Err(());
                    },
                };
                let movement = Movement::Normal { from: source, to: dest };
                proof {
                    lemma_same_squares(
                        movement,
                        move_between(
                            (source[0] as int, source[1] as int),
                            (dest[0] as int, dest[1] as int),
                        ),
                    );
                }
                if is_valid_movement(&movement, game_state) {
                    return Ok(movement);
                }
            } else {
                return Err(());
            }
        }
        let last_two = part_of(&t, t.len() - 2, t.len());
        let dest = match Self::str_to_position(&last_two) {
            Ok(square) => square,
            Err(_) => {
                return Err(());
            },
        };
        Self::first_mover(game_state, piece, dest)
    }

    /// Reads a command as a player writes it.
    pub fn parse_command(&self, cmd_str: &str, game_state: &GameState) -> (r: Result<Command, ()>)
        ensures
            match r {
                Ok(cmd) => command_of(cmd_str@, game_state@) == Some(cmd),
                Err(_) => command_of(cmd_str@, game_state@) is None,
            },
    {
        let text = chars_of(cmd_str);
        let t = without_line_ends(&text);
        if is_word(&t, &['u', 'n', 'd', 'o']) {
            Ok(Command::Undo)
        } else if is_word(&t, &['r', 'e', 's', 'i', 'g', 'n']) {
            Ok(Command::Resign)
        } else if is_word(&t, &['s', 'a', 'v', 'e']) {
            Ok(Command::Save)
        } else if is_word(&t, &['0', '-', '0']) || is_word(&t, &['O', '-', 'O']) {
            Ok(Command::Move(Movement::CastleKingSide(game_state.player_to_move)))
        } else if is_word(&t, &['0', '-', '0', '-', '0']) || is_word(
            &t,
            &['O', '-', 'O', '-', 'O'],
        ) {
            Ok(Command::Move(Movement::CastleQueenSide(game_state.player_to_move)))
        } else {
            match self.parse_movement(cmd_str, game_state) {
                Err(_) => Err(()),
                Ok(m) => Ok(Command::Move(m)),
            }
        }
    }
}

/// The text without its line ends is no longer than the text.
pub proof fn lemma_stripped_is_shorter(text: Seq<char>)
    ensures
        stripped(text).len() <= text.len(),
    decreases text.len(),
{
    if text.len() > 0 {
        lemma_stripped_is_shorter(text.drop_last());
    }
}

} // verus!
