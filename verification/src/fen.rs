//! The notation codec: parsing the standard positional notation into a
//! board, all-or-nothing, against an exact grammar.
//!
//! The notation has six space-separated fields: piece placement (eight
//! slash-separated ranks of piece letters and digit runs), side to move
//! (`w` or `b`), castling rights (an ordered subset of `KQkq`, or `-`),
//! en-passant target (file letter and rank digit, or `-`), halfmove
//! clock and fullmove number.

use vstd::prelude::*;
use crate::board::{Board, BoardModel, Color, GameResult, PieceIndex, PieceType, Square};

verus! {

/// The position of the first `stop` character at or after `i` and
/// before `end`, or `end` if there is none.
pub open spec fn scan_to(s: Seq<char>, i: int, stop: char, end: int) -> int
    decreases end - i,
{
    if i >= end {
        end
    } else if s[i] == stop {
        i
    } else {
        scan_to(s, i + 1, stop, end)
    }
}

/// A decimal digit.
pub open spec fn is_digit(c: char) -> bool {
    '0' <= c && c <= '9'
}

/// The value of a decimal digit.
pub open spec fn digit_val(c: char) -> int {
    c as u32 - '0' as u32
}

/// A rank digit of the placement field: a run of one to eight empty
/// squares.
pub open spec fn is_rank_digit(c: char) -> bool {
    '1' <= c && c <= '8'
}

/// The piece kind a placement letter stands for; anything else is
/// `Empty`, which marks the letter invalid.
pub open spec fn piece_of_letter(c: char) -> PieceType {
    if c == 'P' || c == 'p' {
        PieceType::Pawn
    } else if c == 'R' || c == 'r' {
        PieceType::Rook
    } else if c == 'N' || c == 'n' {
        PieceType::Knight
    } else if c == 'B' || c == 'b' {
        PieceType::Bishop
    } else if c == 'Q' || c == 'q' {
        PieceType::Queen
    } else if c == 'K' || c == 'k' {
        PieceType::King
    } else {
        PieceType::Empty
    }
}

/// A recognized piece letter.
pub open spec fn is_piece_letter(c: char) -> bool {
    piece_of_letter(c) != PieceType::Empty
}

/// Uppercase letters place White pieces, lowercase Black.
pub open spec fn letter_color(c: char) -> Color {
    if 'A' <= c && c <= 'Z' {
        Color::White
    } else {
        Color::Black
    }
}

/// The square a placement letter puts on the board.
pub open spec fn letter_square(c: char) -> Square {
    Square { color: letter_color(c), piece: piece_of_letter(c) }
}

/// A character a placement rank may contain.
pub open spec fn is_rank_char(c: char) -> bool {
    is_piece_letter(c) || is_rank_digit(c)
}

/// Every character of `[i, j)` is a valid placement-rank character.
pub open spec fn rank_chars_ok(s: Seq<char>, i: int, j: int) -> bool
    decreases j - i,
{
    if i >= j {
        true
    } else {
        is_rank_char(s[i]) && rank_chars_ok(s, i + 1, j)
    }
}

/// The number of squares the rank text `[i, j)` describes: each digit
/// contributes its value, each letter one square.
pub open spec fn rank_width(s: Seq<char>, i: int, j: int) -> int
    decreases j - i,
{
    if i >= j {
        0
    } else {
        (if is_rank_digit(s[i]) {
            digit_val(s[i])
        } else {
            1
        }) + rank_width(s, i + 1, j)
    }
}

/// A run of `n` empty squares.
pub open spec fn empties(n: int) -> Seq<Square> {
    Seq::new(n as nat, |k: int| Square { color: Color::White, piece: PieceType::Empty })
}

/// The squares the rank text `[i, j)` describes, left to right.
pub open spec fn rank_squares(s: Seq<char>, i: int, j: int) -> Seq<Square>
    decreases j - i,
{
    if i >= j {
        Seq::empty()
    } else if is_rank_digit(s[i]) {
        empties(digit_val(s[i])) + rank_squares(s, i + 1, j)
    } else {
        seq![letter_square(s[i])] + rank_squares(s, i + 1, j)
    }
}

/// A valid placement rank: nonempty, of valid characters, describing
/// exactly eight squares.
pub open spec fn rank_ok(s: Seq<char>, i: int, j: int) -> bool {
    &&& j - i >= 1
    &&& rank_chars_ok(s, i, j)
    &&& rank_width(s, i, j) == 8
}

/// A valid placement field `[i, end)`: `rows` slash-separated valid
/// ranks.
pub open spec fn placement_ok(s: Seq<char>, i: int, end: int, rows: int) -> bool
    decreases rows,
{
    if rows <= 1 {
        scan_to(s, i, '/', end) == end && rank_ok(s, i, end)
    } else {
        let j = scan_to(s, i, '/', end);
        j < end && rank_ok(s, i, j) && placement_ok(s, j + 1, end, rows - 1)
    }
}

/// The squares a placement field describes, rank 0 first.
pub open spec fn placement_squares(s: Seq<char>, i: int, end: int, rows: int) -> Seq<Square>
    decreases rows,
{
    if rows <= 1 {
        rank_squares(s, i, scan_to(s, i, '/', end))
    } else {
        let j = scan_to(s, i, '/', end);
        rank_squares(s, i, j) + placement_squares(s, j + 1, end, rows - 1)
    }
}

/// The order of a castling letter within `KQkq`; -1 marks an invalid
/// letter.
pub open spec fn cast_rank(c: char) -> int {
    if c == 'K' {
        0
    } else if c == 'Q' {
        1
    } else if c == 'k' {
        2
    } else if c == 'q' {
        3
    } else {
        -1
    }
}

/// The letters of `[i, j)` are castling letters in strictly increasing
/// `KQkq` order, each above `min`.
pub open spec fn castling_tail_ok(s: Seq<char>, i: int, j: int, min: int) -> bool
    decreases j - i,
{
    if i >= j {
        true
    } else {
        cast_rank(s[i]) > min && castling_tail_ok(s, i + 1, j, cast_rank(s[i]))
    }
}

/// A valid castling field: `-`, or a nonempty ordered subset of `KQkq`.
pub open spec fn castling_ok(s: Seq<char>, i: int, j: int) -> bool {
    ||| (j == i + 1 && s[i] == '-')
    ||| (j > i && castling_tail_ok(s, i, j, -1))
}

/// Whether `[i, j)` contains the character `c`.
pub open spec fn has_char(s: Seq<char>, i: int, j: int, c: char) -> bool
    decreases j - i,
{
    if i >= j {
        false
    } else {
        s[i] == c || has_char(s, i + 1, j, c)
    }
}

/// A board file letter.
pub open spec fn is_file_char(c: char) -> bool {
    'a' <= c && c <= 'h'
}

/// A valid en-passant field: `-`, or a file letter and a rank digit.
pub open spec fn ep_field_ok(s: Seq<char>, i: int, j: int) -> bool {
    ||| (j == i + 1 && s[i] == '-')
    ||| (j == i + 2 && is_file_char(s[i]) && is_rank_digit(s[i + 1]))
}

/// The board index of an algebraic file-and-rank pair on a board of
/// the given shape, with rank 1 printed last.
pub open spec fn alg_index(height: int, width: int, f: char, r: char) -> int {
    (height - digit_val(r)) * width + (f as u32 - 'a' as u32)
}

/// Every character of `[i, j)` is a decimal digit.
pub open spec fn all_digits(s: Seq<char>, i: int, j: int) -> bool
    decreases j - i,
{
    if i >= j {
        true
    } else {
        is_digit(s[i]) && all_digits(s, i + 1, j)
    }
}

/// The value of the decimal numeral `[i, j)`.
pub open spec fn digits_val(s: Seq<char>, i: int, j: int) -> int
    decreases j - i,
{
    if j <= i {
        0
    } else {
        digits_val(s, i, j - 1) * 10 + digit_val(s[j - 1])
    }
}

/// A valid numeral field: at least one digit.
pub open spec fn digits_ok(s: Seq<char>, i: int, j: int) -> bool {
    j > i && all_digits(s, i, j)
}

/// The text `s` is valid positional notation: six space-separated
/// fields, a placement of eight ranks, a side letter, castling rights,
/// an en-passant target, and two counters that fit the board's
/// bookkeeping (the fullmove number positive).
pub open spec fn fen_ok(s: Seq<char>) -> bool {
    let n = s.len() as int;
    let a = scan_to(s, 0, ' ', n);
    let b = scan_to(s, a + 1, ' ', n);
    let c = scan_to(s, b + 1, ' ', n);
    let d = scan_to(s, c + 1, ' ', n);
    let e = scan_to(s, d + 1, ' ', n);
    let f = scan_to(s, e + 1, ' ', n);
    &&& a < n
    &&& b < n
    &&& c < n
    &&& d < n
    &&& e < n
    &&& f == n
    &&& placement_ok(s, 0, a, 8)
    &&& b == a + 2
    &&& (s[a + 1] == 'w' || s[a + 1] == 'b')
    &&& castling_ok(s, b + 1, c)
    &&& ep_field_ok(s, c + 1, d)
    &&& digits_ok(s, d + 1, e)
    &&& digits_val(s, d + 1, e) <= 0xFFFF
    &&& digits_ok(s, e + 1, n)
    &&& 1 <= digits_val(s, e + 1, n) <= 0xFFFF
}

/// The board state that valid positional notation `s` describes.
pub open spec fn fen_board(s: Seq<char>) -> BoardModel {
    let n = s.len() as int;
    let a = scan_to(s, 0, ' ', n);
    let b = scan_to(s, a + 1, ' ', n);
    let c = scan_to(s, b + 1, ' ', n);
    let d = scan_to(s, c + 1, ' ', n);
    let e = scan_to(s, d + 1, ' ', n);
    BoardModel {
        squares: placement_squares(s, 0, a, 8),
        height: 8,
        width: 8,
        to_play: if s[a + 1] == 'w' {
            Color::White
        } else {
            Color::Black
        },
        castling: (
            (has_char(s, b + 1, c, 'K'), has_char(s, b + 1, c, 'Q')),
            (has_char(s, b + 1, c, 'k'), has_char(s, b + 1, c, 'q')),
        ),
        en_passant: if d == c + 3 && s[c + 1] != '-' {
            (true, alg_index(8, 8, s[c + 1], s[c + 2]))
        } else {
            (false, 0)
        },
        halfmove_clock: digits_val(s, d + 1, e),
        fullmove_number: digits_val(s, e + 1, n),
        result: GameResult::Active,
    }
}

/// A rank's squares are as many as its width says.
proof fn lemma_rank_squares_len(s: Seq<char>, i: int, j: int)
    ensures
        rank_squares(s, i, j).len() == if rank_width(s, i, j) >= 0 {
            rank_width(s, i, j)
        } else {
            0
        },
    decreases j - i,
{
    if i < j {
        lemma_rank_squares_len(s, i + 1, j);
        if is_rank_digit(s[i]) {
            assert(digit_val(s[i]) >= 1);
        }
        assert(rank_width(s, i + 1, j) >= 0 ==> rank_width(s, i, j) >= 0) by {
            if is_rank_digit(s[i]) {
                assert(digit_val(s[i]) >= 1);
            }
        }
        lemma_rank_width_nonneg(s, i + 1, j);
    }
}

/// A rank width is never negative.
proof fn lemma_rank_width_nonneg(s: Seq<char>, i: int, j: int)
    ensures
        rank_width(s, i, j) >= 0,
    decreases j - i,
{
    if i < j {
        lemma_rank_width_nonneg(s, i + 1, j);
        if is_rank_digit(s[i]) {
            assert(digit_val(s[i]) >= 1);
        }
    }
}

/// A valid placement of `rows` ranks describes `rows * 8` squares.
proof fn lemma_placement_len(s: Seq<char>, i: int, end: int, rows: int)
    requires
        rows >= 1,
        placement_ok(s, i, end, rows),
    ensures
        placement_squares(s, i, end, rows).len() == rows * 8,
    decreases rows,
{
    if rows <= 1 {
        lemma_rank_squares_len(s, i, scan_to(s, i, '/', end));
        assert(rows * 8 == 8) by (nonlinear_arith)
            requires
                rows == 1,
        ;
    } else {
        let j = scan_to(s, i, '/', end);
        lemma_rank_squares_len(s, i, j);
        lemma_placement_len(s, j + 1, end, rows - 1);
        assert(rows * 8 == (rows - 1) * 8 + 8) by (nonlinear_arith);
    }
}

/// Find the first `stop` character at or after `from` and before
/// `end`.
fn scan_char(s: &str, from: usize, stop: char, end: usize) -> (r: usize)
    requires
        from <= end,
        end <= s@.len(),
    ensures
        r == scan_to(s@, from as int, stop, end as int),
        from <= r <= end,
{
    let mut i = from;
    while i < end
        invariant
            from <= i <= end,
            end <= s@.len(),
            scan_to(s@, from as int, stop, end as int) == scan_to(s@, i as int, stop, end as int),
        decreases end - i,
    {
        if s.get_char(i) == stop {
            return i;
        }
        i = i + 1;
    }
    i
}


/// A digit run extends on the right exactly by a digit.
proof fn lemma_digits_snoc(s: Seq<char>, i: int, j: int)
    requires
        i < j,
    ensures
        all_digits(s, i, j) <==> (all_digits(s, i, j - 1) && is_digit(s[j - 1])),
    decreases j - i,
{
    if i + 1 < j {
        lemma_digits_snoc(s, i + 1, j);
    } else {
        assert(all_digits(s, i, j) == (is_digit(s[i]) && all_digits(s, i + 1, j)));
        assert(all_digits(s, i + 1, j));
        assert(all_digits(s, i, j - 1));
    }
}

/// Decide whether `c` is a rank digit.
fn is_rank_digit_exec(c: char) -> (r: bool)
    ensures
        r == is_rank_digit(c),
{
    let v = c as u32;
    v >= '1' as u32 && v <= '8' as u32
}

/// The `KQkq` order of a castling letter; -1 for anything else.
fn cast_rank_exec(c: char) -> (r: i8)
    ensures
        r as int == cast_rank(c),
{
    if c == 'K' {
        0
    } else if c == 'Q' {
        1
    } else if c == 'k' {
        2
    } else if c == 'q' {
        3
    } else {
        -1
    }
}

/// The square a placement letter stands for, or `None` for an
/// unrecognized letter.
fn letter_square_exec(c: char) -> (r: Option<Square>)
    ensures
        r is Some <==> is_piece_letter(c),
        r is Some ==> r->Some_0 == letter_square(c),
{
    let piece: PieceType = if c == 'P' || c == 'p' {
        PieceType::Pawn
    } else if c == 'R' || c == 'r' {
        PieceType::Rook
    } else if c == 'N' || c == 'n' {
        PieceType::Knight
    } else if c == 'B' || c == 'b' {
        PieceType::Bishop
    } else if c == 'Q' || c == 'q' {
        PieceType::Queen
    } else if c == 'K' || c == 'k' {
        PieceType::King
    } else {
        PieceType::Empty
    };
    if piece == PieceType::Empty {
        return None;
    }
    let v = c as u32;
    let color: Color = if v >= 'A' as u32 && v <= 'Z' as u32 {
        Color::White
    } else {
        Color::Black
    };
    Some(Square { color, piece })
}

/// Parse one placement rank `[i, j)`, appending its squares. The
/// returned width is capped at 9, enough to decide whether the rank
/// describes exactly eight squares.
fn parse_rank(s: &str, i: usize, j: usize, squares: &mut Vec<Square>) -> (r: (bool, u32))
    requires
        i <= j,
        j <= s@.len(),
    ensures
        r.0 <==> rank_chars_ok(s@, i as int, j as int),
        r.0 ==> final(squares)@ == old(squares)@ + rank_squares(s@, i as int, j as int),
        r.0 ==> ((r.1 as int == rank_width(s@, i as int, j as int) && r.1 <= 8) || (r.1 == 9
            && rank_width(s@, i as int, j as int) > 8)),
    decreases j - i,
{
    if i >= j {
        proof {
            assert(squares@ =~= squares@ + rank_squares(s@, i as int, j as int));
        }
        return (true, 0);
    }
    let ch = s.get_char(i);
    let w0: u32;
    if is_rank_digit_exec(ch) {
        let d = ch as u32 - '0' as u32;
        w0 = d;
        let ghost pre = squares@;
        let mut k: u32 = 0;
        while k < d
            invariant
                k <= d,
                d == digit_val(ch),
                squares@ == pre + empties(k as int),
            decreases d - k,
        {
            squares.push(Square { color: Color::White, piece: PieceType::Empty });
            proof {
                assert(squares@ =~= pre + empties(k as int + 1));
            }
            k = k + 1;
        }
    } else {
        match letter_square_exec(ch) {
            Some(sq) => {
                w0 = 1;
                squares.push(sq);
            },
            None => {
                return (false, 0);
            },
        }
    }
    let ghost mid = squares@;
    let rest = parse_rank(s, i + 1, j, squares);
    if !rest.0 {
        return (false, 0);
    }
    proof {
        assert(mid == old(squares)@ + (if is_rank_digit(ch) {
            empties(digit_val(ch))
        } else {
            seq![letter_square(ch)]
        }));
        assert(squares@ =~= old(squares)@ + rank_squares(s@, i as int, j as int));
        lemma_rank_width_nonneg(s@, i as int + 1, j as int);
    }
    let total: u32 = if rest.1 >= 9 || w0 + rest.1 > 9 {
        9
    } else {
        w0 + rest.1
    };
    (true, total)
}

/// Parse `rows` slash-separated placement ranks `[i, end)`, appending
/// their squares.
fn parse_placement_rows(s: &str, i: usize, end: usize, rows: usize, squares: &mut Vec<Square>) -> (r:
    bool)
    requires
        i <= end,
        end <= s@.len(),
        rows >= 1,
    ensures
        r <==> placement_ok(s@, i as int, end as int, rows as int),
        r ==> final(squares)@ == old(squares)@ + placement_squares(
            s@,
            i as int,
            end as int,
            rows as int,
        ),
    decreases rows,
{
    let j = scan_char(s, i, '/', end);
    if rows == 1 {
        if j != end {
            return false;
        }
        let rk = parse_rank(s, i, end, squares);
        rk.0 && end > i && rk.1 == 8
    } else {
        if j >= end {
            return false;
        }
        let rk = parse_rank(s, i, j, squares);
        if !(rk.0 && j > i && rk.1 == 8) {
            return false;
        }
        let ghost mid = squares@;
        let ok = parse_placement_rows(s, j + 1, end, rows - 1, squares);
        if !ok {
            return false;
        }
        proof {
            assert(squares@ =~= old(squares)@ + placement_squares(
                s@,
                i as int,
                end as int,
                rows as int,
            ));
        }
        true
    }
}

/// Check a castling tail `[i, j)`: letters in strictly increasing
/// `KQkq` order, each above `min`.
fn parse_castling_tail(s: &str, i: usize, j: usize, min: i8) -> (r: bool)
    requires
        i <= j,
        j <= s@.len(),
    ensures
        r == castling_tail_ok(s@, i as int, j as int, min as int),
    decreases j - i,
{
    if i >= j {
        return true;
    }
    let cr = cast_rank_exec(s.get_char(i));
    cr > min && parse_castling_tail(s, i + 1, j, cr)
}

/// Whether `[i, j)` contains the character `c`.
fn find_char(s: &str, i: usize, j: usize, c: char) -> (r: bool)
    requires
        i <= j,
        j <= s@.len(),
    ensures
        r == has_char(s@, i as int, j as int, c),
    decreases j - i,
{
    if i >= j {
        false
    } else if s.get_char(i) == c {
        true
    } else {
        find_char(s, i + 1, j, c)
    }
}

/// Parse the numeral `[i, j)`. The returned value is capped one above
/// the largest the board's counters can hold.
fn parse_digits(s: &str, i: usize, j: usize) -> (r: (bool, u32))
    requires
        i <= j,
        j <= s@.len(),
    ensures
        r.0 <==> all_digits(s@, i as int, j as int),
        r.0 ==> ((r.1 as int == digits_val(s@, i as int, j as int) && r.1 <= 0xFFFF) || (r.1
            == 0x10000 && digits_val(s@, i as int, j as int) > 0xFFFF)),
    decreases j - i,
{
    if i >= j {
        return (true, 0);
    }
    let rest = parse_digits(s, i, j - 1);
    let ch = s.get_char(j - 1);
    let v = ch as u32;
    let ok_digit = v >= '0' as u32 && v <= '9' as u32;
    proof {
        lemma_digits_snoc(s@, i as int, j as int);
    }
    if !(rest.0 && ok_digit) {
        return (false, 0);
    }
    let d = v - '0' as u32;
    let total: u32 = if rest.1 >= 0x10000 {
        0x10000
    } else if rest.1 * 10 + d > 0xFFFF {
        0x10000
    } else {
        rest.1 * 10 + d
    };
    proof {
        if rest.1 == 0x10000 {
            assert(digits_val(s@, i as int, j as int) == digits_val(s@, i as int, j as int - 1) * 10
                + digit_val(s@[j as int - 1]));
            assert(digits_val(s@, i as int, j as int - 1) * 10 > 0xFFFF * 10)
                by (nonlinear_arith)
                requires
                    digits_val(s@, i as int, j as int - 1) > 0xFFFF,
            ;
        }
    }
    (true, total)
}

impl Board {
    /// Decode an algebraic file-and-rank pair into a board index, with
    /// rank 1 printed last.
    pub fn alg_to_index(&self, alg_notation: &str) -> (r: usize)
        requires
            self.dims_ok(),
            alg_notation@.len() == 2,
            is_file_char(alg_notation@[0]),
            is_rank_digit(alg_notation@[1]),
            digit_val(alg_notation@[1]) <= self.shape.0,
            (alg_notation@[0] as u32 - 'a' as u32) < self.shape.1 as int,
        ensures
            r as int == alg_index(
                self.shape.0 as int,
                self.shape.1 as int,
                alg_notation@[0],
                alg_notation@[1],
            ),
            r < self.squares@.len(),
    {
        let f = alg_notation.get_char(0);
        let d = alg_notation.get_char(1);
        let file = (f as u32 - 'a' as u32) as usize;
        let rank = (d as u32 - '0' as u32) as usize;
        let row = self.shape.0 - rank;
        proof {
            assert(self.squares@.len() == self.squares.len());
            crate::moves::lemma_rc_to_idx(self.shape.1 as int, row as int, file as int);
            assert((row as int) * (self.shape.1 as int) + (file as int) < (self.shape.0 as int)
                * (self.shape.1 as int)) by (nonlinear_arith)
                requires
                    (self.shape.1 as int) >= 1,
                    0 <= (file as int) < (self.shape.1 as int),
                    0 <= (row as int) < (self.shape.0 as int),
            ;
        }
        row * self.shape.1 + file
    }

    /// Parse positional notation into a board, all-or-nothing: exactly
    /// the texts the grammar admits produce a board, and the board is
    /// the one the text describes, with its piece-location index built
    /// by a full scan. Invalid text is answered with the format error
    /// code 1 and no board.
    pub fn from_fen(fen_string: &str) -> (r: Result<Board, i16>)
        ensures
            r is Ok <==> fen_ok(fen_string@),
            r is Ok ==> r->Ok_0@ == fen_board(fen_string@) && r->Ok_0.wf()
                && r->Ok_0.shape == (8usize, 8usize),
            r is Err ==> r->Err_0 == 1,
    {
        let ghost sv = fen_string@;
        let n = fen_string.unicode_len();
        let a = scan_char(fen_string, 0, ' ', n);
        if a >= n {
            return Err(1);
        }
        let b = scan_char(fen_string, a + 1, ' ', n);
        if b >= n {
            return Err(1);
        }
        let c = scan_char(fen_string, b + 1, ' ', n);
        if c >= n {
            return Err(1);
        }
        let d = scan_char(fen_string, c + 1, ' ', n);
        if d >= n {
            return Err(1);
        }
        let e = scan_char(fen_string, d + 1, ' ', n);
        if e >= n {
            return Err(1);
        }
        let f = scan_char(fen_string, e + 1, ' ', n);
        if f != n {
            return Err(1);
        }

        // the placement field
        let mut squares: Vec<Square> = Vec::new();
        if !parse_placement_rows(fen_string, 0, a, 8, &mut squares) {
            return Err(1);
        }
        proof {
            lemma_placement_len(sv, 0, a as int, 8);
        }

        // the side to move
        if b != a + 2 {
            return Err(1);
        }
        let side = fen_string.get_char(a + 1);
        if !(side == 'w' || side == 'b') {
            return Err(1);
        }
        let to_play = if side == 'w' {
            Color::White
        } else {
            Color::Black
        };

        // castling rights
        let dash = fen_string.get_char(b + 1) == '-';
        if dash {
            if c != b + 2 {
                return Err(1);
            }
        } else {
            if !(c > b + 1 && parse_castling_tail(fen_string, b + 1, c, -1)) {
                return Err(1);
            }
        }
        let castling = (
            (
                find_char(fen_string, b + 1, c, 'K'),
                find_char(fen_string, b + 1, c, 'Q'),
            ),
            (
                find_char(fen_string, b + 1, c, 'k'),
                find_char(fen_string, b + 1, c, 'q'),
            ),
        );

        // en-passant target
        let ep_dash = fen_string.get_char(c + 1) == '-';
        let en_passant: (bool, usize);
        if ep_dash {
            if d != c + 2 {
                return Err(1);
            }
            en_passant = (false, 0);
        } else {
            if d != c + 3 {
                return Err(1);
            }
            let fc = fen_string.get_char(c + 1);
            let rc = fen_string.get_char(c + 2);
            let fv = fc as u32;
            let rv = rc as u32;
            if !(fv >= 'a' as u32 && fv <= 'h' as u32 && rv >= '1' as u32 && rv <= '8' as u32) {
                return Err(1);
            }
            let file = (fv - 'a' as u32) as usize;
            let rank = (rv - '0' as u32) as usize;
            en_passant = (true, (8 - rank) * 8 + file);
        }

        // the two counters
        let hm = parse_digits(fen_string, d + 1, e);
        if !(hm.0 && e > d + 1 && hm.1 <= 0xFFFF) {
            return Err(1);
        }
        let fm = parse_digits(fen_string, e + 1, n);
        if !(fm.0 && n > e + 1 && fm.1 <= 0xFFFF && fm.1 >= 1) {
            return Err(1);
        }

        let mut board = Board {
            squares,
            shape: (8, 8),
            piece_map: PieceIndex {
                pawns: Vec::new(),
                rooks: Vec::new(),
                knights: Vec::new(),
                bishops: Vec::new(),
                queens: Vec::new(),
                kings: Vec::new(),
            },
            to_play,
            castling,
            en_passant,
            halfmove_clock: hm.1 as u16,
            fullmove_number: fm.1 as u16,
            result: GameResult::Active,
        };
        board.populate_map();
        proof {
            assert(fen_ok(sv));
            assert(board@ =~= fen_board(sv));
        }
        Ok(board)
    }
}

} // verus!
