//! Display serialization: a human-readable rendering of a board, one
//! glyph per square and a status line. This is a debug aid, not a wire
//! format; the notation codec is the read path.

use vstd::prelude::*;
use crate::board::{Board, BoardModel, Color, GameResult, PieceType, Square};

verus! {

/// The one-character rendering of a square: `.` for an empty square,
/// the piece letter otherwise, lowercase for Black.
pub open spec fn glyph_text(sq: Square) -> Seq<char> {
    match sq.piece {
        PieceType::Empty => "."@,
        PieceType::Pawn => if sq.color == Color::White {
            "P"@
        } else {
            "p"@
        },
        PieceType::Rook => if sq.color == Color::White {
            "R"@
        } else {
            "r"@
        },
        PieceType::Knight => if sq.color == Color::White {
            "N"@
        } else {
            "n"@
        },
        PieceType::Bishop => if sq.color == Color::White {
            "B"@
        } else {
            "b"@
        },
        PieceType::Queen => if sq.color == Color::White {
            "Q"@
        } else {
            "q"@
        },
        PieceType::King => if sq.color == Color::White {
            "K"@
        } else {
            "k"@
        },
    }
}

/// The first `j` glyphs of rank `r`.
pub open spec fn rank_text_upto(bm: BoardModel, r: int, j: int) -> Seq<char>
    decreases j,
{
    if j <= 0 {
        Seq::empty()
    } else {
        rank_text_upto(bm, r, j - 1) + glyph_text(bm.squares[r * bm.width + (j - 1)])
    }
}

/// The first `r` ranks of the grid, each ended by a newline.
pub open spec fn grid_text_upto(bm: BoardModel, r: int) -> Seq<char>
    decreases r,
{
    if r <= 0 {
        Seq::empty()
    } else {
        grid_text_upto(bm, r - 1) + rank_text_upto(bm, r - 1, bm.width) + "\n"@
    }
}

/// A decimal digit's text.
pub open spec fn digit_text(d: int) -> Seq<char> {
    if d == 0 {
        "0"@
    } else if d == 1 {
        "1"@
    } else if d == 2 {
        "2"@
    } else if d == 3 {
        "3"@
    } else if d == 4 {
        "4"@
    } else if d == 5 {
        "5"@
    } else if d == 6 {
        "6"@
    } else if d == 7 {
        "7"@
    } else if d == 8 {
        "8"@
    } else {
        "9"@
    }
}

/// The decimal rendering of a non-negative number.
pub open spec fn dec_text(n: int) -> Seq<char>
    decreases n,
{
    if n < 10 {
        digit_text(n)
    } else {
        dec_text(n / 10) + digit_text(n % 10)
    }
}

/// The rendering of the side to move.
pub open spec fn side_text(c: Color) -> Seq<char> {
    if c == Color::White {
        "White"@
    } else {
        "Black"@
    }
}

/// The rendering of the game's state.
pub open spec fn result_text(r: GameResult) -> Seq<char> {
    match r {
        GameResult::Active => "..."@,
        GameResult::DrawAgreement => "Draw by mutual agreement"@,
        GameResult::DrawThreefold => "Three-fold repetition - draw."@,
        GameResult::Draw50Moves => "50 moves w/o capture or pawn move - draw."@,
        GameResult::DrawInsufficientMaterial => "Insufficient material - draw."@,
        GameResult::DrawTimeoutInsufficientMaterial => "Timeout & insufficient material - draw."@,
        GameResult::WhiteTime => "Black timed out, white is victorious."@,
        GameResult::WhiteResign => "Black resigned, white is victorious."@,
        GameResult::WhiteCheckmate => "Checkmate, white is victorious."@,
        GameResult::BlackTime => "White timed out, black is victorious."@,
        GameResult::BlackResign => "White resigned, black is victorious."@,
        GameResult::BlackCheckmate => "Checkmate, black is victorious."@,
    }
}

/// The four-character castling-rights rendering: each available right
/// shows its letter, each lost right a dash.
pub open spec fn castling_text(c: ((bool, bool), (bool, bool))) -> Seq<char> {
    (if c.0.0 {
        "K"@
    } else {
        "-"@
    }) + (if c.0.1 {
        "Q"@
    } else {
        "-"@
    }) + (if c.1.0 {
        "k"@
    } else {
        "-"@
    }) + (if c.1.1 {
        "q"@
    } else {
        "-"@
    })
}

/// The status line: the move number, the side to play, the game state
/// and the castling rights.
pub open spec fn status_text(bm: BoardModel) -> Seq<char> {
    "Move: "@ + dec_text(bm.fullmove_number) + ", "@ + side_text(bm.to_play) + " to play, "@
        + result_text(bm.result) + ", Castling: "@ + castling_text(bm.castling)
}

/// The whole rendering of a board: the glyph grid, one line per rank,
/// then the status line.
pub open spec fn board_text(bm: BoardModel) -> Seq<char> {
    grid_text_upto(bm, bm.height) + status_text(bm)
}

/// The glyph of one square, as a one-character string.
fn glyph_str(sq: Square) -> (r: &'static str)
    ensures
        r@ == glyph_text(sq),
{
    match sq.piece {
        PieceType::Empty => ".",
        PieceType::Pawn => if sq.color == Color::White {
            "P"
        } else {
            "p"
        },
        PieceType::Rook => if sq.color == Color::White {
            "R"
        } else {
            "r"
        },
        PieceType::Knight => if sq.color == Color::White {
            "N"
        } else {
            "n"
        },
        PieceType::Bishop => if sq.color == Color::White {
            "B"
        } else {
            "b"
        },
        PieceType::Queen => if sq.color == Color::White {
            "Q"
        } else {
            "q"
        },
        PieceType::King => if sq.color == Color::White {
            "K"
        } else {
            "k"
        },
    }
}

/// One decimal digit, as a one-character string.
fn digit_str(d: u16) -> (r: &'static str)
    requires
        d < 10,
    ensures
        r@ == digit_text(d as int),
{
    if d == 0 {
        "0"
    } else if d == 1 {
        "1"
    } else if d == 2 {
        "2"
    } else if d == 3 {
        "3"
    } else if d == 4 {
        "4"
    } else if d == 5 {
        "5"
    } else if d == 6 {
        "6"
    } else if d == 7 {
        "7"
    } else if d == 8 {
        "8"
    } else {
        "9"
    }
}

/// Append the decimal rendering of `n`.
fn push_dec(s: &mut String, n: u16)
    ensures
        final(s)@ == old(s)@ + dec_text(n as int),
    decreases n,
{
    if n < 10 {
        s.append(digit_str(n));
    } else {
        push_dec(s, n / 10);
        s.append(digit_str(n % 10));
        proof {
            assert(s@ =~= old(s)@ + dec_text(n as int));
        }
    }
}

/// The rendering of the side to move.
fn side_str(c: Color) -> (r: &'static str)
    ensures
        r@ == side_text(c),
{
    match c {
        Color::White => "White",
        Color::Black => "Black",
    }
}

/// The rendering of the game's state.
fn result_str(res: GameResult) -> (r: &'static str)
    ensures
        r@ == result_text(res),
{
    match res {
        GameResult::Active => "...",
        GameResult::DrawAgreement => "Draw by mutual agreement",
        GameResult::DrawThreefold => "Three-fold repetition - draw.",
        GameResult::Draw50Moves => "50 moves w/o capture or pawn move - draw.",
        GameResult::DrawInsufficientMaterial => "Insufficient material - draw.",
        GameResult::DrawTimeoutInsufficientMaterial => "Timeout & insufficient material - draw.",
        GameResult::WhiteTime => "Black timed out, white is victorious.",
        GameResult::WhiteResign => "Black resigned, white is victorious.",
        GameResult::WhiteCheckmate => "Checkmate, white is victorious.",
        GameResult::BlackTime => "White timed out, black is victorious.",
        GameResult::BlackResign => "White resigned, black is victorious.",
        GameResult::BlackCheckmate => "Checkmate, black is victorious.",
    }
}

impl Board {
    /// Render the board: one glyph per square, a newline per rank, and
    /// a status line reporting the move number, the side to play, the
    /// game state and the castling rights.
    #[verifier::rlimit(100)]
    pub fn print_board(&self) -> (r: String)
        requires
            self.wf(),
        ensures
            r@ == board_text(self@),
    {
        let ghost bm = self@;
        let h = self.shape.0;
        let w = self.shape.1;
        proof {
            assert(self.squares@.len() == self.squares.len());
        }
        let mut out = String::new();
        let mut i: usize = 0;
        while i < h
            invariant
                self.wf(),
                bm == self@,
                h == self.shape.0,
                w == self.shape.1,
                self.squares@.len() == h * w,
                self.squares@.len() <= usize::MAX,
                i <= h,
                out@ == grid_text_upto(bm, i as int),
            decreases h - i,
        {
            let mut j: usize = 0;
            while j < w
                invariant
                    self.wf(),
                    bm == self@,
                    h == self.shape.0,
                    w == self.shape.1,
                    self.squares@.len() == h * w,
                    self.squares@.len() <= usize::MAX,
                    i < h,
                    j <= w,
                    out@ == grid_text_upto(bm, i as int) + rank_text_upto(bm, i as int, j as int),
                decreases w - j,
            {
                proof {
                    crate::generate::lemma_rc_idx_bound(h as int, w as int, i as int, j as int);
                }
                let sq = self.squares[i * w + j];
                out.append(glyph_str(sq));
                proof {
                    assert(out@ =~= grid_text_upto(bm, i as int) + rank_text_upto(
                        bm,
                        i as int,
                        j as int + 1,
                    ));
                }
                j = j + 1;
            }
            out.append("\n");
            proof {
                assert(out@ =~= grid_text_upto(bm, i as int + 1));
            }
            i = i + 1;
        }
        self.push_status(&mut out);
        proof {
            assert(out@ =~= board_text(bm));
        }
        out
    }

    /// Append the status line.
    #[verifier::rlimit(100)]
    fn push_status(&self, out: &mut String)
        ensures
            final(out)@ == old(out)@ + status_text(self@),
    {
        out.append("Move: ");
        push_dec(out, self.fullmove_number);
        out.append(", ");
        out.append(side_str(self.to_play));
        out.append(" to play, ");
        out.append(result_str(self.result));
        out.append(", Castling: ");
        if self.castling.0.0 {
            out.append("K");
        } else {
            out.append("-");
        }
        if self.castling.0.1 {
            out.append("Q");
        } else {
            out.append("-");
        }
        if self.castling.1.0 {
            out.append("k");
        } else {
            out.append("-");
        }
        if self.castling.1.1 {
            out.append("q");
        } else {
            out.append("-");
        }
        proof {
            assert(out@ =~= old(out)@ + status_text(self@));
        }
    }
}

} // verus!
