//! The move engine's application side: applying a move is the sole
//! mutation of a committed board, and its exact state transition is the
//! mathematical model the rest of the engine reasons over.

use vstd::prelude::*;
use vstd::arithmetic::div_mod::{lemma_div_pos_is_pos, lemma_fundamental_div_mod, lemma_mod_bound};
use crate::board::{Board, BoardModel, Color, GameResult, MoveOp, PieceType, Square};
use crate::board::distinct;

verus! {

/// A board index splits into its rank and file, and the split is the
/// inverse of `rank * width + file`.
pub proof fn lemma_row_col(w: int, i: int)
    requires
        w >= 1,
        i >= 0,
    ensures
        i == (i / w) * w + (i % w),
        0 <= i % w < w,
        i / w >= 0,
{
    lemma_fundamental_div_mod(i, w);
    lemma_mod_bound(i, w);
    lemma_div_pos_is_pos(i, w);
    assert(w * (i / w) == (i / w) * w) by (nonlinear_arith);
}

/// `rank * width + file` lands in the rank and file it was built from.
pub proof fn lemma_rc_to_idx(w: int, r: int, c: int)
    requires
        w >= 1,
        0 <= c < w,
        r >= 0,
    ensures
        (r * w + c) / w == r,
        (r * w + c) % w == c,
{
    assert((r * w + c) / w == r && (r * w + c) % w == c) by (nonlinear_arith)
        requires
            w >= 1,
            0 <= c < w,
            r >= 0,
    ;
}

/// An index below `h * w` sits in a rank below `h`.
pub proof fn lemma_idx_in_bounds(w: int, h: int, i: int)
    requires
        w >= 1,
        h >= 1,
        0 <= i < h * w,
    ensures
        0 <= i / w < h,
        0 <= i % w < w,
{
    lemma_row_col(w, i);
    assert(i / w < h) by (nonlinear_arith)
        requires
            w >= 1,
            h >= 1,
            0 <= i < h * w,
            i == (i / w) * w + (i % w),
            0 <= i % w < w,
    ;
}

/// The rank direction pointing away from a color's advance direction:
/// the square "one rank behind" an index `i` is `i + back_dir * width`.
pub open spec fn back_dir(c: Color) -> int {
    if c == Color::White {
        1
    } else {
        -1
    }
}

/// The square the captured pawn stands on in an en-passant capture: one
/// rank behind the destination, opposite the mover's advance direction.
pub open spec fn ep_capture_sq(bm: BoardModel, m: MoveOp) -> int {
    m.to + back_dir(bm.squares[m.from as int].color) * bm.width
}

/// Home square of the rook dragged along by a castling king move.
pub open spec fn castle_rook_from(m: MoveOp) -> int {
    if m.to < m.from {
        m.from - 4
    } else {
        m.from + 3
    }
}

/// Destination of the rook dragged along by a castling king move.
pub open spec fn castle_rook_to(m: MoveOp) -> int {
    if m.to < m.from {
        m.to + 1
    } else {
        m.to - 1
    }
}

/// What a `MoveOp` must satisfy for `apply_move` to run: indices on the
/// board, a piece to move, and — for the compound en-passant and castling
/// effects — the pieces those effects relocate or remove standing where
/// the flags claim. Legality is deliberately not required here: the
/// legality check is the caller's obligation, per the engine's contract.
pub open spec fn can_apply(bm: BoardModel, m: MoveOp) -> bool {
    let mover = bm.squares[m.from as int];
    &&& bm.width >= 1
    &&& m.from < bm.len()
    &&& m.to < bm.len()
    &&& m.from != m.to
    &&& mover.piece != PieceType::Empty
    &&& (m.set_enpassant.0 ==> m.set_enpassant.1 < bm.len())
    &&& (m.is_enpassant ==> {
        &&& !m.is_castle
        &&& bm.squares[m.to as int].piece == PieceType::Empty
        &&& 0 <= ep_capture_sq(bm, m) < bm.len()
        &&& ep_capture_sq(bm, m) != m.from
        &&& bm.squares[ep_capture_sq(bm, m)].piece == PieceType::Pawn
    })
    &&& ((m.is_castle && mover.piece == PieceType::King) ==> {
        &&& bm.squares[m.to as int].piece == PieceType::Empty
        &&& 0 <= castle_rook_from(m) < bm.len()
        &&& 0 <= castle_rook_to(m) < bm.len()
        &&& bm.squares[castle_rook_from(m)].piece == PieceType::Rook
        &&& bm.squares[castle_rook_to(m)].piece == PieceType::Empty
        &&& castle_rook_from(m) != m.from
        &&& castle_rook_from(m) != m.to
        &&& castle_rook_to(m) != m.from
        &&& castle_rook_to(m) != m.to
        &&& castle_rook_from(m) != castle_rook_to(m)
    })
    &&& (bm.to_play == Color::Black ==> bm.fullmove_number < 0xFFFF)
}

/// The castling rights left to the rook's side after a rook moves off
/// file 0 (queenside) or the last file (kingside).
pub open spec fn rook_rights_after(bm: BoardModel, m: MoveOp) -> ((bool, bool), (bool, bool)) {
    let col = bm.col_of(m.from as int);
    let kingside_gone = col == bm.width - 1;
    let queenside_gone = col == 0;
    if bm.squares[m.from as int].color == Color::White {
        (
            (bm.castling.0.0 && !kingside_gone, bm.castling.0.1 && !queenside_gone),
            bm.castling.1,
        )
    } else {
        (
            bm.castling.0,
            (bm.castling.1.0 && !kingside_gone, bm.castling.1.1 && !queenside_gone),
        )
    }
}

/// The exact state transition `apply_move` performs, in the order the
/// engine commits it: capture bookkeeping, en-passant removal, the
/// en-passant target for the next ply, castling-rights maintenance and
/// the castle rook relocation, the fifty-move countdown (reset to the
/// full budget of 50 on a capture or pawn move, else counted down toward
/// the draw, stopping at zero), the piece relocation itself, and the
/// turn flip with the fullmove count rising as play returns to White.
pub open spec fn spec_apply(bm: BoardModel, m: MoveOp) -> BoardModel {
    let mover = bm.squares[m.from as int];
    let capture = bm.squares[m.to as int].piece != PieceType::Empty || m.is_enpassant;
    let s1 = if m.is_enpassant {
        bm.squares.update(
            ep_capture_sq(bm, m),
            Square { color: bm.squares[ep_capture_sq(bm, m)].color, piece: PieceType::Empty },
        )
    } else {
        bm.squares
    };
    let s2 = if mover.piece == PieceType::King && m.is_castle {
        s1.update(castle_rook_to(m), s1[castle_rook_from(m)]).update(
            castle_rook_from(m),
            Square { color: s1[castle_rook_from(m)].color, piece: PieceType::Empty },
        )
    } else {
        s1
    };
    let s3 = s2.update(m.to as int, mover).update(
        m.from as int,
        Square { color: mover.color, piece: PieceType::Empty },
    );
    let castling = if mover.piece == PieceType::Rook {
        rook_rights_after(bm, m)
    } else if mover.piece == PieceType::King {
        if mover.color == Color::White {
            ((false, false), bm.castling.1)
        } else {
            (bm.castling.0, (false, false))
        }
    } else {
        bm.castling
    };
    let hc = if capture || mover.piece == PieceType::Pawn {
        50
    } else if bm.halfmove_clock > 0 {
        bm.halfmove_clock - 1
    } else {
        0
    };
    let res = if hc == 0 {
        GameResult::Draw50Moves
    } else {
        bm.result
    };
    let tp = if bm.to_play == Color::White {
        Color::Black
    } else {
        Color::White
    };
    let fm = if tp == Color::White {
        bm.fullmove_number + 1
    } else {
        bm.fullmove_number
    };
    BoardModel {
        squares: s3,
        to_play: tp,
        castling,
        en_passant: if m.set_enpassant.0 {
            (true, m.set_enpassant.1 as int)
        } else {
            (false, 0)
        },
        halfmove_clock: hc as int,
        fullmove_number: fm,
        result: res,
        ..bm
    }
}

/// A board whose piece-location index records, for every piece kind,
/// exactly the squares holding that kind, with no duplicates, satisfies
/// the synchronization invariant.
proof fn lemma_wf_from_characterization(b: &Board)
    requires
        b.dims_ok(),
        forall|p: PieceType, x: usize|
            p != PieceType::Empty ==> (#[trigger] b.piece_map.table(p).contains(x) <==> (x
                < b.squares@.len() && b.squares@[x as int].piece == p)),
        forall|p: PieceType| distinct(#[trigger] b.piece_map.table(p)),
    ensures
        b.wf(),
{
    let n = b.squares@.len();
    assert(n <= usize::MAX) by {
        assert(b.squares@.len() == b.squares.len());
    }
    assert forall|p: PieceType| p != PieceType::Empty implies b.table_wf(p) by {
        let t = b.piece_map.table(p);
        assert forall|j: int| 0 <= j < t.len() implies (#[trigger] t[j]) < n
            && b.squares@[t[j] as int].piece == p by {
            assert(t.contains(t[j]));
        }
        assert forall|i: int|
            0 <= i < n && (#[trigger] b.squares@[i]).piece == p
                implies b.piece_map.has_loc(p, i) by {
            let x = i as usize;
            assert(b.piece_map.table(p).contains(x));
            let j = choose|j: int| 0 <= j < t.len() && t[j] == x;
            assert(t[j] == i);
        }
    }
}

impl Board {
    /// Commit every piece-location-index effect of a move: the capture
    /// removal, the mover's relocation, the en-passant victim's removal
    /// and the castle rook's relocation. The squares themselves are not
    /// touched; afterwards the index already describes the squares the
    /// move will produce.
    fn index_apply(&mut self, moveop: MoveOp)
        requires
            old(self).wf(),
            can_apply(old(self)@, moveop),
        ensures
            final(self).squares@ == old(self).squares@,
            final(self).shape == old(self).shape,
            final(self).to_play == old(self).to_play,
            final(self).castling == old(self).castling,
            final(self).en_passant == old(self).en_passant,
            final(self).halfmove_clock == old(self).halfmove_clock,
            final(self).fullmove_number == old(self).fullmove_number,
            final(self).result == old(self).result,
            forall|p: PieceType, x: usize|
                p != PieceType::Empty ==> (#[trigger] final(self).piece_map.table(p).contains(x)
                    <==> (x < old(self).squares@.len()
                        && spec_apply(old(self)@, moveop).squares[x as int].piece == p)),
            forall|p: PieceType| distinct(#[trigger] final(self).piece_map.table(p)),
    {
        let ghost bm0 = old(self)@;
        let mover: Square = self.squares[moveop.from];
        let target: Square = self.squares[moveop.to];

        // an ordinary capture leaves the index first
        if target.piece != PieceType::Empty {
            proof {
                assert(old(self).table_wf(target.piece));
                assert(old(self).piece_map.has_loc(target.piece, moveop.to as int));
            }
            self.piece_map.remove_loc(target.piece, moveop.to);
        }
        let ghost t_cap = self.piece_map;

        // relocate the mover's index entry
        proof {
            assert(old(self).table_wf(mover.piece));
            assert(old(self).piece_map.has_loc(mover.piece, moveop.from as int));
            if t_cap.table(mover.piece).contains(moveop.to) {
                assert(old(self).piece_map.table(mover.piece).contains(moveop.to));
                assert(old(self).squares@[moveop.to as int].piece == mover.piece);
            }
        }
        self.piece_map.move_loc(mover.piece, moveop.from, moveop.to);
        let ghost t_mov = self.piece_map;

        // the en-passant victim is not at `to`: remove it separately
        if moveop.is_enpassant {
            proof {
                assert(self.squares@.len() == self.squares.len());
                assert(bm0.squares[moveop.from as int] == mover);
                if mover.color == Color::White {
                    assert(back_dir(mover.color) * bm0.width == bm0.width)
                        by (nonlinear_arith)
                        requires
                            back_dir(mover.color) == 1,
                    ;
                    assert(ep_capture_sq(bm0, moveop) == moveop.to + bm0.width);
                } else {
                    assert(back_dir(mover.color) * bm0.width == -bm0.width)
                        by (nonlinear_arith)
                        requires
                            back_dir(mover.color) == -1,
                    ;
                    assert(ep_capture_sq(bm0, moveop) == moveop.to - bm0.width);
                }
                assert(0 <= ep_capture_sq(bm0, moveop) < bm0.len());
            }
            let cap_sq: usize = if mover.color == Color::White {
                moveop.to + self.shape.1
            } else {
                moveop.to - self.shape.1
            };
            proof {
                assert(cap_sq == ep_capture_sq(bm0, moveop));
                assert(old(self).table_wf(PieceType::Pawn));
                assert(old(self).piece_map.has_loc(PieceType::Pawn, cap_sq as int));
                if mover.piece != PieceType::Pawn {
                    assert(t_mov.table(PieceType::Pawn) == t_cap.table(PieceType::Pawn));
                }
            }
            self.piece_map.remove_loc(PieceType::Pawn, cap_sq);
        }
        let ghost t_ep = self.piece_map;

        // a castling king move drags the paired rook's entry along
        if mover.piece == PieceType::King && moveop.is_castle {
            proof {
                assert(self.squares@.len() == self.squares.len());
            }
            let rook_from: usize;
            let rook_to: usize;
            if moveop.to < moveop.from {
                rook_from = moveop.from - 4;
                rook_to = moveop.to + 1;
            } else {
                rook_from = moveop.from + 3;
                rook_to = moveop.to - 1;
            }
            proof {
                assert(rook_from == castle_rook_from(moveop));
                assert(rook_to == castle_rook_to(moveop));
                assert(old(self).table_wf(PieceType::Rook));
                assert(old(self).piece_map.has_loc(PieceType::Rook, rook_from as int));
                assert(t_ep.table(PieceType::Rook) == old(self).piece_map.table(PieceType::Rook));
                if t_ep.table(PieceType::Rook).contains(rook_to) {
                    assert(old(self).squares@[rook_to as int].piece == PieceType::Rook);
                }
            }
            self.piece_map.move_loc(PieceType::Rook, rook_from, rook_to);
        }

        proof {
            let n = bm0.len();
            let sfin = spec_apply(bm0, moveop).squares;
            assert forall|p: PieceType, x: usize|
                p != PieceType::Empty implies (#[trigger] self.piece_map.table(p).contains(x)
                    <==> (x < n && sfin[x as int].piece == p)) by {
                assert(old(self).table_wf(p));
                let tw0 = old(self).piece_map.table(p);
                assert(tw0.contains(x) <==> (x < n && bm0.squares[x as int].piece == p)) by {
                    if tw0.contains(x) {
                        let j = choose|j: int| 0 <= j < tw0.len() && tw0[j] == x;
                        assert(tw0[j] < n && bm0.squares[tw0[j] as int].piece == p);
                    }
                    if x < n && bm0.squares[x as int].piece == p {
                        assert(old(self).piece_map.has_loc(p, x as int));
                        let j = choose|j: int| 0 <= j < tw0.len() && tw0[j] == x as int;
                        assert(tw0[j] == x);
                    }
                }
                assert(t_cap.table(p).contains(x) || !t_cap.table(p).contains(x));
                assert(t_mov.table(p).contains(x) || !t_mov.table(p).contains(x));
                assert(t_ep.table(p).contains(x) || !t_ep.table(p).contains(x));
            }
            assert forall|p: PieceType| distinct(#[trigger] self.piece_map.table(p)) by {
                if p != PieceType::Empty {
                    assert(old(self).table_wf(p));
                    assert(t_cap.table(p) == t_cap.table(p));
                    assert(t_mov.table(p) == t_mov.table(p));
                    assert(t_ep.table(p) == t_ep.table(p));
                }
            }
        }
    }

    /// Commit every square effect of a move: clear the en-passant
    /// victim's square, relocate the castle rook, move the mover to `to`
    /// and vacate `from`. Nothing else on the board changes.
    fn squares_apply(&mut self, moveop: MoveOp)
        requires
            old(self).dims_ok(),
            can_apply(old(self)@, moveop),
        ensures
            final(self).squares@ == spec_apply(old(self)@, moveop).squares,
            final(self).shape == old(self).shape,
            final(self).piece_map == old(self).piece_map,
            final(self).to_play == old(self).to_play,
            final(self).castling == old(self).castling,
            final(self).en_passant == old(self).en_passant,
            final(self).halfmove_clock == old(self).halfmove_clock,
            final(self).fullmove_number == old(self).fullmove_number,
            final(self).result == old(self).result,
    {
        let ghost bm0 = old(self)@;
        let mover: Square = self.squares[moveop.from];

        // the en-passant victim's square is cleared; it is not `to`
        if moveop.is_enpassant {
            proof {
                assert(self.squares@.len() == self.squares.len());
                assert(bm0.squares[moveop.from as int] == mover);
                if mover.color == Color::White {
                    assert(back_dir(mover.color) * bm0.width == bm0.width)
                        by (nonlinear_arith)
                        requires
                            back_dir(mover.color) == 1,
                    ;
                } else {
                    assert(back_dir(mover.color) * bm0.width == -bm0.width)
                        by (nonlinear_arith)
                        requires
                            back_dir(mover.color) == -1,
                    ;
                }
                assert(0 <= ep_capture_sq(bm0, moveop) < bm0.len());
            }
            let cap_sq: usize = if mover.color == Color::White {
                moveop.to + self.shape.1
            } else {
                moveop.to - self.shape.1
            };
            let cleared = Square { color: self.squares[cap_sq].color, piece: PieceType::Empty };
            self.squares.set(cap_sq, cleared);
        }

        // a castling king move drags the paired rook along
        if mover.piece == PieceType::King && moveop.is_castle {
            proof {
                assert(self.squares@.len() == self.squares.len());
            }
            let rook_from: usize;
            let rook_to: usize;
            if moveop.to < moveop.from {
                rook_from = moveop.from - 4;
                rook_to = moveop.to + 1;
            } else {
                rook_from = moveop.from + 3;
                rook_to = moveop.to - 1;
            }
            let rook_sq = self.squares[rook_from];
            self.squares.set(rook_to, rook_sq);
            let vacated = Square { color: rook_sq.color, piece: PieceType::Empty };
            self.squares.set(rook_from, vacated);
        }

        // the relocation itself
        self.squares.set(moveop.to, mover);
        let vacated_from = Square { color: mover.color, piece: PieceType::Empty };
        self.squares.set(moveop.from, vacated_from);

        proof {
            assert(self.squares@ =~= spec_apply(bm0, moveop).squares);
        }
    }

    /// Apply a move to this board in place. This is the sole mutator of
    /// a committed board; every effect of the move — captures, the
    /// en-passant removal, castling bookkeeping, the clocks and the turn
    /// — is committed here, exactly as `spec_apply` states, and the
    /// piece-location index stays synchronized with the squares.
    pub fn apply_move(&mut self, moveop: MoveOp)
        requires
            old(self).wf(),
            can_apply(old(self)@, moveop),
        ensures
            final(self).wf(),
            final(self)@ == spec_apply(old(self)@, moveop),
    {
        let ghost bm0 = old(self)@;
        let mover: Square = self.squares[moveop.from];
        let target: Square = self.squares[moveop.to];
        let capture: bool = target.piece != PieceType::Empty || moveop.is_enpassant;

        self.index_apply(moveop);
        proof {
            assert(self@ =~= bm0);
        }
        self.squares_apply(moveop);

        // every move clears or replaces the en-passant target
        self.en_passant = if moveop.set_enpassant.0 {
            (true, moveop.set_enpassant.1)
        } else {
            (false, 0)
        };

        // castling-rights maintenance, keyed off the mover's kind
        if mover.piece == PieceType::Rook {
            let col = moveop.from % self.shape.1;
            let kingside_gone = col == self.shape.1 - 1;
            let queenside_gone = col == 0;
            if mover.color == Color::White {
                self.castling = (
                    (self.castling.0.0 && !kingside_gone, self.castling.0.1 && !queenside_gone),
                    self.castling.1,
                );
            } else {
                self.castling = (
                    self.castling.0,
                    (self.castling.1.0 && !kingside_gone, self.castling.1.1 && !queenside_gone),
                );
            }
        } else if mover.piece == PieceType::King {
            if mover.color == Color::White {
                self.castling = ((false, false), self.castling.1);
            } else {
                self.castling = (self.castling.0, (false, false));
            }
        }

        // fifty-move countdown: a capture or pawn move restores the full
        // budget; anything else counts it down toward the draw at zero
        if capture || mover.piece == PieceType::Pawn {
            self.halfmove_clock = 50;
        } else if self.halfmove_clock > 0 {
            self.halfmove_clock = self.halfmove_clock - 1;
        }
        if self.halfmove_clock == 0 {
            self.result = GameResult::Draw50Moves;
        }

        self.to_play = match self.to_play {
            Color::Black => Color::White,
            Color::White => Color::Black,
        };
        if self.to_play == Color::White {
            self.fullmove_number = self.fullmove_number + 1;
        }

        proof {
            let sfin = spec_apply(bm0, moveop);
            assert(self@ =~= sfin);
            assert(self.squares@.len() == self.squares.len());
            assert forall|p: PieceType, x: usize|
                p != PieceType::Empty implies (#[trigger] self.piece_map.table(p).contains(x)
                    <==> (x < self.squares@.len() && self.squares@[x as int].piece == p)) by {
                assert(self.piece_map.table(p).contains(x) <==> (x < bm0.squares.len()
                    && sfin.squares[x as int].piece == p));
            }
            lemma_wf_from_characterization(self);
        }
    }

    /// Apply a move to a copy of this board, leaving the board itself
    /// untouched: the concurrency-safe variant legality testing uses.
    pub fn apply_move_nomut(&self, moveop: MoveOp) -> (r: Self)
        requires
            self.wf(),
            can_apply(self@, moveop),
        ensures
            r.wf(),
            r@ == spec_apply(self@, moveop),
    {
        let mut child = self.duplicate();
        child.apply_move(moveop);
        child
    }
}


/// Any king move clears both of the mover's castling rights, whether
/// or not the move is itself a castle.
pub proof fn lemma_king_move_clears_rights(bm: BoardModel, mv: MoveOp)
    requires
        mv.from < bm.len(),
        bm.squares[mv.from as int].piece == PieceType::King,
    ensures
        bm.squares[mv.from as int].color == Color::White ==> spec_apply(bm, mv).castling.0 == (
        false,
        false,
        ),
        bm.squares[mv.from as int].color == Color::Black ==> spec_apply(bm, mv).castling.1 == (
        false,
        false,
        ),
{
}

/// A move that is neither a capture nor a pawn move never resets the
/// fifty-move countdown, only counts it down; and the fullmove number
/// rises exactly when Black moves.
pub proof fn lemma_move_bookkeeping(bm: BoardModel, mv: MoveOp)
    ensures
        (bm.squares[mv.to as int].piece == PieceType::Empty && !mv.is_enpassant
            && bm.squares[mv.from as int].piece != PieceType::Pawn) ==> spec_apply(
            bm,
            mv,
        ).halfmove_clock == (if bm.halfmove_clock > 0 {
            bm.halfmove_clock - 1
        } else {
            0
        }),
        bm.to_play == Color::Black ==> spec_apply(bm, mv).fullmove_number == bm.fullmove_number
            + 1,
        bm.to_play == Color::White ==> spec_apply(bm, mv).fullmove_number == bm.fullmove_number,
{
}

} // verus!
