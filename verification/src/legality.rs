//! Legality filtering: a pseudo-legal candidate is legal when applying
//! it leaves the mover's king on no square the opponent can reach.

use vstd::prelude::*;
use crate::board::{Board, BoardModel, Color, MoveOp, PieceType};
use crate::board::distinct;
use crate::moves::{back_dir, can_apply, ep_capture_sq, lemma_idx_in_bounds, lemma_rc_to_idx,
    lemma_row_col, spec_apply};
use crate::generate::{basic_move, double_move, ep_move, jump_ok, king_delta, knight_delta,
    pawn_adv1_ok, pawn_adv2_ok, pawn_cap_at, pawn_cap_ok, pawn_dir, pawn_ep_at, pawn_ep_ok,
    pseudo_move_ok, ray_reaches, ray_reaches_n, slide_dir_ok};
use crate::generate::{lemma_mul_unit, lemma_push_members, lemma_rc_idx_bound};

verus! {

/// Distinct on-board rank-and-file pairs give distinct board indices.
proof fn lemma_idx_injective(bm: BoardModel, r1: int, c1: int, r2: int, c2: int)
    requires
        bm.width >= 1,
        bm.rc_in_bounds(r1, c1),
        bm.rc_in_bounds(r2, c2),
        !(r1 == r2 && c1 == c2),
    ensures
        bm.idx(r1, c1) != bm.idx(r2, c2),
{
    lemma_rc_to_idx(bm.width, r1, c1);
    lemma_rc_to_idx(bm.width, r2, c2);
}

/// A board index decomposes as the index of its own rank and file.
proof fn lemma_self_idx(bm: BoardModel, i: int)
    requires
        bm.width >= 1,
        0 <= i,
    ensures
        i == bm.idx(bm.row_of(i), bm.col_of(i)),
        0 <= bm.col_of(i) < bm.width,
        0 <= bm.row_of(i),
{
    lemma_row_col(bm.width, i);
}

/// An active en-passant target that a position's own data supports: the
/// target square is on the board and empty, and the pawn to be captured
/// stands one rank behind it. A position parsed from arbitrary notation
/// need not satisfy this; legality filtering demands it.
pub open spec fn ep_consistent(bm: BoardModel) -> bool {
    bm.en_passant.0 ==> {
        let t = bm.en_passant.1;
        let capsq = t + back_dir(bm.to_play) * bm.width;
        &&& 0 <= t < bm.len()
        &&& !bm.occupied(t)
        &&& 0 <= capsq < bm.len()
        &&& bm.squares[capsq].piece == PieceType::Pawn
    }
}

/// Index `i` holds a king of color `c`.
pub open spec fn king_at(bm: BoardModel, i: int, c: Color) -> bool {
    &&& 0 <= i < bm.len()
    &&& bm.squares[i].piece == PieceType::King
    &&& bm.squares[i].color == c
}

/// Exactly one square holds a king of color `c`.
pub open spec fn has_unique_king(bm: BoardModel, c: Color) -> bool {
    &&& exists|i: int| king_at(bm, i, c)
    &&& forall|i: int, j: int| king_at(bm, i, c) && king_at(bm, j, c) ==> i == j
}

/// The square holding the king of color `c`.
pub open spec fn king_sq(bm: BoardModel, c: Color) -> int {
    choose|i: int| king_at(bm, i, c)
}

/// Some pseudo-legal move of the side to move lands on square `t`.
pub open spec fn square_attacked(bm: BoardModel, t: int) -> bool {
    exists|mv: MoveOp| pseudo_move_ok(bm, mv) && mv.to == t
}

/// `mv` is a legal move on `bm`: pseudo-legal, and after applying it
/// the mover's king does not stand on any square the opponent's
/// pseudo-legal moves can reach.
pub open spec fn legal_move_ok(bm: BoardModel, mv: MoveOp) -> bool {
    &&& pseudo_move_ok(bm, mv)
    &&& !square_attacked(spec_apply(bm, mv), king_sq(spec_apply(bm, mv), bm.to_play))
}

/// Every pseudo-legal move can be applied: the move application's
/// preconditions follow from the movement rules, provided the
/// position's en-passant data is consistent and the fullmove counter
/// has room.
pub proof fn lemma_pseudo_can_apply(bm: BoardModel, mv: MoveOp)
    requires
        bm.width >= 1,
        bm.height >= 1,
        bm.len() == bm.height * bm.width,
        pseudo_move_ok(bm, mv),
        ep_consistent(bm),
        bm.to_play == Color::Black ==> bm.fullmove_number < 0xFFFF,
    ensures
        can_apply(bm, mv),
{
    let from = mv.from as int;
    let to = mv.to as int;
    let r0 = bm.row_of(from);
    let c0 = bm.col_of(from);
    lemma_self_idx(bm, from);
    lemma_idx_in_bounds(bm.width, bm.height, from);
    let piece = bm.squares[from].piece;
    let c = bm.to_play;
    match piece {
        PieceType::Rook | PieceType::Bishop | PieceType::Queen => {
            let (dr, dc) = choose|dr: int, dc: int|
                slide_dir_ok(piece, dr, dc) && ray_reaches(bm, from, dr, dc, to);
            let n = choose|n: int| ray_reaches_n(bm, from, dr, dc, to, n);
            lemma_mul_unit(n, dr);
            lemma_mul_unit(n, dc);
            lemma_rc_idx_bound(bm.height, bm.width, r0 + n * dr, c0 + n * dc);
            lemma_idx_injective(bm, r0 + n * dr, c0 + n * dc, r0, c0);
        },
        PieceType::Knight => {
            let (dr, dc) = choose|dr: int, dc: int|
                knight_delta(dr, dc) && jump_ok(bm, from, dr, dc, to);
            lemma_rc_idx_bound(bm.height, bm.width, r0 + dr, c0 + dc);
            lemma_idx_injective(bm, r0 + dr, c0 + dc, r0, c0);
        },
        PieceType::King => {
            let (dr, dc) = choose|dr: int, dc: int|
                king_delta(dr, dc) && jump_ok(bm, from, dr, dc, to);
            lemma_rc_idx_bound(bm.height, bm.width, r0 + dr, c0 + dc);
            lemma_idx_injective(bm, r0 + dr, c0 + dc, r0, c0);
        },
        PieceType::Pawn => {
            let d = pawn_dir(c);
            if mv == basic_move(mv.from, mv.to) && pawn_adv1_ok(bm, c, from, to) {
                lemma_rc_idx_bound(bm.height, bm.width, r0 + d, c0);
                lemma_idx_injective(bm, r0 + d, c0, r0, c0);
            } else if mv == basic_move(mv.from, mv.to) && pawn_cap_ok(bm, c, from, to) {
                let s = choose|s: int| (s == 1 || s == -1) && pawn_cap_at(bm, c, from, to, s);
                lemma_rc_idx_bound(bm.height, bm.width, r0 + d, c0 + s);
                lemma_idx_injective(bm, r0 + d, c0 + s, r0, c0);
            } else if mv == ep_move(mv.from, mv.to) && pawn_ep_ok(bm, c, from, to) {
                let s = choose|s: int| (s == 1 || s == -1) && pawn_ep_at(bm, c, from, to, s);
                lemma_rc_idx_bound(bm.height, bm.width, r0 + d, c0 + s);
                lemma_idx_injective(bm, r0 + d, c0 + s, r0, c0);
                // the captured pawn stands beside the mover, one file over
                assert(to == bm.idx(r0 + d, c0 + s));
                assert(back_dir(c) == -d);
                assert(ep_capture_sq(bm, mv) == to + back_dir(c) * bm.width);
                assert(back_dir(c) * bm.width == -d * bm.width) by (nonlinear_arith)
                    requires
                        back_dir(c) == -d,
                ;
                assert(d * bm.width == d * bm.width);
                lemma_mul_unit(bm.width, d);
                assert(ep_capture_sq(bm, mv) == bm.idx(r0, c0 + s)) by {
                    assert(bm.idx(r0 + d, c0 + s) == (r0 + d) * bm.width + (c0 + s));
                    assert((r0 + d) * bm.width == r0 * bm.width + d * bm.width)
                        by (nonlinear_arith);
                    assert(d == 1 ==> -d * bm.width == -(d * bm.width)) by (nonlinear_arith);
                    assert(d == -1 ==> -d * bm.width == -(d * bm.width)) by (nonlinear_arith);
                }
                lemma_rc_idx_bound(bm.height, bm.width, r0, c0 + s);
                lemma_idx_injective(bm, r0, c0 + s, r0, c0);
                assert(ep_capture_sq(bm, mv) == bm.en_passant.1 + back_dir(bm.to_play)
                    * bm.width);
            } else {
                assert(mv == double_move(mv.from, mv.to, bm.idx(r0 + d, c0)) && pawn_adv2_ok(
                    bm,
                    c,
                    from,
                    to,
                ));
                lemma_rc_idx_bound(bm.height, bm.width, r0 + d, c0);
                lemma_rc_idx_bound(bm.height, bm.width, r0 + 2 * d, c0);
                lemma_idx_injective(bm, r0 + 2 * d, c0, r0, c0);
            }
        },
        PieceType::Empty => {},
    }
}

/// Applying a pseudo-legal move never removes the mover's own king: the
/// position keeps exactly one king of the moving color, standing where
/// the move left it.
pub proof fn lemma_mover_king_preserved(bm: BoardModel, mv: MoveOp)
    requires
        bm.width >= 1,
        bm.height >= 1,
        bm.len() == bm.height * bm.width,
        pseudo_move_ok(bm, mv),
        can_apply(bm, mv),
        has_unique_king(bm, bm.to_play),
    ensures
        has_unique_king(spec_apply(bm, mv), bm.to_play),
        king_sq(spec_apply(bm, mv), bm.to_play) == (if bm.squares[mv.from as int].piece
            == PieceType::King {
            mv.to as int
        } else {
            king_sq(bm, bm.to_play)
        }),
{
    let c = bm.to_play;
    let from = mv.from as int;
    let to = mv.to as int;
    let nbm = spec_apply(bm, mv);
    let k0 = king_sq(bm, c);
    assert(king_at(bm, k0, c)) by {
        let i = choose|i: int| king_at(bm, i, c);
        assert(king_at(bm, i, c));
    }
    assert(!mv.is_castle);
    assert(nbm.squares.len() == bm.squares.len());
    if bm.squares[from].piece == PieceType::King {
        assert(king_at(bm, from, c));
        assert(k0 == from);
        assert(king_at(nbm, to, c));
        assert forall|j: int| king_at(nbm, j, c) implies j == to by {
            if j != to && j != from {
                if mv.is_enpassant && j == ep_capture_sq(bm, mv) {
                } else {
                    assert(nbm.squares[j] == bm.squares[j]);
                    assert(king_at(bm, j, c));
                }
            }
        }
        assert(king_sq(nbm, c) == to) by {
            assert(king_at(nbm, to, c));
            let i = choose|i: int| king_at(nbm, i, c);
            assert(king_at(nbm, i, c));
        }
    } else {
        assert(k0 != from);
        assert(k0 != to) by {
            if k0 == to {
                assert(bm.occupied(to) && bm.squares[to].color == c);
            }
        }
        assert(king_at(nbm, k0, c)) by {
            if mv.is_enpassant && k0 == ep_capture_sq(bm, mv) {
                assert(bm.squares[k0].piece == PieceType::Pawn);
            }
            assert(nbm.squares[k0] == bm.squares[k0]);
        }
        assert forall|j: int| king_at(nbm, j, c) implies j == k0 by {
            if j != to && j != from {
                if mv.is_enpassant && j == ep_capture_sq(bm, mv) {
                } else {
                    assert(nbm.squares[j] == bm.squares[j]);
                    assert(king_at(bm, j, c));
                }
            }
        }
        assert(king_sq(nbm, c) == k0) by {
            assert(king_at(nbm, k0, c));
            let i = choose|i: int| king_at(nbm, i, c);
            assert(king_at(nbm, i, c));
        }
    }
}


impl Board {
    /// The legal moves of the side to move: every pseudo-legal
    /// candidate that, applied to a copy of the board, leaves the
    /// mover's king on no square the opponent's pseudo-legal moves can
    /// reach. The position must carry consistent en-passant data and
    /// exactly one king of the moving color.
    pub fn get_legal_moves(&self) -> (r: Vec<MoveOp>)
        requires
            self.wf(),
            ep_consistent(self@),
            has_unique_king(self@, self@.to_play),
            self@.to_play == Color::Black ==> self@.fullmove_number < 0xFFFF,
        ensures
            forall|mv: MoveOp| #[trigger] r@.contains(mv) <==> legal_move_ok(self@, mv),
    {
        let ghost bm = self@;
        let candidates = self.get_all_moves();
        let n = candidates.len();
        let mut moves: Vec<MoveOp> = Vec::new();
        let mut i: usize = 0;
        while i < n
            invariant
                self.wf(),
                bm == self@,
                ep_consistent(bm),
                has_unique_king(bm, bm.to_play),
                bm.to_play == Color::Black ==> bm.fullmove_number < 0xFFFF,
                n == candidates@.len(),
                i <= n,
                forall|mv: MoveOp| #[trigger] candidates@.contains(mv) <==> pseudo_move_ok(bm, mv),
                forall|mv: MoveOp| #[trigger] moves@.contains(mv) <==> ((exists|j: int|
                    0 <= j < i && #[trigger] candidates@[j] == mv) && legal_move_ok(bm, mv)),
            decreases n - i,
        {
            let m = candidates[i];
            proof {
                assert(candidates@.contains(candidates@[i as int]));
                assert(pseudo_move_ok(bm, m));
                lemma_pseudo_can_apply(bm, m);
                lemma_mover_king_preserved(bm, m);
            }
            let newboard = self.apply_move_nomut(m);
            let ghost cbm = spec_apply(bm, m);
            let ghost c = bm.to_play;
            let kings = newboard.get_table_colored(PieceType::King, self.to_play);
            proof {
                let k = king_sq(cbm, c);
                assert(king_at(cbm, k, c)) by {
                    let i2 = choose|i2: int| king_at(cbm, i2, c);
                    assert(king_at(cbm, i2, c));
                }
                assert(newboard@ == cbm);
                assert(newboard.squares@.len() == newboard.squares.len());
                assert(kings@.contains(k as usize));
                assert forall|j: int| 0 <= j < kings@.len() implies kings@[j] == k by {
                    assert(kings@.contains(kings@[j]));
                    assert(king_at(cbm, kings@[j] as int, c));
                }
                if kings@.len() == 0 {
                    assert(!kings@.contains(k as usize));
                }
                if kings@.len() >= 2 {
                    assert(kings@[0] == k && kings@[1] == k);
                    assert(distinct(kings@));
                }
                assert(kings@.len() == 1);
            }
            let kingloc = kings[0];
            let opp = newboard.get_all_moves();
            let on = opp.len();
            let mut attacked: bool = false;
            let mut j: usize = 0;
            while j < on
                invariant
                    on == opp@.len(),
                    j <= on,
                    forall|mv: MoveOp| #[trigger] opp@.contains(mv) <==> pseudo_move_ok(cbm, mv),
                    kingloc as int == king_sq(cbm, c),
                    attacked ==> square_attacked(cbm, kingloc as int),
                    !attacked ==> forall|jj: int|
                        0 <= jj < j ==> (#[trigger] opp@[jj]).to != kingloc,
                decreases on - j,
            {
                if opp[j].to == kingloc {
                    proof {
                        assert(opp@.contains(opp@[j as int]));
                        assert(pseudo_move_ok(cbm, opp@[j as int]));
                        assert(square_attacked(cbm, kingloc as int));
                    }
                    attacked = true;
                }
                j = j + 1;
            }
            proof {
                if !attacked {
                    if square_attacked(cbm, kingloc as int) {
                        let amv = choose|amv: MoveOp|
                            pseudo_move_ok(cbm, amv) && amv.to == kingloc as int;
                        assert(opp@.contains(amv));
                        let jj = choose|jj: int| 0 <= jj < opp@.len() && opp@[jj] == amv;
                        assert(opp@[jj].to != kingloc);
                        assert(false);
                    }
                    assert(legal_move_ok(bm, m));
                } else {
                    assert(!legal_move_ok(bm, m));
                }
            }
            let ghost ms0 = moves@;
            if !attacked {
                moves.push(m);
            }
            proof {
                if !attacked {
                    lemma_push_members(ms0, m, moves@);
                }
                assert forall|mv: MoveOp| #[trigger] moves@.contains(mv) <==> ((exists|j2: int|
                    0 <= j2 < i + 1 && #[trigger] candidates@[j2] == mv) && legal_move_ok(
                    bm,
                    mv,
                )) by {
                    if moves@.contains(mv) {
                        if !attacked && mv == m {
                            assert(candidates@[i as int] == mv);
                        } else {
                            assert(ms0.contains(mv));
                            let j2 = choose|j2: int| 0 <= j2 < i && candidates@[j2] == mv;
                            assert(0 <= j2 < i + 1 && candidates@[j2] == mv);
                        }
                    }
                    if (exists|j2: int| 0 <= j2 < i + 1 && #[trigger] candidates@[j2] == mv)
                        && legal_move_ok(bm, mv) {
                        let j2 = choose|j2: int| 0 <= j2 < i + 1 && candidates@[j2] == mv;
                        if j2 < i {
                            assert(ms0.contains(mv));
                            if attacked {
                                assert(moves@ == ms0);
                            }
                        } else {
                            assert(mv == m);
                            assert(!attacked);
                        }
                    }
                }
            }
            i = i + 1;
        }
        proof {
            assert forall|mv: MoveOp| #[trigger] moves@.contains(mv) <==> legal_move_ok(
                bm,
                mv,
            ) by {
                if moves@.contains(mv) {
                }
                if legal_move_ok(bm, mv) {
                    assert(pseudo_move_ok(bm, mv));
                    assert(candidates@.contains(mv));
                    let j = choose|j: int| 0 <= j < candidates@.len() && candidates@[j] == mv;
                    assert(0 <= j < n && candidates@[j] == mv);
                }
            }
        }
        moves
    }
}


/// Every legal move can be applied, so any sequence of legal moves
/// applied from a well-formed position keeps the board well-formed:
/// `get_legal_moves` yields only moves satisfying `legal_move_ok`, this
/// lemma turns each into an applicable move, and `apply_move`
/// re-establishes the synchronization invariant.
pub proof fn lemma_legal_can_apply(bm: BoardModel, mv: MoveOp)
    requires
        bm.width >= 1,
        bm.height >= 1,
        bm.len() == bm.height * bm.width,
        ep_consistent(bm),
        bm.to_play == Color::Black ==> bm.fullmove_number < 0xFFFF,
        legal_move_ok(bm, mv),
    ensures
        can_apply(bm, mv),
{
    lemma_pseudo_can_apply(bm, mv);
}


} // verus!
