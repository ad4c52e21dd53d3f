//! Pseudo-legal move generation, one generator per piece family, each
//! with an exact membership contract: a move is produced if and only if
//! the piece's movement rule admits it.

use vstd::prelude::*;
use crate::board::{Board, BoardModel, Color, MoveOp, PieceType};
use crate::board::distinct;
use crate::moves::{lemma_idx_in_bounds, lemma_rc_to_idx};

verus! {

/// A quiet or capturing transition between two squares, with every
/// compound flag cleared: the shape of all generated non-pawn moves and
/// of plain pawn moves.
pub open spec fn basic_move(from: usize, to: usize) -> MoveOp {
    MoveOp {
        from,
        to,
        is_enpassant: false,
        is_castle: false,
        set_enpassant: (false, 0),
        promote: PieceType::Empty,
    }
}

/// The direction steps a sliding piece of kind `p` may take: the four
/// rank-and-file units for a rook, the four diagonal units for a bishop,
/// and their union for a queen.
pub open spec fn slide_dir_ok(p: PieceType, dr: int, dc: int) -> bool {
    &&& -1 <= dr <= 1
    &&& -1 <= dc <= 1
    &&& !(dr == 0 && dc == 0)
    &&& match p {
        PieceType::Rook => dr == 0 || dc == 0,
        PieceType::Bishop => dr != 0 && dc != 0,
        PieceType::Queen => true,
        _ => false,
    }
}

/// The board index `k` steps from `from` along direction `(dr, dc)`.
pub open spec fn ray_step_idx(bm: BoardModel, from: int, dr: int, dc: int, k: int) -> int {
    bm.idx(bm.row_of(from) + k * dr, bm.col_of(from) + k * dc)
}

/// The first `n` steps of the ray from `from` along `(dr, dc)` all lie
/// on the board and are empty.
pub open spec fn ray_prefix_clear(bm: BoardModel, from: int, dr: int, dc: int, n: int) -> bool
    decreases n,
{
    n < 1 || (ray_prefix_clear(bm, from, dr, dc, n - 1) && bm.rc_in_bounds(
        bm.row_of(from) + n * dr,
        bm.col_of(from) + n * dc,
    ) && !bm.occupied(ray_step_idx(bm, from, dr, dc, n)))
}

/// A clear prefix stays clear when shortened.
proof fn lemma_prefix_clear_mono(bm: BoardModel, from: int, dr: int, dc: int, n: int, m: int)
    requires
        ray_prefix_clear(bm, from, dr, dc, n),
        m <= n,
    ensures
        ray_prefix_clear(bm, from, dr, dc, m),
    decreases n - m,
{
    if m < n {
        lemma_prefix_clear_mono(bm, from, dr, dc, n - 1, m);
    }
}

/// Each step of a clear prefix lies on the board and is empty.
proof fn lemma_prefix_clear_at(bm: BoardModel, from: int, dr: int, dc: int, n: int, k: int)
    requires
        ray_prefix_clear(bm, from, dr, dc, n),
        1 <= k <= n,
    ensures
        bm.rc_in_bounds(bm.row_of(from) + k * dr, bm.col_of(from) + k * dc),
        !bm.occupied(ray_step_idx(bm, from, dr, dc, k)),
    decreases n,
{
    if k < n {
        lemma_prefix_clear_at(bm, from, dr, dc, n - 1, k);
    }
}

/// A clear prefix extends by one step when that step lies on the board
/// and is empty.
proof fn lemma_prefix_clear_extend(bm: BoardModel, from: int, dr: int, dc: int, n: int)
    requires
        n >= 0,
        ray_prefix_clear(bm, from, dr, dc, n),
        bm.rc_in_bounds(bm.row_of(from) + (n + 1) * dr, bm.col_of(from) + (n + 1) * dc),
        !bm.occupied(ray_step_idx(bm, from, dr, dc, n + 1)),
    ensures
        ray_prefix_clear(bm, from, dr, dc, n + 1),
{
}

/// Target `to` is the `n`-th step of an unobstructed ray from `from`
/// along `(dr, dc)`: every earlier step lies on the board and is empty,
/// the `n`-th step lies on the board, and the target does not hold a
/// piece of the mover's own color. Walking by rank-and-file steps can
/// never wrap around a board edge.
pub open spec fn ray_reaches_n(
    bm: BoardModel,
    from: int,
    dr: int,
    dc: int,
    to: int,
    n: int,
) -> bool {
    let r0 = bm.row_of(from);
    let c0 = bm.col_of(from);
    &&& n >= 1
    &&& bm.rc_in_bounds(r0 + n * dr, c0 + n * dc)
    &&& to == ray_step_idx(bm, from, dr, dc, n)
    &&& ray_prefix_clear(bm, from, dr, dc, n - 1)
    &&& !(bm.occupied(to) && bm.squares[to].color == bm.squares[from].color)
}

/// Target `to` is reachable from `from` along direction `(dr, dc)`.
pub open spec fn ray_reaches(bm: BoardModel, from: int, dr: int, dc: int, to: int) -> bool {
    exists|n: int| ray_reaches_n(bm, from, dr, dc, to, n)
}

/// Target `to` is a valid sliding destination for a piece of kind `p`
/// standing at `from`.
pub open spec fn slide_to_ok(bm: BoardModel, p: PieceType, from: int, to: int) -> bool {
    exists|dr: int, dc: int| slide_dir_ok(p, dr, dc) && ray_reaches(bm, from, dr, dc, to)
}

/// Stepping a product one unit distributes.
proof fn lemma_mul_succ(n: int, d: int)
    ensures
        (n + 1) * d == n * d + d,
{
    assert((n + 1) * d == n * d + d) by (nonlinear_arith);
}

/// A product with a unit factor collapses.
pub(crate) proof fn lemma_mul_unit(m: int, d: int)
    ensures
        d == 1 ==> m * d == m,
        d == 0 ==> m * d == 0,
        d == -1 ==> m * d == -m,
{
    assert(d == 1 ==> m * d == m) by (nonlinear_arith);
    assert(d == 0 ==> m * d == 0) by (nonlinear_arith);
    assert(d == -1 ==> m * d == -m) by (nonlinear_arith);
}

/// A rank-and-file pair on the board maps to an index below the square
/// count.
pub(crate) proof fn lemma_rc_idx_bound(h: int, w: int, r: int, c: int)
    requires
        h >= 1,
        w >= 1,
        0 <= r < h,
        0 <= c < w,
    ensures
        0 <= r * w + c < h * w,
        (r * w + c) / w == r,
        (r * w + c) % w == c,
{
    assert(0 <= r * w + c < h * w) by (nonlinear_arith)
        requires
            h >= 1,
            w >= 1,
            0 <= r < h,
            0 <= c < w,
    ;
    lemma_rc_to_idx(w, r, c);
}

impl Board {
    /// Walk one ray from `start` along `(dr, dc)`, appending a move for
    /// every reachable square: quiet moves over empty squares until the
    /// first occupied square, which yields a capture if enemy-colored
    /// and nothing if own-colored. The walk steps by rank and file, so
    /// it can never wrap around a board edge.
    #[verifier::rlimit(100)]
    fn slide_ray(&self, start: usize, dr: i8, dc: i8, moves: &mut Vec<MoveOp>)
        requires
            self.wf(),
            (start as int) < self@.len(),
            -1 <= dr as int <= 1,
            -1 <= dc as int <= 1,
            !(dr as int == 0 && dc as int == 0),
        ensures
            forall|mv: MoveOp| #[trigger] final(moves)@.contains(mv) <==> (old(moves)@.contains(mv)
                || (mv == basic_move(start, mv.to)
                    && ray_reaches(self@, start as int, dr as int, dc as int, mv.to as int))),
    {
        let ghost bm = self@;
        let ghost dri = dr as int;
        let ghost dci = dc as int;
        let w = self.shape.1;
        let h = self.shape.0;
        proof {
            assert(self.squares@.len() == self.squares.len());
            lemma_idx_in_bounds(w as int, h as int, start as int);
        }
        let mut r = start / w;
        let mut c = start % w;
        let mcolor = self.squares[start].color;
        let ghost r0 = r as int;
        let ghost c0 = c as int;
        let ghost mut n: int = 0;
        loop
            invariant_except_break
                forall|mv: MoveOp| #[trigger] moves@.contains(mv) <==> (old(moves)@.contains(mv)
                    || (mv == basic_move(start, mv.to) && exists|k: int|
                        1 <= k <= n && mv.to == ray_step_idx(bm, start as int, dri, dci, k))),
            invariant
                self.wf(),
                bm == self@,
                w == self.shape.1,
                h == self.shape.0,
                w >= 1,
                h >= 1,
                (start as int) < bm.len(),
                bm.len() == h * w,
                bm.len() <= usize::MAX,
                dri == dr as int,
                dci == dc as int,
                -1 <= dri <= 1,
                -1 <= dci <= 1,
                !(dri == 0 && dci == 0),
                r0 == bm.row_of(start as int),
                c0 == bm.col_of(start as int),
                mcolor == bm.squares[start as int].color,
                n >= 0,
                r as int == r0 + n * dri,
                c as int == c0 + n * dci,
                r < h,
                c < w,
                ray_prefix_clear(bm, start as int, dri, dci, n),
            ensures
                forall|mv: MoveOp| #[trigger] moves@.contains(mv) <==> (old(moves)@.contains(mv)
                    || (mv == basic_move(start, mv.to)
                        && ray_reaches(bm, start as int, dri, dci, mv.to as int))),
            decreases (if dri > 0 { h - r } else if dri < 0 { r as int } else if dci > 0 { w - c } else { c as int }),
        {
            let nr: usize;
            let nc: usize;
            if dr < 0 {
                if r == 0 {
                    proof {
                        lemma_ray_exit_oob(bm, start as int, dri, dci, n, r0, c0, old(moves)@, moves@);
                    }
                    break;
                }
                nr = r - 1;
            } else if dr > 0 {
                if r + 1 >= h {
                    proof {
                        lemma_ray_exit_oob(bm, start as int, dri, dci, n, r0, c0, old(moves)@, moves@);
                    }
                    break;
                }
                nr = r + 1;
            } else {
                nr = r;
            }
            if dc < 0 {
                if c == 0 {
                    proof {
                        lemma_ray_exit_oob(bm, start as int, dri, dci, n, r0, c0, old(moves)@, moves@);
                    }
                    break;
                }
                nc = c - 1;
            } else if dc > 0 {
                if c + 1 >= w {
                    proof {
                        lemma_ray_exit_oob(bm, start as int, dri, dci, n, r0, c0, old(moves)@, moves@);
                    }
                    break;
                }
                nc = c + 1;
            } else {
                nc = c;
            }
            proof {
                lemma_mul_succ(n, dri);
                lemma_mul_succ(n, dci);
                assert(nr as int == r0 + (n + 1) * dri);
                assert(nc as int == c0 + (n + 1) * dci);
                lemma_rc_idx_bound(h as int, w as int, nr as int, nc as int);
            }
            let t = nr * w + nc;
            proof {
                assert(t as int == ray_step_idx(bm, start as int, dri, dci, n + 1));
            }
            let sq = self.squares[t];
            if sq.piece == PieceType::Empty {
                let mv = MoveOp {
                    from: start,
                    to: t,
                    is_enpassant: false,
                    is_castle: false,
                    set_enpassant: (false, 0),
                    promote: PieceType::Empty,
                };
                let ghost ms0 = moves@;
                moves.push(mv);
                proof {
                    assert forall|m2: MoveOp| #[trigger] moves@.contains(m2) <==> (
                        old(moves)@.contains(m2) || (m2 == basic_move(start, m2.to)
                            && exists|k: int|
                            1 <= k <= n + 1 && m2.to == ray_step_idx(
                                bm,
                                start as int,
                                dri,
                                dci,
                                k,
                            ))) by {
                        if moves@.contains(m2) {
                            let j = choose|j: int| 0 <= j < moves@.len() && moves@[j] == m2;
                            if j < ms0.len() {
                                assert(ms0[j] == m2);
                                assert(ms0.contains(m2));
                            } else {
                                assert(m2 == mv);
                                assert(m2.to == ray_step_idx(bm, start as int, dri, dci, n + 1));
                            }
                        }
                        if old(moves)@.contains(m2) {
                            assert(ms0.contains(m2));
                            let j = choose|j: int| 0 <= j < ms0.len() && ms0[j] == m2;
                            assert(moves@[j] == m2);
                        }
                        if m2 == basic_move(start, m2.to) && exists|k: int|
                            1 <= k <= n + 1 && m2.to == ray_step_idx(bm, start as int, dri, dci, k) {
                            let k = choose|k: int|
                                1 <= k <= n + 1 && m2.to == ray_step_idx(bm, start as int, dri, dci, k);
                            if k <= n {
                                assert(ms0.contains(m2));
                                let j = choose|j: int| 0 <= j < ms0.len() && ms0[j] == m2;
                                assert(moves@[j] == m2);
                            } else {
                                assert(m2.to == t);
                                assert(m2 == mv);
                                assert(moves@[moves@.len() - 1] == mv);
                            }
                        }
                    }
                    lemma_prefix_clear_extend(bm, start as int, dri, dci, n);
                    n = n + 1;
                }
                r = nr;
                c = nc;
            } else if sq.color == mcolor {
                proof {
                    assert forall|mv: MoveOp| #[trigger] moves@.contains(mv) <==> (
                        old(moves)@.contains(mv) || (mv == basic_move(start, mv.to)
                            && ray_reaches(bm, start as int, dri, dci, mv.to as int))) by {
                        lemma_ray_stops_blocked(bm, start as int, dri, dci, n, r0, c0, t as int);
                        if moves@.contains(mv) && !old(moves)@.contains(mv) {
                            let k = choose|k: int|
                                1 <= k <= n && mv.to == ray_step_idx(bm, start as int, dri, dci, k);
                            assert(ray_reaches_n(bm, start as int, dri, dci, mv.to as int, k));
                        }
                        if mv == basic_move(start, mv.to)
                            && ray_reaches(bm, start as int, dri, dci, mv.to as int) {
                            let m = choose|m: int|
                                ray_reaches_n(bm, start as int, dri, dci, mv.to as int, m);
                            assert(m <= n);
                        }
                    }
                }
                break;
            } else {
                let mv = MoveOp {
                    from: start,
                    to: t,
                    is_enpassant: false,
                    is_castle: false,
                    set_enpassant: (false, 0),
                    promote: PieceType::Empty,
                };
                let ghost ms0 = moves@;
                moves.push(mv);
                proof {
                    assert forall|m2: MoveOp| #[trigger] moves@.contains(m2) <==> (
                        old(moves)@.contains(m2) || (m2 == basic_move(start, m2.to)
                            && ray_reaches(bm, start as int, dri, dci, m2.to as int))) by {
                        lemma_ray_stops_blocked(bm, start as int, dri, dci, n, r0, c0, t as int);
                        assert(ray_reaches_n(bm, start as int, dri, dci, t as int, n + 1));
                        if moves@.contains(m2) {
                            let j = choose|j: int| 0 <= j < moves@.len() && moves@[j] == m2;
                            if j < ms0.len() {
                                assert(ms0[j] == m2);
                                assert(ms0.contains(m2));
                                if !old(moves)@.contains(m2) {
                                    let k = choose|k: int|
                                        1 <= k <= n && m2.to == ray_step_idx(
                                            bm,
                                            start as int,
                                            dri,
                                            dci,
                                            k,
                                        );
                                    assert(ray_reaches_n(bm, start as int, dri, dci, m2.to as int, k));
                                }
                            } else {
                                assert(m2 == mv);
                            }
                        }
                        if old(moves)@.contains(m2) {
                            assert(ms0.contains(m2));
                            let j = choose|j: int| 0 <= j < ms0.len() && ms0[j] == m2;
                            assert(moves@[j] == m2);
                        }
                        if m2 == basic_move(start, m2.to)
                            && ray_reaches(bm, start as int, dri, dci, m2.to as int)
                            && !old(moves)@.contains(m2) {
                            let m = choose|m: int|
                                ray_reaches_n(bm, start as int, dri, dci, m2.to as int, m);
                            assert(m <= n + 1);
                            if m <= n {
                                assert(ms0.contains(m2));
                                let j = choose|j: int| 0 <= j < ms0.len() && ms0[j] == m2;
                                assert(moves@[j] == m2);
                            } else {
                                assert(m2.to == t);
                                assert(m2 == mv);
                                assert(moves@[moves@.len() - 1] == mv);
                            }
                        }
                    }
                }
                break;
            }
        }
    }
}

/// When the walk has consumed `n` steps and cannot advance (the next
/// step would leave the board), no target beyond step `n` is reachable,
/// so the moves gathered so far are exactly the ray's moves.
proof fn lemma_ray_exit_oob(
    bm: BoardModel,
    from: int,
    dri: int,
    dci: int,
    n: int,
    r0: int,
    c0: int,
    ms_old: Seq<MoveOp>,
    ms: Seq<MoveOp>,
)
    requires
        bm.width >= 1,
        bm.height >= 1,
        0 <= from < bm.len(),
        bm.len() == bm.height * bm.width,
        -1 <= dri <= 1,
        -1 <= dci <= 1,
        !(dri == 0 && dci == 0),
        r0 == bm.row_of(from),
        c0 == bm.col_of(from),
        n >= 0,
        (dri == -1 && r0 + n * dri == 0) || (dri == 1 && r0 + n * dri == bm.height - 1) || (dci
            == -1 && c0 + n * dci == 0) || (dci == 1 && c0 + n * dci == bm.width - 1),
        ray_prefix_clear(bm, from, dri, dci, n),
        forall|mv: MoveOp| #[trigger] ms.contains(mv) <==> (ms_old.contains(mv) || (mv
            == basic_move(mv.from, mv.to) && mv.from == from && exists|k: int|
            1 <= k <= n && mv.to == ray_step_idx(bm, from, dri, dci, k))),
    ensures
        forall|mv: MoveOp| #[trigger] ms.contains(mv) <==> (ms_old.contains(mv) || (mv
            == basic_move(mv.from, mv.to) && mv.from == from && ray_reaches(
            bm,
            from,
            dri,
            dci,
            mv.to as int,
        ))),
{
    lemma_idx_in_bounds(bm.width, bm.height, from);
    assert(0 <= r0 < bm.height && 0 <= c0 < bm.width);
    assert forall|m: int|
        #![trigger bm.rc_in_bounds(bm.row_of(from) + m * dri, bm.col_of(from) + m * dci)]
        m >= n + 1 implies !bm.rc_in_bounds(
        bm.row_of(from) + m * dri,
        bm.col_of(from) + m * dci,
    ) by {
        lemma_mul_unit(m, dri);
        lemma_mul_unit(m, dci);
        lemma_mul_unit(n, dri);
        lemma_mul_unit(n, dci);
    }
    assert forall|mv: MoveOp| #[trigger] ms.contains(mv) implies (ms_old.contains(mv) || (mv
        == basic_move(mv.from, mv.to) && mv.from == from && ray_reaches(
        bm,
        from,
        dri,
        dci,
        mv.to as int,
    ))) by {
        if !ms_old.contains(mv) {
            let k = choose|k: int| 1 <= k <= n && mv.to == ray_step_idx(bm, from, dri, dci, k);
            lemma_prefix_clear_mono(bm, from, dri, dci, n, k - 1);
            lemma_prefix_clear_at(bm, from, dri, dci, n, k);
            assert(ray_reaches_n(bm, from, dri, dci, mv.to as int, k));
        }
    }
    assert forall|mv: MoveOp|
        (ms_old.contains(mv) || (mv == basic_move(mv.from, mv.to) && mv.from == from
            && ray_reaches(bm, from, dri, dci, mv.to as int))) implies #[trigger] ms.contains(
        mv,
    ) by {
        if !ms_old.contains(mv) {
            let m = choose|m: int| ray_reaches_n(bm, from, dri, dci, mv.to as int, m);
            assert(m <= n);
            assert(mv.to == ray_step_idx(bm, from, dri, dci, m));
        }
    }
}

/// When the walk stops on an occupied square at step `n + 1`, no target
/// beyond that square is reachable: the occupied square blocks the ray.
proof fn lemma_ray_stops_blocked(
    bm: BoardModel,
    from: int,
    dri: int,
    dci: int,
    n: int,
    r0: int,
    c0: int,
    t: int,
)
    requires
        bm.width >= 1,
        bm.height >= 1,
        0 <= from < bm.len(),
        bm.len() == bm.height * bm.width,
        -1 <= dri <= 1,
        -1 <= dci <= 1,
        !(dri == 0 && dci == 0),
        r0 == bm.row_of(from),
        c0 == bm.col_of(from),
        n >= 0,
        bm.rc_in_bounds(r0 + (n + 1) * dri, c0 + (n + 1) * dci),
        t == ray_step_idx(bm, from, dri, dci, n + 1),
        bm.occupied(t),
        ray_prefix_clear(bm, from, dri, dci, n),
    ensures
        forall|to: int, m: int| m >= n + 2 ==> !ray_reaches_n(bm, from, dri, dci, to, m),
        forall|k: int|
            1 <= k <= n ==> ray_reaches_n(
                bm,
                from,
                dri,
                dci,
                ray_step_idx(bm, from, dri, dci, k),
                k,
            ),
{
    assert forall|to: int, m: int| m >= n + 2 implies !ray_reaches_n(bm, from, dri, dci, to, m) by {
        if ray_reaches_n(bm, from, dri, dci, to, m) {
            lemma_prefix_clear_at(bm, from, dri, dci, m - 1, n + 1);
        }
    }
    assert forall|k: int|
        1 <= k <= n implies ray_reaches_n(
        bm,
        from,
        dri,
        dci,
        ray_step_idx(bm, from, dri, dci, k),
        k,
    ) by {
        lemma_prefix_clear_at(bm, from, dri, dci, n, k);
        lemma_prefix_clear_mono(bm, from, dri, dci, n, k - 1);
    }
}



/// Target `to` is a valid destination for a single-square or knight
/// jump of displacement `(dr, dc)` from `from`: the displaced rank and
/// file lie on the board and the target does not hold a piece of the
/// mover's own color.
pub open spec fn jump_ok(bm: BoardModel, from: int, dr: int, dc: int, to: int) -> bool {
    &&& bm.rc_in_bounds(bm.row_of(from) + dr, bm.col_of(from) + dc)
    &&& to == bm.idx(bm.row_of(from) + dr, bm.col_of(from) + dc)
    &&& !(bm.occupied(to) && bm.squares[to].color == bm.squares[from].color)
}

impl Board {
    /// Pseudo-legal moves of one sliding piece of kind `piece` standing
    /// at `start_index`: exactly the unobstructed ray targets in the
    /// directions that kind may take. A non-sliding kind yields no
    /// moves.
    pub fn get_sliding_moves_single(&self, piece: PieceType, start_index: usize) -> (r: Vec<
        MoveOp,
    >)
        requires
            self.wf(),
            (start_index as int) < self@.len(),
        ensures
            forall|mv: MoveOp| #[trigger] r@.contains(mv) <==> (mv == basic_move(
                start_index,
                mv.to,
            ) && slide_to_ok(self@, piece, start_index as int, mv.to as int)),
    {
        let mut moves: Vec<MoveOp> = Vec::new();
        let ghost bm = self@;
        let ghost s = start_index as int;
        if piece == PieceType::Rook || piece == PieceType::Queen {
            self.slide_rays_cross(start_index, &mut moves);
        }
        let ghost mc = moves@;
        if piece == PieceType::Bishop || piece == PieceType::Queen {
            self.slide_rays_diag(start_index, &mut moves);
        }
        proof {
            assert forall|mv: MoveOp| #[trigger] moves@.contains(mv) <==> (mv == basic_move(
                start_index,
                mv.to,
            ) && slide_to_ok(bm, piece, s, mv.to as int)) by {
                assert(mc.contains(mv) || !mc.contains(mv));
                if moves@.contains(mv) {
                    assert(mc.contains(mv) || (mv == basic_move(start_index, mv.to)
                        && (ray_reaches(bm, s, 1, 1, mv.to as int) || ray_reaches(
                        bm,
                        s,
                        1,
                        -1,
                        mv.to as int,
                    ) || ray_reaches(bm, s, -1, 1, mv.to as int) || ray_reaches(
                        bm,
                        s,
                        -1,
                        -1,
                        mv.to as int,
                    ))));
                    if mc.contains(mv) {
                        if ray_reaches(bm, s, 1, 0, mv.to as int) {
                            assert(slide_dir_ok(piece, 1, 0));
                            assert(slide_to_ok(bm, piece, s, mv.to as int));
                        } else if ray_reaches(bm, s, -1, 0, mv.to as int) {
                            assert(slide_dir_ok(piece, -1, 0));
                            assert(slide_to_ok(bm, piece, s, mv.to as int));
                        } else if ray_reaches(bm, s, 0, 1, mv.to as int) {
                            assert(slide_dir_ok(piece, 0, 1));
                            assert(slide_to_ok(bm, piece, s, mv.to as int));
                        } else {
                            assert(ray_reaches(bm, s, 0, -1, mv.to as int));
                            assert(slide_dir_ok(piece, 0, -1));
                            assert(slide_to_ok(bm, piece, s, mv.to as int));
                        }
                    } else {
                        if ray_reaches(bm, s, 1, 1, mv.to as int) {
                            assert(slide_dir_ok(piece, 1, 1));
                            assert(slide_to_ok(bm, piece, s, mv.to as int));
                        } else if ray_reaches(bm, s, 1, -1, mv.to as int) {
                            assert(slide_dir_ok(piece, 1, -1));
                            assert(slide_to_ok(bm, piece, s, mv.to as int));
                        } else if ray_reaches(bm, s, -1, 1, mv.to as int) {
                            assert(slide_dir_ok(piece, -1, 1));
                            assert(slide_to_ok(bm, piece, s, mv.to as int));
                        } else {
                            assert(ray_reaches(bm, s, -1, -1, mv.to as int));
                            assert(slide_dir_ok(piece, -1, -1));
                            assert(slide_to_ok(bm, piece, s, mv.to as int));
                        }
                    }
                }
                if mv == basic_move(start_index, mv.to) && slide_to_ok(bm, piece, s, mv.to as int) {
                    let (dr, dc) = choose|dr: int, dc: int|
                        slide_dir_ok(piece, dr, dc) && ray_reaches(bm, s, dr, dc, mv.to as int);
                    assert(dr == -1 || dr == 0 || dr == 1);
                    assert(dc == -1 || dc == 0 || dc == 1);
                }
            }
        }
        moves
    }

    /// Walk the four rank-and-file rays from `start`.
    fn slide_rays_cross(&self, start: usize, moves: &mut Vec<MoveOp>)
        requires
            self.wf(),
            (start as int) < self@.len(),
        ensures
            forall|mv: MoveOp| #[trigger] final(moves)@.contains(mv) <==> (old(moves)@.contains(mv)
                || (mv == basic_move(start, mv.to) && (ray_reaches(
                self@,
                start as int,
                1,
                0,
                mv.to as int,
            ) || ray_reaches(self@, start as int, -1, 0, mv.to as int) || ray_reaches(
                self@,
                start as int,
                0,
                1,
                mv.to as int,
            ) || ray_reaches(self@, start as int, 0, -1, mv.to as int)))),
    {
        self.slide_ray(start, 1, 0, moves);
        let ghost m1 = moves@;
        self.slide_ray(start, -1, 0, moves);
        let ghost m2 = moves@;
        self.slide_ray(start, 0, 1, moves);
        let ghost m3 = moves@;
        self.slide_ray(start, 0, -1, moves);
        proof {
            assert forall|mv: MoveOp| #[trigger] moves@.contains(mv) <==> (old(moves)@.contains(mv)
                || (mv == basic_move(start, mv.to) && (ray_reaches(
                self@,
                start as int,
                1,
                0,
                mv.to as int,
            ) || ray_reaches(self@, start as int, -1, 0, mv.to as int) || ray_reaches(
                self@,
                start as int,
                0,
                1,
                mv.to as int,
            ) || ray_reaches(self@, start as int, 0, -1, mv.to as int)))) by {
                assert(m1.contains(mv) || !m1.contains(mv));
                assert(m2.contains(mv) || !m2.contains(mv));
                assert(m3.contains(mv) || !m3.contains(mv));
            }
        }
    }

    /// Walk the four diagonal rays from `start`.
    fn slide_rays_diag(&self, start: usize, moves: &mut Vec<MoveOp>)
        requires
            self.wf(),
            (start as int) < self@.len(),
        ensures
            forall|mv: MoveOp| #[trigger] final(moves)@.contains(mv) <==> (old(moves)@.contains(mv)
                || (mv == basic_move(start, mv.to) && (ray_reaches(
                self@,
                start as int,
                1,
                1,
                mv.to as int,
            ) || ray_reaches(self@, start as int, 1, -1, mv.to as int) || ray_reaches(
                self@,
                start as int,
                -1,
                1,
                mv.to as int,
            ) || ray_reaches(self@, start as int, -1, -1, mv.to as int)))),
    {
        self.slide_ray(start, 1, 1, moves);
        let ghost m1 = moves@;
        self.slide_ray(start, 1, -1, moves);
        let ghost m2 = moves@;
        self.slide_ray(start, -1, 1, moves);
        let ghost m3 = moves@;
        self.slide_ray(start, -1, -1, moves);
        proof {
            assert forall|mv: MoveOp| #[trigger] moves@.contains(mv) <==> (old(moves)@.contains(mv)
                || (mv == basic_move(start, mv.to) && (ray_reaches(
                self@,
                start as int,
                1,
                1,
                mv.to as int,
            ) || ray_reaches(self@, start as int, 1, -1, mv.to as int) || ray_reaches(
                self@,
                start as int,
                -1,
                1,
                mv.to as int,
            ) || ray_reaches(self@, start as int, -1, -1, mv.to as int)))) by {
                assert(m1.contains(mv) || !m1.contains(mv));
                assert(m2.contains(mv) || !m2.contains(mv));
                assert(m3.contains(mv) || !m3.contains(mv));
            }
        }
    }

    /// Pseudo-legal moves of every sliding piece of kind `piece` that
    /// belongs to the side to move.
    pub fn get_sliding_moves(&self, piece: PieceType) -> (r: Vec<MoveOp>)
        requires
            self.wf(),
            piece != PieceType::Empty,
        ensures
            forall|mv: MoveOp| #[trigger] r@.contains(mv) <==> (mv.from < self@.len()
                && self@.squares[mv.from as int].piece == piece
                && self@.squares[mv.from as int].color == self@.to_play && mv == basic_move(
                mv.from,
                mv.to,
            ) && slide_to_ok(self@, piece, mv.from as int, mv.to as int)),
    {
        let indices: Vec<usize> = self.get_table_colored(piece, self.to_play);
        let n = indices.len();
        let mut moves: Vec<MoveOp> = Vec::new();
        let mut i: usize = 0;
        while i < n
            invariant
                self.wf(),
                piece != PieceType::Empty,
                n == indices@.len(),
                i <= n,
                distinct(indices@),
                forall|x: usize|
                    #[trigger] indices@.contains(x) <==> x < self@.len()
                        && self@.squares[x as int].piece == piece
                        && self@.squares[x as int].color == self@.to_play,
                forall|mv: MoveOp| #[trigger] moves@.contains(mv) <==> (exists|j: int|
                    0 <= j < i && mv.from == indices@[j] && mv == basic_move(mv.from, mv.to)
                        && slide_to_ok(self@, piece, mv.from as int, mv.to as int)),
            decreases n - i,
        {
            let start = indices[i];
            proof {
                assert(indices@.contains(indices@[i as int]));
            }
            let mut single = self.get_sliding_moves_single(piece, start);
            let ghost ms0 = moves@;
            let ghost sg = single@;
            moves.append(&mut single);
            proof {
                assert(moves@ == ms0 + sg);
                assert forall|mv: MoveOp| #[trigger] moves@.contains(mv) <==> (exists|j: int|
                    0 <= j < i + 1 && mv.from == indices@[j] && mv == basic_move(mv.from, mv.to)
                        && slide_to_ok(self@, piece, mv.from as int, mv.to as int)) by {
                    if moves@.contains(mv) {
                        let j = choose|j: int| 0 <= j < moves@.len() && moves@[j] == mv;
                        if j < ms0.len() {
                            assert(ms0[j] == mv);
                            assert(ms0.contains(mv));
                            let j2 = choose|j2: int|
                                0 <= j2 < i && mv.from == indices@[j2] && mv == basic_move(
                                    mv.from,
                                    mv.to,
                                ) && slide_to_ok(self@, piece, mv.from as int, mv.to as int);
                            assert(0 <= j2 < i + 1 && mv.from == indices@[j2]);
                        } else {
                            assert(sg[j - ms0.len()] == mv);
                            assert(sg.contains(mv));
                            assert(mv == basic_move(start, mv.to));
                            assert(mv.from == indices@[i as int]);
                        }
                    }
                    if exists|j: int|
                        0 <= j < i + 1 && mv.from == indices@[j] && mv == basic_move(mv.from, mv.to)
                            && slide_to_ok(self@, piece, mv.from as int, mv.to as int) {
                        let j = choose|j: int|
                            0 <= j < i + 1 && mv.from == indices@[j] && mv == basic_move(
                                mv.from,
                                mv.to,
                            ) && slide_to_ok(self@, piece, mv.from as int, mv.to as int);
                        if j < i {
                            assert(ms0.contains(mv));
                            let j3 = choose|j3: int| 0 <= j3 < ms0.len() && ms0[j3] == mv;
                            assert(moves@[j3] == mv);
                        } else {
                            assert(mv.from == start);
                            assert(sg.contains(mv));
                            let j3 = choose|j3: int| 0 <= j3 < sg.len() && sg[j3] == mv;
                            assert(moves@[ms0.len() + j3] == mv);
                        }
                    }
                }
            }
            i = i + 1;
        }
        proof {
            assert forall|mv: MoveOp| #[trigger] moves@.contains(mv) <==> (mv.from < self@.len()
                && self@.squares[mv.from as int].piece == piece
                && self@.squares[mv.from as int].color == self@.to_play && mv == basic_move(
                mv.from,
                mv.to,
            ) && slide_to_ok(self@, piece, mv.from as int, mv.to as int)) by {
                if moves@.contains(mv) {
                    let j = choose|j: int|
                        0 <= j < n && mv.from == indices@[j] && mv == basic_move(mv.from, mv.to)
                            && slide_to_ok(self@, piece, mv.from as int, mv.to as int);
                    assert(indices@.contains(indices@[j]));
                }
                if mv.from < self@.len() && self@.squares[mv.from as int].piece == piece
                    && self@.squares[mv.from as int].color == self@.to_play {
                    assert(indices@.contains(mv.from));
                    let j = choose|j: int| 0 <= j < indices@.len() && indices@[j] == mv.from;
                }
            }
        }
        moves
    }
}



/// Membership in a concatenation splits into membership in the parts.
proof fn lemma_append_contains(a: Seq<MoveOp>, b: Seq<MoveOp>, c: Seq<MoveOp>)
    requires
        c == a + b,
    ensures
        forall|mv: MoveOp| #[trigger] c.contains(mv) <==> a.contains(mv) || b.contains(mv),
{
    assert forall|mv: MoveOp| #[trigger] c.contains(mv) <==> a.contains(mv) || b.contains(mv) by {
        if c.contains(mv) {
            let j = choose|j: int| 0 <= j < c.len() && c[j] == mv;
            if j < a.len() {
                assert(a[j] == mv);
            } else {
                assert(b[j - a.len()] == mv);
            }
        }
        if a.contains(mv) {
            let j = choose|j: int| 0 <= j < a.len() && a[j] == mv;
            assert(c[j] == mv);
        }
        if b.contains(mv) {
            let j = choose|j: int| 0 <= j < b.len() && b[j] == mv;
            assert(c[a.len() + j] == mv);
        }
    }
}

/// The deltas of a knight's jump: one rank and two files, or two ranks
/// and one file.
pub open spec fn knight_delta(dr: int, dc: int) -> bool {
    ||| ((dr == 1 || dr == -1) && (dc == 2 || dc == -2))
    ||| ((dr == 2 || dr == -2) && (dc == 1 || dc == -1))
}

/// Target `to` is a valid knight destination from `from`.
pub open spec fn knight_to_ok(bm: BoardModel, from: int, to: int) -> bool {
    exists|dr: int, dc: int| knight_delta(dr, dc) && jump_ok(bm, from, dr, dc, to)
}

/// The deltas of a king's step: at most one rank and one file, not both
/// zero.
pub open spec fn king_delta(dr: int, dc: int) -> bool {
    -1 <= dr <= 1 && -1 <= dc <= 1 && !(dr == 0 && dc == 0)
}

/// Target `to` is a valid king destination from `from`, castling aside.
pub open spec fn king_to_ok(bm: BoardModel, from: int, to: int) -> bool {
    exists|dr: int, dc: int| king_delta(dr, dc) && jump_ok(bm, from, dr, dc, to)
}

impl Board {
    /// Try the single jump of displacement `(dr, dc)` from `start`,
    /// appending the move when the target lies on the board and does
    /// not hold a piece of the mover's own color.
    fn try_jump(&self, start: usize, dr: i8, dc: i8, moves: &mut Vec<MoveOp>)
        requires
            self.wf(),
            (start as int) < self@.len(),
            -2 <= dr as int <= 2,
            -2 <= dc as int <= 2,
        ensures
            forall|mv: MoveOp| #[trigger] final(moves)@.contains(mv) <==> (old(moves)@.contains(mv)
                || (mv == basic_move(start, mv.to) && jump_ok(
                self@,
                start as int,
                dr as int,
                dc as int,
                mv.to as int,
            ))),
    {
        let ghost bm = self@;
        let ghost s = start as int;
        let w = self.shape.1;
        let h = self.shape.0;
        proof {
            assert(self.squares@.len() == self.squares.len());
            lemma_idx_in_bounds(w as int, h as int, s);
        }
        let r = start / w;
        let c = start % w;
        let mut in_board: bool = true;
        let mut tr: usize = 0;
        let mut tc: usize = 0;
        if dr >= 0 {
            let d = dr as usize;
            if d < h && r < h - d {
                tr = r + d;
            } else {
                in_board = false;
            }
        } else {
            let d = (-dr) as usize;
            if r >= d {
                tr = r - d;
            } else {
                in_board = false;
            }
        }
        if dc >= 0 {
            let d = dc as usize;
            if d < w && c < w - d {
                tc = c + d;
            } else {
                in_board = false;
            }
        } else {
            let d = (-dc) as usize;
            if c >= d {
                tc = c - d;
            } else {
                in_board = false;
            }
        }
        proof {
            assert(in_board == bm.rc_in_bounds(
                bm.row_of(s) + dr as int,
                bm.col_of(s) + dc as int,
            ));
            if in_board {
                lemma_rc_idx_bound(h as int, w as int, tr as int, tc as int);
            }
        }
        if in_board {
            let t = tr * w + tc;
            let target = self.squares[t];
            let start_sq = self.squares[start];
            if !(target.piece != PieceType::Empty && target.color == start_sq.color) {
                let mv = MoveOp {
                    from: start,
                    to: t,
                    is_enpassant: false,
                    is_castle: false,
                    set_enpassant: (false, 0),
                    promote: PieceType::Empty,
                };
                let ghost ms0 = moves@;
                moves.push(mv);
                proof {
                    assert(moves@ == ms0.push(mv));
                    assert forall|m2: MoveOp| #[trigger] moves@.contains(m2) <==> (ms0.contains(m2)
                        || m2 == mv) by {
                        if moves@.contains(m2) {
                            let j = choose|j: int| 0 <= j < moves@.len() && moves@[j] == m2;
                            if j < ms0.len() {
                                assert(ms0[j] == m2);
                            }
                        }
                        if ms0.contains(m2) {
                            let j = choose|j: int| 0 <= j < ms0.len() && ms0[j] == m2;
                            assert(moves@[j] == m2);
                        }
                        if m2 == mv {
                            assert(moves@[moves@.len() - 1] == mv);
                        }
                    }
                    assert(jump_ok(bm, s, dr as int, dc as int, t as int));
                }
            }
        }
    }

    /// Pseudo-legal moves of the knight standing at `start_index`: the
    /// eight jump targets that lie on the board, are not blocked by an
    /// own-colored piece, and — being reached rank-and-file-wise — can
    /// never wrap around a board edge.
    pub fn get_knight_moves_single(&self, start_index: usize) -> (r: Vec<MoveOp>)
        requires
            self.wf(),
            (start_index as int) < self@.len(),
        ensures
            forall|mv: MoveOp| #[trigger] r@.contains(mv) <==> (mv == basic_move(
                start_index,
                mv.to,
            ) && knight_to_ok(self@, start_index as int, mv.to as int)),
    {
        let ghost bm = self@;
        let ghost s = start_index as int;
        let mut moves: Vec<MoveOp> = Vec::new();
        self.try_jump(start_index, 1, 2, &mut moves);
        let ghost m1 = moves@;
        self.try_jump(start_index, 1, -2, &mut moves);
        let ghost m2 = moves@;
        self.try_jump(start_index, -1, 2, &mut moves);
        let ghost m3 = moves@;
        self.try_jump(start_index, -1, -2, &mut moves);
        let ghost m4 = moves@;
        self.try_jump(start_index, 2, 1, &mut moves);
        let ghost m5 = moves@;
        self.try_jump(start_index, 2, -1, &mut moves);
        let ghost m6 = moves@;
        self.try_jump(start_index, -2, 1, &mut moves);
        let ghost m7 = moves@;
        self.try_jump(start_index, -2, -1, &mut moves);
        proof {
            assert forall|mv: MoveOp| #[trigger] moves@.contains(mv) <==> (mv == basic_move(
                start_index,
                mv.to,
            ) && knight_to_ok(bm, s, mv.to as int)) by {
                assert(m1.contains(mv) || !m1.contains(mv));
                assert(m2.contains(mv) || !m2.contains(mv));
                assert(m3.contains(mv) || !m3.contains(mv));
                assert(m4.contains(mv) || !m4.contains(mv));
                assert(m5.contains(mv) || !m5.contains(mv));
                assert(m6.contains(mv) || !m6.contains(mv));
                assert(m7.contains(mv) || !m7.contains(mv));
                if moves@.contains(mv) {
                    if jump_ok(bm, s, 1, 2, mv.to as int) {
                        assert(knight_delta(1, 2));
                        assert(knight_to_ok(bm, s, mv.to as int));
                    } else if jump_ok(bm, s, 1, -2, mv.to as int) {
                        assert(knight_delta(1, -2));
                        assert(knight_to_ok(bm, s, mv.to as int));
                    } else if jump_ok(bm, s, -1, 2, mv.to as int) {
                        assert(knight_delta(-1, 2));
                        assert(knight_to_ok(bm, s, mv.to as int));
                    } else if jump_ok(bm, s, -1, -2, mv.to as int) {
                        assert(knight_delta(-1, -2));
                        assert(knight_to_ok(bm, s, mv.to as int));
                    } else if jump_ok(bm, s, 2, 1, mv.to as int) {
                        assert(knight_delta(2, 1));
                        assert(knight_to_ok(bm, s, mv.to as int));
                    } else if jump_ok(bm, s, 2, -1, mv.to as int) {
                        assert(knight_delta(2, -1));
                        assert(knight_to_ok(bm, s, mv.to as int));
                    } else if jump_ok(bm, s, -2, 1, mv.to as int) {
                        assert(knight_delta(-2, 1));
                        assert(knight_to_ok(bm, s, mv.to as int));
                    } else {
                        assert(jump_ok(bm, s, -2, -1, mv.to as int));
                        assert(knight_delta(-2, -1));
                        assert(knight_to_ok(bm, s, mv.to as int));
                    }
                }
                if mv == basic_move(start_index, mv.to) && knight_to_ok(bm, s, mv.to as int) {
                    let (dr, dc) = choose|dr: int, dc: int|
                        knight_delta(dr, dc) && jump_ok(bm, s, dr, dc, mv.to as int);
                    assert(dr == 1 || dr == -1 || dr == 2 || dr == -2);
                    assert(dc == 1 || dc == -1 || dc == 2 || dc == -2);
                }
            }
        }
        moves
    }

    /// Pseudo-legal moves of every knight of the side to move.
    pub fn get_knight_moves(&self) -> (r: Vec<MoveOp>)
        requires
            self.wf(),
        ensures
            forall|mv: MoveOp| #[trigger] r@.contains(mv) <==> (mv.from < self@.len()
                && self@.squares[mv.from as int].piece == PieceType::Knight
                && self@.squares[mv.from as int].color == self@.to_play && mv == basic_move(
                mv.from,
                mv.to,
            ) && knight_to_ok(self@, mv.from as int, mv.to as int)),
    {
        let indices: Vec<usize> = self.get_table_colored(PieceType::Knight, self.to_play);
        let n = indices.len();
        let mut moves: Vec<MoveOp> = Vec::new();
        let mut i: usize = 0;
        while i < n
            invariant
                self.wf(),
                n == indices@.len(),
                i <= n,
                forall|x: usize|
                    #[trigger] indices@.contains(x) <==> x < self@.len()
                        && self@.squares[x as int].piece == PieceType::Knight
                        && self@.squares[x as int].color == self@.to_play,
                forall|mv: MoveOp| #[trigger] moves@.contains(mv) <==> (exists|j: int|
                    0 <= j < i && mv.from == indices@[j] && mv == basic_move(mv.from, mv.to)
                        && knight_to_ok(self@, mv.from as int, mv.to as int)),
            decreases n - i,
        {
            let start = indices[i];
            proof {
                assert(indices@.contains(indices@[i as int]));
            }
            let mut single = self.get_knight_moves_single(start);
            let ghost ms0 = moves@;
            let ghost sg = single@;
            moves.append(&mut single);
            proof {
                lemma_append_contains(ms0, sg, moves@);
                assert forall|mv: MoveOp| #[trigger] moves@.contains(mv) <==> (exists|j: int|
                    0 <= j < i + 1 && mv.from == indices@[j] && mv == basic_move(mv.from, mv.to)
                        && knight_to_ok(self@, mv.from as int, mv.to as int)) by {
                    if moves@.contains(mv) {
                        if ms0.contains(mv) {
                            let j2 = choose|j2: int|
                                0 <= j2 < i && mv.from == indices@[j2] && mv == basic_move(
                                    mv.from,
                                    mv.to,
                                ) && knight_to_ok(self@, mv.from as int, mv.to as int);
                            assert(0 <= j2 < i + 1 && mv.from == indices@[j2]);
                        } else {
                            assert(sg.contains(mv));
                            assert(mv.from == indices@[i as int]);
                        }
                    }
                    if exists|j: int|
                        0 <= j < i + 1 && mv.from == indices@[j] && mv == basic_move(mv.from, mv.to)
                            && knight_to_ok(self@, mv.from as int, mv.to as int) {
                        let j = choose|j: int|
                            0 <= j < i + 1 && mv.from == indices@[j] && mv == basic_move(
                                mv.from,
                                mv.to,
                            ) && knight_to_ok(self@, mv.from as int, mv.to as int);
                        if j < i {
                            assert(ms0.contains(mv));
                        } else {
                            assert(mv.from == indices@[i as int]);
                            assert(sg.contains(mv));
                        }
                    }
                }
            }
            i = i + 1;
        }
        proof {
            assert forall|mv: MoveOp| #[trigger] moves@.contains(mv) <==> (mv.from < self@.len()
                && self@.squares[mv.from as int].piece == PieceType::Knight
                && self@.squares[mv.from as int].color == self@.to_play && mv == basic_move(
                mv.from,
                mv.to,
            ) && knight_to_ok(self@, mv.from as int, mv.to as int)) by {
                if moves@.contains(mv) {
                    let j = choose|j: int|
                        0 <= j < n && mv.from == indices@[j] && mv == basic_move(mv.from, mv.to)
                            && knight_to_ok(self@, mv.from as int, mv.to as int);
                    assert(indices@.contains(indices@[j]));
                }
                if mv.from < self@.len() && self@.squares[mv.from as int].piece == PieceType::Knight
                    && self@.squares[mv.from as int].color == self@.to_play {
                    assert(indices@.contains(mv.from));
                    let j = choose|j: int| 0 <= j < indices@.len() && indices@[j] == mv.from;
                }
            }
        }
        moves
    }

    /// Pseudo-legal single-square moves of every king of the side to
    /// move. Castling is not generated here; it is applied through the
    /// `is_castle` flag of a caller-built move.
    pub fn get_king_moves(&self) -> (r: Vec<MoveOp>)
        requires
            self.wf(),
        ensures
            forall|mv: MoveOp| #[trigger] r@.contains(mv) <==> (mv.from < self@.len()
                && self@.squares[mv.from as int].piece == PieceType::King
                && self@.squares[mv.from as int].color == self@.to_play && mv == basic_move(
                mv.from,
                mv.to,
            ) && king_to_ok(self@, mv.from as int, mv.to as int)),
    {
        let indices: Vec<usize> = self.get_table_colored(PieceType::King, self.to_play);
        let n = indices.len();
        let mut moves: Vec<MoveOp> = Vec::new();
        let mut i: usize = 0;
        while i < n
            invariant
                self.wf(),
                n == indices@.len(),
                i <= n,
                forall|x: usize|
                    #[trigger] indices@.contains(x) <==> x < self@.len()
                        && self@.squares[x as int].piece == PieceType::King
                        && self@.squares[x as int].color == self@.to_play,
                forall|mv: MoveOp| #[trigger] moves@.contains(mv) <==> (exists|j: int|
                    0 <= j < i && mv.from == indices@[j] && mv == basic_move(mv.from, mv.to)
                        && king_to_ok(self@, mv.from as int, mv.to as int)),
            decreases n - i,
        {
            let start = indices[i];
            proof {
                assert(indices@.contains(indices@[i as int]));
            }
            let mut single = self.king_moves_single(start);
            let ghost ms0 = moves@;
            let ghost sg = single@;
            moves.append(&mut single);
            proof {
                lemma_append_contains(ms0, sg, moves@);
                assert forall|mv: MoveOp| #[trigger] moves@.contains(mv) <==> (exists|j: int|
                    0 <= j < i + 1 && mv.from == indices@[j] && mv == basic_move(mv.from, mv.to)
                        && king_to_ok(self@, mv.from as int, mv.to as int)) by {
                    if moves@.contains(mv) {
                        if ms0.contains(mv) {
                            let j2 = choose|j2: int|
                                0 <= j2 < i && mv.from == indices@[j2] && mv == basic_move(
                                    mv.from,
                                    mv.to,
                                ) && king_to_ok(self@, mv.from as int, mv.to as int);
                            assert(0 <= j2 < i + 1 && mv.from == indices@[j2]);
                        } else {
                            assert(sg.contains(mv));
                            assert(mv.from == indices@[i as int]);
                        }
                    }
                    if exists|j: int|
                        0 <= j < i + 1 && mv.from == indices@[j] && mv == basic_move(mv.from, mv.to)
                            && king_to_ok(self@, mv.from as int, mv.to as int) {
                        let j = choose|j: int|
                            0 <= j < i + 1 && mv.from == indices@[j] && mv == basic_move(
                                mv.from,
                                mv.to,
                            ) && king_to_ok(self@, mv.from as int, mv.to as int);
                        if j < i {
                            assert(ms0.contains(mv));
                        } else {
                            assert(mv.from == indices@[i as int]);
                            assert(sg.contains(mv));
                        }
                    }
                }
            }
            i = i + 1;
        }
        proof {
            assert forall|mv: MoveOp| #[trigger] moves@.contains(mv) <==> (mv.from < self@.len()
                && self@.squares[mv.from as int].piece == PieceType::King
                && self@.squares[mv.from as int].color == self@.to_play && mv == basic_move(
                mv.from,
                mv.to,
            ) && king_to_ok(self@, mv.from as int, mv.to as int)) by {
                if moves@.contains(mv) {
                    let j = choose|j: int|
                        0 <= j < n && mv.from == indices@[j] && mv == basic_move(mv.from, mv.to)
                            && king_to_ok(self@, mv.from as int, mv.to as int);
                    assert(indices@.contains(indices@[j]));
                }
                if mv.from < self@.len() && self@.squares[mv.from as int].piece == PieceType::King
                    && self@.squares[mv.from as int].color == self@.to_play {
                    assert(indices@.contains(mv.from));
                    let j = choose|j: int| 0 <= j < indices@.len() && indices@[j] == mv.from;
                }
            }
        }
        moves
    }

    /// Pseudo-legal single-square moves of the king standing at
    /// `start_index`.
    fn king_moves_single(&self, start_index: usize) -> (r: Vec<MoveOp>)
        requires
            self.wf(),
            (start_index as int) < self@.len(),
        ensures
            forall|mv: MoveOp| #[trigger] r@.contains(mv) <==> (mv == basic_move(
                start_index,
                mv.to,
            ) && king_to_ok(self@, start_index as int, mv.to as int)),
    {
        let ghost bm = self@;
        let ghost s = start_index as int;
        let mut moves: Vec<MoveOp> = Vec::new();
        self.try_jump(start_index, -1, -1, &mut moves);
        let ghost m1 = moves@;
        self.try_jump(start_index, -1, 0, &mut moves);
        let ghost m2 = moves@;
        self.try_jump(start_index, -1, 1, &mut moves);
        let ghost m3 = moves@;
        self.try_jump(start_index, 0, -1, &mut moves);
        let ghost m4 = moves@;
        self.try_jump(start_index, 0, 1, &mut moves);
        let ghost m5 = moves@;
        self.try_jump(start_index, 1, -1, &mut moves);
        let ghost m6 = moves@;
        self.try_jump(start_index, 1, 0, &mut moves);
        let ghost m7 = moves@;
        self.try_jump(start_index, 1, 1, &mut moves);
        proof {
            assert forall|mv: MoveOp| #[trigger] moves@.contains(mv) <==> (mv == basic_move(
                start_index,
                mv.to,
            ) && king_to_ok(bm, s, mv.to as int)) by {
                assert(m1.contains(mv) || !m1.contains(mv));
                assert(m2.contains(mv) || !m2.contains(mv));
                assert(m3.contains(mv) || !m3.contains(mv));
                assert(m4.contains(mv) || !m4.contains(mv));
                assert(m5.contains(mv) || !m5.contains(mv));
                assert(m6.contains(mv) || !m6.contains(mv));
                assert(m7.contains(mv) || !m7.contains(mv));
                if moves@.contains(mv) {
                    if jump_ok(bm, s, -1, -1, mv.to as int) {
                        assert(king_delta(-1, -1));
                        assert(king_to_ok(bm, s, mv.to as int));
                    } else if jump_ok(bm, s, -1, 0, mv.to as int) {
                        assert(king_delta(-1, 0));
                        assert(king_to_ok(bm, s, mv.to as int));
                    } else if jump_ok(bm, s, -1, 1, mv.to as int) {
                        assert(king_delta(-1, 1));
                        assert(king_to_ok(bm, s, mv.to as int));
                    } else if jump_ok(bm, s, 0, -1, mv.to as int) {
                        assert(king_delta(0, -1));
                        assert(king_to_ok(bm, s, mv.to as int));
                    } else if jump_ok(bm, s, 0, 1, mv.to as int) {
                        assert(king_delta(0, 1));
                        assert(king_to_ok(bm, s, mv.to as int));
                    } else if jump_ok(bm, s, 1, -1, mv.to as int) {
                        assert(king_delta(1, -1));
                        assert(king_to_ok(bm, s, mv.to as int));
                    } else if jump_ok(bm, s, 1, 0, mv.to as int) {
                        assert(king_delta(1, 0));
                        assert(king_to_ok(bm, s, mv.to as int));
                    } else {
                        assert(jump_ok(bm, s, 1, 1, mv.to as int));
                        assert(king_delta(1, 1));
                        assert(king_to_ok(bm, s, mv.to as int));
                    }
                }
                if mv == basic_move(start_index, mv.to) && king_to_ok(bm, s, mv.to as int) {
                    let (dr, dc) = choose|dr: int, dc: int|
                        king_delta(dr, dc) && jump_ok(bm, s, dr, dc, mv.to as int);
                    assert(dr == -1 || dr == 0 || dr == 1);
                    assert(dc == -1 || dc == 0 || dc == 1);
                }
            }
        }
        moves
    }
}


/// The rank direction a pawn of color `c` advances in: White toward
/// rank 0, Black toward the last rank.
pub open spec fn pawn_dir(c: Color) -> int {
    if c == Color::White {
        -1
    } else {
        1
    }
}

/// The rank a pawn of color `c` double-advances from.
pub open spec fn pawn_start_row(bm: BoardModel, c: Color) -> int {
    if c == Color::White {
        bm.height - 2
    } else {
        1
    }
}

/// Target `to` is the single advance of a pawn of color `c` at `from`:
/// one rank forward onto an empty square.
pub open spec fn pawn_adv1_ok(bm: BoardModel, c: Color, from: int, to: int) -> bool {
    let r0 = bm.row_of(from);
    let c0 = bm.col_of(from);
    let d = pawn_dir(c);
    &&& bm.rc_in_bounds(r0 + d, c0)
    &&& to == bm.idx(r0 + d, c0)
    &&& !bm.occupied(to)
}

/// Target `to` is the double advance of a pawn of color `c` at `from`:
/// from its starting rank, over an empty intermediate square, onto an
/// empty square two ranks forward.
pub open spec fn pawn_adv2_ok(bm: BoardModel, c: Color, from: int, to: int) -> bool {
    let r0 = bm.row_of(from);
    let c0 = bm.col_of(from);
    let d = pawn_dir(c);
    &&& r0 == pawn_start_row(bm, c)
    &&& bm.rc_in_bounds(r0 + d, c0)
    &&& !bm.occupied(bm.idx(r0 + d, c0))
    &&& bm.rc_in_bounds(r0 + 2 * d, c0)
    &&& to == bm.idx(r0 + 2 * d, c0)
    &&& !bm.occupied(to)
}

/// Target `to` is the diagonal capture of a pawn of color `c` at
/// `from`, toward file side `s`: one rank forward, one file sideways,
/// onto an enemy-occupied square.
pub open spec fn pawn_cap_at(bm: BoardModel, c: Color, from: int, to: int, s: int) -> bool {
    let r0 = bm.row_of(from);
    let c0 = bm.col_of(from);
    let d = pawn_dir(c);
    &&& bm.rc_in_bounds(r0 + d, c0 + s)
    &&& to == bm.idx(r0 + d, c0 + s)
    &&& bm.occupied(to)
    &&& bm.squares[to].color != c
}

/// Target `to` is a diagonal capture of a pawn of color `c` at `from`,
/// toward either file side.
pub open spec fn pawn_cap_ok(bm: BoardModel, c: Color, from: int, to: int) -> bool {
    exists|s: int| (s == 1 || s == -1) && pawn_cap_at(bm, c, from, to, s)
}

/// Target `to` is the en-passant capture of a pawn of color `c` at
/// `from` toward file side `s`: a diagonal step onto the active
/// en-passant target square.
pub open spec fn pawn_ep_at(bm: BoardModel, c: Color, from: int, to: int, s: int) -> bool {
    let r0 = bm.row_of(from);
    let c0 = bm.col_of(from);
    let d = pawn_dir(c);
    &&& bm.rc_in_bounds(r0 + d, c0 + s)
    &&& to == bm.idx(r0 + d, c0 + s)
    &&& bm.en_passant.0
    &&& to == bm.en_passant.1
}

/// Target `to` is an en-passant capture of a pawn of color `c` at
/// `from`, toward either file side.
pub open spec fn pawn_ep_ok(bm: BoardModel, c: Color, from: int, to: int) -> bool {
    exists|s: int| (s == 1 || s == -1) && pawn_ep_at(bm, c, from, to, s)
}

/// The shape of a generated double-advance move: it announces its
/// intermediate square as the opponent's en-passant target.
pub open spec fn double_move(from: usize, to: usize, mid: int) -> MoveOp {
    MoveOp {
        from,
        to,
        is_enpassant: false,
        is_castle: false,
        set_enpassant: (true, mid as usize),
        promote: PieceType::Empty,
    }
}

/// The shape of a generated en-passant capture move.
pub open spec fn ep_move(from: usize, to: usize) -> MoveOp {
    MoveOp {
        from,
        to,
        is_enpassant: true,
        is_castle: false,
        set_enpassant: (false, 0),
        promote: PieceType::Empty,
    }
}

/// `mv` is a pseudo-legal move of a pawn of color `c` standing at
/// `mv.from`: a single or double advance, a diagonal capture, or an
/// en-passant capture, with the move's flags set accordingly.
pub open spec fn pawn_move_ok(bm: BoardModel, c: Color, mv: MoveOp) -> bool {
    ||| (mv == basic_move(mv.from, mv.to) && (pawn_adv1_ok(bm, c, mv.from as int, mv.to as int)
        || pawn_cap_ok(bm, c, mv.from as int, mv.to as int)))
    ||| (mv == double_move(
        mv.from,
        mv.to,
        bm.idx(bm.row_of(mv.from as int) + pawn_dir(c), bm.col_of(mv.from as int)),
    ) && pawn_adv2_ok(bm, c, mv.from as int, mv.to as int))
    ||| (mv == ep_move(mv.from, mv.to) && pawn_ep_ok(bm, c, mv.from as int, mv.to as int))
}

impl Board {
    /// Append the single and double advances of the pawn of color `c`
    /// at `start`.
    fn pawn_advances(&self, start: usize, c: Color, moves: &mut Vec<MoveOp>)
        requires
            self.wf(),
            (start as int) < self@.len(),
        ensures
            forall|mv: MoveOp| #[trigger] final(moves)@.contains(mv) <==> (old(moves)@.contains(mv)
                || (mv.from == start && ((mv == basic_move(start, mv.to) && pawn_adv1_ok(
                self@,
                c,
                start as int,
                mv.to as int,
            )) || (mv == double_move(
                start,
                mv.to,
                self@.idx(self@.row_of(start as int) + pawn_dir(c), self@.col_of(start as int)),
            ) && pawn_adv2_ok(self@, c, start as int, mv.to as int))))),
    {
        let ghost bm = self@;
        let ghost s = start as int;
        let w = self.shape.1;
        let h = self.shape.0;
        proof {
            assert(self.squares@.len() == self.squares.len());
            lemma_idx_in_bounds(w as int, h as int, s);
        }
        let r = start / w;
        let c0 = start % w;
        let fwd_ok: bool;
        let fr: usize;
        if c == Color::White {
            fwd_ok = r >= 1;
            fr = if r >= 1 { r - 1 } else { 0 };
        } else {
            fwd_ok = r + 1 < h;
            fr = if r + 1 < h { r + 1 } else { 0 };
        }
        proof {
            assert(fwd_ok == bm.rc_in_bounds(bm.row_of(s) + pawn_dir(c), bm.col_of(s)));
            if fwd_ok {
                lemma_rc_idx_bound(h as int, w as int, fr as int, c0 as int);
            }
        }
        if !fwd_ok {
            return;
        }
        let t1 = fr * w + c0;
        if self.squares[t1].piece != PieceType::Empty {
            proof {
                assert(!pawn_adv1_ok(bm, c, s, bm.idx(bm.row_of(s) + pawn_dir(c), bm.col_of(s))));
            }
            return;
        }
        let mv1 = MoveOp {
            from: start,
            to: t1,
            is_enpassant: false,
            is_castle: false,
            set_enpassant: (false, 0),
            promote: PieceType::Empty,
        };
        let ghost ms0 = old(moves)@;
        moves.push(mv1);
        let ghost m1 = moves@;
        proof {
            assert(m1 == ms0.push(mv1));
            lemma_push_members(ms0, mv1, m1);
            assert(pawn_adv1_ok(bm, c, s, t1 as int));
        }

        // the double advance, only from the pawn's starting rank
        let on_start_row: bool = if c == Color::White {
            r == h - 2
        } else {
            r == 1
        };
        if !(on_start_row && h >= 4) {
            proof {
                if h < 4 && on_start_row {
                    assert(!bm.rc_in_bounds(
                        bm.row_of(s) + 2 * pawn_dir(c),
                        bm.col_of(s),
                    ));
                }
            }
            return;
        }
        let fr2: usize = if c == Color::White {
            r - 2
        } else {
            r + 2
        };
        proof {
            assert(fr2 as int == bm.row_of(s) + 2 * pawn_dir(c));
            lemma_rc_idx_bound(h as int, w as int, fr2 as int, c0 as int);
        }
        let t2 = fr2 * w + c0;
        if self.squares[t2].piece != PieceType::Empty {
            return;
        }
        let mv2 = MoveOp {
            from: start,
            to: t2,
            is_enpassant: false,
            is_castle: false,
            set_enpassant: (true, t1),
            promote: PieceType::Empty,
        };
        moves.push(mv2);
        proof {
            assert(moves@ == m1.push(mv2));
            lemma_push_members(m1, mv2, moves@);
            assert(pawn_adv2_ok(bm, c, s, t2 as int));
        }
    }

    /// Append the diagonal capture and the en-passant capture of the
    /// pawn of color `c` at `start` toward file side `side`.
    fn pawn_attack(&self, start: usize, c: Color, side: i8, moves: &mut Vec<MoveOp>)
        requires
            self.wf(),
            (start as int) < self@.len(),
            side as int == 1 || side as int == -1,
        ensures
            forall|mv: MoveOp| #[trigger] final(moves)@.contains(mv) <==> (old(moves)@.contains(mv)
                || (mv.from == start && ((mv == basic_move(start, mv.to) && pawn_cap_at(
                self@,
                c,
                start as int,
                mv.to as int,
                side as int,
            )) || (mv == ep_move(start, mv.to) && pawn_ep_at(
                self@,
                c,
                start as int,
                mv.to as int,
                side as int,
            ))))),
    {
        let ghost bm = self@;
        let ghost s = start as int;
        let w = self.shape.1;
        let h = self.shape.0;
        proof {
            assert(self.squares@.len() == self.squares.len());
            lemma_idx_in_bounds(w as int, h as int, s);
        }
        let r = start / w;
        let c0 = start % w;
        let fwd_ok: bool;
        let fr: usize;
        if c == Color::White {
            fwd_ok = r >= 1;
            fr = if r >= 1 { r - 1 } else { 0 };
        } else {
            fwd_ok = r + 1 < h;
            fr = if r + 1 < h { r + 1 } else { 0 };
        }
        let side_ok: bool;
        let tc: usize;
        if side < 0 {
            side_ok = c0 >= 1;
            tc = if c0 >= 1 { c0 - 1 } else { 0 };
        } else {
            side_ok = c0 + 1 < w;
            tc = if c0 + 1 < w { c0 + 1 } else { 0 };
        }
        proof {
            assert((fwd_ok && side_ok) == bm.rc_in_bounds(
                bm.row_of(s) + pawn_dir(c),
                bm.col_of(s) + side as int,
            ));
            if fwd_ok && side_ok {
                lemma_rc_idx_bound(h as int, w as int, fr as int, tc as int);
            }
        }
        if !(fwd_ok && side_ok) {
            return;
        }
        let t = fr * w + tc;
        let target = self.squares[t];
        let ghost ms0 = old(moves)@;
        let mut pushed_cap: bool = false;
        if target.piece != PieceType::Empty && target.color != c {
            let mv = MoveOp {
                from: start,
                to: t,
                is_enpassant: false,
                is_castle: false,
                set_enpassant: (false, 0),
                promote: PieceType::Empty,
            };
            moves.push(mv);
            pushed_cap = true;
            proof {
                assert(moves@ == ms0.push(mv));
                lemma_push_members(ms0, mv, moves@);
                assert(pawn_cap_at(bm, c, s, t as int, side as int));
            }
        }
        let ghost m1 = moves@;
        if self.en_passant.0 && t == self.en_passant.1 {
            let mv = MoveOp {
                from: start,
                to: t,
                is_enpassant: true,
                is_castle: false,
                set_enpassant: (false, 0),
                promote: PieceType::Empty,
            };
            moves.push(mv);
            proof {
                assert(moves@ == m1.push(mv));
                lemma_push_members(m1, mv, moves@);
                assert(pawn_ep_at(bm, c, s, t as int, side as int));
            }
        }
    }

    /// Pseudo-legal moves of the pawn of color `c` standing at
    /// `start_index`: advances, diagonal captures and en-passant
    /// captures.
    pub fn get_pawn_moves_single(&self, start_index: usize, c: Color) -> (r: Vec<MoveOp>)
        requires
            self.wf(),
            (start_index as int) < self@.len(),
        ensures
            forall|mv: MoveOp| #[trigger] r@.contains(mv) <==> (mv.from == start_index
                && pawn_move_ok(self@, c, mv)),
    {
        let ghost bm = self@;
        let ghost s = start_index as int;
        let mut moves: Vec<MoveOp> = Vec::new();
        self.pawn_advances(start_index, c, &mut moves);
        let ghost ma = moves@;
        self.pawn_attack(start_index, c, -1, &mut moves);
        let ghost ml = moves@;
        self.pawn_attack(start_index, c, 1, &mut moves);
        proof {
            assert forall|mv: MoveOp| #[trigger] moves@.contains(mv) <==> (mv.from == start_index
                && pawn_move_ok(bm, c, mv)) by {
                assert(ma.contains(mv) || !ma.contains(mv));
                assert(ml.contains(mv) || !ml.contains(mv));
                if moves@.contains(mv) {
                    if pawn_cap_at(bm, c, s, mv.to as int, -1) {
                        assert(pawn_cap_ok(bm, c, s, mv.to as int));
                    }
                    if pawn_cap_at(bm, c, s, mv.to as int, 1) {
                        assert(pawn_cap_ok(bm, c, s, mv.to as int));
                    }
                    if pawn_ep_at(bm, c, s, mv.to as int, -1) {
                        assert(pawn_ep_ok(bm, c, s, mv.to as int));
                    }
                    if pawn_ep_at(bm, c, s, mv.to as int, 1) {
                        assert(pawn_ep_ok(bm, c, s, mv.to as int));
                    }
                }
                if mv.from == start_index && pawn_move_ok(bm, c, mv) {
                    if mv == basic_move(mv.from, mv.to) && pawn_cap_ok(bm, c, s, mv.to as int) {
                        let sd = choose|sd: int|
                            (sd == 1 || sd == -1) && pawn_cap_at(bm, c, s, mv.to as int, sd);
                        assert(sd == 1 || sd == -1);
                    }
                    if mv == ep_move(mv.from, mv.to) && pawn_ep_ok(bm, c, s, mv.to as int) {
                        let sd = choose|sd: int|
                            (sd == 1 || sd == -1) && pawn_ep_at(bm, c, s, mv.to as int, sd);
                        assert(sd == 1 || sd == -1);
                    }
                }
            }
        }
        moves
    }
}

/// Membership after a push is membership before, or the pushed move.
pub(crate) proof fn lemma_push_members(a: Seq<MoveOp>, x: MoveOp, c: Seq<MoveOp>)
    requires
        c == a.push(x),
    ensures
        forall|mv: MoveOp| #[trigger] c.contains(mv) <==> a.contains(mv) || mv == x,
{
    assert forall|mv: MoveOp| #[trigger] c.contains(mv) <==> a.contains(mv) || mv == x by {
        if c.contains(mv) {
            let j = choose|j: int| 0 <= j < c.len() && c[j] == mv;
            if j < a.len() {
                assert(a[j] == mv);
            }
        }
        if a.contains(mv) {
            let j = choose|j: int| 0 <= j < a.len() && a[j] == mv;
            assert(c[j] == mv);
        }
        if mv == x {
            assert(c[c.len() - 1] == x);
        }
    }
}


/// `mv` is a pseudo-legal move on `bm`: its origin holds a piece of the
/// side to move, and the piece's own movement rule admits the target
/// and the move's flags. Castling candidates are not generated, so no
/// pseudo-legal move carries the castle flag.
pub open spec fn pseudo_move_ok(bm: BoardModel, mv: MoveOp) -> bool {
    &&& mv.from < bm.len()
    &&& bm.squares[mv.from as int].piece != PieceType::Empty
    &&& bm.squares[mv.from as int].color == bm.to_play
    &&& match bm.squares[mv.from as int].piece {
        PieceType::Rook => mv == basic_move(mv.from, mv.to) && slide_to_ok(
            bm,
            PieceType::Rook,
            mv.from as int,
            mv.to as int,
        ),
        PieceType::Bishop => mv == basic_move(mv.from, mv.to) && slide_to_ok(
            bm,
            PieceType::Bishop,
            mv.from as int,
            mv.to as int,
        ),
        PieceType::Queen => mv == basic_move(mv.from, mv.to) && slide_to_ok(
            bm,
            PieceType::Queen,
            mv.from as int,
            mv.to as int,
        ),
        PieceType::Knight => mv == basic_move(mv.from, mv.to) && knight_to_ok(
            bm,
            mv.from as int,
            mv.to as int,
        ),
        PieceType::King => mv == basic_move(mv.from, mv.to) && king_to_ok(
            bm,
            mv.from as int,
            mv.to as int,
        ),
        PieceType::Pawn => pawn_move_ok(bm, bm.to_play, mv),
        PieceType::Empty => false,
    }
}

impl Board {
    /// Pseudo-legal moves of every pawn of the side to move.
    pub fn get_pawn_moves(&self) -> (r: Vec<MoveOp>)
        requires
            self.wf(),
        ensures
            forall|mv: MoveOp| #[trigger] r@.contains(mv) <==> (mv.from < self@.len()
                && self@.squares[mv.from as int].piece == PieceType::Pawn
                && self@.squares[mv.from as int].color == self@.to_play && pawn_move_ok(
                self@,
                self@.to_play,
                mv,
            )),
    {
        let indices: Vec<usize> = self.get_table_colored(PieceType::Pawn, self.to_play);
        let n = indices.len();
        let mut moves: Vec<MoveOp> = Vec::new();
        let mut i: usize = 0;
        while i < n
            invariant
                self.wf(),
                n == indices@.len(),
                i <= n,
                forall|x: usize|
                    #[trigger] indices@.contains(x) <==> x < self@.len()
                        && self@.squares[x as int].piece == PieceType::Pawn
                        && self@.squares[x as int].color == self@.to_play,
                forall|mv: MoveOp| #[trigger] moves@.contains(mv) <==> (exists|j: int|
                    0 <= j < i && mv.from == indices@[j] && pawn_move_ok(
                        self@,
                        self@.to_play,
                        mv,
                    )),
            decreases n - i,
        {
            let start = indices[i];
            proof {
                assert(indices@.contains(indices@[i as int]));
            }
            let mut single = self.get_pawn_moves_single(start, self.to_play);
            let ghost ms0 = moves@;
            let ghost sg = single@;
            moves.append(&mut single);
            proof {
                lemma_append_contains(ms0, sg, moves@);
                assert forall|mv: MoveOp| #[trigger] moves@.contains(mv) <==> (exists|j: int|
                    0 <= j < i + 1 && mv.from == indices@[j] && pawn_move_ok(
                        self@,
                        self@.to_play,
                        mv,
                    )) by {
                    if moves@.contains(mv) {
                        if ms0.contains(mv) {
                            let j2 = choose|j2: int|
                                0 <= j2 < i && mv.from == indices@[j2] && pawn_move_ok(
                                    self@,
                                    self@.to_play,
                                    mv,
                                );
                            assert(0 <= j2 < i + 1 && mv.from == indices@[j2]);
                        } else {
                            assert(sg.contains(mv));
                            assert(mv.from == indices@[i as int]);
                        }
                    }
                    if exists|j: int|
                        0 <= j < i + 1 && mv.from == indices@[j] && pawn_move_ok(
                            self@,
                            self@.to_play,
                            mv,
                        ) {
                        let j = choose|j: int|
                            0 <= j < i + 1 && mv.from == indices@[j] && pawn_move_ok(
                                self@,
                                self@.to_play,
                                mv,
                            );
                        if j < i {
                            assert(ms0.contains(mv));
                        } else {
                            assert(mv.from == indices@[i as int]);
                            assert(sg.contains(mv));
                        }
                    }
                }
            }
            i = i + 1;
        }
        proof {
            assert forall|mv: MoveOp| #[trigger] moves@.contains(mv) <==> (mv.from < self@.len()
                && self@.squares[mv.from as int].piece == PieceType::Pawn
                && self@.squares[mv.from as int].color == self@.to_play && pawn_move_ok(
                self@,
                self@.to_play,
                mv,
            )) by {
                if moves@.contains(mv) {
                    let j = choose|j: int|
                        0 <= j < n && mv.from == indices@[j] && pawn_move_ok(
                            self@,
                            self@.to_play,
                            mv,
                        );
                    assert(indices@.contains(indices@[j]));
                }
                if mv.from < self@.len() && self@.squares[mv.from as int].piece == PieceType::Pawn
                    && self@.squares[mv.from as int].color == self@.to_play {
                    assert(indices@.contains(mv.from));
                    let j = choose|j: int| 0 <= j < indices@.len() && indices@[j] == mv.from;
                }
            }
        }
        moves
    }

    /// The full pseudo-legal move set of the side to move: king, queen,
    /// bishop, rook, knight and pawn moves together.
    pub fn get_all_moves(&self) -> (r: Vec<MoveOp>)
        requires
            self.wf(),
        ensures
            forall|mv: MoveOp| #[trigger] r@.contains(mv) <==> pseudo_move_ok(self@, mv),
    {
        let mut moves: Vec<MoveOp> = self.get_king_moves();
        let ghost g1 = moves@;
        let mut part = self.get_sliding_moves(PieceType::Queen);
        let ghost p1 = part@;
        moves.append(&mut part);
        proof {
            lemma_append_contains(g1, p1, moves@);
        }
        let ghost g2 = moves@;
        let mut part2 = self.get_sliding_moves(PieceType::Bishop);
        let ghost p2 = part2@;
        moves.append(&mut part2);
        proof {
            lemma_append_contains(g2, p2, moves@);
        }
        let ghost g3 = moves@;
        let mut part3 = self.get_sliding_moves(PieceType::Rook);
        let ghost p3 = part3@;
        moves.append(&mut part3);
        proof {
            lemma_append_contains(g3, p3, moves@);
        }
        let ghost g4 = moves@;
        let mut part4 = self.get_knight_moves();
        let ghost p4 = part4@;
        moves.append(&mut part4);
        proof {
            lemma_append_contains(g4, p4, moves@);
        }
        let ghost g5 = moves@;
        let mut part5 = self.get_pawn_moves();
        let ghost p5 = part5@;
        moves.append(&mut part5);
        proof {
            lemma_append_contains(g5, p5, moves@);
            assert forall|mv: MoveOp| #[trigger] moves@.contains(mv) <==> pseudo_move_ok(
                self@,
                mv,
            ) by {
                assert(g1.contains(mv) || !g1.contains(mv));
                assert(g2.contains(mv) || !g2.contains(mv));
                assert(g3.contains(mv) || !g3.contains(mv));
                assert(g4.contains(mv) || !g4.contains(mv));
                assert(g5.contains(mv) || !g5.contains(mv));
                assert(p1.contains(mv) || !p1.contains(mv));
                assert(p2.contains(mv) || !p2.contains(mv));
                assert(p3.contains(mv) || !p3.contains(mv));
                assert(p4.contains(mv) || !p4.contains(mv));
                assert(p5.contains(mv) || !p5.contains(mv));
            }
        }
        moves
    }
}


/// A rook's sliding targets stay on the mover's rank or file: the walk
/// steps by rank and file, so no rightward run off the last file can
/// wrap onto the next rank.
pub proof fn lemma_rook_moves_stay_on_line(bm: BoardModel, from: int, to: int)
    requires
        bm.width >= 1,
        bm.height >= 1,
        bm.len() == bm.height * bm.width,
        0 <= from < bm.len(),
        slide_to_ok(bm, PieceType::Rook, from, to),
    ensures
        bm.row_of(to) == bm.row_of(from) || bm.col_of(to) == bm.col_of(from),
{
    let r0 = bm.row_of(from);
    let c0 = bm.col_of(from);
    lemma_idx_in_bounds(bm.width, bm.height, from);
    let (dr, dc) = choose|dr: int, dc: int|
        slide_dir_ok(PieceType::Rook, dr, dc) && ray_reaches(bm, from, dr, dc, to);
    let n = choose|n: int| ray_reaches_n(bm, from, dr, dc, to, n);
    lemma_mul_unit(n, dr);
    lemma_mul_unit(n, dc);
    lemma_rc_to_idx(bm.width, r0 + n * dr, c0 + n * dc);
}


} // verus!
