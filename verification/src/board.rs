//! The position model: squares, the aggregate board state, and the
//! derived piece-location index together with its synchronization
//! invariant.

use vstd::prelude::*;

verus! {

/// The standard starting position, in positional notation.
pub const START_FEN: &'static str = "rnbqkbnr/pppppppp/8/8/8/8/PPPPPPPP/RNBQKBNR w KQkq - 0 1";

/// The side a piece belongs to, and whose turn it is.
#[derive(Copy, Clone, PartialEq, Eq, Structural, Debug, Hash)]
pub enum Color {
    White,
    Black,
}

/// The kind of piece standing on a square. `Empty` marks a vacant square.
#[derive(Copy, Clone, PartialEq, Eq, Structural, Debug, Hash)]
pub enum PieceType {
    Empty,
    Pawn,
    Rook,
    Knight,
    Bishop,
    Queen,
    King,
}

/// The state of the game: still running, or one of the terminal reasons.
#[derive(Copy, Clone, PartialEq, Eq, Structural, Debug)]
pub enum GameResult {
    Active,
    DrawAgreement,
    DrawThreefold,
    Draw50Moves,
    DrawInsufficientMaterial,
    DrawTimeoutInsufficientMaterial,
    WhiteTime,
    WhiteResign,
    WhiteCheckmate,
    BlackTime,
    BlackResign,
    BlackCheckmate,
}

/// One cell of the board. The `color` field of an empty square is
/// meaningless and is never inspected by the game logic.
#[derive(Copy, Clone, PartialEq, Eq, Structural, Debug)]
pub struct Square {
    pub color: Color,
    pub piece: PieceType,
}

/// A candidate or committed transition between positions.
///
/// `from` and `to` are board indices. `is_enpassant` marks an en-passant
/// capture, where the captured pawn is not at `to`. `is_castle` marks the
/// king's two-square castling move, which drags the paired rook along.
/// `set_enpassant` is the en-passant target this move creates for the
/// opponent's next turn. `promote` is the piece a pawn becomes (`Empty`
/// when the move is not a promotion; promotion completion is a declared
/// gap of this engine).
#[derive(Copy, Clone, PartialEq, Eq, Debug)]
pub struct MoveOp {
    pub from: usize,
    pub to: usize,
    pub is_enpassant: bool,
    pub is_castle: bool,
    pub set_enpassant: (bool, usize),
    pub promote: PieceType,
}

impl Default for MoveOp {
    /// A quiet move from index 0 to index 0 with every flag cleared.
    fn default() -> (r: Self)
        ensures
            r == (MoveOp {
                from: 0,
                to: 0,
                is_enpassant: false,
                is_castle: false,
                set_enpassant: (false, 0),
                promote: PieceType::Empty,
            }),
    {
        MoveOp {
            from: 0,
            to: 0,
            is_enpassant: false,
            is_castle: false,
            set_enpassant: (false, 0),
            promote: PieceType::Empty,
        }
    }
}

impl Default for Square {
    /// An empty square. The color of an empty square carries no meaning.
    fn default() -> (r: Self)
        ensures
            r == (Square { color: Color::White, piece: PieceType::Empty }),
    {
        Square { color: Color::White, piece: PieceType::Empty }
    }
}

impl Default for Color {
    fn default() -> (r: Self)
        ensures
            r == Color::White,
    {
        Color::White
    }
}

impl Default for PieceType {
    fn default() -> (r: Self)
        ensures
            r == PieceType::Empty,
    {
        PieceType::Empty
    }
}

impl Default for GameResult {
    fn default() -> (r: Self)
        ensures
            r == GameResult::Active,
    {
        GameResult::Active
    }
}

/// Whether a sequence of board indices has no repeated entry.
pub open spec fn distinct(s: Seq<usize>) -> bool {
    forall|j1: int, j2: int| 0 <= j1 < j2 < s.len() ==> s[j1] != s[j2]
}

/// The derived piece-location index: for each piece kind, the board
/// indices currently holding a piece of that kind, irrespective of color.
/// It is a cache over `Board::squares` and must stay exactly synchronized
/// with it; `Board::wf` states the synchronization invariant.
#[derive(Debug)]
pub struct PieceIndex {
    pub pawns: Vec<usize>,
    pub rooks: Vec<usize>,
    pub knights: Vec<usize>,
    pub bishops: Vec<usize>,
    pub queens: Vec<usize>,
    pub kings: Vec<usize>,
}

impl PieceIndex {
    /// The recorded locations of one piece kind, as a sequence.
    pub open spec fn table(&self, p: PieceType) -> Seq<usize> {
        match p {
            PieceType::Empty => Seq::empty(),
            PieceType::Pawn => self.pawns@,
            PieceType::Rook => self.rooks@,
            PieceType::Knight => self.knights@,
            PieceType::Bishop => self.bishops@,
            PieceType::Queen => self.queens@,
            PieceType::King => self.kings@,
        }
    }

    /// Whether board index `i` is recorded as holding a piece of kind `p`.
    pub open spec fn has_loc(&self, p: PieceType, i: int) -> bool {
        exists|j: int| 0 <= j < self.table(p).len() && self.table(p)[j] == i
    }

    /// Remove the first occurrence of `val` from the table of kind `p`.
    pub(crate) fn remove_loc(&mut self, p: PieceType, val: usize)
        requires
            p != PieceType::Empty,
            old(self).table(p).contains(val),
        ensures
            forall|q: PieceType| q != p ==> final(self).table(q) == old(self).table(q),
            final(self).table(p).len() == old(self).table(p).len() - 1,
            forall|x: usize|
                final(self).table(p).contains(x) ==> old(self).table(p).contains(x),
            forall|x: usize|
                old(self).table(p).contains(x) && x != val ==> final(self).table(p).contains(x),
            distinct(old(self).table(p)) ==> distinct(final(self).table(p))
                && !final(self).table(p).contains(val),
    {
        match p {
            PieceType::Pawn => vec_remove_first(&mut self.pawns, val),
            PieceType::Rook => vec_remove_first(&mut self.rooks, val),
            PieceType::Knight => vec_remove_first(&mut self.knights, val),
            PieceType::Bishop => vec_remove_first(&mut self.bishops, val),
            PieceType::Queen => vec_remove_first(&mut self.queens, val),
            PieceType::King => vec_remove_first(&mut self.kings, val),
            PieceType::Empty => {},
        }
    }

    /// An element-wise copy of every location table.
    pub(crate) fn duplicate(&self) -> (r: Self)
        ensures
            forall|p: PieceType| r.table(p) == self.table(p),
    {
        PieceIndex {
            pawns: copy_indices(&self.pawns),
            rooks: copy_indices(&self.rooks),
            knights: copy_indices(&self.knights),
            bishops: copy_indices(&self.bishops),
            queens: copy_indices(&self.queens),
            kings: copy_indices(&self.kings),
        }
    }

    /// Overwrite the first occurrence of `from_val` in the table of kind
    /// `p` with `to_val`: the piece of kind `p` recorded at `from_val`
    /// now stands at `to_val`.
    pub(crate) fn move_loc(&mut self, p: PieceType, from_val: usize, to_val: usize)
        requires
            p != PieceType::Empty,
            old(self).table(p).contains(from_val),
            !old(self).table(p).contains(to_val),
        ensures
            forall|q: PieceType| q != p ==> final(self).table(q) == old(self).table(q),
            final(self).table(p).len() == old(self).table(p).len(),
            final(self).table(p).contains(to_val),
            forall|x: usize|
                final(self).table(p).contains(x)
                    ==> old(self).table(p).contains(x) || x == to_val,
            forall|x: usize|
                old(self).table(p).contains(x) && x != from_val
                    ==> final(self).table(p).contains(x),
            distinct(old(self).table(p))
                ==> distinct(final(self).table(p))
                    && !final(self).table(p).contains(from_val),
    {
        match p {
            PieceType::Pawn => vec_replace_first(&mut self.pawns, from_val, to_val),
            PieceType::Rook => vec_replace_first(&mut self.rooks, from_val, to_val),
            PieceType::Knight => vec_replace_first(&mut self.knights, from_val, to_val),
            PieceType::Bishop => vec_replace_first(&mut self.bishops, from_val, to_val),
            PieceType::Queen => vec_replace_first(&mut self.queens, from_val, to_val),
            PieceType::King => vec_replace_first(&mut self.kings, from_val, to_val),
            PieceType::Empty => {},
        }
    }
}

/// Position of the first occurrence of `val` in `v`.
fn vec_position(v: &Vec<usize>, val: usize) -> (r: usize)
    requires
        v@.contains(val),
    ensures
        r < v@.len(),
        v@[r as int] == val,
        forall|j: int| 0 <= j < r ==> v@[j] != val,
{
    let n = v.len();
    let mut i: usize = 0;
    loop
        invariant
            v@.contains(val),
            n == v@.len(),
            i < n,
            forall|j: int| 0 <= j < i ==> v@[j] != val,
        ensures
            i < v@.len(),
            v@[i as int] == val,
            forall|j: int| 0 <= j < i ==> v@[j] != val,
        decreases v@.len() - i,
    {
        if v[i] == val {
            break;
        }
        proof {
            if i + 1 >= v@.len() {
                let j = choose|j: int| 0 <= j < v@.len() && v@[j] == val;
                assert(false);
            }
        }
        i = i + 1;
    }
    i
}

/// Remove the first occurrence of `val` from `v`.
fn vec_remove_first(v: &mut Vec<usize>, val: usize)
    requires
        old(v)@.contains(val),
    ensures
        final(v)@.len() == old(v)@.len() - 1,
        forall|x: usize| final(v)@.contains(x) ==> old(v)@.contains(x),
        forall|x: usize| old(v)@.contains(x) && x != val ==> final(v)@.contains(x),
        distinct(old(v)@) ==> distinct(final(v)@) && !final(v)@.contains(val),
{
    let pos = vec_position(v, val);
    let ghost v0 = v@;
    let ghost p = pos as int;
    v.remove(pos);
    proof {
        assert forall|x: usize| v@.contains(x) implies v0.contains(x) by {
            let j = choose|j: int| 0 <= j < v@.len() && v@[j] == x;
            if j < p {
                assert(v0[j] == x);
            } else {
                assert(v0[j + 1] == x);
            }
        }
        assert forall|x: usize| v0.contains(x) && x != val implies v@.contains(x) by {
            let j = choose|j: int| 0 <= j < v0.len() && v0[j] == x;
            if j < p {
                assert(v@[j] == x);
            } else {
                assert(j != p);
                assert(v@[j - 1] == x);
            }
        }
        if distinct(v0) {
            assert forall|j1: int, j2: int| 0 <= j1 < j2 < v@.len() implies v@[j1] != v@[j2] by {
                if j2 < p {
                    assert(v0[j1] != v0[j2]);
                } else if j1 < p {
                    assert(v0[j1] != v0[j2 + 1]);
                } else {
                    assert(v0[j1 + 1] != v0[j2 + 1]);
                }
            }
            assert forall|j: int| 0 <= j < v@.len() implies v@[j] != val by {
                if j < p {
                    assert(v0[j] != val);
                } else {
                    assert(v0[j + 1] != v0[p]);
                }
            }
            assert(!v@.contains(val));
        }
    }
}

/// Overwrite the first occurrence of `from_val` in `v` with `to_val`.
fn vec_replace_first(v: &mut Vec<usize>, from_val: usize, to_val: usize)
    requires
        old(v)@.contains(from_val),
        !old(v)@.contains(to_val),
    ensures
        final(v)@.len() == old(v)@.len(),
        final(v)@.contains(to_val),
        forall|x: usize| final(v)@.contains(x) ==> old(v)@.contains(x) || x == to_val,
        forall|x: usize| old(v)@.contains(x) && x != from_val ==> final(v)@.contains(x),
        distinct(old(v)@) ==> distinct(final(v)@) && !final(v)@.contains(from_val),
{
    let pos = vec_position(v, from_val);
    let ghost v0 = v@;
    let ghost p = pos as int;
    v.set(pos, to_val);
    proof {
        assert(v@[p] == to_val);
        assert(v@.contains(to_val));
        assert forall|x: usize| v@.contains(x) implies v0.contains(x) || x == to_val by {
            let j = choose|j: int| 0 <= j < v@.len() && v@[j] == x;
            if j != p {
                assert(v0[j] == x);
            }
        }
        assert forall|x: usize| v0.contains(x) && x != from_val implies v@.contains(x) by {
            let j = choose|j: int| 0 <= j < v0.len() && v0[j] == x;
            assert(j != p);
            assert(v@[j] == x);
        }
        if distinct(v0) {
            assert forall|j1: int, j2: int| 0 <= j1 < j2 < v@.len() implies v@[j1] != v@[j2] by {
                if j1 != p && j2 != p {
                    assert(v0[j1] != v0[j2]);
                } else {
                    assert(!v0.contains(to_val));
                    if j1 == p {
                        assert(v0[j2] == v@[j2]);
                        if v@[j2] == to_val {
                            assert(v0[j2] == to_val);
                        }
                    } else {
                        assert(v0[j1] == v@[j1]);
                        if v@[j1] == to_val {
                            assert(v0[j1] == to_val);
                        }
                    }
                }
            }
            assert forall|j: int| 0 <= j < v@.len() implies v@[j] != from_val by {
                if j != p {
                    assert(v0[j] != v0[p]);
                }
                if j == p {
                    assert(v@[j] == to_val);
                    assert(v0[p] == from_val);
                    assert(to_val != from_val);
                }
            }
            assert(!v@.contains(from_val));
        }
    }
}

/// The aggregate position: the squares, the board shape, the derived
/// piece-location index, and the game-state bookkeeping fields.
///
/// `squares` has length `shape.0 * shape.1` and is indexed
/// `rank * width + file`, where rank 0 is the side printed first in the
/// positional notation.
#[derive(Debug)]
pub struct Board {
    pub squares: Vec<Square>,
    /// (height, width)
    pub shape: (usize, usize),
    pub piece_map: PieceIndex,
    pub to_play: Color,
    /// ((white-kingside, white-queenside), (black-kingside, black-queenside))
    pub castling: ((bool, bool), (bool, bool)),
    /// (flag, target index): the square a pawn can move to for an
    /// en-passant capture, valid only while the flag is set.
    pub en_passant: (bool, usize),
    pub halfmove_clock: u16,
    pub fullmove_number: u16,
    pub result: GameResult,
}

/// The mathematical abstraction of a board: everything a contract needs
/// to speak about, with the derived piece-location index left out (the
/// index is tied to the squares by `Board::wf` instead).
#[verifier::ext_equal]
pub ghost struct BoardModel {
    pub squares: Seq<Square>,
    pub height: int,
    pub width: int,
    pub to_play: Color,
    pub castling: ((bool, bool), (bool, bool)),
    pub en_passant: (bool, int),
    pub halfmove_clock: int,
    pub fullmove_number: int,
    pub result: GameResult,
}

impl View for Board {
    type V = BoardModel;

    open spec fn view(&self) -> BoardModel {
        BoardModel {
            squares: self.squares@,
            height: self.shape.0 as int,
            width: self.shape.1 as int,
            to_play: self.to_play,
            castling: self.castling,
            en_passant: (self.en_passant.0, self.en_passant.1 as int),
            halfmove_clock: self.halfmove_clock as int,
            fullmove_number: self.fullmove_number as int,
            result: self.result,
        }
    }
}

impl BoardModel {
    /// Number of squares on the board.
    pub open spec fn len(self) -> int {
        self.squares.len() as int
    }

    /// Rank (row) of a board index.
    pub open spec fn row_of(self, i: int) -> int {
        i / self.width
    }

    /// File (column) of a board index.
    pub open spec fn col_of(self, i: int) -> int {
        i % self.width
    }

    /// Board index of a (rank, file) pair.
    pub open spec fn idx(self, r: int, c: int) -> int {
        r * self.width + c
    }

    /// Whether a (rank, file) pair lies on the board.
    pub open spec fn rc_in_bounds(self, r: int, c: int) -> bool {
        0 <= r < self.height && 0 <= c < self.width
    }

    /// Whether the square at index `i` holds a piece.
    pub open spec fn occupied(self, i: int) -> bool {
        self.squares[i].piece != PieceType::Empty
    }

    /// Whether the square at index `i` holds a piece of color `c`.
    pub open spec fn holds_color(self, i: int, c: Color) -> bool {
        self.occupied(i) && self.squares[i].color == c
    }
}

impl Board {
    /// The shape agrees with the square count, and the board is not
    /// degenerate.
    pub open spec fn dims_ok(&self) -> bool {
        &&& self.shape.0 >= 1
        &&& self.shape.1 >= 1
        &&& self.squares@.len() == self.shape.0 * self.shape.1
    }

    /// The piece-location index entries for kind `p` are in bounds,
    /// distinct, and agree exactly with the squares: index `i` holds a
    /// piece of kind `p` if and only if `i` is recorded for `p`.
    pub open spec fn table_wf(&self, p: PieceType) -> bool {
        let t = self.piece_map.table(p);
        &&& forall|j: int|
            0 <= j < t.len() ==> (#[trigger] t[j]) < self.squares@.len()
                && self.squares@[t[j] as int].piece == p
        &&& distinct(t)
        &&& forall|i: int|
            0 <= i < self.squares@.len() && (#[trigger] self.squares@[i]).piece == p
                ==> self.piece_map.has_loc(p, i)
    }

    /// The internal invariant of a board: consistent dimensions and a
    /// piece-location index exactly synchronized with the squares.
    pub open spec fn wf(&self) -> bool {
        &&& self.dims_ok()
        &&& forall|p: PieceType| p != PieceType::Empty ==> self.table_wf(p)
    }

    /// Scan the full board for every square holding a piece of kind `p`,
    /// in ascending index order. This is the ground truth the
    /// piece-location index caches.
    pub fn search_piece(&self, p: PieceType) -> (r: Vec<usize>)
        ensures
            forall|j1: int, j2: int| 0 <= j1 < j2 < r@.len() ==> r@[j1] < r@[j2],
            forall|j: int|
                0 <= j < r@.len() ==> (#[trigger] r@[j]) < self.squares@.len()
                    && self.squares@[r@[j] as int].piece == p,
            forall|i: int|
                0 <= i < self.squares@.len() && (#[trigger] self.squares@[i]).piece == p
                    ==> exists|j: int| 0 <= j < r@.len() && r@[j] == i,
    {
        let mut r: Vec<usize> = Vec::new();
        let n = self.squares.len();
        let mut i: usize = 0;
        while i < n
            invariant
                i <= n,
                n == self.squares@.len(),
                forall|j1: int, j2: int| 0 <= j1 < j2 < r@.len() ==> r@[j1] < r@[j2],
                forall|j: int|
                    0 <= j < r@.len() ==> (#[trigger] r@[j]) < i
                        && self.squares@[r@[j] as int].piece == p,
                forall|k: int|
                    0 <= k < i && (#[trigger] self.squares@[k]).piece == p
                        ==> exists|j: int| 0 <= j < r@.len() && r@[j] == k,
            decreases n - i,
        {
            if self.squares[i].piece == p {
                let ghost r0 = r@;
                r.push(i);
                proof {
                    assert forall|k: int|
                        0 <= k < i + 1 && (#[trigger] self.squares@[k]).piece == p
                            implies exists|j: int| 0 <= j < r@.len() && r@[j] == k by {
                        if k < i {
                            let j = choose|j: int| 0 <= j < r0.len() && r0[j] == k;
                            assert(r@[j] == k);
                        } else {
                            assert(r@[r@.len() - 1] == i);
                        }
                    }
                }
            }
            i = i + 1;
        }
        r
    }

    /// The recorded locations of piece kind `p`, as a fresh vector.
    ///
    /// The `Empty` kind has no table; callers must ask for a real piece.
    pub fn get_table(&self, p: PieceType) -> (r: Vec<usize>)
        requires
            p != PieceType::Empty,
        ensures
            r@ == self.piece_map.table(p),
    {
        match p {
            PieceType::Pawn => copy_indices(&self.piece_map.pawns),
            PieceType::Rook => copy_indices(&self.piece_map.rooks),
            PieceType::Knight => copy_indices(&self.piece_map.knights),
            PieceType::Bishop => copy_indices(&self.piece_map.bishops),
            PieceType::Queen => copy_indices(&self.piece_map.queens),
            PieceType::King => copy_indices(&self.piece_map.kings),
            PieceType::Empty => Vec::new(),
        }
    }

    /// A mutable handle on the location table of kind `p`. The caller
    /// becomes responsible for keeping the index synchronized with the
    /// squares: the board's invariant speaks of whatever the caller
    /// leaves behind.
    pub fn get_mut_table(&mut self, p: PieceType) -> (r: &mut Vec<usize>)
        requires
            p != PieceType::Empty,
        ensures
            (*r)@ == old(self).piece_map.table(p),
            final(self).piece_map.table(p) == final(r)@,
            forall|q: PieceType|
                q != p ==> final(self).piece_map.table(q) == old(self).piece_map.table(q),
            final(self).squares@ == old(self).squares@,
            final(self).shape == old(self).shape,
            final(self).to_play == old(self).to_play,
            final(self).castling == old(self).castling,
            final(self).en_passant == old(self).en_passant,
            final(self).halfmove_clock == old(self).halfmove_clock,
            final(self).fullmove_number == old(self).fullmove_number,
            final(self).result == old(self).result,
    {
        match p {
            PieceType::Rook => &mut self.piece_map.rooks,
            PieceType::Knight => &mut self.piece_map.knights,
            PieceType::Bishop => &mut self.piece_map.bishops,
            PieceType::Queen => &mut self.piece_map.queens,
            PieceType::King => &mut self.piece_map.kings,
            _ => &mut self.piece_map.pawns,
        }
    }

    /// The recorded locations of pieces of kind `p` that belong to color
    /// `c`: exactly the board indices holding such a piece.
    pub fn get_table_colored(&self, p: PieceType, c: Color) -> (r: Vec<usize>)
        requires
            self.wf(),
            p != PieceType::Empty,
        ensures
            distinct(r@),
            forall|x: usize|
                #[trigger] r@.contains(x) <==> x < self.squares@.len()
                    && self.squares@[x as int].piece == p && self.squares@[x as int].color == c,
    {
        let t = self.get_table(p);
        let n = t.len();
        let mut r: Vec<usize> = Vec::new();
        let mut i: usize = 0;
        while i < n
            invariant
                self.wf(),
                p != PieceType::Empty,
                t@ == self.piece_map.table(p),
                n == t@.len(),
                i <= n,
                forall|j: int|
                    0 <= j < r@.len() ==> exists|k: int| 0 <= k < i && t@[k] == #[trigger] r@[j],
                distinct(r@),
                forall|x: usize|
                    #[trigger] r@.contains(x) ==> x < self.squares@.len()
                        && self.squares@[x as int].piece == p
                        && self.squares@[x as int].color == c,
                forall|k: int|
                    0 <= k < i && self.squares@[t@[k] as int].color == c ==> r@.contains(
                        #[trigger] t@[k],
                    ),
            decreases n - i,
        {
            proof {
                assert(self.table_wf(p));
            }
            let x = t[i];
            if self.squares[x].color == c {
                let ghost r0 = r@;
                proof {
                    if r0.contains(x) {
                        let j = choose|j: int| 0 <= j < r0.len() && r0[j] == x;
                        let k = choose|k: int| 0 <= k < i && t@[k] == r0[j];
                        assert(t@[k] == t@[i as int]);
                    }
                }
                r.push(x);
                proof {
                    assert forall|y: usize| #[trigger] r@.contains(y)
                        implies y < self.squares@.len()
                            && self.squares@[y as int].piece == p
                            && self.squares@[y as int].color == c by {
                        let j = choose|j: int| 0 <= j < r@.len() && r@[j] == y;
                        if j < r0.len() {
                            assert(r0[j] == y);
                            assert(r0.contains(y));
                        } else {
                            assert(y == x);
                        }
                    }
                    assert forall|j1: int, j2: int|
                        0 <= j1 < j2 < r@.len() implies r@[j1] != r@[j2] by {
                        if j2 < r@.len() - 1 {
                            assert(r0[j1] != r0[j2]);
                        } else {
                            assert(r@[j2] == x);
                            assert(!r0.contains(x));
                            if r@[j1] == x {
                                assert(r0[j1] == x);
                            }
                        }
                    }
                    assert forall|k: int|
                        0 <= k < i + 1 && self.squares@[t@[k] as int].color == c
                            implies r@.contains(#[trigger] t@[k]) by {
                        if k < i {
                            let j = choose|j: int| 0 <= j < r0.len() && r0[j] == t@[k];
                            assert(r@[j] == t@[k]);
                        } else {
                            assert(r@[r@.len() - 1] == x);
                        }
                    }
                }
            }
            i = i + 1;
        }
        proof {
            assert forall|x: usize|
                x < self.squares@.len() && self.squares@[x as int].piece == p
                    && self.squares@[x as int].color == c implies #[trigger] r@.contains(x) by {
                assert(self.table_wf(p));
                assert(self.piece_map.has_loc(p, x as int));
                let k = choose|k: int|
                    0 <= k < t@.len() && t@[k] == x as int;
                assert(self.squares@[t@[k] as int].color == c);
            }
        }
        r
    }

    /// Position of board index `val` within a location table. A miss
    /// would mean a corrupted index, a fatal internal-consistency
    /// condition; the contract instead demands membership up front,
    /// which `wf` supplies wherever the index is synchronized.
    pub fn get_table_index(table: &Vec<usize>, val: usize) -> (r: usize)
        requires
            table@.contains(val),
        ensures
            r < table@.len(),
            table@[r as int] == val,
            forall|j: int| 0 <= j < r ==> table@[j] != val,
    {
        vec_position(table, val)
    }

    /// Rebuild the piece-location index from scratch by scanning the
    /// squares once. This is the only place the index is built whole;
    /// every other mutation updates it incrementally.
    pub fn populate_map(&mut self)
        ensures
            final(self)@ == old(self)@,
            final(self).shape == old(self).shape,
            final(self).squares@ == old(self).squares@,
            forall|p: PieceType| p != PieceType::Empty ==> final(self).table_wf(p),
            old(self).dims_ok() ==> final(self).wf(),
    {
        let pawns = self.search_piece(PieceType::Pawn);
        let rooks = self.search_piece(PieceType::Rook);
        let knights = self.search_piece(PieceType::Knight);
        let bishops = self.search_piece(PieceType::Bishop);
        let queens = self.search_piece(PieceType::Queen);
        let kings = self.search_piece(PieceType::King);
        self.piece_map = PieceIndex { pawns, rooks, knights, bishops, queens, kings };
    }

    /// A deep copy: the squares and the piece-location index are copied
    /// together, so the synchronization invariant carries over.
    pub fn duplicate(&self) -> (r: Self)
        ensures
            r@ == self@,
            forall|p: PieceType| r.piece_map.table(p) == self.piece_map.table(p),
            r.shape == self.shape,
            self.wf() ==> r.wf(),
    {
        let r = Board {
            squares: copy_squares(&self.squares),
            shape: self.shape,
            piece_map: self.piece_map.duplicate(),
            to_play: self.to_play,
            castling: self.castling,
            en_passant: self.en_passant,
            halfmove_clock: self.halfmove_clock,
            fullmove_number: self.fullmove_number,
            result: self.result,
        };
        proof {
            if self.wf() {
                assert forall|p: PieceType| p != PieceType::Empty implies r.table_wf(p) by {
                    assert(self.table_wf(p));
                    assert(r.piece_map.table(p) == self.piece_map.table(p));
                    assert forall|i: int|
                        0 <= i < r.squares@.len() && (#[trigger] r.squares@[i]).piece == p
                            implies r.piece_map.has_loc(p, i) by {
                        assert(self.squares@[i].piece == p);
                        let j = choose|j: int|
                            0 <= j < self.piece_map.table(p).len() && self.piece_map.table(p)[j]
                                == i;
                        assert(r.piece_map.table(p)[j] == i);
                    }
                }
            }
        }
        r
    }
}

/// Element-wise copy of a vector of board indices.
fn copy_indices(v: &Vec<usize>) -> (r: Vec<usize>)
    ensures
        r@ == v@,
{
    let n = v.len();
    let mut r: Vec<usize> = Vec::new();
    let mut i: usize = 0;
    while i < n
        invariant
            n == v@.len(),
            i <= n,
            r@ == v@.subrange(0, i as int),
        decreases n - i,
    {
        r.push(v[i]);
        proof {
            assert(r@ =~= v@.subrange(0, i + 1));
        }
        i = i + 1;
    }
    proof {
        assert(r@ =~= v@);
    }
    r
}

/// Element-wise copy of a vector of squares.
pub(crate) fn copy_squares(v: &Vec<Square>) -> (r: Vec<Square>)
    ensures
        r@ == v@,
{
    let n = v.len();
    let mut r: Vec<Square> = Vec::new();
    let mut i: usize = 0;
    while i < n
        invariant
            n == v@.len(),
            i <= n,
            r@ == v@.subrange(0, i as int),
        decreases n - i,
    {
        r.push(v[i]);
        proof {
            assert(r@ =~= v@.subrange(0, i + 1));
        }
        i = i + 1;
    }
    proof {
        assert(r@ =~= v@);
    }
    r
}

impl Default for Board {
    /// An all-empty standard 8-by-8 board with nothing to report: White
    /// to play, no castling rights, no en-passant target, counters at
    /// zero and an empty piece-location index.
    fn default() -> (r: Self)
        ensures
            r.wf(),
            r@.squares.len() == 64,
            forall|i: int| 0 <= i < 64 ==> r@.squares[i].piece == PieceType::Empty,
            r@.height == 8,
            r@.width == 8,
            r@.to_play == Color::White,
            r@.castling == ((false, false), (false, false)),
            r@.en_passant.0 == false,
            r@.halfmove_clock == 0,
            r@.fullmove_number == 0,
            r@.result == GameResult::Active,
    {
        let mut squares: Vec<Square> = Vec::new();
        let mut i: usize = 0;
        while i < 64
            invariant
                i <= 64,
                squares@.len() == i,
                forall|j: int| 0 <= j < i ==> squares@[j].piece == PieceType::Empty,
            decreases 64 - i,
        {
            squares.push(Square { color: Color::White, piece: PieceType::Empty });
            i = i + 1;
        }
        Board {
            squares,
            shape: (8, 8),
            piece_map: PieceIndex {
                pawns: Vec::new(),
                rooks: Vec::new(),
                knights: Vec::new(),
                bishops: Vec::new(),
                queens: Vec::new(),
                kings: Vec::new(),
            },
            to_play: Color::White,
            castling: ((false, false), (false, false)),
            en_passant: (false, 0),
            halfmove_clock: 0,
            fullmove_number: 0,
            result: GameResult::Active,
        }
    }
}

} // verus!
