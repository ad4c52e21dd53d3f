use rust_chess::board::{Board, Color, GameResult, MoveOp, PieceType, Square, START_FEN};

fn quiet(from: usize, to: usize) -> MoveOp {
    MoveOp {
        from,
        to,
        is_enpassant: false,
        is_castle: false,
        set_enpassant: (false, 0),
        promote: PieceType::Empty,
    }
}

#[test]
fn board_test() {
    let mut board: Board = Board::default();
    println!("ahhh yes... chess.");
    println!("{}\n", board.print_board());

    board = Board::from_fen(START_FEN).unwrap();
    println!("board has been initialized from FEN string: {}\n", START_FEN);
    println!("{}\n", board.print_board());

    // Play the ruy...
    board.apply_move(MoveOp {
        from: 52,
        to: 36,
        is_enpassant: false,
        is_castle: false,
        set_enpassant: (false, 0),
        promote: PieceType::Empty,
    });
    board.apply_move(MoveOp {
        from: 12,
        to: 28,
        is_enpassant: false,
        is_castle: false,
        set_enpassant: (false, 0),
        promote: PieceType::Empty,
    });
    board.apply_move(MoveOp {
        from: 62,
        to: 45,
        is_enpassant: false,
        is_castle: false,
        set_enpassant: (false, 0),
        promote: PieceType::Empty,
    });
    board.apply_move(MoveOp {
        from: 1,
        to: 18,
        is_enpassant: false,
        is_castle: false,
        set_enpassant: (false, 0),
        promote: PieceType::Empty,
    });
    board.apply_move(MoveOp {
        from: 61,
        to: 25,
        is_enpassant: false,
        is_castle: false,
        set_enpassant: (false, 0),
        promote: PieceType::Empty,
    });

    println!("{}", board.print_board());
}

#[test]
fn default_board_is_empty() {
    let b = Board::default();
    assert_eq!(b.squares.len(), 64);
    assert_eq!(b.shape, (8, 8));
    for sq in &b.squares {
        assert_eq!(sq.piece, PieceType::Empty);
    }
    assert_eq!(b.to_play, Color::White);
    assert_eq!(b.castling, ((false, false), (false, false)));
    assert_eq!(b.en_passant, (false, 0));
    assert_eq!(b.result, GameResult::Active);
}

#[test]
fn start_position_fields() {
    let b = Board::from_fen(START_FEN).unwrap();
    assert_eq!(b.to_play, Color::White);
    assert_eq!(b.castling, ((true, true), (true, true)));
    assert_eq!(b.en_passant, (false, 0));
    assert_eq!(b.halfmove_clock, 0);
    assert_eq!(b.fullmove_number, 1);
    assert_eq!(b.squares[0], Square { color: Color::Black, piece: PieceType::Rook });
    assert_eq!(b.squares[4], Square { color: Color::Black, piece: PieceType::King });
    assert_eq!(b.squares[12], Square { color: Color::Black, piece: PieceType::Pawn });
    assert_eq!(b.squares[27].piece, PieceType::Empty);
    assert_eq!(b.squares[52], Square { color: Color::White, piece: PieceType::Pawn });
    assert_eq!(b.squares[60], Square { color: Color::White, piece: PieceType::King });
    assert_eq!(b.squares[63], Square { color: Color::White, piece: PieceType::Rook });
}

/// Round-trip placement: the index built by the codec equals the index
/// re-derived by a full-board scan.
#[test]
fn round_trip_placement_index() {
    let b = Board::from_fen(START_FEN).unwrap();
    let kinds = [
        PieceType::Pawn,
        PieceType::Rook,
        PieceType::Knight,
        PieceType::Bishop,
        PieceType::Queen,
        PieceType::King,
    ];
    for k in kinds {
        assert_eq!(b.get_table(k), b.search_piece(k));
    }
}

/// Invariant preservation: after every legal move in a played line, the
/// squares and the piece-location index agree exactly.
#[test]
fn index_stays_synchronized_over_legal_moves() {
    let mut b = Board::from_fen(START_FEN).unwrap();
    let kinds = [
        PieceType::Pawn,
        PieceType::Rook,
        PieceType::Knight,
        PieceType::Bishop,
        PieceType::Queen,
        PieceType::King,
    ];
    for _ply in 0..6 {
        let legal = b.get_legal_moves();
        assert!(legal.len() > 0);
        b.apply_move(legal[0]);
        for k in kinds {
            let mut t = b.get_table(k);
            t.sort();
            assert_eq!(t, b.search_piece(k));
        }
    }
}

#[test]
fn from_fen_rejects_bad_notation() {
    assert_eq!(Board::from_fen("").err(), Some(1));
    assert_eq!(Board::from_fen("hello").err(), Some(1));
    // a rank summing to seven squares
    assert_eq!(Board::from_fen("rnbqkbnr/ppppppp/8/8/8/8/PPPPPPPP/RNBQKBNR w KQkq - 0 1").err(), Some(1));
    // only seven ranks
    assert_eq!(Board::from_fen("rnbqkbnr/8/8/8/8/PPPPPPPP/RNBQKBNR w KQkq - 0 1").err(), Some(1));
    // an unrecognized piece letter
    assert_eq!(Board::from_fen("rnbqkbnr/pppppppp/8/8/8/8/PPPPPPPP/RNBQKBNX w KQkq - 0 1").err(), Some(1));
    // a bad side letter
    assert_eq!(Board::from_fen("rnbqkbnr/pppppppp/8/8/8/8/PPPPPPPP/RNBQKBNR x KQkq - 0 1").err(), Some(1));
    // castling letters out of order
    assert_eq!(Board::from_fen("rnbqkbnr/pppppppp/8/8/8/8/PPPPPPPP/RNBQKBNR w QK - 0 1").err(), Some(1));
    // a bad en-passant square
    assert_eq!(Board::from_fen("rnbqkbnr/pppppppp/8/8/8/8/PPPPPPPP/RNBQKBNR w KQkq d9 0 1").err(), Some(1));
    // a non-numeric halfmove clock
    assert_eq!(Board::from_fen("rnbqkbnr/pppppppp/8/8/8/8/PPPPPPPP/RNBQKBNR w KQkq - x 1").err(), Some(1));
    // a halfmove clock beyond the counter's range
    assert_eq!(Board::from_fen("rnbqkbnr/pppppppp/8/8/8/8/PPPPPPPP/RNBQKBNR w KQkq - 99999 1").err(), Some(1));
    // a fullmove number of zero
    assert_eq!(Board::from_fen("rnbqkbnr/pppppppp/8/8/8/8/PPPPPPPP/RNBQKBNR w KQkq - 0 0").err(), Some(1));
    // trailing text after the sixth field
    assert_eq!(Board::from_fen("rnbqkbnr/pppppppp/8/8/8/8/PPPPPPPP/RNBQKBNR w KQkq - 0 1 x").err(), Some(1));
}

#[test]
fn from_fen_accepts_partial_castling_and_en_passant() {
    let b = Board::from_fen("4k3/8/8/8/8/8/8/4K3 b Kq e3 7 42").unwrap();
    assert_eq!(b.to_play, Color::Black);
    assert_eq!(b.castling, ((true, false), (false, true)));
    // e3 decodes to rank 3 from the bottom, file e
    assert_eq!(b.en_passant, (true, 5 * 8 + 4));
    assert_eq!(b.halfmove_clock, 7);
    assert_eq!(b.fullmove_number, 42);
}

#[test]
fn alg_to_index_decodes_files_and_ranks() {
    let b = Board::default();
    assert_eq!(b.alg_to_index("a8"), 0);
    assert_eq!(b.alg_to_index("h8"), 7);
    assert_eq!(b.alg_to_index("d6"), 19);
    assert_eq!(b.alg_to_index("a1"), 56);
    assert_eq!(b.alg_to_index("h1"), 63);
}

#[test]
fn print_board_renders_start_position() {
    let b = Board::from_fen(START_FEN).unwrap();
    let expected = "rnbqkbnr\npppppppp\n........\n........\n........\n........\nPPPPPPPP\nRNBQKBNR\nMove: 1, White to play, ..., Castling: KQkq";
    assert_eq!(b.print_board(), expected);
}

#[test]
fn print_board_renders_empty_board() {
    let b = Board::default();
    let expected = "........\n........\n........\n........\n........\n........\n........\n........\nMove: 0, White to play, ..., Castling: ----";
    assert_eq!(b.print_board(), expected);
}

#[test]
fn apply_move_performs_an_ordinary_capture() {
    // a White rook takes a Black pawn straight up its file
    let mut b = Board::from_fen("4k3/8/3p4/8/8/8/3R4/4K3 w - - 9 5").unwrap();
    b.apply_move(quiet(51, 19));
    assert_eq!(b.squares[51].piece, PieceType::Empty);
    assert_eq!(b.squares[19], Square { color: Color::White, piece: PieceType::Rook });
    // a capture restores the fifty-move budget
    assert_eq!(b.halfmove_clock, 50);
    assert_eq!(b.to_play, Color::Black);
    let mut pawns = b.get_table(PieceType::Pawn);
    pawns.sort();
    assert_eq!(pawns, b.search_piece(PieceType::Pawn));
}

#[test]
fn apply_move_executes_castling() {
    // White castles kingside: the rook crosses to the king's other side
    let mut b = Board::from_fen("4k3/8/8/8/8/8/8/4K2R w K - 20 9").unwrap();
    b.apply_move(MoveOp {
        from: 60,
        to: 62,
        is_enpassant: false,
        is_castle: true,
        set_enpassant: (false, 0),
        promote: PieceType::Empty,
    });
    assert_eq!(b.squares[62], Square { color: Color::White, piece: PieceType::King });
    assert_eq!(b.squares[61], Square { color: Color::White, piece: PieceType::Rook });
    assert_eq!(b.squares[60].piece, PieceType::Empty);
    assert_eq!(b.squares[63].piece, PieceType::Empty);
    assert_eq!(b.castling.0, (false, false));
    let mut rooks = b.get_table(PieceType::Rook);
    rooks.sort();
    assert_eq!(rooks, b.search_piece(PieceType::Rook));
}

#[test]
fn rook_move_off_home_file_clears_one_right() {
    // the kingside rook moves: only the kingside right goes
    let mut b = Board::from_fen("4k3/8/8/8/8/8/8/R3K2R w KQ - 10 7").unwrap();
    b.apply_move(quiet(63, 55));
    assert_eq!(b.castling.0, (false, true));
}

#[test]
fn fifty_move_countdown_reaches_a_draw() {
    // a lone rook shuffle with the countdown at one
    let mut b = Board::from_fen("4k3/8/8/8/8/8/8/R3K3 w - - 1 30").unwrap();
    b.apply_move(quiet(56, 48));
    assert_eq!(b.halfmove_clock, 0);
    assert_eq!(b.result, GameResult::Draw50Moves);
}

#[test]
fn opening_line_renders_exactly() {
    let mut b = Board::from_fen(START_FEN).unwrap();
    for (from, to) in [(52, 36), (12, 28), (62, 45), (1, 18), (61, 25)] {
        b.apply_move(quiet(from, to));
    }
    let expected = "r.bqkbnr\npppp.ppp\n..n.....\n.B..p...\n....P...\n.....N..\nPPPP.PPP\nRNBQK..R\nMove: 3, Black to play, ..., Castling: KQkq";
    assert_eq!(b.print_board(), expected);
    assert_eq!(b.halfmove_clock, 47);
}

#[test]
fn print_board_renders_multi_digit_move_numbers() {
    let b = Board::from_fen("4k3/8/8/8/8/8/8/4K3 w - - 0 12345").unwrap();
    let expected = "....k...\n........\n........\n........\n........\n........\n........\n....K...\nMove: 12345, White to play, ..., Castling: ----";
    assert_eq!(b.print_board(), expected);
}

#[test]
fn default_moveop_is_the_empty_quiet_move() {
    let m = MoveOp::default();
    assert_eq!(m, quiet(0, 0));
    assert_eq!(m.promote, PieceType::Empty);
}
