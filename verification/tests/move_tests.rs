use rust_chess::board::{Board, Color, MoveOp, PieceType, Square, START_FEN};

fn quiet(from: usize, to: usize) -> MoveOp {
    MoveOp {
        from,
        to,
        is_enpassant: false,
        is_castle: false,
        set_enpassant: (false, 0),
        promote: PieceType::Empty,
    }
}

/// Move count at depth 1 from the standard start: exactly 20 legal
/// moves, sixteen pawn moves and four knight moves.
#[test]
fn twenty_legal_moves_from_start() {
    let b = Board::from_fen(START_FEN).unwrap();
    let legal = b.get_legal_moves();
    assert_eq!(legal.len(), 20);
    let pawn_moves = legal
        .iter()
        .filter(|m| b.squares[m.from].piece == PieceType::Pawn)
        .count();
    let knight_moves = legal
        .iter()
        .filter(|m| b.squares[m.from].piece == PieceType::Knight)
        .count();
    assert_eq!(pawn_moves, 16);
    assert_eq!(knight_moves, 4);
}

/// En-passant correctness: the pawn generator offers the capture onto
/// the target square, and applying it removes the passed pawn, not the
/// piece on the destination.
#[test]
fn en_passant_capture_removes_the_passed_pawn() {
    let b = Board::from_fen("4k3/8/8/3pP3/8/8/8/4K3 w - d6 0 1").unwrap();
    let pawn_moves = b.get_pawn_moves();
    let ep = MoveOp {
        from: 28,
        to: 19,
        is_enpassant: true,
        is_castle: false,
        set_enpassant: (false, 0),
        promote: PieceType::Empty,
    };
    assert!(pawn_moves.contains(&ep));
    let after = b.apply_move_nomut(ep);
    assert_eq!(after.squares[19], Square { color: Color::White, piece: PieceType::Pawn });
    assert_eq!(after.squares[27].piece, PieceType::Empty);
    assert_eq!(after.squares[28].piece, PieceType::Empty);
    let mut pawns = after.get_table(PieceType::Pawn);
    pawns.sort();
    assert_eq!(pawns, after.search_piece(PieceType::Pawn));
}

/// Castling rights clearing: any White king move off its home square
/// clears both White castling booleans, even a plain step.
#[test]
fn king_step_clears_both_castling_rights() {
    let mut b = Board::from_fen("4k3/8/8/8/8/8/8/4K2R w KQkq - 3 1").unwrap();
    b.apply_move(quiet(60, 52));
    assert_eq!(b.castling, ((false, false), (true, true)));
    // the king move was no capture and no pawn move: the countdown ticks
    assert_eq!(b.halfmove_clock, 2);
}

/// Fifty-move and turn bookkeeping: a quiet knight move does not reset
/// the halfmove clock; Black's move increments the fullmove number,
/// White's does not.
#[test]
fn bookkeeping_over_two_knight_moves() {
    let mut b = Board::from_fen("n3k3/8/8/8/8/8/8/N3K3 w - - 5 3").unwrap();
    b.apply_move(quiet(56, 41));
    assert_eq!(b.halfmove_clock, 4);
    assert_eq!(b.fullmove_number, 3);
    assert_eq!(b.to_play, Color::Black);
    b.apply_move(quiet(0, 17));
    assert_eq!(b.halfmove_clock, 3);
    assert_eq!(b.fullmove_number, 4);
    assert_eq!(b.to_play, Color::White);
}

/// Sliding-piece edge containment: a rook on the last file produces no
/// rightward move; nothing wraps onto file 0 of the next rank.
#[test]
fn rook_on_last_file_never_wraps() {
    let b = Board::from_fen("7R/8/8/8/8/8/8/K1k5 w - - 5 1").unwrap();
    let moves = b.get_sliding_moves_single(PieceType::Rook, 7);
    assert!(moves.iter().all(|m| m.to != 8));
    // seven squares left along the rank, seven down the file
    assert_eq!(moves.len(), 14);
    for m in &moves {
        assert!(m.to / 8 == 0 || m.to % 8 == 7);
    }
}

#[test]
fn knight_in_the_corner_has_three_jumps() {
    let b = Board::from_fen("4k3/8/8/8/8/8/8/1N2K3 w - - 0 1").unwrap();
    let moves = b.get_knight_moves_single(57);
    let mut targets: Vec<usize> = moves.iter().map(|m| m.to).collect();
    targets.sort();
    assert_eq!(targets, vec![40, 42, 51]);
}

#[test]
fn king_in_the_center_has_eight_steps() {
    let b = Board::from_fen("4k3/8/8/8/3K4/8/8/8 w - - 0 1").unwrap();
    let moves = b.get_king_moves();
    let mut targets: Vec<usize> = moves.iter().map(|m| m.to).collect();
    targets.sort();
    assert_eq!(targets, vec![26, 27, 28, 34, 36, 42, 43, 44]);
}

#[test]
fn sliding_stops_at_blockers_and_takes_enemies() {
    // a White rook with an own pawn above and a Black pawn to the right
    let b = Board::from_fen("4k3/8/8/8/3P4/8/3R2p1/4K3 w - - 0 1").unwrap();
    let moves = b.get_sliding_moves_single(PieceType::Rook, 51);
    let mut targets: Vec<usize> = moves.iter().map(|m| m.to).collect();
    targets.sort();
    // up to the pawn (exclusive), left to the edge, right onto the Black
    // pawn (inclusive), down one
    assert_eq!(targets, vec![43, 48, 49, 50, 52, 53, 54, 59]);
}

#[test]
fn double_advance_sets_the_en_passant_target() {
    let b = Board::from_fen(START_FEN).unwrap();
    let pawn_moves = b.get_pawn_moves();
    let double = MoveOp {
        from: 52,
        to: 36,
        is_enpassant: false,
        is_castle: false,
        set_enpassant: (true, 44),
        promote: PieceType::Empty,
    };
    assert!(pawn_moves.contains(&double));
    let after = b.apply_move_nomut(double);
    assert_eq!(after.en_passant, (true, 44));
    // and the target is cleared again one ply later
    let reply = quiet(12, 20);
    let after2 = after.apply_move_nomut(reply);
    assert_eq!(after2.en_passant, (false, 0));
}

#[test]
fn pawn_capture_targets_only_enemies() {
    let b = Board::from_fen("4k3/8/8/2rq4/3P4/8/8/4K3 w - - 0 1").unwrap();
    let moves = b.get_pawn_moves();
    let mut targets: Vec<usize> = moves.iter().map(|m| m.to).collect();
    targets.sort();
    // the advance square is blocked by the queen straight ahead, and
    // captures go diagonally: only the rook on c5 can be taken
    assert_eq!(targets, vec![26]);
}

/// A pinned piece may not move: its departure would expose the king.
#[test]
fn legality_filter_keeps_the_king_safe() {
    // the White rook on e2 shields its king from the Black rook on e8
    let b = Board::from_fen("4r3/8/8/8/8/8/4R3/4K3 w - - 0 1").unwrap();
    let legal = b.get_legal_moves();
    // the shielding rook may move along the e-file but never off it
    for m in &legal {
        if m.from == 52 {
            assert_eq!(m.to % 8, 4);
        }
    }
    // moving off the file is pseudo-legal but filtered out
    let all = b.get_all_moves();
    assert!(all.iter().any(|m| m.from == 52 && m.to % 8 != 4));
    assert!(legal.iter().any(|m| m.from == 52));
}

#[test]
fn checked_king_must_escape() {
    // the White king stands in check from a rook; only escapes remain
    let b = Board::from_fen("4r3/8/8/8/8/8/8/4K3 w - - 0 1").unwrap();
    let legal = b.get_legal_moves();
    assert!(legal.len() > 0);
    for m in &legal {
        assert_eq!(m.from, 60);
        assert!(m.to % 8 != 4);
    }
}

#[test]
fn apply_move_nomut_leaves_the_original_untouched() {
    let b = Board::from_fen(START_FEN).unwrap();
    let child = b.apply_move_nomut(quiet(52, 36));
    assert_eq!(b.squares[52].piece, PieceType::Pawn);
    assert_eq!(b.squares[36].piece, PieceType::Empty);
    assert_eq!(b.to_play, Color::White);
    assert_eq!(child.squares[36].piece, PieceType::Pawn);
    assert_eq!(child.to_play, Color::Black);
}

#[test]
fn get_table_colored_splits_by_side() {
    let b = Board::from_fen(START_FEN).unwrap();
    let mut white_pawns = b.get_table_colored(PieceType::Pawn, Color::White);
    white_pawns.sort();
    assert_eq!(white_pawns, vec![48, 49, 50, 51, 52, 53, 54, 55]);
    let mut black_pawns = b.get_table_colored(PieceType::Pawn, Color::Black);
    black_pawns.sort();
    assert_eq!(black_pawns, vec![8, 9, 10, 11, 12, 13, 14, 15]);
}

#[test]
fn get_table_index_finds_first_position() {
    let table: Vec<usize> = vec![5, 9, 2, 9];
    assert_eq!(Board::get_table_index(&table, 9), 1);
    assert_eq!(Board::get_table_index(&table, 5), 0);
    assert_eq!(Board::get_table_index(&table, 2), 2);
}

#[test]
fn get_all_moves_covers_every_piece_family() {
    let b = Board::from_fen("4k3/8/8/8/8/8/1PP5/RN1QK3 w - - 0 1").unwrap();
    let all = b.get_all_moves();
    let froms: Vec<usize> = all.iter().map(|m| m.from).collect();
    assert!(froms.contains(&56)); // rook
    assert!(froms.contains(&57)); // knight
    assert!(froms.contains(&59)); // queen
    assert!(froms.contains(&60)); // king
    assert!(froms.contains(&49)); // pawn
}

#[test]
fn get_mut_table_hands_out_the_live_table() {
    let mut b = Board::from_fen(START_FEN).unwrap();
    assert_eq!(b.get_mut_table(PieceType::Pawn).len(), 16);
    assert_eq!(b.get_mut_table(PieceType::King).len(), 2);
    // writing through the handle really changes the index
    let t = b.get_mut_table(PieceType::Queen);
    t.clear();
    assert_eq!(b.get_table(PieceType::Queen), Vec::<usize>::new());
    // a full rebuild restores the synchronized index
    b.populate_map();
    assert_eq!(b.get_table(PieceType::Queen), vec![3, 59]);
}

#[test]
fn bishop_slides_diagonally_only() {
    let b = Board::from_fen("4k3/8/8/8/3B4/8/8/4K3 w - - 0 1").unwrap();
    let moves = b.get_sliding_moves_single(PieceType::Bishop, 35);
    let mut targets: Vec<usize> = moves.iter().map(|m| m.to).collect();
    targets.sort();
    assert_eq!(targets, vec![7, 8, 14, 17, 21, 26, 28, 42, 44, 49, 53, 56, 62]);
    for m in &moves {
        let (fr, fc) = (m.from / 8, m.from % 8);
        let (tr, tc) = (m.to / 8, m.to % 8);
        let dr = fr.abs_diff(tr);
        let dc = fc.abs_diff(tc);
        assert_eq!(dr, dc);
    }
}

#[test]
fn queen_slides_like_rook_and_bishop_together() {
    let b = Board::from_fen("4k3/8/8/8/3Q4/8/8/4K3 w - - 0 1").unwrap();
    let queen = b.get_sliding_moves_single(PieceType::Queen, 35);
    let rook_like = b.get_sliding_moves_single(PieceType::Rook, 35);
    let bishop_like = b.get_sliding_moves_single(PieceType::Bishop, 35);
    assert_eq!(queen.len(), rook_like.len() + bishop_like.len());
    for m in rook_like.iter().chain(bishop_like.iter()) {
        assert!(queen.contains(m));
    }
}

#[test]
fn non_sliding_kinds_yield_no_sliding_moves() {
    let b = Board::from_fen(START_FEN).unwrap();
    assert_eq!(b.get_sliding_moves_single(PieceType::Pawn, 52), Vec::<MoveOp>::new());
    assert_eq!(b.get_sliding_moves_single(PieceType::Knight, 57), Vec::<MoveOp>::new());
}
