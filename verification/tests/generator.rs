use chessmoves::{Cache, ChessState, Color, MagicCache, Move, Piece};

#[test]
fn starting_position_has_twenty_moves() {
    let cache = Cache::new();
    let magic = MagicCache::new().unwrap();
    let state = ChessState::default();
    let moves = state.legal_moves(&cache, &magic);
    assert_eq!(moves.len(), 20);
    let pawn_moves = moves.iter().filter(|m| m.piece == Piece::Pawn).count();
    let knight_moves = moves.iter().filter(|m| m.piece == Piece::Knight).count();
    assert_eq!(pawn_moves, 16);
    assert_eq!(knight_moves, 4);
    for m in &moves {
        assert!(m.piece == Piece::Pawn || m.piece == Piece::Knight);
    }
}

#[test]
fn lone_rook_has_fourteen_moves() {
    let cache = Cache::new();
    let magic = MagicCache::new().unwrap();
    let state = ChessState::from_fen("8/8/8/8/3R4/8/8/8 w - - 0 1").unwrap();
    let moves = state.legal_moves(&cache, &magic);
    assert_eq!(moves.len(), 14);
    for m in &moves {
        assert_eq!(m.piece, Piece::Rook);
        assert_eq!(m.origin, 27);
    }
}

#[test]
fn pawn_pushes_and_captures() {
    let cache = Cache::new();
    let magic = MagicCache::new().unwrap();
    // white pawn on e2, black pieces on d3 and f3
    let state = ChessState::from_fen("8/8/8/8/8/3p1p2/4P3/8 w - - 0 1").unwrap();
    let moves = state.legal_moves(&cache, &magic);
    let mut dests: Vec<u32> = moves.iter().map(|m| m.dest).collect();
    dests.sort();
    assert_eq!(moves.len(), 4);
    // e3, e4 and the two captures d3, f3
    assert_eq!(dests, vec![19, 20, 21, 28]);
}

#[test]
fn blocked_pawn_cannot_push() {
    let cache = Cache::new();
    let magic = MagicCache::new().unwrap();
    let state = ChessState::from_fen("8/8/8/8/8/4p3/4P3/8 w - - 0 1").unwrap();
    let moves = state.legal_moves(&cache, &magic);
    assert_eq!(moves.len(), 0);
}

#[test]
fn knight_and_king_tables_are_symmetric() {
    let cache = Cache::new();
    for s in 0..64u32 {
        for t in 0..64u32 {
            assert_eq!(
                cache.knight_moves(s).empty_at(t),
                cache.knight_moves(t).empty_at(s)
            );
            assert_eq!(
                cache.king_moves(s).empty_at(t),
                cache.king_moves(t).empty_at(s)
            );
        }
    }
    // a corner knight leaps to exactly b3 and c2
    assert_eq!(cache.knight_moves(0).get_indices(), vec![10, 17]);
    // a corner king steps to exactly b1, a2 and b2
    assert_eq!(cache.king_moves(0).get_indices(), vec![1, 8, 9]);
}

#[test]
fn apply_move_moves_and_flips_side() {
    let mut state = ChessState::default();
    // e2 to e4
    state.apply_move(Move::new(Piece::Pawn, 12, 28));
    assert_eq!(state.color_at(12), None);
    assert_eq!(state.color_at(28), Some(Color::White));
    assert!(!state.piece_bb[Piece::Pawn.index()].empty_at(28));
    assert!(state.piece_bb[Piece::Pawn.index()].empty_at(12));
    assert_eq!(state.active, Color::Black);
    // untouched squares keep their occupants
    assert_eq!(state.color_at(11), Some(Color::White));
    assert_eq!(state.color_at(52), Some(Color::Black));
    assert!(!state.piece_bb[Piece::Knight.index()].empty_at(1));
}

#[test]
fn apply_move_captures_clear_the_destination() {
    let mut state = ChessState::from_fen("r7/8/8/8/8/8/8/R7 w - - 0 1").unwrap();
    // rook a1 takes a8
    state.apply_move(Move::new(Piece::Rook, 0, 56));
    assert_eq!(state.color_at(56), Some(Color::White));
    assert_eq!(state.color_at(0), None);
    assert!(state.player_bb[Color::Black.index()].is_empty());
    assert_eq!(state.piece_bb[Piece::Rook.index()].get_indices(), vec![56]);
    // every other square is empty
    for s in 1..56u32 {
        assert_eq!(state.color_at(s), None);
    }
}

#[test]
fn generated_moves_apply_cleanly() {
    let cache = Cache::new();
    let magic = MagicCache::new().unwrap();
    let mut state = ChessState::default();
    for _ in 0..6 {
        let moves = state.legal_moves(&cache, &magic);
        assert!(!moves.is_empty());
        let m = moves[0];
        state.apply_move(m);
        assert_eq!(state.color_at(m.dest).is_some(), true);
    }
}
