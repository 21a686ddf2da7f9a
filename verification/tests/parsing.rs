use chessmoves::state::{algebra_to_pos, pos_to_algebra};
use chessmoves::{ChessState, Color, Piece};

#[test]
fn default_matches_parsed_start_position() {
    let d = ChessState::default();
    let p = ChessState::from_fen("rnbqkbnr/pppppppp/8/8/8/8/PPPPPPPP/RNBQKBNR w KQkq - 0 1")
        .unwrap();
    for i in 0..6 {
        assert_eq!(d.piece_bb[i].0, p.piece_bb[i].0);
    }
    for c in 0..2 {
        assert_eq!(d.player_bb[c].0, p.player_bb[c].0);
    }
    assert_eq!(d.active, Color::White);
    assert_eq!(p.active, Color::White);
    assert!(p.castle_ks[0] && p.castle_ks[1] && p.castle_qs[0] && p.castle_qs[1]);
    assert!(p.en_passant.is_none());
    assert_eq!(p.move_rule, 0);
}

#[test]
fn from_fen_reads_all_fields() {
    let st = ChessState::from_fen("8/8/8/8/2k5/8/4K3/8 b - c3 42 7").unwrap();
    assert_eq!(st.active, Color::Black);
    assert!(!st.castle_ks[0] && !st.castle_ks[1] && !st.castle_qs[0] && !st.castle_qs[1]);
    assert_eq!(st.en_passant.unwrap().solo_pos(), 18);
    assert_eq!(st.move_rule, 42);
    assert_eq!(st.color_at(12), Some(Color::White));
    assert_eq!(st.color_at(26), Some(Color::Black));
    assert_eq!(st.color_at(0), None);
}

#[test]
fn from_fen_rejects_malformed_text() {
    assert!(ChessState::from_fen("").is_none());
    assert!(ChessState::from_fen("rnbqkbnr").is_none());
    // bad piece letter
    assert!(ChessState::from_fen("xnbqkbnr/pppppppp/8/8/8/8/PPPPPPPP/RNBQKBNR w KQkq - 0 1")
        .is_none());
    // bad active colour
    assert!(ChessState::from_fen("8/8/8/8/8/8/8/8 x KQkq - 0 1").is_none());
    // bad castling letter
    assert!(ChessState::from_fen("8/8/8/8/8/8/8/8 w Z - 0 1").is_none());
    // bad en-passant square
    assert!(ChessState::from_fen("8/8/8/8/8/8/8/8 w - z9 0 1").is_none());
    // missing halfmove clock
    assert!(ChessState::from_fen("8/8/8/8/8/8/8/8 w - -").is_none());
    assert!(ChessState::from_fen("8/8/8/8/8/8/8/8 w - - x 1").is_none());
    // board counter pushed past the last square
    assert!(ChessState::from_fen("9/8/8/8/8/8/8/9R w - - 0 1").is_none());
}

#[test]
fn algebra_round_trip() {
    assert_eq!(algebra_to_pos('a', '1'), 0);
    assert_eq!(algebra_to_pos('h', '8'), 63);
    assert_eq!(algebra_to_pos('e', '4'), 28);
    for pos in 0..64u32 {
        let name = pos_to_algebra(pos);
        let mut it = name.chars();
        let rank = it.next().unwrap();
        let file = it.next().unwrap();
        assert_eq!(algebra_to_pos(rank, file), pos);
    }
    assert_eq!(pos_to_algebra(0), "a1");
    assert_eq!(pos_to_algebra(28), "e4");
    assert_eq!(pos_to_algebra(63), "h8");
}

#[test]
fn letters_name_pieces_and_colours() {
    assert_eq!(Piece::from_letter('k'), Some(Piece::King));
    assert_eq!(Piece::from_letter('q'), Some(Piece::Queen));
    assert_eq!(Piece::from_letter('n'), Some(Piece::Knight));
    assert_eq!(Piece::from_letter('p'), Some(Piece::Pawn));
    assert_eq!(Piece::from_letter('b'), Some(Piece::Bishop));
    assert_eq!(Piece::from_letter('r'), Some(Piece::Rook));
    assert_eq!(Piece::from_letter('x'), None);
    assert_eq!(Color::from_letter('w'), Some(Color::White));
    assert_eq!(Color::from_letter('b'), Some(Color::Black));
    assert_eq!(Color::from_letter('q'), None);
    assert_eq!(Color::White.opposite(), Color::Black);
    assert_eq!(Color::Black.opposite(), Color::White);
}

#[test]
fn kinds_and_glyphs() {
    let kinds = Piece::kinds();
    assert_eq!(kinds.len(), 6);
    for (i, k) in kinds.iter().enumerate() {
        assert_eq!(k.index(), i);
    }
    assert_eq!(Piece::King.render(Color::White), '\u{2654}');
    assert_eq!(Piece::Pawn.render(Color::Black), '\u{265F}');
}

#[test]
fn lone_rook_text_fixes_every_field() {
    let st = ChessState::from_fen("8/8/8/8/3R4/8/8/8 w - - 0 1").unwrap();
    for i in 0..6 {
        if i == Piece::Rook.index() {
            assert_eq!(st.piece_bb[i].0, 1u64 << 27);
        } else {
            assert_eq!(st.piece_bb[i].0, 0);
        }
    }
    assert_eq!(st.player_bb[Color::White.index()].0, 1u64 << 27);
    assert_eq!(st.player_bb[Color::Black.index()].0, 0);
    assert_eq!(st.active, Color::White);
    assert!(!st.castle_ks[0] && !st.castle_ks[1] && !st.castle_qs[0] && !st.castle_qs[1]);
    assert!(st.en_passant.is_none());
    assert_eq!(st.move_rule, 0);
}

#[test]
fn halfmove_clock_edge_forms() {
    // the clock may end the text without a fullmove field
    let st = ChessState::from_fen("8/8/8/8/8/8/8/8 w - - 7").unwrap();
    assert_eq!(st.move_rule, 7);
    // leading zeros are plain decimal digits
    let st = ChessState::from_fen("8/8/8/8/8/8/8/8 w - - 000000000042 1").unwrap();
    assert_eq!(st.move_rule, 42);
    // a clock beyond the counter's width is rejected
    assert!(ChessState::from_fen("8/8/8/8/8/8/8/8 w - - 4294967296 1").is_none());
}
