use chess_core::board::{Board, CastlingRights};
use chess_core::errors::BoardError;
use chess_core::move_logic::in_check;
use chess_core::pieces::Colour;

#[test]
fn castling_rights_from_str() {
    let from_str = CastlingRights::from_str("KQkq").unwrap();
    let castling_rights = CastlingRights {
        k_w: true,
        q_w: true,
        k_b: true,
        q_b: true,
    };
    assert_eq!(from_str, castling_rights);

    let from_str = CastlingRights::from_str("Qq").unwrap();
    let castling_rights = CastlingRights {
        k_w: false,
        q_w: true,
        k_b: false,
        q_b: true,
    };
    assert_eq!(from_str, castling_rights);
}

#[test]
fn fen_export() {
    let fen_vec: Vec<String> = vec![
        "rnbqkbnr/pppppppp/8/8/8/8/PPPPPPPP/RNBQKBNR w KQkq - 0 1".to_string(),
        "rnbqkbnr/pp1ppppp/8/2p5/4P3/8/PPPP1PPP/RNBQKBNR w KQkq c6 0 2".to_string(),
        "rn2kb1r/ppp1pppp/8/8/4q3/3P1N1b/PPP1BPnP/RNBQ1K1R b kq - 0 1".to_string(),
    ];
    for fen in fen_vec {
        let board = Board::new(fen.clone()).unwrap();
        assert_eq!(fen, board.export_fen().unwrap());
    }
}

#[test]
fn startpos_exports_the_standard_fen() {
    let board = Board::startpos();
    assert_eq!(
        board.export_fen().unwrap(),
        "rnbqkbnr/pppppppp/8/8/8/8/PPPPPPPP/RNBQKBNR w KQkq - 0 1"
    );
}

#[test]
fn double_push_sets_en_passant_target() {
    // from the start position, e2e4 sets the en-passant target to e3
    let mut board = Board::startpos();
    board.play_move("e2e4").unwrap();
    assert_eq!(
        board.export_fen().unwrap(),
        "rnbqkbnr/pppppppp/8/8/4P3/8/PPPP1PPP/RNBQKBNR b KQkq e3 0 1"
    );
    // any subsequent unrelated move clears it again
    board.play_move("b8c6").unwrap();
    assert_eq!(
        board.export_fen().unwrap(),
        "r1bqkbnr/pppppppp/2n5/8/4P3/8/PPPP1PPP/RNBQKBNR w KQkq - 0 1"
    );
}

#[test]
fn en_passant_capture_clears_both_squares() {
    let mut board =
        Board::new_from_fen("4k3/3p4/8/4P3/8/8/8/4K3 b KQkq - 0 1").unwrap();
    board.play_move("d7d5").unwrap();
    assert_eq!(
        board.export_fen().unwrap(),
        "4k3/8/8/3pP3/8/8/8/4K3 w KQkq d6 0 1"
    );
    // the capture clears the target square's pawn and the en-passant target
    board.play_move("e5d6").unwrap();
    assert_eq!(
        board.export_fen().unwrap(),
        "4k3/8/3P4/8/8/8/8/4K3 b KQkq - 0 1"
    );
}

#[test]
fn illegal_moves_are_rejected_with_their_kinds() {
    let mut board = Board::startpos();
    // an empty origin square
    assert_eq!(board.play_move("e3e4"), Err(BoardError::EmptySquare));
    // the opponent's piece
    assert_eq!(board.play_move("e7e5"), Err(BoardError::WrongColour));
    // a destination the piece cannot reach
    assert_eq!(board.play_move("e2e5"), Err(BoardError::InvalidMove));
    // a piece with no pseudo-legal moves at all
    assert_eq!(board.play_move("a1a3"), Err(BoardError::NoLegalMoves));
    // the position is unchanged throughout
    assert_eq!(
        board.export_fen().unwrap(),
        "rnbqkbnr/pppppppp/8/8/8/8/PPPPPPPP/RNBQKBNR w KQkq - 0 1"
    );
}

#[test]
fn self_check_is_rejected() {
    // the knight on e4 screens the white king from the black rook
    let mut board =
        Board::new_from_fen("4r3/8/8/8/4N3/8/8/4K3 w KQkq - 0 1").unwrap();
    assert_eq!(board.play_move("e4c3"), Err(BoardError::SelfCheck));
    // stepping the king aside is fine
    assert!(board.play_move("e1d1").is_ok());
}

#[test]
fn promotion_needs_its_piece() {
    let mut board = Board::new_from_fen("4k3/P7/8/8/8/8/8/4K3 w KQkq - 0 1").unwrap();
    assert_eq!(board.play_move("a7a8"), Err(BoardError::PromotionError));
    board.play_move("a7a8q").unwrap();
    assert_eq!(
        board.export_fen().unwrap(),
        "Q3k3/8/8/8/8/8/8/4K3 b KQkq - 0 1"
    );
}

#[test]
fn check_detection() {
    // a lone white king on e1 and a black rook on e8: check
    let board = Board::new_from_fen("4r3/8/8/8/8/8/8/4K3 w KQkq - 0 1").unwrap();
    assert!(in_check(&Colour::White, &board.squares));
    // the rook on a8 instead: no check
    let board = Board::new_from_fen("r7/8/8/8/8/8/8/4K3 w KQkq - 0 1").unwrap();
    assert!(!in_check(&Colour::White, &board.squares));
}

#[test]
fn malformed_fen_is_rejected() {
    // a rank that does not sum to eight squares
    assert!(matches!(
        Board::new_from_fen("rnbqkbnr/ppppppp/8/8/8/8/PPPPPPPP/RNBQKBNR w KQkq - 0 1"),
        Err(BoardError::FenError(_))
    ));
    // a letter that is no piece
    assert_eq!(
        Board::new_from_fen("rnbqkbnr/ppppxppp/8/8/8/8/PPPPPPPP/RNBQKBNR w KQkq - 0 1")
            .err(),
        Some(BoardError::PieceError)
    );
    // an invalid colour token
    assert_eq!(
        Board::new_from_fen("rnbqkbnr/pppppppp/8/8/8/8/PPPPPPPP/RNBQKBNR x KQkq - 0 1")
            .err(),
        Some(BoardError::ColourError)
    );
    // an invalid castling-rights letter
    assert_eq!(
        Board::new_from_fen("rnbqkbnr/pppppppp/8/8/8/8/PPPPPPPP/RNBQKBNR w KQxq - 0 1")
            .err(),
        Some(BoardError::CastlingRightsError)
    );
    // an invalid en-passant square
    assert!(matches!(
        Board::new_from_fen("rnbqkbnr/pppppppp/8/8/8/8/PPPPPPPP/RNBQKBNR w KQkq i9 0 1"),
        Err(BoardError::CoordinateError(_))
    ));
    // a non-numeric counter
    assert_eq!(
        Board::new_from_fen("rnbqkbnr/pppppppp/8/8/8/8/PPPPPPPP/RNBQKBNR w KQkq - x 1")
            .err(),
        Some(BoardError::ParseInt)
    );
    // a seventh field
    assert!(matches!(
        Board::new_from_fen("rnbqkbnr/pppppppp/8/8/8/8/PPPPPPPP/RNBQKBNR w KQkq - 0 1 extra"),
        Err(BoardError::FenError(_))
    ));
    // too few fields
    assert!(matches!(
        Board::new_from_fen("rnbqkbnr/pppppppp/8/8/8/8/PPPPPPPP/RNBQKBNR w KQkq"),
        Err(BoardError::FenError(_))
    ));
}

#[test]
fn empty_board_and_large_counters_round_trip() {
    // an empty board is a legal position for the codec
    let fen = "8/8/8/8/8/8/8/8 w K - 0 1".to_string();
    let board = Board::new(fen.clone()).unwrap();
    assert_eq!(fen, board.export_fen().unwrap());
    // counters up to the machine word survive the round trip
    let fen = format!(
        "rnbqkbnr/pppppppp/8/8/8/8/PPPPPPPP/RNBQKBNR w KQkq - {} 1",
        usize::MAX
    );
    let board = Board::new(fen.clone()).unwrap();
    assert_eq!(fen, board.export_fen().unwrap());
    // one past the machine word is rejected as an integer failure
    let fen = format!(
        "rnbqkbnr/pppppppp/8/8/8/8/PPPPPPPP/RNBQKBNR w KQkq - {}9 1",
        usize::MAX
    );
    assert_eq!(Board::new(fen).err(), Some(BoardError::ParseInt));
}

#[test]
fn scholars_mate_line_plays_out() {
    let mut board = Board::startpos();
    for mv in ["e2e4", "e7e5", "f1c4", "b8c6", "d1h5", "g8f6"] {
        board.play_move(mv).unwrap();
    }
    board.play_move("h5f7").unwrap();
    // the black king is now in check from the queen on f7
    assert!(in_check(&Colour::Black, &board.squares));
}
