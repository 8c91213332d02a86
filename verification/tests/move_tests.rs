use chess_core::board::Board;
use chess_core::coordinate::Coordinate;
use chess_core::errors::BoardError;
use chess_core::move_logic::{
    find_legal_moves, get_knight_legal_moves, get_pawn_legal_moves, Move, MoveType,
};
use chess_core::pieces::{Colour, Piece, PieceType};

#[test]
fn move_from_str() {
    let from = Coordinate::from_str("e3").unwrap();
    let destination = Coordinate::from_str("e4").unwrap();
    let mv = Move {
        from,
        destination,
        promotion: None,
    };
    assert_eq!(mv, Move::from_str("e3e4").unwrap());
    // promotion
    let from = Coordinate::from_str("e7").unwrap();
    let destination = Coordinate::from_str("e8").unwrap();
    let mv = Move {
        from,
        destination,
        promotion: Some(PieceType::Queen),
    };
    assert_eq!(mv, Move::from_str("e7e8q").unwrap());
}

#[test]
fn move_from_str_rejects_bad_tokens() {
    assert_eq!(Move::from_str("e2"), Err(BoardError::MoveError));
    assert_eq!(Move::from_str("e2e4e5"), Err(BoardError::MoveError));
    assert_eq!(Move::from_str("e7e8x"), Err(BoardError::PieceError));
    assert!(matches!(
        Move::from_str("i2e4"),
        Err(BoardError::CoordinateError(_))
    ));
}

fn empty_board() -> Vec<Option<Piece>> {
    let mut squares: Vec<Option<Piece>> = Vec::new();
    for _ in 0..64 {
        squares.push(None);
    }
    squares
}

#[test]
fn knight_on_a1_has_two_targets() {
    // a lone knight on a1: exactly b3 and c2, nothing wrapped
    let mut squares = empty_board();
    squares[0] = Some(Piece {
        piece_type: PieceType::Knight,
        colour: Colour::White,
    });
    let mut legal_moves: Vec<(usize, MoveType)> = Vec::new();
    get_knight_legal_moves(&mut legal_moves, &squares, 0, &Colour::White);
    let mut targets: Vec<usize> = legal_moves.iter().map(|m| m.0).collect();
    targets.sort();
    // c2 is index 10, b3 is index 17
    assert_eq!(targets, vec![10, 17]);
    assert!(legal_moves.iter().all(|m| m.1 == MoveType::Regular));
}

#[test]
fn pawn_double_push_from_home_rank() {
    let mut squares = empty_board();
    // a white pawn on e2
    squares[12] = Some(Piece {
        piece_type: PieceType::Pawn,
        colour: Colour::White,
    });
    let mut legal_moves: Vec<(usize, MoveType)> = Vec::new();
    get_pawn_legal_moves(&mut legal_moves, &squares, 12, &Colour::White, &None);
    let mut moves = legal_moves.clone();
    moves.sort_by_key(|m| m.0);
    assert_eq!(
        moves,
        vec![(20, MoveType::Regular), (28, MoveType::DoublePush(20))]
    );
}

#[test]
fn dispatcher_matches_piece_type() {
    // from the start position the e2 pawn gets exactly its two pushes
    let board = Board::startpos();
    let mut legal_moves: Vec<(usize, MoveType)> = Vec::new();
    find_legal_moves(&board.squares, &mut legal_moves, 12, &None);
    let mut moves = legal_moves.clone();
    moves.sort_by_key(|m| m.0);
    assert_eq!(
        moves,
        vec![(20, MoveType::Regular), (28, MoveType::DoublePush(20))]
    );
    // the b1 knight jumps over the pawn row
    let mut legal_moves: Vec<(usize, MoveType)> = Vec::new();
    find_legal_moves(&board.squares, &mut legal_moves, 1, &None);
    let mut targets: Vec<usize> = legal_moves.iter().map(|m| m.0).collect();
    targets.sort();
    assert_eq!(targets, vec![16, 18]);
}

#[test]
fn validate_move_reports_the_matched_kind() {
    let board = Board::startpos();
    // e2 to e4 is a double push carrying e3 as the new target
    assert_eq!(board.validate_move(12, 28), Ok(MoveType::DoublePush(20)));
    // e2 to e3 is a plain push
    assert_eq!(board.validate_move(12, 20), Ok(MoveType::Regular));
    // e2 to d3 is no pawn move on an empty board corner
    assert_eq!(board.validate_move(12, 19), Err(BoardError::InvalidMove));
}

#[test]
fn pawn_en_passant_target_capture() {
    let mut squares = empty_board();
    // a white pawn on e5, a black pawn on d5 that just double-pushed
    squares[36] = Some(Piece {
        piece_type: PieceType::Pawn,
        colour: Colour::White,
    });
    squares[35] = Some(Piece {
        piece_type: PieceType::Pawn,
        colour: Colour::Black,
    });
    let ep = Some(Coordinate { file: 'd', rank: 6 });
    let mut legal_moves: Vec<(usize, MoveType)> = Vec::new();
    get_pawn_legal_moves(&mut legal_moves, &squares, 36, &Colour::White, &ep);
    // d6 is index 43: the en-passant capture of the pawn on d5 (35)
    assert!(legal_moves.contains(&(43, MoveType::EnPassant(35))));
}
