use chess_core::errors::BoardError;
use chess_core::pieces::{Colour, Piece, PieceType};

#[test]
fn piece_from_char() {
    let piece: Piece = Piece::from_char('K').unwrap();
    assert_eq!(piece.piece_type, PieceType::King);
    assert_eq!(piece.colour, Colour::White);
    let piece: Piece = Piece::from_char('q').unwrap();
    assert_eq!(piece.piece_type, PieceType::Queen);
    assert_eq!(piece.colour, Colour::Black);
    let piece: Piece = Piece::from_char('P').unwrap();
    assert_eq!(piece.piece_type, PieceType::Pawn);
    assert_eq!(piece.colour, Colour::White);
}

#[test]
fn colour_from_str() {
    assert_eq!(Colour::White, Colour::from_str("w").unwrap());
    assert_eq!(Colour::Black, Colour::from_str("b").unwrap());
    assert_eq!(Err(BoardError::ColourError), Colour::from_str("-"));
}

#[test]
fn piece_char_round_trip() {
    for c in ['P', 'B', 'N', 'R', 'Q', 'K', 'p', 'b', 'n', 'r', 'q', 'k'] {
        let piece = Piece::from_char(c).unwrap();
        assert_eq!(piece.to_char(), c);
    }
    assert_eq!(Piece::from_char('x'), Err(BoardError::PieceError));
    assert_eq!(Piece::from_char('1'), Err(BoardError::PieceError));
}

#[test]
fn colour_toggle() {
    let mut c = Colour::White;
    c.change_colour();
    assert_eq!(c, Colour::Black);
    c.change_colour();
    assert_eq!(c, Colour::White);
}

#[test]
fn unicode_symbols() {
    let wp = Piece { piece_type: PieceType::Pawn, colour: Colour::White };
    assert_eq!(wp.unicode_symbol(), "\u{1B}[36m\u{265F}\u{1B}[30m".to_string());
    let bk = Piece { piece_type: PieceType::King, colour: Colour::Black };
    assert_eq!(bk.unicode_symbol(), "\u{1B}[31m\u{2654}\u{1B}[30m".to_string());
}
