//! Pieces and colours, with the bijective FEN-letter codec
//! (uppercase letters are White, lowercase are Black).

use vstd::prelude::*;

use crate::errors::BoardError;

verus! {

#[derive(PartialEq, Eq, Structural, Debug, Clone, Copy)]
pub enum Colour {
    White,
    Black,
}

impl Colour {
    /// The other side.
    pub open spec fn opposite(self) -> Colour {
        match self {
            Colour::White => Colour::Black,
            Colour::Black => Colour::White,
        }
    }

    /// Toggle the colour in place: White becomes Black and Black White.
    pub fn change_colour(&mut self)
        ensures
            *final(self) == old(self).opposite(),
    {
        match self {
            Colour::White => *self = Colour::Black,
            Colour::Black => *self = Colour::White,
        }
    }

    /// What a side-to-move token denotes: only "w" and "b" are colours.
    pub open spec fn spec_of_str(s: Seq<char>) -> Option<Colour> {
        if s.len() == 1 && s[0] == 'w' {
            Some(Colour::White)
        } else if s.len() == 1 && s[0] == 'b' {
            Some(Colour::Black)
        } else {
            None
        }
    }

    /// Parse a side-to-move token.
    pub fn from_str(s: &str) -> (r: Result<Colour, BoardError>)
        ensures
            r is Ok <==> Self::spec_of_str(s@) is Some,
            r is Ok ==> Some(r->Ok_0) == Self::spec_of_str(s@),
            r is Err ==> r->Err_0 == BoardError::ColourError,
    {
        if s.unicode_len() == 1 {
            let c = s.get_char(0);
            if c == 'w' {
                return Ok(Colour::White);
            }
            if c == 'b' {
                return Ok(Colour::Black);
            }
        }
        Err(BoardError::ColourError)
    }

    /// The single character that stands for this colour in a FEN string.
    pub open spec fn fen_char(self) -> char {
        match self {
            Colour::White => 'w',
            Colour::Black => 'b',
        }
    }
}

#[derive(PartialEq, Eq, Structural, Debug, Clone, Copy)]
pub enum PieceType {
    Pawn,
    Bishop,
    Knight,
    Rook,
    Queen,
    King,
}

#[derive(PartialEq, Eq, Structural, Debug, Clone, Copy)]
pub struct Piece {
    pub piece_type: PieceType,
    pub colour: Colour,
}

/// The FEN letter of a piece: uppercase for White, lowercase for Black.
pub open spec fn piece_char(p: Piece) -> char {
    match p.colour {
        Colour::White => match p.piece_type {
            PieceType::Pawn => 'P',
            PieceType::Bishop => 'B',
            PieceType::Knight => 'N',
            PieceType::Rook => 'R',
            PieceType::Queen => 'Q',
            PieceType::King => 'K',
        },
        Colour::Black => match p.piece_type {
            PieceType::Pawn => 'p',
            PieceType::Bishop => 'b',
            PieceType::Knight => 'n',
            PieceType::Rook => 'r',
            PieceType::Queen => 'q',
            PieceType::King => 'k',
        },
    }
}

/// The piece a FEN letter denotes, or None for any other character.
pub open spec fn char_piece(c: char) -> Option<Piece> {
    if c == 'P' {
        Some(Piece { piece_type: PieceType::Pawn, colour: Colour::White })
    } else if c == 'B' {
        Some(Piece { piece_type: PieceType::Bishop, colour: Colour::White })
    } else if c == 'N' {
        Some(Piece { piece_type: PieceType::Knight, colour: Colour::White })
    } else if c == 'R' {
        Some(Piece { piece_type: PieceType::Rook, colour: Colour::White })
    } else if c == 'Q' {
        Some(Piece { piece_type: PieceType::Queen, colour: Colour::White })
    } else if c == 'K' {
        Some(Piece { piece_type: PieceType::King, colour: Colour::White })
    } else if c == 'p' {
        Some(Piece { piece_type: PieceType::Pawn, colour: Colour::Black })
    } else if c == 'b' {
        Some(Piece { piece_type: PieceType::Bishop, colour: Colour::Black })
    } else if c == 'n' {
        Some(Piece { piece_type: PieceType::Knight, colour: Colour::Black })
    } else if c == 'r' {
        Some(Piece { piece_type: PieceType::Rook, colour: Colour::Black })
    } else if c == 'q' {
        Some(Piece { piece_type: PieceType::Queen, colour: Colour::Black })
    } else if c == 'k' {
        Some(Piece { piece_type: PieceType::King, colour: Colour::Black })
    } else {
        None
    }
}

/// The letter codec is a bijection: decoding the letter of any piece
/// gives that piece back, and encoding a decoded letter gives the
/// letter back.
pub proof fn lemma_piece_char_bijective()
    ensures
        forall|p: Piece| #[trigger] char_piece(piece_char(p)) == Some(p),
        forall|c: char| #[trigger] char_piece(c) is Some ==> piece_char(char_piece(c)->0) == c,
{
}

impl Piece {
    /// Decode a FEN letter into a piece.
    pub fn from_char(c: char) -> (r: Result<Piece, BoardError>)
        ensures
            r is Ok <==> char_piece(c) is Some,
            r is Ok ==> Some(r->Ok_0) == char_piece(c),
            r is Err ==> r->Err_0 == BoardError::PieceError,
    {
        match c {
            'P' => Ok(Piece { piece_type: PieceType::Pawn, colour: Colour::White }),
            'B' => Ok(Piece { piece_type: PieceType::Bishop, colour: Colour::White }),
            'N' => Ok(Piece { piece_type: PieceType::Knight, colour: Colour::White }),
            'R' => Ok(Piece { piece_type: PieceType::Rook, colour: Colour::White }),
            'Q' => Ok(Piece { piece_type: PieceType::Queen, colour: Colour::White }),
            'K' => Ok(Piece { piece_type: PieceType::King, colour: Colour::White }),
            'p' => Ok(Piece { piece_type: PieceType::Pawn, colour: Colour::Black }),
            'b' => Ok(Piece { piece_type: PieceType::Bishop, colour: Colour::Black }),
            'n' => Ok(Piece { piece_type: PieceType::Knight, colour: Colour::Black }),
            'r' => Ok(Piece { piece_type: PieceType::Rook, colour: Colour::Black }),
            'q' => Ok(Piece { piece_type: PieceType::Queen, colour: Colour::Black }),
            'k' => Ok(Piece { piece_type: PieceType::King, colour: Colour::Black }),
            _ => Err(BoardError::PieceError),
        }
    }

    /// Encode this piece as its FEN letter.
    pub fn to_char(&self) -> (r: char)
        ensures
            r == piece_char(*self),
    {
        match self.colour {
            Colour::White => match self.piece_type {
                PieceType::Pawn => 'P',
                PieceType::Bishop => 'B',
                PieceType::Knight => 'N',
                PieceType::Rook => 'R',
                PieceType::Queen => 'Q',
                PieceType::King => 'K',
            },
            Colour::Black => match self.piece_type {
                PieceType::Pawn => 'p',
                PieceType::Bishop => 'b',
                PieceType::Knight => 'n',
                PieceType::Rook => 'r',
                PieceType::Queen => 'q',
                PieceType::King => 'k',
            },
        }
    }

    /// The coloured terminal glyph of this piece.
    pub open spec fn spec_unicode_symbol(self) -> Seq<char> {
        match self.colour {
            Colour::White => match self.piece_type {
                PieceType::Pawn => "\u{1B}[36m\u{265F}\u{1B}[30m"@,
                PieceType::Bishop => "\u{1B}[36m\u{265D}\u{1B}[30m"@,
                PieceType::Knight => "\u{1B}[36m\u{265E}\u{1B}[30m"@,
                PieceType::Rook => "\u{1B}[36m\u{265C}\u{1B}[30m"@,
                PieceType::Queen => "\u{1B}[36m\u{265B}\u{1B}[30m"@,
                PieceType::King => "\u{1B}[36m\u{265A}\u{1B}[30m"@,
            },
            Colour::Black => match self.piece_type {
                PieceType::Pawn => "\u{1B}[31m\u{2659}\u{1B}[30m"@,
                PieceType::Bishop => "\u{1B}[31m\u{2657}\u{1B}[30m"@,
                PieceType::Knight => "\u{1B}[31m\u{2658}\u{1B}[30m"@,
                PieceType::Rook => "\u{1B}[31m\u{2656}\u{1B}[30m"@,
                PieceType::Queen => "\u{1B}[31m\u{2655}\u{1B}[30m"@,
                PieceType::King => "\u{1B}[31m\u{2654}\u{1B}[30m"@,
            },
        }
    }

    /// The unicode chess glyph of this piece, wrapped in the colour
    /// escape codes a terminal renderer expects.
    pub fn unicode_symbol(&self) -> (r: String)
        ensures
            r@ == self.spec_unicode_symbol(),
    {
        match self.colour {
            Colour::White => match self.piece_type {
                PieceType::Pawn => String::from_str("\u{1B}[36m\u{265F}\u{1B}[30m"),
                PieceType::Bishop => String::from_str("\u{1B}[36m\u{265D}\u{1B}[30m"),
                PieceType::Knight => String::from_str("\u{1B}[36m\u{265E}\u{1B}[30m"),
                PieceType::Rook => String::from_str("\u{1B}[36m\u{265C}\u{1B}[30m"),
                PieceType::Queen => String::from_str("\u{1B}[36m\u{265B}\u{1B}[30m"),
                PieceType::King => String::from_str("\u{1B}[36m\u{265A}\u{1B}[30m"),
            },
            Colour::Black => match self.piece_type {
                PieceType::Pawn => String::from_str("\u{1B}[31m\u{2659}\u{1B}[30m"),
                PieceType::Bishop => String::from_str("\u{1B}[31m\u{2657}\u{1B}[30m"),
                PieceType::Knight => String::from_str("\u{1B}[31m\u{2658}\u{1B}[30m"),
                PieceType::Rook => String::from_str("\u{1B}[31m\u{2656}\u{1B}[30m"),
                PieceType::Queen => String::from_str("\u{1B}[31m\u{2655}\u{1B}[30m"),
                PieceType::King => String::from_str("\u{1B}[31m\u{2654}\u{1B}[30m"),
            },
        }
    }
}

} // verus!
