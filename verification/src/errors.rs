//! The error taxonomy: every failure of construction, parsing or move
//! legality carries a discriminated kind and, where useful, a message.

use vstd::prelude::*;

verus! {

/// Everything that can go wrong while building a board, parsing text,
/// or validating a move. Construction errors end that attempt; legality
/// errors leave the position unchanged so the same side may resubmit.
#[derive(Debug, PartialEq)]
pub enum BoardError {
    // creation errors
    FenError(String),
    PieceError,
    ParseInt,
    ColourError,
    CastlingRightsError,
    CoordinateError(String),
    MoveError,
    PromotionError,
    // logic errors
    InvalidMove,
    NoLegalMoves,
    WrongColour,
    EmptySquare,
    SelfCheck,
    PgnError,
    UciError,
}

} // verus!
