//! The position model: a 64-slot board with side to move, castling
//! rights, en-passant target and move counters, constructed from FEN
//! text, exported back to FEN text, and mutated one validated ply at a
//! time.

use vstd::prelude::*;

use crate::coordinate::{coord_of_index, Coordinate};
use crate::errors::BoardError;
use crate::move_logic::{
    ep_index, find_legal_moves, has_king, in_check, in_check_spec, is_king_at, piece_move_kind,
    sq_wf, Move, MoveType,
};
use crate::pieces::{Colour, Piece, PieceType};

verus! {

/// The four independent castling-rights flags. No move-history
/// tracking stands behind them: they are carried, not yet maintained.
#[derive(Debug, PartialEq, Eq, Structural, Clone, Copy)]
pub struct CastlingRights {
    // white side
    pub k_w: bool,
    pub q_w: bool,
    // black side
    pub k_b: bool,
    pub q_b: bool,
}

/// True of the four castling-rights letters.
pub open spec fn is_castling_char(c: char) -> bool {
    c == 'K' || c == 'Q' || c == 'k' || c == 'q'
}

/// A castling-rights token is any subset of {K,Q,k,q}, order
/// insensitive, at most four characters.
pub open spec fn castling_ok(s: Seq<char>) -> bool {
    s.len() <= 4 && forall|j: int| 0 <= j < s.len() ==> is_castling_char(#[trigger] s[j])
}

/// The flags a castling-rights token denotes.
pub open spec fn castling_of(s: Seq<char>) -> CastlingRights {
    CastlingRights {
        k_w: s.contains('K'),
        q_w: s.contains('Q'),
        k_b: s.contains('k'),
        q_b: s.contains('q'),
    }
}

impl CastlingRights {
    /// Parse a castling-rights token: each letter sets its flag, any
    /// other character or a length over four fails.
    pub fn from_str(s: &str) -> (r: Result<CastlingRights, BoardError>)
        ensures
            r is Ok <==> castling_ok(s@),
            r is Ok ==> r->Ok_0 == castling_of(s@),
            r is Err ==> r->Err_0 == BoardError::CastlingRightsError,
    {
        let len = s.unicode_len();
        if len > 4 {
            return Err(BoardError::CastlingRightsError);
        }
        let mut k_w = false;
        let mut q_w = false;
        let mut k_b = false;
        let mut q_b = false;
        let mut i: usize = 0;
        while i < len
            invariant
                i <= len,
                len == s@.len(),
                forall|j: int| 0 <= j < i ==> is_castling_char(#[trigger] s@[j]),
                k_w == s@.subrange(0, i as int).contains('K'),
                q_w == s@.subrange(0, i as int).contains('Q'),
                k_b == s@.subrange(0, i as int).contains('k'),
                q_b == s@.subrange(0, i as int).contains('q'),
            decreases len - i,
        {
            let ghost pre = s@.subrange(0, i as int);
            let c = s.get_char(i);
            match c {
                'K' => k_w = true,
                'Q' => q_w = true,
                'k' => k_b = true,
                'q' => q_b = true,
                _ => {
                    return Err(BoardError::CastlingRightsError);
                },
            }
            i += 1;
            proof {
                assert(s@.subrange(0, i as int) =~= pre.push(c));
                assert forall|x: char| #[trigger] s@.subrange(0, i as int).contains(x) implies pre.contains(x) || c == x by {
                    let w = choose|j: int|
                        0 <= j < s@.subrange(0, i as int).len() && s@.subrange(0, i as int)[j] == x;
                    if w < pre.len() {
                        assert(pre[w] == x);
                    }
                };
                assert forall|x: char| pre.contains(x) implies s@.subrange(0, i as int).contains(
                    x,
                ) by {
                    let w = choose|j: int| 0 <= j < pre.len() && pre[j] == x;
                    assert(s@.subrange(0, i as int)[w] == x);
                };
                assert(pre.push(c).contains(c)) by {
                    assert(pre.push(c)[pre.len() as int] == c);
                };
            }
        }
        proof {
            assert(s@.subrange(0, len as int) =~= s@);
        }
        Ok(CastlingRights { k_w, q_w, k_b, q_b })
    }
}

/// The position: board squares (a1 is index 0, h8 is 63), side to
/// move, castling rights, en-passant target (valid for exactly one
/// ply), and the half-move clock and full-move number, which are
/// carried through unchanged by the applicator.
pub struct Board {
    pub squares: Vec<Option<Piece>>,
    pub active_colour: Colour,
    pub castling_rights: CastlingRights,
    pub en_passant_target_square: Option<Coordinate>,
    pub half_move_clock: usize,
    pub full_move_number: usize,
}

/// Two positions hold exactly the same state.
pub open spec fn same_state(a: Board, b: Board) -> bool {
    a.squares@ == b.squares@ && a.active_colour == b.active_colour && a.castling_rights
        == b.castling_rights && a.en_passant_target_square == b.en_passant_target_square
        && a.half_move_clock == b.half_move_clock && a.full_move_number == b.full_move_number
}

/// The full contract of one ply transition. Every failing step leaves
/// the position exactly as it was; the successful path commits the
/// move, maintains the en-passant target (set by a double push,
/// cleared by anything else), clears the en-passant-captured pawn, and
/// toggles the side to move. Castling rights and the two counters are
/// carried through unchanged.
pub open spec fn process_move_post(pre: Board, post: Board, mv: Move, r: Result<
    (),
    BoardError,
>) -> bool {
    let i0 = mv.from.index_spec();
    let i = mv.destination.index_spec();
    let sq = pre.squares@;
    let ep = ep_index(pre.en_passant_target_square);
    let ac = pre.active_colour;
    if sq[i0] is None {
        r == Err::<(), BoardError>(BoardError::EmptySquare) && same_state(pre, post)
    } else if sq[i0]->0.colour != ac {
        r == Err::<(), BoardError>(BoardError::WrongColour) && same_state(pre, post)
    } else {
        match piece_move_kind(sq, i0, ep, i) {
            None => (if (forall|t: int|
                0 <= t < 64 ==> #[trigger] piece_move_kind(sq, i0, ep, t) is None) {
                r == Err::<(), BoardError>(BoardError::NoLegalMoves)
            } else {
                r == Err::<(), BoardError>(BoardError::InvalidMove)
            }) && same_state(pre, post),
            Some(k) => {
                if (k is PromotionPush || k is PromotionCapture) && mv.promotion is None {
                    r == Err::<(), BoardError>(BoardError::PromotionError) && same_state(pre, post)
                } else {
                    let piece = (if k is PromotionPush || k is PromotionCapture {
                        Piece { piece_type: mv.promotion->0, colour: ac }
                    } else {
                        sq[i0]->0
                    });
                    let sim = sq.update(i, Some(piece)).update(i0, None);
                    if in_check_spec(ac, sim) {
                        r == Err::<(), BoardError>(BoardError::SelfCheck) && same_state(pre, post)
                    } else {
                        r == Ok::<(), BoardError>(()) && post.squares@ == (match k {
                            MoveType::EnPassant(cap) => sim.update(cap as int, None),
                            _ => sim,
                        }) && post.en_passant_target_square == (match k {
                            MoveType::DoublePush(t) => Some(coord_of_index(t as int)),
                            _ => None::<Coordinate>,
                        }) && post.active_colour == ac.opposite() && post.castling_rights
                            == pre.castling_rights && post.half_move_clock == pre.half_move_clock
                            && post.full_move_number == pre.full_move_number
                    }
                }
            },
        }
    }
}

/// The payloads a generated move kind can carry are always square
/// indices: a double push stores the skipped square, an en-passant
/// capture the captured pawn's square.
proof fn lemma_kind_payload_bounds(
    sq: Seq<Option<Piece>>,
    i0: int,
    ep: Option<int>,
    i: int,
    k: MoveType,
)
    requires
        sq_wf(sq),
        0 <= i0 < 64,
        0 <= i < 64,
        piece_move_kind(sq, i0, ep, i) == Some(k),
    ensures
        k matches MoveType::DoublePush(t) ==> t < 64,
        k matches MoveType::EnPassant(cap) ==> cap < 64,
        !(k is CastleKingSide),
        !(k is CastleQueenSide),
{
    match sq[i0]->0.piece_type {
        PieceType::Pawn => {},
        PieceType::Knight => {},
        PieceType::Bishop => {},
        PieceType::Rook => {},
        PieceType::Queen => {},
        PieceType::King => {},
    }
}

/// Moving one of `c`'s own pieces never removes `c`'s king from the
/// board: either the king itself moves, or it stands untouched.
proof fn lemma_king_survives(
    sq: Seq<Option<Piece>>,
    i0: int,
    i: int,
    ep: Option<int>,
    k: MoveType,
    piece: Piece,
    c: Colour,
)
    requires
        sq_wf(sq),
        0 <= i0 < 64,
        0 <= i < 64,
        sq[i0] matches Some(p) && p.colour == c,
        piece_move_kind(sq, i0, ep, i) == Some(k),
        has_king(sq, c),
        piece.colour == c,
        sq[i0]->0.piece_type == PieceType::King ==> piece == sq[i0]->0,
    ensures
        has_king(sq.update(i, Some(piece)).update(i0, None), c),
{
    let sim = sq.update(i, Some(piece)).update(i0, None);
    let k0 = choose|j: int| 0 <= j < 64 && is_king_at(sq, j, c);
    if k0 == i0 {
        // the mover is the king itself: it stands on the destination
        assert(sq[i0]->0.piece_type == PieceType::King);
        assert(i != i0);
        assert(is_king_at(sim, i, c));
    } else {
        // the king stands elsewhere; its square cannot be the
        // destination, which holds no piece of c's own colour
        assert(k0 != i) by {
            if k0 == i {
                match sq[i0]->0.piece_type {
                    PieceType::Pawn => {},
                    PieceType::Knight => {},
                    PieceType::Bishop => {},
                    PieceType::Rook => {},
                    PieceType::Queen => {},
                    PieceType::King => {},
                }
            }
        };
        assert(is_king_at(sim, k0, c));
    }
}

/// A white piece of the given type, as a square holds it.
pub open spec fn white_sq(t: PieceType) -> Option<Piece> {
    Some(Piece { piece_type: t, colour: Colour::White })
}

/// A black piece of the given type, as a square holds it.
pub open spec fn black_sq(t: PieceType) -> Option<Piece> {
    Some(Piece { piece_type: t, colour: Colour::Black })
}

/// The squares of the standard starting position, rank 1 to rank 8.
pub open spec fn startpos_squares() -> Seq<Option<Piece>> {
    seq![
        white_sq(PieceType::Rook),
        white_sq(PieceType::Knight),
        white_sq(PieceType::Bishop),
        white_sq(PieceType::Queen),
        white_sq(PieceType::King),
        white_sq(PieceType::Bishop),
        white_sq(PieceType::Knight),
        white_sq(PieceType::Rook),
    ] + Seq::new(8, |j: int| white_sq(PieceType::Pawn)) + Seq::new(32, |j: int| None::<Piece>)
        + Seq::new(8, |j: int| black_sq(PieceType::Pawn)) + seq![
        black_sq(PieceType::Rook),
        black_sq(PieceType::Knight),
        black_sq(PieceType::Bishop),
        black_sq(PieceType::Queen),
        black_sq(PieceType::King),
        black_sq(PieceType::Bishop),
        black_sq(PieceType::Knight),
        black_sq(PieceType::Rook),
    ]
}

impl Board {
    /// The standard starting position: the full back ranks and pawn
    /// rows, White to move, all castling rights, no en-passant
    /// target, a fresh half-move clock and full-move number 1.
    pub fn startpos() -> (r: Board)
        ensures
            r.wf(),
            r.squares@ == startpos_squares(),
            r.active_colour == Colour::White,
            r.castling_rights == (CastlingRights { k_w: true, q_w: true, k_b: true, q_b: true }),
            r.en_passant_target_square is None,
            r.half_move_clock == 0,
            r.full_move_number == 1,
    {
        let wr = Some(Piece { piece_type: PieceType::Rook, colour: Colour::White });
        let wn = Some(Piece { piece_type: PieceType::Knight, colour: Colour::White });
        let wb = Some(Piece { piece_type: PieceType::Bishop, colour: Colour::White });
        let wq = Some(Piece { piece_type: PieceType::Queen, colour: Colour::White });
        let wk = Some(Piece { piece_type: PieceType::King, colour: Colour::White });
        let wp = Some(Piece { piece_type: PieceType::Pawn, colour: Colour::White });
        let br = Some(Piece { piece_type: PieceType::Rook, colour: Colour::Black });
        let bn = Some(Piece { piece_type: PieceType::Knight, colour: Colour::Black });
        let bb = Some(Piece { piece_type: PieceType::Bishop, colour: Colour::Black });
        let bq = Some(Piece { piece_type: PieceType::Queen, colour: Colour::Black });
        let bk = Some(Piece { piece_type: PieceType::King, colour: Colour::Black });
        let bp = Some(Piece { piece_type: PieceType::Pawn, colour: Colour::Black });
        let ee: Option<Piece> = None;
        let squares: Vec<Option<Piece>> = vec![
            wr, wn, wb, wq, wk, wb, wn, wr,
            wp, wp, wp, wp, wp, wp, wp, wp,
            ee, ee, ee, ee, ee, ee, ee, ee,
            ee, ee, ee, ee, ee, ee, ee, ee,
            ee, ee, ee, ee, ee, ee, ee, ee,
            ee, ee, ee, ee, ee, ee, ee, ee,
            bp, bp, bp, bp, bp, bp, bp, bp,
            br, bn, bb, bq, bk, bb, bn, br,
        ];
        proof {
            assert(squares@ =~= startpos_squares());
        }
        Board {
            squares,
            active_colour: Colour::White,
            castling_rights: CastlingRights { k_w: true, q_w: true, k_b: true, q_b: true },
            en_passant_target_square: None,
            half_move_clock: 0,
            full_move_number: 1,
        }
    }

    /// The position is well formed: one slot per square, and any
    /// en-passant target names a real square.
    pub open spec fn wf(self) -> bool {
        self.squares@.len() == 64 && (self.en_passant_target_square matches Some(c) ==> c.valid())
    }

    /// Check one candidate ply without touching the board: resolve the
    /// piece on the origin, its colour, and whether the destination is
    /// among its pseudo-legal moves; return the matched move kind.
    pub fn validate_move(&self, i0: usize, i: usize) -> (r: Result<MoveType, BoardError>)
        requires
            self.wf(),
            i0 < 64,
            i < 64,
        ensures
            self.squares@[i0 as int] is None ==> r == Err::<MoveType, BoardError>(
                BoardError::EmptySquare,
            ),
            (self.squares@[i0 as int] matches Some(p) && p.colour != self.active_colour) ==> r
                == Err::<MoveType, BoardError>(BoardError::WrongColour),
            (self.squares@[i0 as int] matches Some(p) && p.colour == self.active_colour) ==> (
            match piece_move_kind(
                self.squares@,
                i0 as int,
                ep_index(self.en_passant_target_square),
                i as int,
            ) {
                Some(k) => r == Ok::<MoveType, BoardError>(k),
                None => (if (forall|t: int|
                    0 <= t < 64 ==> #[trigger] piece_move_kind(
                        self.squares@,
                        i0 as int,
                        ep_index(self.en_passant_target_square),
                        t,
                    ) is None) {
                    r == Err::<MoveType, BoardError>(BoardError::NoLegalMoves)
                } else {
                    r == Err::<MoveType, BoardError>(BoardError::InvalidMove)
                }),
            }),
    {
        // the origin must hold a piece of the active colour
        let piece = match self.squares[i0] {
            Some(p) => p,
            None => {
                return Err(BoardError::EmptySquare);
            },
        };
        if piece.colour != self.active_colour {
            return Err(BoardError::WrongColour);
        }
        // enumerate the pseudo-legal moves from the origin
        let mut legal_moves: Vec<(usize, MoveType)> = Vec::new();
        find_legal_moves(&self.squares, &mut legal_moves, i0, &self.en_passant_target_square);
        if legal_moves.len() == 0 {
            proof {
                assert forall|t: int| 0 <= t < 64 implies !(#[trigger] piece_move_kind(
                    self.squares@,
                    i0 as int,
                    ep_index(self.en_passant_target_square),
                    t,
                ) is Some) by {
                    if piece_move_kind(
                        self.squares@,
                        i0 as int,
                        ep_index(self.en_passant_target_square),
                        t,
                    ) is Some {
                        let y0 = choose|y: int|
                            0 <= y < legal_moves@.len() && (#[trigger] legal_moves@[y]).0 == t;
                        assert(false);
                    }
                };
            }
            return Err(BoardError::NoLegalMoves);
        }
        // look for the destination among them
        let mut j: usize = 0;
        while j < legal_moves.len()
            invariant
                j <= legal_moves@.len(),
                self.wf(),
                i0 < 64,
                i < 64,
                self.squares@[i0 as int] is Some,
                self.squares@[i0 as int]->0.colour == self.active_colour,
                forall|y: int|
                    #![trigger legal_moves@[y]]
                    0 <= y < legal_moves@.len() ==> legal_moves@[y].0 < 64 && piece_move_kind(
                        self.squares@,
                        i0 as int,
                        ep_index(self.en_passant_target_square),
                        legal_moves@[y].0 as int,
                    ) == Some(legal_moves@[y].1),
                forall|t: int|
                    0 <= t < 64 && #[trigger] piece_move_kind(
                        self.squares@,
                        i0 as int,
                        ep_index(self.en_passant_target_square),
                        t,
                    ) is Some ==> exists|y: int|
                        #![trigger legal_moves@[y]]
                        0 <= y < legal_moves@.len() && legal_moves@[y].0 == t,
                forall|y: int| 0 <= y < j ==> (#[trigger] legal_moves@[y]).0 != i,
                legal_moves@.len() > 0,
            decreases legal_moves@.len() - j,
        {
            if legal_moves[j].0 == i {
                return Ok(legal_moves[j].1);
            }
            j += 1;
        }
        proof {
            if piece_move_kind(
                self.squares@,
                i0 as int,
                ep_index(self.en_passant_target_square),
                i as int,
            ) is Some {
                let y0 = choose|y: int|
                    0 <= y < legal_moves@.len() && (#[trigger] legal_moves@[y]).0 == i as int;
                assert(false);
            }
            assert(piece_move_kind(
                self.squares@,
                i0 as int,
                ep_index(self.en_passant_target_square),
                legal_moves@[0].0 as int,
            ) is Some);
        }
        Err(BoardError::InvalidMove)
    }

    /// Apply one ply: validate it, simulate it on a scratch copy of
    /// the squares, reject it when it would leave the mover's own king
    /// in check, and only then commit it to the live board. No failing
    /// path mutates anything.
    pub fn process_move(&mut self, mv: &Move) -> (r: Result<(), BoardError>)
        requires
            old(self).wf(),
            mv.from.valid(),
            mv.destination.valid(),
            has_king(old(self).squares@, old(self).active_colour),
        ensures
            process_move_post(*old(self), *final(self), *mv, r),
            final(self).wf(),
            r is Err ==> same_state(*old(self), *final(self)),
    {
        let i0 = mv.from.to_index();
        let i = mv.destination.to_index();
        let move_type = match self.validate_move(i0, i) {
            Ok(m) => m,
            Err(e) => {
                return Err(e);
            },
        };
        proof {
            lemma_kind_payload_bounds(
                self.squares@,
                i0 as int,
                ep_index(self.en_passant_target_square),
                i as int,
                move_type,
            );
        }
        // the piece to place: a freshly built one on promotion, else
        // the piece standing on the origin
        let piece = match move_type {
            MoveType::PromotionPush | MoveType::PromotionCapture => match mv.promotion {
                Some(piece_type) => Piece { piece_type, colour: self.active_colour },
                None => {
                    return Err(BoardError::PromotionError);
                },
            },
            _ => self.squares[i0].unwrap(),
        };
        // simulate on a scratch copy and test the mover's own king
        let mut squares_copy = self.squares.clone();
        proof {
            assert(squares_copy@ =~= self.squares@);
        }
        squares_copy.set(i, Some(piece));
        squares_copy.set(i0, None);
        proof {
            lemma_king_survives(
                self.squares@,
                i0 as int,
                i as int,
                ep_index(self.en_passant_target_square),
                move_type,
                piece,
                self.active_colour,
            );
        }
        if in_check(&self.active_colour, &squares_copy) {
            return Err(BoardError::SelfCheck);
        }
        // the move is sound: commit it to the live board
        self.squares.set(i, Some(piece));
        self.squares.set(i0, None);
        match move_type {
            MoveType::DoublePush(target) => {
                self.en_passant_target_square = Some(Coordinate::from_index(target));
            },
            MoveType::EnPassant(captured) => {
                self.squares.set(captured, None);
                self.en_passant_target_square = None;
            },
            _ => {
                self.en_passant_target_square = None;
            },
        }
        self.active_colour.change_colour();
        Ok(())
    }

    /// Apply one ply given as UCI move text: parse it, then process
    /// it as [`Board::process_move`] does. A parse failure returns
    /// its error with the position untouched.
    pub fn play_move(&mut self, move_text: &str) -> (r: Result<(), BoardError>)
        requires
            old(self).wf(),
            has_king(old(self).squares@, old(self).active_colour),
        ensures
            final(self).wf(),
            match Move::spec_of_str(move_text@) {
                Some(mv) => process_move_post(*old(self), *final(self), mv, r),
                None => r is Err && same_state(*old(self), *final(self)),
            },
    {
        let mv = match Move::from_str(move_text) {
            Ok(m) => m,
            Err(e) => {
                return Err(e);
            },
        };
        proof {
            assert(mv.from.valid());
            assert(mv.destination.valid());
        }
        self.process_move(&mv)
    }
}

} // verus!
